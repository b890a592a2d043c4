//! Finding a live connection for an agent's identity and leasing it. The
//! hinted connection is preferred; when the candidate vanishes between the
//! lookup and the lease (or its handle is gone), the search looks once
//! more, excluding that connection.

use vstd::prelude::*;
use crate::text::str_eq;

verus! {

/// What the search asks its driver to do next.
pub enum LeaseAction {
    /// Look up a live connection of the identity, preferring this one.
    Find { preferred: Option<String> },
    /// Take a lease on this connection.
    TakeLease(String),
    /// Fetch this connection's handle.
    FetchHandle(String),
    /// Release the lease on this connection, then look up again.
    ReleaseAndFind(String),
    /// Release the lease on this connection; there is no connection.
    ReleaseAndFail(String),
    /// The lease is held and the handle is there.
    Acquired(String),
    /// There is no connection for the identity.
    NotConnected,
}

/// The state of one search.
pub struct LeaseSearch {
    retried: bool,
    excluded: Option<String>,
    candidate: Option<String>,
}

pub open spec fn opt_view(o: Option<String>) -> Option<Seq<char>> {
    match o {
        Some(s) => Some(s@),
        None => None,
    }
}

impl LeaseSearch {
    /// Whether the one retry was used.
    pub closed spec fn retried(&self) -> bool {
        self.retried
    }

    /// The connection a vanished candidate left excluded.
    pub closed spec fn excluded(&self) -> Option<Seq<char>> {
        opt_view(self.excluded)
    }

    /// The connection being leased.
    pub closed spec fn candidate(&self) -> Option<Seq<char>> {
        opt_view(self.candidate)
    }

    /// Starts a search: the first lookup prefers the hint.
    pub fn start(hint: Option<String>) -> (r: (LeaseSearch, LeaseAction))
        ensures
            !r.0.retried() && r.0.excluded() is None && r.0.candidate() is None,
            r.1 matches LeaseAction::Find { preferred } && opt_view(preferred) == opt_view(hint),
    {
        (LeaseSearch { retried: false, excluded: None, candidate: None }, LeaseAction::Find {
            preferred: hint,
        })
    }

    /// The connection being leased, if the search is at that step.
    pub fn current(&self) -> (c: Option<&String>)
        ensures
            match c {
                Some(s) => self.candidate() == Some(s@),
                None => self.candidate() is None,
            },
    {
        match &self.candidate {
            Some(s) => Some(s),
            None => None,
        }
    }

    /// The lookup found a connection, or none. The excluded connection
    /// counts as none.
    pub fn on_found(&mut self, found: Option<String>) -> (a: LeaseAction)
        ensures
            final(self).retried() == old(self).retried(),
            final(self).excluded() == old(self).excluded(),
            match found {
                Some(id) if old(self).excluded() != Some(id@) => final(self).candidate() == Some(id@)
                    && (a matches LeaseAction::TakeLease(x) && x@ == id@),
                _ => a is NotConnected && final(self).candidate() == old(self).candidate(),
            },
    {
        match found {
            Some(id) => {
                let is_excluded = match &self.excluded {
                    Some(x) => str_eq(x.as_str(), id.as_str()),
                    None => false,
                };
                if is_excluded {
                    LeaseAction::NotConnected
                } else {
                    self.candidate = Some(id.clone());
                    LeaseAction::TakeLease(id)
                }
            },
            None => LeaseAction::NotConnected,
        }
    }

    /// The lease was taken, or the connection vanished first: then it is
    /// excluded and, unless the retry was used, the search looks again.
    pub fn on_lease(&mut self, taken: bool) -> (a: LeaseAction)
        requires
            old(self).candidate() is Some,
        ensures
            final(self).candidate() == old(self).candidate(),
            if taken {
                &&& final(self).retried() == old(self).retried()
                &&& final(self).excluded() == old(self).excluded()
                &&& a matches LeaseAction::FetchHandle(x) && Some(x@) == old(self).candidate()
            } else {
                &&& final(self).retried()
                &&& final(self).excluded() == old(self).candidate()
                &&& if old(self).retried() {
                    a is NotConnected
                } else {
                    a matches LeaseAction::Find { preferred } && preferred is None
                }
            },
    {
        let id = match &self.candidate {
            Some(s) => s.clone(),
            None => String::new(),
        };
        if taken {
            return LeaseAction::FetchHandle(id);
        }
        self.excluded = Some(id);
        if self.retried {
            LeaseAction::NotConnected
        } else {
            self.retried = true;
            LeaseAction::Find { preferred: None }
        }
    }

    /// The connection's handle was there, or it was gone: then the lease
    /// is released and, on the first lookup, the search looks again
    /// without that connection.
    pub fn on_handle(&mut self, present: bool) -> (a: LeaseAction)
        requires
            old(self).candidate() is Some,
        ensures
            final(self).candidate() == old(self).candidate(),
            if present {
                &&& final(self).retried() == old(self).retried()
                &&& final(self).excluded() == old(self).excluded()
                &&& a matches LeaseAction::Acquired(x) && Some(x@) == old(self).candidate()
            } else if !old(self).retried() {
                &&& final(self).retried()
                &&& final(self).excluded() == old(self).candidate()
                &&& a matches LeaseAction::ReleaseAndFind(x) && Some(x@) == old(self).candidate()
            } else {
                &&& final(self).retried()
                &&& final(self).excluded() == old(self).excluded()
                &&& a matches LeaseAction::ReleaseAndFail(x) && Some(x@) == old(self).candidate()
            },
    {
        let id = match &self.candidate {
            Some(s) => s.clone(),
            None => String::new(),
        };
        if present {
            return LeaseAction::Acquired(id);
        }
        if self.retried {
            LeaseAction::ReleaseAndFail(id)
        } else {
            self.retried = true;
            self.excluded = Some(id.clone());
            LeaseAction::ReleaseAndFind(id)
        }
    }
}

} // verus!
