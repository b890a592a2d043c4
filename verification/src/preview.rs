//! Streaming previews of file writes and edits while a tool call's
//! arguments are still arriving: the set of calls whose arguments changed
//! since the last tick, per call the last patched arguments and the last
//! preview sent (so that nothing is sent twice), and what a partial
//! argument object allows to preview yet.

use vstd::prelude::*;
use crate::edit_file::Edit;
use crate::sftp::SftpBrowserError;
use crate::text::{chars_of, str_eq, string_of, string_views, trim, trim_chars};

verus! {

/// What a preview's diff is computed against.
pub enum SourceText {
    /// Current file content (LF-normalized).
    Existing(String),
    /// write_file target does not exist yet.
    NewFile,
    /// Resolution failed; never retried.
    Failed,
}

/// Where a preview's source stands after the target was stat'ed (`Ok`
/// holds whether it is a directory): `None` means the file is read next;
/// a missing target of a write is a new file; anything else failed.
pub fn source_after_stat(stat: &Result<bool, SftpBrowserError>, is_write: bool) -> (r: Option<
    SourceText,
>)
    ensures
        match *stat {
            Ok(is_dir) => if is_dir {
                r == Some(SourceText::Failed)
            } else {
                r is None
            },
            Err(SftpBrowserError::PathNotFound(_)) => r == Some(
                if is_write {
                    SourceText::NewFile
                } else {
                    SourceText::Failed
                },
            ),
            Err(_) => r == Some(SourceText::Failed),
        },
{
    match stat {
        Ok(is_dir) => if *is_dir {
            Some(SourceText::Failed)
        } else {
            None
        },
        Err(SftpBrowserError::PathNotFound(_)) => if is_write {
            Some(SourceText::NewFile)
        } else {
            Some(SourceText::Failed)
        },
        Err(_) => Some(SourceText::Failed),
    }
}

/// Per-tool-call streaming state.
pub struct CallState {
    /// Last patched-args JSON sent.
    pub last_patched: Option<String>,
    /// Source text resolution, attempted at most once per call.
    pub source: Option<SourceText>,
    /// Last preview sent, serialized.
    pub last_preview: Option<String>,
}

/// Streaming-preview tracker: a dirty set fed by argument deltas, plus
/// per-call state reused across ticks.
pub struct StreamPreviews {
    dirty: Vec<String>,
    calls: Vec<(String, CallState)>,
}

/// The ids of the per-call states.
pub open spec fn call_ids(calls: Seq<(String, CallState)>) -> Seq<Seq<char>> {
    calls.map_values(|e: (String, CallState)| e.0@)
}

pub open spec fn opt_text(s: Option<String>) -> Option<Seq<char>> {
    match s {
        Some(t) => Some(t@),
        None => None,
    }
}

pub open spec fn has_id(calls: Seq<(String, CallState)>, id: Seq<char>) -> bool {
    exists|k: int| 0 <= k < calls.len() && #[trigger] calls[k].0@ == id
}

/// A position holding a call id (meaningful when `has_id`).
pub open spec fn index_of_id(calls: Seq<(String, CallState)>, id: Seq<char>) -> int {
    choose|k: int| 0 <= k < calls.len() && #[trigger] calls[k].0@ == id
}

/// The state kept for a call id, if any.
pub open spec fn state_at(calls: Seq<(String, CallState)>, id: Seq<char>) -> Option<CallState> {
    if has_id(calls, id) {
        Some(calls[index_of_id(calls, id)].1)
    } else {
        None
    }
}

proof fn lemma_index_unique(calls: Seq<(String, CallState)>, k: int)
    requires
        call_ids(calls).no_duplicates(),
        0 <= k < calls.len(),
    ensures
        has_id(calls, calls[k].0@),
        index_of_id(calls, calls[k].0@) == k,
{
    let id = calls[k].0@;
    assert(calls[k].0@ == id);
    let j = index_of_id(calls, id);
    assert(call_ids(calls)[j] == call_ids(calls)[k]);
}

proof fn lemma_state_at_index(calls: Seq<(String, CallState)>, k: int)
    requires
        call_ids(calls).no_duplicates(),
        0 <= k < calls.len(),
    ensures
        state_at(calls, calls[k].0@) == Some(calls[k].1),
{
    lemma_index_unique(calls, k);
}

/// Changing the state at one position (keeping every id) leaves what is
/// kept for the other ids as it was.
proof fn lemma_state_at_update(
    before: Seq<(String, CallState)>,
    after: Seq<(String, CallState)>,
    k: int,
    id: Seq<char>,
)
    requires
        call_ids(before).no_duplicates(),
        before.len() == after.len(),
        0 <= k < before.len(),
        forall|j: int| 0 <= j < before.len() ==> #[trigger] after[j].0@ == before[j].0@,
        forall|j: int| 0 <= j < before.len() && j != k ==> #[trigger] after[j] == before[j],
        id != before[k].0@,
    ensures
        state_at(after, id) == state_at(before, id),
{
    assert(call_ids(after) =~= call_ids(before)) by {
        assert forall|j: int| 0 <= j < before.len() implies call_ids(after)[j] == call_ids(before)[j] by {
            assert(after[j].0@ == before[j].0@);
        }
    }
    if has_id(before, id) {
        let b = index_of_id(before, id);
        lemma_index_unique(before, b);
        assert(after[b].0@ == before[b].0@);
        lemma_index_unique(after, b);
        assert(b != k);
        assert(after[b] == before[b]);
    } else {
        assert forall|j: int| 0 <= j < after.len() implies #[trigger] after[j].0@ != id by {
            assert(after[j].0@ == before[j].0@);
        }
    }
}

/// Appending a state for a new id keeps what is kept for the others.
proof fn lemma_state_at_push(before: Seq<(String, CallState)>, e: (String, CallState), id: Seq<char>)
    requires
        call_ids(before).no_duplicates(),
        forall|j: int| 0 <= j < before.len() ==> #[trigger] before[j].0@ != e.0@,
    ensures
        state_at(before.push(e), id) == if id == e.0@ {
            Some(e.1)
        } else {
            state_at(before, id)
        },
{
    let after = before.push(e);
    let n = before.len() as int;
    assert(call_ids(after).no_duplicates()) by {
        let ids = call_ids(after);
        assert forall|a: int, b: int| 0 <= a < ids.len() && 0 <= b < ids.len() && a != b implies ids[a] != ids[b] by {
            if a < n && b < n {
                assert(ids[a] == call_ids(before)[a] && ids[b] == call_ids(before)[b]);
            } else if a == n {
                assert(ids[b] == before[b].0@);
            } else {
                assert(ids[a] == before[a].0@);
            }
        }
    }
    if id == e.0@ {
        assert(after[n] == e);
        lemma_index_unique(after, n);
    } else if has_id(before, id) {
        let b = index_of_id(before, id);
        lemma_index_unique(before, b);
        assert(after[b] == before[b]);
        lemma_index_unique(after, b);
    } else {
        assert forall|j: int| 0 <= j < after.len() implies #[trigger] after[j].0@ != id by {
            if j < n {
                assert(after[j] == before[j]);
            }
        }
    }
}

impl StreamPreviews {
    #[verifier::type_invariant]
    spec fn well_formed(self) -> bool {
        &&& string_views(self.dirty@).no_duplicates()
        &&& call_ids(self.calls@).no_duplicates()
    }

    /// The ids marked dirty since the last drain.
    pub closed spec fn dirty_set(self) -> Set<Seq<char>> {
        string_views(self.dirty@).to_set()
    }

    /// The last patched arguments sent for a call.
    pub closed spec fn patched_of(self, id: Seq<char>) -> Option<Seq<char>> {
        match state_at(self.calls@, id) {
            Some(st) => opt_text(st.last_patched),
            None => None,
        }
    }

    /// The last preview sent for a call.
    pub closed spec fn preview_of(self, id: Seq<char>) -> Option<Seq<char>> {
        match state_at(self.calls@, id) {
            Some(st) => opt_text(st.last_preview),
            None => None,
        }
    }

    /// An empty tracker.
    pub fn new() -> (p: Self)
        ensures
            p.dirty_set() == Set::<Seq<char>>::empty(),
            forall|id: Seq<char>| #[trigger] p.patched_of(id) is None,
            forall|id: Seq<char>| #[trigger] p.preview_of(id) is None,
    {
        let p = StreamPreviews { dirty: Vec::new(), calls: Vec::new() };
        assert(string_views(p.dirty@).to_set() =~= Set::<Seq<char>>::empty());
        p
    }

    /// Marks a tool call's accumulated arguments as changed since the last
    /// tick.
    pub fn mark_dirty(&mut self, tool_call_id: &str)
        ensures
            final(self).dirty_set() == old(self).dirty_set().insert(tool_call_id@),
            forall|id: Seq<char>| #[trigger] final(self).patched_of(id) == old(self).patched_of(id),
            forall|id: Seq<char>| #[trigger] final(self).preview_of(id) == old(self).preview_of(id),
    {
        proof {
            use_type_invariant(&*self);
        }
        let ghost before = string_views(self.dirty@);
        let mut k: usize = 0;
        while k < self.dirty.len()
            invariant
                k <= self.dirty@.len(),
                before == string_views(self.dirty@),
                forall|j: int| 0 <= j < k ==> before[j] != tool_call_id@,
            decreases self.dirty@.len() - k,
        {
            if str_eq(self.dirty[k].as_str(), tool_call_id) {
                proof {
                    assert(before[k as int] == tool_call_id@);
                    assert(before.contains(tool_call_id@));
                    assert(before.to_set().insert(tool_call_id@) =~= before.to_set());
                }
                return;
            }
            k = k + 1;
        }
        let mut dirty = Vec::new();
        std::mem::swap(&mut dirty, &mut self.dirty);
        dirty.push(String::from_str(tool_call_id));
        proof {
            let now = string_views(dirty@);
            assert(now =~= before.push(tool_call_id@));
            assert(!before.contains(tool_call_id@));
            assert(now.no_duplicates()) by {
                assert forall|a: int, b: int| 0 <= a < now.len() && 0 <= b < now.len() && a != b implies now[a] != now[b] by {
                    if a < before.len() && b < before.len() {
                    } else if a == before.len() {
                        assert(now[b] == before[b]);
                    } else {
                        assert(now[a] == before[a]);
                    }
                }
            }
            assert forall|y: Seq<char>| now.to_set().contains(y) == before.to_set().insert(
                tool_call_id@,
            ).contains(y) by {
                if now.contains(y) {
                    let i = choose|i: int| 0 <= i < now.len() && now[i] == y;
                    if i < before.len() {
                        assert(before[i] == y);
                    }
                }
                if before.contains(y) {
                    let i = choose|i: int| 0 <= i < before.len() && before[i] == y;
                    assert(now[i] == y);
                }
                if y == tool_call_id@ {
                    assert(now[before.len() as int] == y);
                }
            }
            assert(now.to_set() =~= before.to_set().insert(tool_call_id@));
        }
        self.dirty = dirty;
    }

    /// Drains the dirty set: every marked id once, in marking order.
    pub fn take_dirty(&mut self) -> (ids: Vec<String>)
        ensures
            string_views(ids@).to_set() == old(self).dirty_set(),
            string_views(ids@).no_duplicates(),
            final(self).dirty_set() == Set::<Seq<char>>::empty(),
            forall|id: Seq<char>| #[trigger] final(self).patched_of(id) == old(self).patched_of(id),
            forall|id: Seq<char>| #[trigger] final(self).preview_of(id) == old(self).preview_of(id),
    {
        proof {
            use_type_invariant(&*self);
        }
        let mut ids: Vec<String> = Vec::new();
        std::mem::swap(&mut ids, &mut self.dirty);
        assert(string_views(self.dirty@).to_set() =~= Set::<Seq<char>>::empty());
        ids
    }

    fn find_call(&self, id: &str) -> (r: Option<usize>)
        ensures
            match r {
                Some(k) => k < self.calls@.len() && self.calls@[k as int].0@ == id@,
                None => forall|k: int| 0 <= k < self.calls@.len() ==> self.calls@[k].0@ != id@,
            },
    {
        let mut k: usize = 0;
        while k < self.calls.len()
            invariant
                k <= self.calls@.len(),
                forall|j: int| 0 <= j < k ==> self.calls@[j].0@ != id@,
            decreases self.calls@.len() - k,
        {
            if str_eq(self.calls[k].0.as_str(), id) {
                return Some(k);
            }
            k = k + 1;
        }
        None
    }

    /// Records the patched arguments computed for a call at a tick and tells
    /// whether it must be sent: only when it differs from the last one
    /// sent for that call.
    pub fn note_patched(&mut self, tool_call_id: &str, value: &str) -> (send: bool)
        ensures
            send == (old(self).patched_of(tool_call_id@) != Some(value@)),
            final(self).patched_of(tool_call_id@) == Some(value@),
            forall|id: Seq<char>| id != tool_call_id@ ==> #[trigger] final(self).patched_of(id)
                == old(self).patched_of(id),
            forall|id: Seq<char>| #[trigger] final(self).preview_of(id) == old(self).preview_of(id),
            final(self).dirty_set() == old(self).dirty_set(),
    {
        proof {
            use_type_invariant(&*self);
        }
        let ghost old_calls = self.calls@;
        match self.find_call(tool_call_id) {
            Some(k) => {
                proof {
                    lemma_state_at_index(old_calls, k as int);
                }
                let same = match &self.calls[k].1.last_patched {
                    Some(p) => str_eq(p.as_str(), value),
                    None => false,
                };
                if same {
                    return false;
                }
                let mut calls = Vec::new();
                std::mem::swap(&mut calls, &mut self.calls);
                let (cid, st) = calls.remove(k);
                let CallState { last_patched, source, last_preview } = st;
                let st2 = CallState { last_patched: Some(String::from_str(value)), source, last_preview };
                calls.insert(k, (cid, st2));
                proof {
                    assert(call_ids(calls@) =~= call_ids(old_calls));
                    assert forall|j: int| 0 <= j < old_calls.len() implies #[trigger] calls@[j].0@
                        == old_calls[j].0@ by {}
                    assert forall|j: int| 0 <= j < old_calls.len() && j != k implies #[trigger] calls@[j]
                        == old_calls[j] by {}
                }
                self.calls = calls;
                proof {
                    lemma_state_at_index(self.calls@, k as int);
                    assert forall|id: Seq<char>| id != tool_call_id@ implies #[trigger] self.patched_of(id)
                        == old(self).patched_of(id) by {
                        lemma_state_at_update(old_calls, self.calls@, k as int, id);
                    }
                    assert forall|id: Seq<char>| #[trigger] self.preview_of(id) == old(self).preview_of(id) by {
                        if id != tool_call_id@ {
                            lemma_state_at_update(old_calls, self.calls@, k as int, id);
                        }
                    }
                }
                true
            },
            None => {
                let mut calls = Vec::new();
                std::mem::swap(&mut calls, &mut self.calls);
                let e = (String::from_str(tool_call_id), CallState { last_patched: Some(String::from_str(value)), source: None, last_preview: None });
                calls.push(e);
                proof {
                    let ids = call_ids(calls@);
                    assert(ids =~= call_ids(old_calls).push(tool_call_id@));
                    assert(ids.no_duplicates()) by {
                        assert forall|a: int, b: int| 0 <= a < ids.len() && 0 <= b < ids.len() && a != b implies ids[a] != ids[b] by {
                            if a == old_calls.len() {
                                assert(ids[b] == old_calls[b].0@);
                            } else if b == old_calls.len() {
                                assert(ids[a] == old_calls[a].0@);
                            }
                        }
                    }
                    assert(calls@ == old_calls.push(e));
                    assert forall|id: Seq<char>| #[trigger] state_at(calls@, id) == if id == tool_call_id@ {
                        Some(e.1)
                    } else {
                        state_at(old_calls, id)
                    } by {
                        lemma_state_at_push(old_calls, e, id);
                    }
                    assert(state_at(old_calls, tool_call_id@) is None);
                }
                self.calls = calls;
                true
            },
        }
    }

    /// Records the serialized preview computed for a call at a tick and tells
    /// whether it must be sent: only when it differs from the last one
    /// sent for that call.
    pub fn note_preview(&mut self, tool_call_id: &str, value: &str) -> (send: bool)
        ensures
            send == (old(self).preview_of(tool_call_id@) != Some(value@)),
            final(self).preview_of(tool_call_id@) == Some(value@),
            forall|id: Seq<char>| id != tool_call_id@ ==> #[trigger] final(self).preview_of(id)
                == old(self).preview_of(id),
            forall|id: Seq<char>| #[trigger] final(self).patched_of(id) == old(self).patched_of(id),
            final(self).dirty_set() == old(self).dirty_set(),
    {
        proof {
            use_type_invariant(&*self);
        }
        let ghost old_calls = self.calls@;
        match self.find_call(tool_call_id) {
            Some(k) => {
                proof {
                    lemma_state_at_index(old_calls, k as int);
                }
                let same = match &self.calls[k].1.last_preview {
                    Some(p) => str_eq(p.as_str(), value),
                    None => false,
                };
                if same {
                    return false;
                }
                let mut calls = Vec::new();
                std::mem::swap(&mut calls, &mut self.calls);
                let (cid, st) = calls.remove(k);
                let CallState { last_patched, source, last_preview } = st;
                let st2 = CallState { last_patched, source, last_preview: Some(String::from_str(value)) };
                calls.insert(k, (cid, st2));
                proof {
                    assert(call_ids(calls@) =~= call_ids(old_calls));
                    assert forall|j: int| 0 <= j < old_calls.len() implies #[trigger] calls@[j].0@
                        == old_calls[j].0@ by {}
                    assert forall|j: int| 0 <= j < old_calls.len() && j != k implies #[trigger] calls@[j]
                        == old_calls[j] by {}
                }
                self.calls = calls;
                proof {
                    lemma_state_at_index(self.calls@, k as int);
                    assert forall|id: Seq<char>| id != tool_call_id@ implies #[trigger] self.preview_of(id)
                        == old(self).preview_of(id) by {
                        lemma_state_at_update(old_calls, self.calls@, k as int, id);
                    }
                    assert forall|id: Seq<char>| #[trigger] self.patched_of(id) == old(self).patched_of(id) by {
                        if id != tool_call_id@ {
                            lemma_state_at_update(old_calls, self.calls@, k as int, id);
                        }
                    }
                }
                true
            },
            None => {
                let mut calls = Vec::new();
                std::mem::swap(&mut calls, &mut self.calls);
                let e = (String::from_str(tool_call_id), CallState { last_patched: None, source: None, last_preview: Some(String::from_str(value)) });
                calls.push(e);
                proof {
                    let ids = call_ids(calls@);
                    assert(ids =~= call_ids(old_calls).push(tool_call_id@));
                    assert(ids.no_duplicates()) by {
                        assert forall|a: int, b: int| 0 <= a < ids.len() && 0 <= b < ids.len() && a != b implies ids[a] != ids[b] by {
                            if a == old_calls.len() {
                                assert(ids[b] == old_calls[b].0@);
                            } else if b == old_calls.len() {
                                assert(ids[a] == old_calls[a].0@);
                            }
                        }
                    }
                    assert(calls@ == old_calls.push(e));
                    assert forall|id: Seq<char>| #[trigger] state_at(calls@, id) == if id == tool_call_id@ {
                        Some(e.1)
                    } else {
                        state_at(old_calls, id)
                    } by {
                        lemma_state_at_push(old_calls, e, id);
                    }
                    assert(state_at(old_calls, tool_call_id@) is None);
                }
                self.calls = calls;
                true
            },
        }
    }

}

// ---------------------------------------------------------------------------
// What a partial argument object allows to preview
// ---------------------------------------------------------------------------

/// One item of a partial `edits` array: its `old_text` and `new_text`
/// when the item is an object and they are strings.
pub struct PartialEdit {
    pub old_text: Option<String>,
    pub new_text: Option<String>,
}

/// What a partial parse of a tool call's argument object holds, as far as
/// a preview reads it.
pub struct PartialArgs {
    /// The object's keys.
    pub keys: Vec<String>,
    /// `path`, when it is a string.
    pub path: Option<String>,
    /// `content`, when it is a string.
    pub content: Option<String>,
    /// `edits`, when it is an array.
    pub edits: Option<Vec<PartialEdit>>,
}

/// The key whose start shows that `path` is complete: a value is only
/// known complete once a later key has begun.
pub open spec fn key_after_path(is_write: bool) -> Seq<char> {
    if is_write {
        "content"@
    } else {
        "edits"@
    }
}

pub open spec fn has_key(keys: Seq<String>, k: Seq<char>) -> bool {
    exists|i: int| 0 <= i < keys.len() && #[trigger] keys[i]@ == k
}

/// The file a preview is for, and whether it is a write (else an edit):
/// only `write_file` and `edit_file` calls whose path is complete and not
/// blank.
pub open spec fn target_of(name: Seq<char>, args: PartialArgs) -> Option<(Seq<char>, bool)> {
    if name != "write_file"@ && name != "edit_file"@ {
        None
    } else {
        let is_write = name == "write_file"@;
        match args.path {
            Some(p) => if has_key(args.keys@, key_after_path(is_write)) && trim(p@).len() > 0 {
                Some((trim(p@), is_write))
            } else {
                None
            },
            None => None,
        }
    }
}

fn has_key_exec(keys: &Vec<String>, k: &str) -> (b: bool)
    ensures
        b == has_key(keys@, k@),
{
    let mut i: usize = 0;
    while i < keys.len()
        invariant
            i <= keys@.len(),
            forall|j: int| 0 <= j < i ==> keys@[j]@ != k@,
        decreases keys@.len() - i,
    {
        if str_eq(keys[i].as_str(), k) {
            return true;
        }
        i = i + 1;
    }
    false
}

/// The target of a streaming preview, if the arguments allow one yet.
pub fn preview_target(name: &str, args: &PartialArgs) -> (r: Option<(String, bool)>)
    ensures
        match target_of(name@, *args) {
            Some((p, w)) => r matches Some(t) && t.0@ == p && t.1 == w,
            None => r is None,
        },
{
    let is_write = if str_eq(name, "write_file") {
        true
    } else if str_eq(name, "edit_file") {
        false
    } else {
        return None;
    };
    let follows = if is_write {
        "content"
    } else {
        "edits"
    };
    if !has_key_exec(&args.keys, follows) {
        return None;
    }
    match &args.path {
        Some(p) => {
            let t = trim_chars(&chars_of(p.as_str()));
            if t.len() == 0 {
                None
            } else {
                Some((string_of(t.as_slice()), is_write))
            }
        },
        None => None,
    }
}

/// What a preview diffs against the source.
pub enum PreviewChange {
    /// The (maybe partial) new content of a write.
    Write(String),
    /// The edits whose `new_text` has begun.
    Edit(Vec<Edit>),
}

/// The edits of a partial `edits` array that can be applied: those whose
/// `old_text` and `new_text` are both there.
pub open spec fn complete_edits(items: Seq<PartialEdit>) -> Seq<(Seq<char>, Seq<char>)>
    decreases items.len(),
{
    if items.len() == 0 {
        Seq::empty()
    } else {
        let rest = complete_edits(items.drop_last());
        match (items.last().old_text, items.last().new_text) {
            (Some(o), Some(n)) => rest.push((o@, n@)),
            _ => rest,
        }
    }
}

pub open spec fn edit_views(es: Seq<Edit>) -> Seq<(Seq<char>, Seq<char>)> {
    es.map_values(|e: Edit| (e.old_text@, e.new_text@))
}

/// The change to preview: the write's content when it is a string, or
/// the complete edits when there is at least one.
pub fn preview_change(is_write: bool, args: &PartialArgs) -> (r: Option<PreviewChange>)
    ensures
        is_write ==> match args.content {
            Some(c) => r matches Some(PreviewChange::Write(x)) && x@ == c@,
            None => r is None,
        },
        !is_write ==> match args.edits {
            Some(items) => if complete_edits(items@).len() > 0 {
                r matches Some(PreviewChange::Edit(es)) && edit_views(es@) == complete_edits(items@)
            } else {
                r is None
            },
            None => r is None,
        },
{
    if is_write {
        return match &args.content {
            Some(c) => Some(PreviewChange::Write(c.clone())),
            None => None,
        };
    }
    match &args.edits {
        Some(items) => {
            let mut es: Vec<Edit> = Vec::new();
            let mut i: usize = 0;
            while i < items.len()
                invariant
                    i <= items@.len(),
                    edit_views(es@) == complete_edits(items@.take(i as int)),
                decreases items@.len() - i,
            {
                proof {
                    assert(items@.take(i + 1).drop_last() =~= items@.take(i as int));
                }
                match (&items[i].old_text, &items[i].new_text) {
                    (Some(o), Some(n)) => {
                        let ghost before = es@;
                        es.push(Edit { old_text: o.clone(), new_text: n.clone() });
                        assert(edit_views(es@) =~= edit_views(before).push((o@, n@)));
                    },
                    _ => {},
                }
                i = i + 1;
            }
            assert(items@.take(items@.len() as int) =~= items@);
            if es.len() == 0 {
                None
            } else {
                Some(PreviewChange::Edit(es))
            }
        },
        None => None,
    }
}

/// The old side of a preview once the source is known: the current text
/// (not a new file), an empty new file, or nothing when resolution failed.
pub fn preview_base(source: &SourceText) -> (r: Option<(String, bool)>)
    ensures
        match *source {
            SourceText::Existing(t) => r matches Some(b) && b.0@ == t@ && !b.1,
            SourceText::NewFile => r matches Some(b) && b.0@.len() == 0 && b.1,
            SourceText::Failed => r is None,
        },
{
    match source {
        SourceText::Existing(t) => Some((t.clone(), false)),
        SourceText::NewFile => Some((String::new(), true)),
        SourceText::Failed => None,
    }
}

} // verus!
