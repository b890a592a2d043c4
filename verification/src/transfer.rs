//! Scheduling of pipelined SFTP transfers: which read or write request to
//! issue next, how many may be in flight, and how far the transfer has
//! come. The requests themselves are sent and awaited outside the library.

use vstd::prelude::*;

verus! {

/// Max concurrent in-flight SFTP requests during a transfer.
pub const PIPELINE_DEPTH: usize = 8;

/// The requests of a pipelined read of `total` bytes in chunks of at most
/// `chunk` bytes.
pub struct ReadPlan {
    total: u64,
    chunk: u64,
    next_offset: u64,
    in_flight: usize,
    done: u64,
    /// Every request issued so far, as (offset, length).
    issued: Ghost<Seq<(u64, u64)>>,
}

/// Requests that tile `[0, end)` in order: each starts where the previous
/// ended, none is empty and none is longer than `chunk`.
pub open spec fn tiles(rs: Seq<(u64, u64)>, end: nat, chunk: nat) -> bool
    decreases rs.len(),
{
    if rs.len() == 0 {
        end == 0
    } else {
        let (o, l) = rs.last();
        &&& 0 < l <= chunk
        &&& o + l == end
        &&& tiles(rs.drop_last(), o as nat, chunk)
    }
}

impl ReadPlan {
    #[verifier::type_invariant]
    spec fn consistent(self) -> bool {
        &&& self.chunk > 0
        &&& self.chunk <= u32::MAX
        &&& self.next_offset <= self.total
        &&& self.in_flight <= PIPELINE_DEPTH
        &&& tiles(self.issued@, self.next_offset as nat, self.chunk as nat)
    }

    pub closed spec fn total_bytes(self) -> u64 {
        self.total
    }

    pub closed spec fn chunk_len(self) -> u64 {
        self.chunk
    }

    /// Where the next request starts.
    pub closed spec fn next_offset(self) -> u64 {
        self.next_offset
    }

    /// Requests sent and not yet completed.
    pub closed spec fn in_flight(self) -> usize {
        self.in_flight
    }

    /// Bytes received so far.
    pub closed spec fn done(self) -> u64 {
        self.done
    }

    /// The requests issued so far.
    pub closed spec fn issued(self) -> Seq<(u64, u64)> {
        self.issued@
    }

    /// A read of `total` bytes in chunks of at most `chunk` bytes (the
    /// server's read limit), nothing issued yet.
    pub fn new(total: u64, chunk: u32) -> (p: ReadPlan)
        requires
            chunk > 0,
        ensures
            p.total_bytes() == total,
            p.chunk_len() == chunk,
            p.next_offset() == 0,
            p.in_flight() == 0,
            p.done() == 0,
            p.issued() == Seq::<(u64, u64)>::empty(),
    {
        ReadPlan {
            total,
            chunk: chunk as u64,
            next_offset: 0,
            in_flight: 0,
            done: 0,
            issued: Ghost(Seq::empty()),
        }
    }

    /// The next read request, while bytes remain unrequested and fewer
    /// than `PIPELINE_DEPTH` requests are in flight: it starts where the
    /// previous one ended and asks for a chunk, or what is left.
    pub fn next_request(&mut self) -> (r: Option<(u64, u32)>)
        ensures
            final(self).total_bytes() == old(self).total_bytes(),
            final(self).chunk_len() == old(self).chunk_len(),
            final(self).done() == old(self).done(),
            match r {
                Some((off, len)) => {
                    &&& old(self).next_offset() < old(self).total_bytes()
                    &&& old(self).in_flight() < PIPELINE_DEPTH
                    &&& off == old(self).next_offset()
                    &&& len as u64 == if old(self).chunk_len() < old(self).total_bytes() - off {
                        old(self).chunk_len()
                    } else {
                        (old(self).total_bytes() - off) as u64
                    }
                    &&& final(self).next_offset() == off + len
                    &&& final(self).in_flight() == old(self).in_flight() + 1
                    &&& final(self).issued() == old(self).issued().push((off, len as u64))
                },
                None => {
                    &&& (old(self).next_offset() >= old(self).total_bytes() || old(self).in_flight()
                        >= PIPELINE_DEPTH)
                    &&& final(self).next_offset() == old(self).next_offset()
                    &&& final(self).in_flight() == old(self).in_flight()
                    &&& final(self).issued() == old(self).issued()
                },
            },
            final(self).next_offset() <= final(self).total_bytes(),
            final(self).in_flight() <= PIPELINE_DEPTH,
            tiles(final(self).issued(), final(self).next_offset() as nat, final(self).chunk_len() as nat),
    {
        proof {
            use_type_invariant(&*self);
        }
        if self.next_offset < self.total && self.in_flight < PIPELINE_DEPTH {
            let off = self.next_offset;
            let rest = self.total - off;
            let len64 = if self.chunk < rest {
                self.chunk
            } else {
                rest
            };
            proof {
                assert(len64 <= self.chunk);
            }
            let len: u32 = len64 as u32;
            let ghost issued = self.issued@.push((off, len64));
            proof {
                assert(issued.drop_last() =~= self.issued@);
            }
            *self = ReadPlan {
                total: self.total,
                chunk: self.chunk,
                next_offset: off + len64,
                in_flight: self.in_flight + 1,
                done: self.done,
                issued: Ghost(issued),
            };
            Some((off, len))
        } else {
            None
        }
    }

    /// A request completed with `bytes` bytes of data.
    pub fn complete(&mut self, bytes: u64)
        requires
            old(self).in_flight() > 0,
            old(self).done() + bytes <= u64::MAX,
        ensures
            final(self).in_flight() == old(self).in_flight() - 1,
            final(self).done() == old(self).done() + bytes,
            final(self).next_offset() == old(self).next_offset(),
            final(self).issued() == old(self).issued(),
            final(self).total_bytes() == old(self).total_bytes(),
            final(self).chunk_len() == old(self).chunk_len(),
    {
        proof {
            use_type_invariant(&*self);
        }
        self.in_flight = self.in_flight - 1;
        self.done = self.done + bytes;
    }

    /// Every byte was requested and no request is outstanding.
    pub fn finished(&self) -> (b: bool)
        ensures
            b == (self.next_offset() >= self.total_bytes() && self.in_flight() == 0),
    {
        self.next_offset >= self.total && self.in_flight == 0
    }

    /// Bytes received so far.
    pub fn bytes_done(&self) -> (d: u64)
        ensures
            d == self.done(),
    {
        self.done
    }
}

/// The offsets of a pipelined write whose chunks come, in file order, from
/// a producer.
pub struct WritePlan {
    max_len: usize,
    offset: u64,
    in_flight: usize,
    done: u64,
    eof: bool,
    issued: Ghost<Seq<(u64, u64)>>,
}

impl WritePlan {
    #[verifier::type_invariant]
    spec fn consistent(self) -> bool {
        &&& self.max_len > 0
        &&& self.in_flight <= PIPELINE_DEPTH
        &&& tiles(self.issued@, self.offset as nat, self.max_len as nat)
    }

    pub closed spec fn max_len(self) -> usize {
        self.max_len
    }

    /// Where the next chunk goes.
    pub closed spec fn offset(self) -> u64 {
        self.offset
    }

    pub closed spec fn in_flight(self) -> usize {
        self.in_flight
    }

    /// Bytes acknowledged so far.
    pub closed spec fn done(self) -> u64 {
        self.done
    }

    /// The producer has no more chunks.
    pub closed spec fn at_eof(self) -> bool {
        self.eof
    }

    pub closed spec fn issued(self) -> Seq<(u64, u64)> {
        self.issued@
    }

    /// A write in chunks of at most `max_len` bytes (the server's write
    /// limit), nothing sent yet.
    pub fn new(max_len: u32) -> (p: WritePlan)
        requires
            max_len > 0,
        ensures
            p.max_len() == max_len,
            p.offset() == 0,
            p.in_flight() == 0,
            p.done() == 0,
            !p.at_eof(),
            p.issued() == Seq::<(u64, u64)>::empty(),
    {
        WritePlan {
            max_len: max_len as usize,
            offset: 0,
            in_flight: 0,
            done: 0,
            eof: false,
            issued: Ghost(Seq::empty()),
        }
    }

    /// Whether another chunk may be asked of the producer now: it has not
    /// reached its end and fewer than `PIPELINE_DEPTH` writes are in flight.
    pub fn wants_chunk(&self) -> (b: bool)
        ensures
            b == (!self.at_eof() && self.in_flight() < PIPELINE_DEPTH),
    {
        !self.eof && self.in_flight < PIPELINE_DEPTH
    }

    /// The producer handed over a chunk of `len` bytes (`None`: no more):
    /// a chunk is written at the current offset, which then moves past it.
    /// An empty chunk is taken as the end.
    pub fn on_chunk(&mut self, len: Option<usize>) -> (r: Option<u64>)
        requires
            !old(self).at_eof(),
            old(self).in_flight() < PIPELINE_DEPTH,
            len matches Some(l) ==> l <= old(self).max_len() && old(self).offset() + l <= u64::MAX,
        ensures
            final(self).max_len() == old(self).max_len(),
            final(self).done() == old(self).done(),
            match r {
                Some(off) => {
                    &&& len matches Some(l) && l > 0
                    &&& off == old(self).offset()
                    &&& final(self).offset() == off + len.unwrap()
                    &&& final(self).in_flight() == old(self).in_flight() + 1
                    &&& !final(self).at_eof()
                    &&& final(self).issued() == old(self).issued().push((off, len.unwrap() as u64))
                },
                None => {
                    &&& (len is None || len == Some(0usize))
                    &&& final(self).at_eof()
                    &&& final(self).offset() == old(self).offset()
                    &&& final(self).in_flight() == old(self).in_flight()
                    &&& final(self).issued() == old(self).issued()
                },
            },
            final(self).in_flight() <= PIPELINE_DEPTH,
            tiles(final(self).issued(), final(self).offset() as nat, final(self).max_len() as nat),
    {
        proof {
            use_type_invariant(&*self);
        }
        match len {
            Some(l) => {
                if l == 0 {
                    self.eof = true;
                    return None;
                }
                let off = self.offset;
                let ghost issued = self.issued@.push((off, l as u64));
                proof {
                    assert(issued.drop_last() =~= self.issued@);
                }
                *self = WritePlan {
                    max_len: self.max_len,
                    offset: off + l as u64,
                    in_flight: self.in_flight + 1,
                    done: self.done,
                    eof: self.eof,
                    issued: Ghost(issued),
                };
                Some(off)
            },
            None => {
                self.eof = true;
                None
            },
        }
    }

    /// A write of `bytes` bytes was acknowledged.
    pub fn complete(&mut self, bytes: u64)
        requires
            old(self).in_flight() > 0,
            old(self).done() + bytes <= u64::MAX,
        ensures
            final(self).in_flight() == old(self).in_flight() - 1,
            final(self).done() == old(self).done() + bytes,
            final(self).offset() == old(self).offset(),
            final(self).at_eof() == old(self).at_eof(),
            final(self).issued() == old(self).issued(),
            final(self).max_len() == old(self).max_len(),
    {
        proof {
            use_type_invariant(&*self);
        }
        self.in_flight = self.in_flight - 1;
        self.done = self.done + bytes;
    }

    /// The producer is exhausted and every write was acknowledged.
    pub fn finished(&self) -> (b: bool)
        ensures
            b == (self.at_eof() && self.in_flight() == 0),
    {
        self.eof && self.in_flight == 0
    }

    /// Bytes acknowledged so far.
    pub fn bytes_done(&self) -> (d: u64)
        ensures
            d == self.done(),
    {
        self.done
    }
}

/// Once a read has requested every byte, its requests tile exactly
/// `[0, total)`: no byte is requested twice or skipped, and no request is
/// longer than a chunk.
pub proof fn lemma_read_requests_cover_file(issued: Seq<(u64, u64)>, next: u64, total: u64, chunk: u64)
    requires
        tiles(issued, next as nat, chunk as nat),
        next <= total,
        next >= total,
    ensures
        tiles(issued, total as nat, chunk as nat),
{
}

} // verus!
