//! The chunk reader.
//!
//! A single producer reads the input in arbitrary slices and feeds
//! them to a `Chunker`, which cuts the stream into record-aligned
//! blocks: every emitted block ends exactly on a record terminator,
//! and the unterminated tail of the stream is retained for the next
//! read.  Concatenating the emitted blocks (plus the retained tail)
//! always reproduces the bytes fed so far, so no byte is lost or
//! duplicated, and no record is ever split across two blocks.
//!
//! A logical record longer than the configured capacity can never fit
//! inside one block; feeding one is rejected as a fatal error rather
//! than looping or splitting the record.

use vstd::prelude::*;

use crate::error::Error;
use crate::record::find_last_byte;
use crate::record::TERMINATOR;

verus! {

/// The unterminated tail of a stream: what follows its last record
/// terminator (the whole stream when it has none).
pub open spec fn unterminated_tail(c: Seq<u8>) -> Seq<u8> {
    match c.index_of_last(TERMINATOR) {
        Some(i) => c.skip(i + 1),
        None => c,
    }
}

/// Cuts a byte stream, fed in arbitrary slices, into record-aligned
/// blocks.
pub struct Chunker {
    leftover: Vec<u8>,
    cap: usize,
    fed: Ghost<Seq<u8>>,
    emitted: Ghost<Seq<u8>>,
}

impl Chunker {
    /// Every byte fed so far.
    pub closed spec fn fed_spec(self) -> Seq<u8> {
        self.fed@
    }

    /// The concatenation of every block emitted so far.
    pub closed spec fn emitted_spec(self) -> Seq<u8> {
        self.emitted@
    }

    /// The retained unterminated tail.
    pub closed spec fn leftover_spec(self) -> Seq<u8> {
        self.leftover@
    }

    /// The configured capacity: the longest supported record.
    pub closed spec fn cap_spec(self) -> int {
        self.cap as int
    }

    /// The emitted blocks and the retained tail hold exactly the fed
    /// bytes, and the tail holds no terminator and fits the capacity.
    pub closed spec fn wf(self) -> bool {
        &&& self.emitted@ + self.leftover@ == self.fed@
        &&& forall|i: int| 0 <= i < self.leftover@.len() ==> self.leftover@[i] != TERMINATOR
        &&& self.leftover@.len() < self.cap
        &&& self.cap >= 1
    }

    /// How many unterminated bytes are pending.  The caller uses this
    /// to keep the pending length inside a machine word.
    pub fn pending(&self) -> (r: usize)
        ensures
            r as int == self.leftover_spec().len(),
    {
        self.leftover.len()
    }

    /// A fresh chunker for records of at most `capacity` bytes.
    pub fn new(capacity: usize) -> (r: Chunker)
        requires
            capacity >= 1,
        ensures
            r.wf(),
            r.fed_spec() == Seq::<u8>::empty(),
            r.emitted_spec() == Seq::<u8>::empty(),
            r.leftover_spec() == Seq::<u8>::empty(),
            r.cap_spec() == capacity,
    {
        let r = Chunker {
            leftover: Vec::new(),
            cap: capacity,
            fed: Ghost(Seq::empty()),
            emitted: Ghost(Seq::empty()),
        };
        proof {
            assert(r.emitted@ + r.leftover@ =~= r.fed@);
        }
        r
    }

    /// Feed the next bytes read from the input.  When the bytes
    /// complete at least one record, the longest record-aligned prefix
    /// of the pending bytes is emitted as one block; the unterminated
    /// tail is retained.  A pending record that reaches the capacity
    /// without a terminator is rejected, leaving the state unchanged.
    #[verifier::loop_isolation(false)]
    pub fn push(&mut self, data: &[u8]) -> (r: Result<Option<Vec<u8>>, Error>)
        requires
            old(self).wf(),
            old(self).leftover_spec().len() + data@.len() <= usize::MAX,
        ensures
            r is Err <==> unterminated_tail(old(self).leftover_spec() + data@).len()
                >= old(self).cap_spec(),
            match r {
                Ok(opt) => {
                    &&& final(self).wf()
                    &&& final(self).fed_spec() == old(self).fed_spec() + data@
                    &&& final(self).cap_spec() == old(self).cap_spec()
                    &&& final(self).leftover_spec() == unterminated_tail(
                        old(self).leftover_spec() + data@,
                    )
                    &&& match opt {
                        Some(block) => {
                            &&& block@.len() > 0
                            &&& block@.last() == TERMINATOR
                            &&& final(self).emitted_spec() == old(self).emitted_spec() + block@
                        },
                        None => final(self).emitted_spec() == old(self).emitted_spec(),
                    }
                },
                Err(e) => e == Error::RecordTooLong && *final(self) == *old(self),
            },
    {
        let ghost c = self.leftover@ + data@;
        let llen = self.leftover.len();
        let dlen = data.len();
        match find_last_byte(data, 0, dlen, TERMINATOR) {
            Some(q) => {
                proof {
                    assert(data@.subrange(0, dlen as int) =~= data@);
                    c.index_of_last_ensures(TERMINATOR);
                    data@.index_of_last_ensures(TERMINATOR);
                    assert(c[llen + q] == TERMINATOR);
                    assert(c.contains(TERMINATOR)) by {
                        assert(c[llen + q] == TERMINATOR);
                    }
                    let j = c.index_of_last(TERMINATOR).unwrap();
                    assert(j == llen + q) by {
                        if j < llen + q {
                            assert(c[llen + q] == TERMINATOR);
                        }
                        if llen + q < j {
                            if j < llen {
                                assert(c[j] == self.leftover@[j]);
                            } else {
                                assert(c[j] == data@[j - llen]);
                            }
                        }
                    }
                    assert(unterminated_tail(c) =~= data@.skip(q + 1));
                }
                if dlen - (q + 1) >= self.cap {
                    return Err(Error::RecordTooLong);
                }
                let mut block: Vec<u8> = Vec::new();
                core::mem::swap(&mut self.leftover, &mut block);
                let mut t: usize = 0;
                while t < q + 1
                    invariant
                        0 <= t <= q + 1,
                        block@ == old(self).leftover@ + data@.take(t as int),
                    decreases q + 1 - t,
                {
                    block.push(data[t]);
                    proof {
                        assert(old(self).leftover@ + data@.take(t + 1) =~= (old(self).leftover@
                            + data@.take(t as int)).push(data@[t as int]));
                    }
                    t = t + 1;
                }
                let mut t2: usize = q + 1;
                while t2 < dlen
                    invariant
                        q + 1 <= t2 <= dlen,
                        self.leftover@ == data@.subrange(q + 1, t2 as int),
                        self.fed == old(self).fed,
                        self.emitted == old(self).emitted,
                        self.cap == old(self).cap,
                    decreases dlen - t2,
                {
                    self.leftover.push(data[t2]);
                    proof {
                        assert(data@.subrange(q + 1, t2 + 1) =~= data@.subrange(
                            q + 1,
                            t2 as int,
                        ).push(data@[t2 as int]));
                    }
                    t2 = t2 + 1;
                }
                self.fed = Ghost(self.fed@ + data@);
                self.emitted = Ghost(self.emitted@ + block@);
                proof {
                    assert(self.leftover@ =~= data@.skip(q + 1));
                    assert(block@.last() == TERMINATOR);
                    assert(self.emitted@ + self.leftover@ =~= self.fed@) by {
                        assert(old(self).emitted@ + old(self).leftover@ == old(self).fed@);
                        assert(block@ == old(self).leftover@ + data@.take(q + 1));
                        assert((old(self).leftover@ + data@.take(q + 1)) + data@.skip(q + 1)
                            =~= old(self).leftover@ + data@);
                    }
                }
                Ok(Some(block))
            },
            None => {
                proof {
                    assert(data@.subrange(0, dlen as int) =~= data@);
                    data@.index_of_last_ensures(TERMINATOR);
                    c.index_of_last_ensures(TERMINATOR);
                    assert(c.index_of_last(TERMINATOR) is None) by {
                        if c.index_of_last(TERMINATOR) is Some {
                            let j = c.index_of_last(TERMINATOR).unwrap();
                            if j < llen {
                                assert(c[j] == self.leftover@[j]);
                            } else {
                                assert(c[j] == data@[j - llen]);
                                assert(data@.contains(data@[j - llen]));
                            }
                        }
                    }
                    assert(unterminated_tail(c) == c);
                }
                if dlen >= self.cap || llen >= self.cap - dlen {
                    return Err(Error::RecordTooLong);
                }
                let mut t: usize = 0;
                while t < dlen
                    invariant
                        0 <= t <= dlen,
                        self.leftover@ == old(self).leftover@ + data@.take(t as int),
                        self.fed == old(self).fed,
                        self.emitted == old(self).emitted,
                        self.cap == old(self).cap,
                    decreases dlen - t,
                {
                    self.leftover.push(data[t]);
                    proof {
                        assert(old(self).leftover@ + data@.take(t + 1) =~= (old(self).leftover@
                            + data@.take(t as int)).push(data@[t as int]));
                    }
                    t = t + 1;
                }
                self.fed = Ghost(self.fed@ + data@);
                proof {
                    assert(self.leftover@ =~= c);
                    assert(self.emitted@ + self.leftover@ =~= self.fed@);
                }
                Ok(None)
            },
        }
    }

    /// The end of the input: emit the retained tail, if any, as one
    /// final (terminator-less) block.  Afterwards the emitted blocks
    /// hold exactly the fed bytes.
    pub fn finish(&mut self) -> (r: Option<Vec<u8>>)
        requires
            old(self).wf(),
        ensures
            final(self).wf(),
            final(self).fed_spec() == old(self).fed_spec(),
            final(self).emitted_spec() == old(self).fed_spec(),
            final(self).leftover_spec() == Seq::<u8>::empty(),
            match r {
                Some(block) => block@ == old(self).leftover_spec() && block@.len() > 0,
                None => old(self).leftover_spec().len() == 0,
            },
    {
        if self.leftover.len() == 0 {
            proof {
                assert(self.emitted@ =~= self.fed@);
            }
            return None;
        }
        let mut block: Vec<u8> = Vec::new();
        core::mem::swap(&mut self.leftover, &mut block);
        self.emitted = Ghost(self.emitted@ + block@);
        proof {
            assert(self.emitted@ =~= self.fed@);
        }
        Some(block)
    }
}

/// Once a chunker has flushed, its blocks reassemble the entire input
/// stream: nothing is lost and nothing is duplicated, however the
/// reads were split.
pub proof fn lemma_blocks_reassemble_stream(c: Chunker)
    requires
        c.wf(),
        c.leftover_spec().len() == 0,
    ensures
        c.emitted_spec() == c.fed_spec(),
{
    assert(c.emitted_spec() + c.leftover_spec() =~= c.emitted_spec());
}

} // verus!
