//! Arcs and the fallible cursor that decodes them from bytes.

use vstd::prelude::*;

use crate::error::Error;
use crate::vlq::{decode_raws, decode_step, read_raw};

verus! {

/// One integer node value in an OID's hierarchical path.
pub type Arc = u32;

/// The first logical arc packed into the leading raw value.
pub open spec fn split0(v: u32) -> u32 {
    if v < 80 {
        v / 40
    } else {
        2
    }
}

/// The second logical arc packed into the leading raw value.
pub open spec fn split1(v: u32) -> u32 {
    if v < 80 {
        v % 40
    } else {
        (v - 80) as u32
    }
}

/// The logical arcs named by a sequence of raw base-128 values: the
/// first raw value is unpacked into two arcs, the rest stand for one
/// arc each.
pub open spec fn raws_to_arcs(raws: Seq<u32>) -> Seq<u32> {
    if raws.len() == 0 {
        Seq::empty()
    } else {
        seq![split0(raws.first()), split1(raws.first())] + raws.drop_first()
    }
}

/// The arcs encoded by `bytes`, or the first decoding error.
pub open spec fn arcs_res(bytes: Seq<u8>) -> Result<Seq<u32>, Error> {
    match decode_raws(bytes) {
        Ok(r) => Ok(raws_to_arcs(r)),
        Err(e) => Err(e),
    }
}

/// Decodes a byte slice lazily into its arc values, applying the
/// two-arc unpacking rule on the first raw value; fallible per step.
///
/// A cursor cannot be reset, but a fresh one can always be created from
/// the same slice.
pub struct Arcs<'a> {
    pub bytes: &'a [u8],
    pub pos: usize,
    pub pending: Option<Arc>,
    pub started: bool,
}

impl<'a> Arcs<'a> {
    pub open spec fn wf(self) -> bool {
        &&& self.pos <= self.bytes@.len()
        &&& !self.started ==> self.pos == 0 && self.pending is None
    }

    /// The arcs this cursor has yet to emit, or the first error it will
    /// meet.
    pub open spec fn rem(self) -> Result<Seq<u32>, Error> {
        if !self.started {
            arcs_res(self.bytes@)
        } else {
            match decode_raws(self.bytes@.skip(self.pos as int)) {
                Ok(r) => Ok(
                    match self.pending {
                        Some(a) => seq![a] + r,
                        None => r,
                    },
                ),
                Err(e) => Err(e),
            }
        }
    }

    /// Strictly decreases with every arc emitted.
    pub open spec fn measure(self) -> int {
        self.bytes@.len() - self.pos + (if self.pending is Some {
            1int
        } else {
            0int
        }) + (if !self.started {
            1int
        } else {
            0int
        })
    }

    pub fn new(bytes: &'a [u8]) -> (r: Arcs<'a>)
        ensures
            r.wf(),
            r.bytes@ == bytes@,
            r.rem() == arcs_res(bytes@),
            r.measure() <= bytes@.len() + 1,
    {
        Arcs { bytes, pos: 0, pending: None, started: false }
    }

    /// Emits the next arc, the end of the sequence, or the first
    /// decoding error.
    pub fn try_next(&mut self) -> (r: Result<Option<Arc>, Error>)
        requires
            old(self).wf(),
        ensures
            final(self).wf(),
            final(self).bytes == old(self).bytes,
            match r {
                Ok(Some(a)) => final(self).measure() < old(self).measure() && match old(
                    self,
                ).rem() {
                    Ok(s) => s.len() >= 1 && a == s.first() && final(self).rem() == Ok::<
                        Seq<u32>,
                        Error,
                    >(s.drop_first()),
                    Err(e) => final(self).rem() == Err::<Seq<u32>, Error>(e),
                },
                Ok(None) => old(self).rem() == Ok::<Seq<u32>, Error>(Seq::empty()) && *final(self)
                    == *old(self),
                Err(e) => old(self).rem() == Err::<Seq<u32>, Error>(e) && *final(self) == *old(self),
            },
    {
        match self.pending {
            Some(a) => {
                self.pending = None;
                proof {
                    let s = self.bytes@.skip(self.pos as int);
                    if decode_raws(s) is Ok {
                        let rr = decode_raws(s)->Ok_0;
                        assert((seq![a] + rr).drop_first() =~= rr);
                    }
                }
                return Ok(Some(a));
            },
            None => {},
        }
        if self.pos == self.bytes.len() {
            proof {
                assert(self.bytes@.skip(self.pos as int) =~= Seq::<u8>::empty());
                if !self.started {
                    assert(self.bytes@.skip(0) =~= self.bytes@);
                }
            }
            return Ok(None);
        }
        proof {
            if !self.started {
                assert(self.bytes@.skip(0) =~= self.bytes@);
            }
        }
        match read_raw(self.bytes, self.pos) {
            Err(e) => Err(e),
            Ok((v, end)) => {
                let ghost tail = decode_step(self.bytes@.skip(end as int), 0, false);
                self.pos = end;
                if !self.started {
                    self.started = true;
                    let first: u32 = if v < 80 {
                        v / 40
                    } else {
                        2
                    };
                    let second: u32 = if v < 80 {
                        v % 40
                    } else {
                        v - 80
                    };
                    self.pending = Some(second);
                    proof {
                        if tail is Ok {
                            let rr = tail->Ok_0;
                            let s = raws_to_arcs(seq![v] + rr);
                            assert((seq![v] + rr).first() == v);
                            assert((seq![v] + rr).drop_first() =~= rr);
                            assert(s.first() == split0(v));
                            assert(s.drop_first() =~= seq![split1(v)] + rr);
                        }
                    }
                    Ok(Some(first))
                } else {
                    proof {
                        if tail is Ok {
                            let rr = tail->Ok_0;
                            let ghost prev = match old(self).pending {
                                Some(a) => seq![a] + (seq![v] + rr),
                                None => seq![v] + rr,
                            };
                            assert((seq![v] + rr).first() == v);
                            assert((seq![v] + rr).drop_first() =~= rr);
                        }
                    }
                    Ok(Some(v))
                }
            },
        }
    }
}

/// Decodes every arc of `bytes`, or reports the first error: the whole
/// validation that the raw-byte constructor relies on.
pub fn read_all(bytes: &[u8]) -> (r: Result<Vec<Arc>, Error>)
    ensures
        match r {
            Ok(v) => arcs_res(bytes@) == Ok::<Seq<u32>, Error>(v@),
            Err(e) => arcs_res(bytes@) == Err::<Seq<u32>, Error>(e),
        },
{
    let mut cur = Arcs::new(bytes);
    let mut out: Vec<Arc> = Vec::new();
    proof {
        if arcs_res(bytes@) is Ok {
            let s = arcs_res(bytes@)->Ok_0;
            assert(out@ =~= s.take(0));
            assert(s.skip(0) =~= s);
        }
    }
    loop
        invariant
            cur.wf(),
            cur.bytes@ == bytes@,
            match arcs_res(bytes@) {
                Ok(s) => out@.len() <= s.len() && out@ == s.take(out@.len() as int) && cur.rem()
                    == Ok::<Seq<u32>, Error>(s.skip(out@.len() as int)),
                Err(e) => cur.rem() == Err::<Seq<u32>, Error>(e),
            },
        decreases cur.measure(),
    {
        match cur.try_next() {
            Ok(Some(a)) => {
                proof {
                    if arcs_res(bytes@) is Ok {
                        let s = arcs_res(bytes@)->Ok_0;
                        let n = out@.len() as int;
                        assert(s.skip(n).first() == s[n]);
                        assert(s.skip(n).drop_first() =~= s.skip(n + 1));
                        assert(out@.push(a) =~= s.take(n + 1));
                    }
                }
                out.push(a);
            },
            Ok(None) => {
                proof {
                    let s = arcs_res(bytes@)->Ok_0;
                    assert(s.skip(out@.len() as int) =~= Seq::<u32>::empty());
                    assert(s.take(out@.len() as int) =~= s);
                }
                return Ok(out);
            },
            Err(e) => {
                return Err(e);
            },
        }
    }
}

} // verus!
