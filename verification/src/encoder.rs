//! The incremental encoder that builds a valid OID encoding.

use vstd::prelude::*;

use crate::arcs::{split0, split1, raws_to_arcs, Arc};
use crate::buffer::{Buffer, MAX_SIZE};
use crate::error::Error;
use crate::oid::ObjectIdentifier;
use crate::vlq::{
    enc_raws, lemma_decode_enc_raws, lemma_enc_raws_len, lemma_enc_raws_push, lemma_vlq_len,
    push_vlq, vlq,
};

verus! {

/// The single raw value that jointly encodes the first two arcs.
pub open spec fn pack_head(a0: u32, a1: u32) -> nat {
    if a0 < 2 {
        a0 as nat * 40 + a1 as nat
    } else {
        80 + a1 as nat
    }
}

/// The range rule on the first two arcs: the first is in `0..=2`, the
/// second in `0..=39` when the first is 0 or 1, and small enough that
/// the joint value fits the machine width when the first is 2.
pub open spec fn head_ok(a0: u32, a1: u32) -> bool {
    &&& a0 <= 2
    &&& a0 < 2 ==> a1 <= 39
    &&& a0 == 2 ==> a1 <= u32::MAX - 80
}

/// The raw base-128 values that encode a sequence of at least two arcs.
pub open spec fn arcs_to_raws(arcs: Seq<u32>) -> Seq<u32> {
    seq![pack_head(arcs[0], arcs[1]) as u32] + arcs.skip(2)
}

/// The canonical byte encoding of a sequence of at least two arcs.
pub open spec fn enc_of(arcs: Seq<u32>) -> Seq<u8> {
    enc_raws(arcs_to_raws(arcs))
}

/// Packing the first two arcs and unpacking the joint value are
/// mutually inverse on every pair the range rule allows.
pub proof fn lemma_pack_unpack(a0: u32, a1: u32)
    requires
        head_ok(a0, a1),
    ensures
        pack_head(a0, a1) <= u32::MAX,
        split0(pack_head(a0, a1) as u32) == a0,
        split1(pack_head(a0, a1) as u32) == a1,
{
}

pub proof fn lemma_head_ok_of_raw(v: u32)
    ensures
        head_ok(split0(v), split1(v)),
        pack_head(split0(v), split1(v)) == v,
{
}

/// Unpacking then packing is the identity at the raw-value level.
pub proof fn lemma_raws_arcs_raws(raws: Seq<u32>)
    requires
        raws.len() >= 1,
    ensures
        arcs_to_raws(raws_to_arcs(raws)) == raws,
        raws_to_arcs(raws).len() == raws.len() + 1,
        head_ok(raws_to_arcs(raws)[0], raws_to_arcs(raws)[1]),
{
    let arcs = raws_to_arcs(raws);
    lemma_head_ok_of_raw(raws.first());
    assert(arcs[0] == split0(raws.first()) && arcs[1] == split1(raws.first()));
    assert(arcs.skip(2) =~= raws.drop_first());
    assert(arcs_to_raws(arcs) =~= raws);
}

/// Appending an arc to at least two appends one raw value.
pub proof fn lemma_enc_of_push(arcs: Seq<u32>, a: u32)
    requires
        arcs.len() >= 2,
    ensures
        arcs_to_raws(arcs.push(a)) == arcs_to_raws(arcs).push(a),
        enc_of(arcs.push(a)) == enc_of(arcs) + vlq(a as nat),
{
    assert(arcs_to_raws(arcs.push(a)) =~= arcs_to_raws(arcs).push(a));
    lemma_enc_raws_push(arcs_to_raws(arcs), a);
}

/// The encoding of a prefix of the arcs is a byte prefix of the
/// encoding of all of them.
pub proof fn lemma_enc_of_prefix(arcs: Seq<u32>, n: int)
    requires
        2 <= n <= arcs.len(),
    ensures
        enc_of(arcs) == enc_of(arcs.take(n)) + enc_raws(arcs.skip(n)),
        enc_of(arcs.take(n)).len() <= enc_of(arcs).len(),
        enc_of(arcs).take(enc_of(arcs.take(n)).len() as int) == enc_of(arcs.take(n)),
{
    let p = arcs.take(n);
    assert(p[0] == arcs[0] && p[1] == arcs[1]);
    assert(arcs_to_raws(p) + arcs.skip(n) =~= arcs_to_raws(arcs));
    crate::vlq::lemma_enc_raws_concat(arcs_to_raws(p), arcs.skip(n));
    assert(enc_of(arcs).take(enc_of(p).len() as int) =~= enc_of(p));
}

/// The outcome of offering one more arc to an encoder that already
/// holds `arcs`: `None` when the arc is accepted, the exact error kind
/// otherwise.
pub open spec fn append_err(arcs: Seq<u32>, a: u32) -> Option<Error> {
    if arcs.len() == 0 {
        if a > 2 {
            Some(Error::ArcOutOfRange)
        } else {
            None
        }
    } else if arcs.len() == 1 {
        if arcs[0] < 2 && a > 39 {
            Some(Error::ArcOutOfRange)
        } else if arcs[0] == 2 && a > u32::MAX - 80 {
            Some(Error::ArcOverflow)
        } else {
            None
        }
    } else {
        if enc_of(arcs.push(a)).len() > MAX_SIZE {
            Some(Error::CapacityExceeded)
        } else {
            None
        }
    }
}

/// The first error met when the arcs from position `i` on are offered
/// one by one to an encoder already holding the arcs before `i`.
pub open spec fn feed_err(arcs: Seq<u32>, i: int) -> Option<Error>
    decreases arcs.len() - i,
{
    if i < 0 || i >= arcs.len() {
        None
    } else {
        match append_err(arcs.take(i), arcs[i]) {
            Some(e) => Some(e),
            None => feed_err(arcs, i + 1),
        }
    }
}

/// Where the first arc is held until the second arrives.
pub enum EncoderState {
    /// No arc yet.
    Initial,
    /// The first arc, validated but not yet written.
    First(Arc),
    /// The joint head has been written; arcs now append directly.
    Body,
}

/// Builds a valid encoding incrementally: the first two arcs are
/// validated and jointly written, later arcs append their base-128
/// form, and capacity is enforced on every write.
pub struct Encoder {
    pub buf: Buffer,
    pub count: usize,
    pub state: EncoderState,
    pub arcs: Ghost<Seq<u32>>,
}

impl Encoder {
    pub open spec fn wf(self) -> bool {
        match self.state {
            EncoderState::Initial => self.arcs@.len() == 0 && self.count == 0 && self.buf.wf()
                && self.buf.bytes@.len() == 0,
            EncoderState::First(a) => self.arcs@ == seq![a] && self.count == 1 && a <= 2
                && self.buf.wf() && self.buf.bytes@.len() == 0,
            EncoderState::Body => {
                &&& self.count == self.arcs@.len()
                &&& 2 <= self.count <= 40
                &&& head_ok(self.arcs@[0], self.arcs@[1])
                &&& self.buf.wf()
                &&& self.buf.bytes@ == enc_of(self.arcs@)
            },
        }
    }

    pub fn new() -> (r: Encoder)
        ensures
            r.wf(),
            r.arcs@ == Seq::<u32>::empty(),
    {
        Encoder { buf: Buffer::new(), count: 0, state: EncoderState::Initial, arcs: Ghost(Seq::empty()) }
    }

    /// Offers one arc; fails exactly as [`append_err`] says, leaving no
    /// partial write behind.
    pub fn arc(self, arc: Arc) -> (r: Result<Encoder, Error>)
        requires
            self.wf(),
        ensures
            match r {
                Ok(e2) => append_err(self.arcs@, arc) is None && e2.wf() && e2.arcs@ == self.arcs@.push(arc),
                Err(e) => append_err(self.arcs@, arc) == Some(e),
            },
    {
        match self.state {
            EncoderState::Initial => {
                if arc > 2 {
                    return Err(Error::ArcOutOfRange);
                }
                proof {
                    assert(self.arcs@.push(arc) =~= seq![arc]);
                }
                Ok(Encoder {
                    buf: self.buf,
                    count: 1,
                    state: EncoderState::First(arc),
                    arcs: Ghost(self.arcs@.push(arc)),
                })
            },
            EncoderState::First(f) => {
                if f < 2 && arc > 39 {
                    return Err(Error::ArcOutOfRange);
                }
                if f == 2 && arc > u32::MAX - 80 {
                    return Err(Error::ArcOverflow);
                }
                let packed: u32 = if f < 2 {
                    f * 40 + arc
                } else {
                    80 + arc
                };
                let mut tmp: Vec<u8> = Vec::new();
                push_vlq(packed, &mut tmp);
                let mut buf = self.buf;
                let appended = buf.append(tmp.as_slice());
                proof {
                    lemma_vlq_len(packed as nat);
                }
                match appended {
                    Err(_) => {
                        proof {
                            assert(false);
                        }
                        Err(Error::CapacityExceeded)
                    },
                    Ok(()) => {
                        let e2 = Encoder {
                            buf,
                            count: 2,
                            state: EncoderState::Body,
                            arcs: Ghost(self.arcs@.push(arc)),
                        };
                        proof {
                            let arcs2 = self.arcs@.push(arc);
                            assert(arcs2[0] == f && arcs2[1] == arc);
                            assert(packed as nat == pack_head(f, arc));
                            assert(arcs_to_raws(arcs2) =~= seq![packed]);
                            assert(seq![packed].drop_first() =~= Seq::<u32>::empty());
                            assert(enc_raws(seq![packed])
                                == vlq(packed as nat) + enc_raws(Seq::<u32>::empty()));
                            assert(enc_of(arcs2) =~= vlq(packed as nat));
                            assert(e2.buf.bytes@ =~= enc_of(arcs2));
                        }
                        Ok(e2)
                    },
                }
            },
            EncoderState::Body => {
                let mut tmp: Vec<u8> = Vec::new();
                push_vlq(arc, &mut tmp);
                let mut buf = self.buf;
                proof {
                    lemma_enc_of_push(self.arcs@, arc);
                }
                match buf.append(tmp.as_slice()) {
                    Err(e) => {
                        proof {
                            assert(enc_of(self.arcs@.push(arc)).len() > MAX_SIZE);
                        }
                        Err(e)
                    },
                    Ok(()) => {
                        proof {
                            lemma_enc_raws_len(arcs_to_raws(self.arcs@.push(arc)));
                            assert(arcs_to_raws(self.arcs@.push(arc)).len()
                                == self.arcs@.len() - 1 + 1);
                        }
                        Ok(Encoder {
                            buf,
                            count: self.count + 1,
                            state: EncoderState::Body,
                            arcs: Ghost(self.arcs@.push(arc)),
                        })
                    },
                }
            },
        }
    }

    /// Wraps the buffer once at least three arcs have been supplied.
    pub fn finish(self) -> (r: Result<ObjectIdentifier, Error>)
        requires
            self.wf(),
        ensures
            match r {
                Ok(oid) => {
                    &&& self.arcs@.len() >= 3
                    &&& oid.wf()
                    &&& oid@ == self.arcs@
                    &&& oid.buffer.bytes@ == enc_of(self.arcs@)
                },
                Err(e) => e == Error::TooFewArcs && self.arcs@.len() < 3,
            },
    {
        if self.count < 3 {
            return Err(Error::TooFewArcs);
        }
        match self.state {
            EncoderState::Body => {
                let oid = ObjectIdentifier { buffer: self.buf };
                proof {
                    let raws = arcs_to_raws(self.arcs@);
                    lemma_decode_enc_raws(raws);
                    assert(raws.len() == self.arcs@.len() - 1 >= 2);
                    lemma_head_ok_of_raw(raws.first());
                    assert(raws.first() == pack_head(self.arcs@[0], self.arcs@[1]) as u32);
                    lemma_pack_unpack(self.arcs@[0], self.arcs@[1]);
                    assert(raws_to_arcs(raws) =~= self.arcs@);
                }
                Ok(oid)
            },
            _ => {
                proof {
                    assert(false);
                }
                Err(Error::TooFewArcs)
            },
        }
    }
}

} // verus!
