//! Self-terminating base-128 variable-length integers.
//!
//! Each arc of an OID (after the joint first pair) is encoded big-endian,
//! seven bits per byte, with bit 7 set on every byte except the last.
//! This module holds the reusable encode/decode pair, independent of the
//! OID-specific two-arc packing rule, together with the round-trip proof.

use vstd::prelude::*;

use crate::error::Error;

verus! {

/// The continuation bytes (bit 7 set) that spell the high base-128
/// groups of `u`, most significant group first.
pub open spec fn vlq_tail(u: nat) -> Seq<u8>
    decreases u,
{
    if u < 128 {
        seq![(u as u8) | 0x80]
    } else {
        vlq_tail(u / 128) + seq![((u % 128) as u8) | 0x80]
    }
}

/// The canonical (minimal) base-128 encoding of `v`: high groups with the
/// continuation bit set, then the lowest group with it clear.
pub open spec fn vlq(v: nat) -> Seq<u8> {
    if v < 128 {
        seq![v as u8]
    } else {
        vlq_tail(v / 128) + seq![(v % 128) as u8]
    }
}

/// The concatenation of the canonical encodings of a sequence of raw
/// values.
pub open spec fn enc_raws(raws: Seq<u32>) -> Seq<u8>
    decreases raws.len(),
{
    if raws.len() == 0 {
        Seq::empty()
    } else {
        vlq(raws.first() as nat) + enc_raws(raws.drop_first())
    }
}

/// One step of the base-128 decoding state machine over `bytes`: `acc` is
/// the value accumulated for the arc in progress, and `mid` says whether
/// at least one byte of that arc was already consumed.  Returns the raw
/// values of the whole input, or the first error met.
pub open spec fn decode_step(bytes: Seq<u8>, acc: nat, mid: bool) -> Result<Seq<u32>, Error>
    decreases bytes.len(),
{
    if bytes.len() == 0 {
        if mid {
            Err(Error::TruncatedArc)
        } else {
            Ok(Seq::empty())
        }
    } else {
        let b = bytes.first();
        let acc2 = acc * 128 + (b & 0x7f) as nat;
        if acc2 > u32::MAX as nat {
            Err(Error::ArcOverflow)
        } else if b & 0x80 == 0x80 {
            decode_step(bytes.drop_first(), acc2, true)
        } else {
            match decode_step(bytes.drop_first(), 0, false) {
                Ok(r) => Ok(seq![acc2 as u32] + r),
                Err(e) => Err(e),
            }
        }
    }
}

/// The raw base-128 values of `bytes`, or the first decoding error.
pub open spec fn decode_raws(bytes: Seq<u8>) -> Result<Seq<u32>, Error> {
    decode_step(bytes, 0, false)
}

/// The accumulator after the groups of `u` have been folded onto `acc`:
/// `acc * 128^k + u`, written without powers.
pub open spec fn shift_acc(acc: nat, u: nat) -> nat
    decreases u,
{
    if u < 128 {
        acc * 128 + u
    } else {
        shift_acc(acc, u / 128) * 128 + u % 128
    }
}

pub proof fn lemma_shift_acc_zero(u: nat)
    ensures
        shift_acc(0, u) == u,
    decreases u,
{
    if u >= 128 {
        lemma_shift_acc_zero(u / 128);
    }
}

pub proof fn lemma_shift_acc_ge(acc: nat, u: nat)
    ensures
        shift_acc(acc, u) >= acc * 128,
        shift_acc(acc, u) >= u,
    decreases u,
{
    if u >= 128 {
        lemma_shift_acc_ge(acc, u / 128);
        assert(shift_acc(acc, u / 128) * 128 >= acc * 128 * 128) by (nonlinear_arith)
            requires shift_acc(acc, u / 128) >= acc * 128;
        assert(acc * 128 * 128 >= acc * 128) by (nonlinear_arith);
        assert(shift_acc(acc, u / 128) * 128 >= (u / 128) * 128) by (nonlinear_arith)
            requires shift_acc(acc, u / 128) >= u / 128;
        assert((u / 128) * 128 + u % 128 == u);
    }
}

/// The length of the canonical encoding, exactly, for every value a
/// machine word can hold.
pub proof fn lemma_vlq_tail_len(u: nat)
    ensures
        vlq_tail(u).len() >= 1,
        u < 128 ==> vlq_tail(u).len() == 1,
        u < 16384 ==> vlq_tail(u).len() <= 2,
        u < 2097152 ==> vlq_tail(u).len() <= 3,
        u < 268435456 ==> vlq_tail(u).len() <= 4,
        u < 34359738368 ==> vlq_tail(u).len() <= 5,
    decreases u,
{
    if u >= 128 {
        lemma_vlq_tail_len(u / 128);
    }
}

pub proof fn lemma_vlq_len(v: nat)
    ensures
        1 <= vlq(v).len(),
        v <= u32::MAX as nat ==> vlq(v).len() <= 5,
{
    if v >= 128 {
        lemma_vlq_tail_len(v / 128);
    }
}

/// Every encoding is at least one byte per raw value.
pub proof fn lemma_enc_raws_len(raws: Seq<u32>)
    ensures
        enc_raws(raws).len() >= raws.len(),
    decreases raws.len(),
{
    if raws.len() > 0 {
        lemma_vlq_len(raws.first() as nat);
        lemma_enc_raws_len(raws.drop_first());
    }
}

/// Appending one raw value appends its encoding.
pub proof fn lemma_enc_raws_push(raws: Seq<u32>, v: u32)
    ensures
        enc_raws(raws.push(v)) == enc_raws(raws) + vlq(v as nat),
    decreases raws.len(),
{
    if raws.len() == 0 {
        assert(raws.push(v).drop_first() =~= Seq::<u32>::empty());
        assert(raws.push(v).first() == v);
        assert(enc_raws(raws.push(v))
            == vlq(v as nat) + enc_raws(raws.push(v).drop_first()));
        assert(enc_raws(raws.push(v).drop_first()) == Seq::<u8>::empty());
        assert(enc_raws(raws.push(v)) =~= enc_raws(raws) + vlq(v as nat));
    } else {
        let l = raws.push(v);
        assert(l.drop_first() =~= raws.drop_first().push(v));
        assert(l.first() == raws.first());
        assert(enc_raws(l) == vlq(l.first() as nat) + enc_raws(l.drop_first()));
        lemma_enc_raws_push(raws.drop_first(), v);
        assert(enc_raws(raws) == vlq(raws.first() as nat) + enc_raws(raws.drop_first()));
        assert(vlq(raws.first() as nat) + (enc_raws(raws.drop_first()) + vlq(v as nat))
            =~= (vlq(raws.first() as nat) + enc_raws(raws.drop_first())) + vlq(v as nat));
    }
}

/// Encoding distributes over concatenation.
pub proof fn lemma_enc_raws_concat(r1: Seq<u32>, r2: Seq<u32>)
    ensures
        enc_raws(r1 + r2) == enc_raws(r1) + enc_raws(r2),
    decreases r1.len(),
{
    if r1.len() == 0 {
        assert(r1 + r2 =~= r2);
        assert(enc_raws(r1) =~= Seq::<u8>::empty());
        assert(enc_raws(r1) + enc_raws(r2) =~= enc_raws(r2));
    } else {
        assert((r1 + r2).first() == r1.first());
        assert((r1 + r2).drop_first() =~= r1.drop_first() + r2);
        lemma_enc_raws_concat(r1.drop_first(), r2);
        assert(enc_raws(r1 + r2)
            == vlq(r1.first() as nat) + (enc_raws(r1.drop_first()) + enc_raws(r2)));
        assert(vlq(r1.first() as nat) + (enc_raws(r1.drop_first()) + enc_raws(r2))
            =~= (vlq(r1.first() as nat) + enc_raws(r1.drop_first())) + enc_raws(r2));
    }
}

/// Consuming the continuation bytes of `u` folds `u` onto the
/// accumulator and leaves the machine mid-arc.
proof fn lemma_decode_tail(u: nat, acc: nat, rest: Seq<u8>)
    requires
        shift_acc(acc, u) <= u32::MAX as nat,
    ensures
        decode_step(vlq_tail(u) + rest, acc, true) == decode_step(rest, shift_acc(acc, u), true),
    decreases u,
{
    if u < 128 {
        let x: u8 = u as u8;
        let b: u8 = x | 0x80;
        assert(b & 0x7f == x && b & 0x80 == 0x80) by (bit_vector)
            requires b == x | 0x80 && x < 128;
        let s = vlq_tail(u) + rest;
        assert(s.first() == b);
        assert(s.drop_first() =~= rest);
    } else {
        let x: u8 = (u % 128) as u8;
        let b: u8 = x | 0x80;
        assert(b & 0x7f == x && b & 0x80 == 0x80) by (bit_vector)
            requires b == x | 0x80 && x < 128;
        let mid = vlq_tail(u / 128) + (seq![b] + rest);
        assert(vlq_tail(u) + rest =~= mid);
        lemma_shift_acc_ge(acc, u / 128);
        lemma_decode_tail(u / 128, acc, seq![b] + rest);
        let acc1 = shift_acc(acc, u / 128);
        let s1 = seq![b] + rest;
        assert(s1.first() == b);
        assert(s1.drop_first() =~= rest);
        assert(acc1 * 128 + (u % 128) == shift_acc(acc, u));
    }
}

/// Decoding a canonical encoding followed by anything yields the value,
/// then whatever the remainder yields.
pub proof fn lemma_decode_vlq(v: u32, rest: Seq<u8>)
    ensures
        decode_step(vlq(v as nat) + rest, 0, false) == match decode_step(rest, 0, false) {
            Ok(r) => Ok::<Seq<u32>, Error>(seq![v] + r),
            Err(e) => Err(e),
        },
{
    if v < 128 {
        let b: u8 = v as u8;
        assert(b & 0x7f == b && b & 0x80 == 0) by (bit_vector)
            requires b < 128;
        let s = vlq(v as nat) + rest;
        assert(s.first() == b);
        assert(s.drop_first() =~= rest);
    } else {
        let u = (v as nat) / 128;
        let low: u8 = ((v as nat) % 128) as u8;
        let mid = vlq_tail(u) + (seq![low] + rest);
        assert(vlq(v as nat) + rest =~= mid);
        lemma_shift_acc_zero(u);
        lemma_decode_tail(u, 0, seq![low] + rest);
        assert(shift_acc(0, u) == u);
        let s1 = seq![low] + rest;
        assert(s1.first() == low);
        assert(s1.drop_first() =~= rest);
        assert(low & 0x7f == low && low & 0x80 == 0) by (bit_vector)
            requires low < 128;
        assert(u * 128 + ((v as nat) % 128) == v as nat);
    }
}

/// Decoding the canonical encodings of `raws` followed by anything
/// yields the values, then whatever the remainder yields: arc
/// encodings are self-terminating, so a decoder never reads past them.
pub proof fn lemma_decode_enc_raws_rest(raws: Seq<u32>, rest: Seq<u8>)
    ensures
        decode_step(enc_raws(raws) + rest, 0, false) == match decode_step(rest, 0, false) {
            Ok(rr) => Ok::<Seq<u32>, Error>(raws + rr),
            Err(e) => Err(e),
        },
    decreases raws.len(),
{
    let tail = decode_step(rest, 0, false);
    if raws.len() == 0 {
        assert(enc_raws(raws) + rest =~= rest);
        if tail is Ok {
            assert(raws + tail->Ok_0 =~= tail->Ok_0);
        }
    } else {
        lemma_decode_enc_raws_rest(raws.drop_first(), rest);
        lemma_decode_vlq(raws.first(), enc_raws(raws.drop_first()) + rest);
        assert(enc_raws(raws) + rest =~= vlq(raws.first() as nat) + (enc_raws(raws.drop_first())
            + rest));
        if tail is Ok {
            assert(seq![raws.first()] + (raws.drop_first() + tail->Ok_0) =~= raws + tail->Ok_0);
        }
    }
}

/// The round trip at the raw-value level: decoding the concatenated
/// canonical encodings gives back exactly the values encoded.
pub proof fn lemma_decode_enc_raws(raws: Seq<u32>)
    ensures
        decode_raws(enc_raws(raws)) == Ok::<Seq<u32>, Error>(raws),
    decreases raws.len(),
{
    if raws.len() == 0 {
        assert(raws =~= Seq::<u32>::empty());
        assert(enc_raws(raws) =~= Seq::<u8>::empty());
    } else {
        lemma_decode_enc_raws(raws.drop_first());
        lemma_decode_vlq(raws.first(), enc_raws(raws.drop_first()));
        assert(enc_raws(raws) == vlq(raws.first() as nat) + enc_raws(raws.drop_first()));
        assert(decode_step(enc_raws(raws.drop_first()), 0, false)
            == Ok::<Seq<u32>, Error>(raws.drop_first()));
        assert(decode_step(enc_raws(raws), 0, false)
            == Ok::<Seq<u32>, Error>(seq![raws.first()] + raws.drop_first()));
        assert(seq![raws.first()] + raws.drop_first() =~= raws);
    }
}

/// Appends the continuation bytes of `u` to `out`.
fn push_vlq_tail(u: u32, out: &mut Vec<u8>)
    ensures
        final(out)@ == old(out)@ + vlq_tail(u as nat),
    decreases u,
{
    if u < 128 {
        out.push((u as u8) | 0x80);
        assert(final(out)@ =~= old(out)@ + vlq_tail(u as nat));
    } else {
        push_vlq_tail(u / 128, out);
        out.push(((u % 128) as u8) | 0x80);
        assert(final(out)@ =~= old(out)@ + vlq_tail(u as nat));
    }
}

/// Appends the canonical base-128 encoding of `v` to `out`.
pub fn push_vlq(v: u32, out: &mut Vec<u8>)
    ensures
        final(out)@ == old(out)@ + vlq(v as nat),
{
    if v < 128 {
        out.push(v as u8);
        assert(final(out)@ =~= old(out)@ + vlq(v as nat));
    } else {
        push_vlq_tail(v / 128, out);
        out.push((v % 128) as u8);
        assert(final(out)@ =~= old(out)@ + vlq(v as nat));
    }
}

/// Reads one base-128 value starting at `pos`; on success also returns
/// the position just past its terminating byte.
pub fn read_raw(bytes: &[u8], pos: usize) -> (r: Result<(u32, usize), Error>)
    requires
        pos < bytes@.len(),
    ensures
        match r {
            Ok(p) => pos < p.1 <= bytes@.len()
                && decode_step(bytes@.skip(pos as int), 0, false)
                    == match decode_step(bytes@.skip(p.1 as int), 0, false) {
                        Ok(rr) => Ok::<Seq<u32>, Error>(seq![p.0] + rr),
                        Err(e) => Err(e),
                    },
            Err(e) => decode_step(bytes@.skip(pos as int), 0, false) == Err::<Seq<u32>, Error>(e),
        },
{
    let ghost whole = decode_step(bytes@.skip(pos as int), 0, false);
    let mut i: usize = pos;
    let mut acc: u32 = 0;
    loop
        invariant
            pos <= i <= bytes@.len(),
            pos < bytes@.len(),
            whole == decode_step(bytes@.skip(pos as int), 0, false),
            decode_step(bytes@.skip(i as int), acc as nat, i != pos) == whole,
        decreases bytes@.len() - i,
    {
        if i == bytes.len() {
            // the slice ended with the continuation bit still set
            proof {
                assert(bytes@.skip(i as int) =~= Seq::<u8>::empty());
            }
            return Err(Error::TruncatedArc);
        }
        let b = bytes[i];
        proof {
            assert(bytes@.skip(i as int).first() == b);
            assert(bytes@.skip(i as int).drop_first() =~= bytes@.skip(i as int + 1));
        }
        if acc > u32::MAX / 128 {
            proof {
                assert(acc as nat * 128 >= (u32::MAX as nat / 128 + 1) * 128) by (nonlinear_arith)
                    requires acc as nat >= u32::MAX as nat / 128 + 1;
            }
            return Err(Error::ArcOverflow);
        }
        let low = (b & 0x7f) as u32;
        proof {
            assert(b & 0x7f < 128) by (bit_vector);
        }
        let acc2 = acc * 128 + low;
        if b & 0x80 == 0x80 {
            acc = acc2;
            i = i + 1;
        } else {
            return Ok((acc2, i + 1));
        }
    }
}

} // verus!
