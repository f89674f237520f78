//! The library-wide laws, stated over the same spec functions the
//! public contracts use, and proved once for every input.

use vstd::prelude::*;

use crate::arcs::{arcs_res, raws_to_arcs};
use crate::buffer::MAX_SIZE;
use crate::encoder::{
    append_err, arcs_to_raws, enc_of, feed_err, head_ok, lemma_enc_of_prefix, lemma_pack_unpack,
};
use crate::error::Error;
use crate::oid::{from_bytes_res, is_byte_prefix, lemma_oid_props, oid_arcs, oid_bytes_wf};
use crate::parser::{dec_chars, digit_char, dotted, dotted_tail, parse_rec, parse_res};
use crate::vlq::{decode_raws, decode_step, enc_raws, lemma_decode_enc_raws, lemma_decode_enc_raws_rest, lemma_vlq_len};

verus! {

/// A sequence of at least three arcs whose head obeys the range rule
/// and whose encoding fits the buffer.
pub open spec fn arcs_valid(arcs: Seq<u32>) -> bool {
    &&& arcs.len() >= 3
    &&& head_ok(arcs[0], arcs[1])
    &&& enc_of(arcs).len() <= MAX_SIZE
}

/// Every single append that builds a valid sequence succeeds.
proof fn lemma_appends_ok(arcs: Seq<u32>)
    requires
        arcs.len() >= 2,
        head_ok(arcs[0], arcs[1]),
        enc_of(arcs).len() <= MAX_SIZE,
    ensures
        forall|j: int| 0 <= j < arcs.len() ==> append_err(arcs.take(j), arcs[j]) is None,
{
    assert forall|j: int| 0 <= j < arcs.len() implies append_err(arcs.take(j), arcs[j]) is None by {
        if j == 0 {
        } else if j == 1 {
            assert(arcs.take(1)[0] == arcs[0]);
        } else {
            lemma_enc_of_prefix(arcs, j + 1);
            assert(arcs.take(j).push(arcs[j]) =~= arcs.take(j + 1));
        }
    }
}

proof fn lemma_feed_none_from(arcs: Seq<u32>, i: int)
    requires
        arcs.len() >= 2,
        head_ok(arcs[0], arcs[1]),
        enc_of(arcs).len() <= MAX_SIZE,
        0 <= i,
    ensures
        feed_err(arcs, i) is None,
    decreases arcs.len() - i,
{
    if i < arcs.len() {
        lemma_appends_ok(arcs);
        lemma_feed_none_from(arcs, i + 1);
    }
}

/// Feeding a valid sequence to the encoder never fails.
pub proof fn lemma_feed_ok(arcs: Seq<u32>)
    requires
        arcs.len() >= 2,
        head_ok(arcs[0], arcs[1]),
        enc_of(arcs).len() <= MAX_SIZE,
    ensures
        feed_err(arcs, 0) is None,
{
    lemma_feed_none_from(arcs, 0);
}

proof fn lemma_feed_capacity_from(arcs: Seq<u32>, i: int)
    requires
        arcs.len() >= 3,
        head_ok(arcs[0], arcs[1]),
        enc_of(arcs).len() > MAX_SIZE,
        2 <= i <= arcs.len(),
        enc_of(arcs.take(i)).len() <= MAX_SIZE,
    ensures
        feed_err(arcs, i) == Some(Error::CapacityExceeded),
    decreases arcs.len() - i,
{
    lemma_enc_of_prefix(arcs, i);
    assert(arcs.take(arcs.len() as int) =~= arcs);
    assert(i < arcs.len());
    assert(arcs.take(i).push(arcs[i]) =~= arcs.take(i + 1));
    if enc_of(arcs.take(i + 1)).len() > MAX_SIZE {
        assert(append_err(arcs.take(i), arcs[i]) == Some(Error::CapacityExceeded));
    } else {
        lemma_feed_capacity_from(arcs, i + 1);
    }
}

/// Capacity boundary: a valid arc sequence whose encoding fits in
/// `MAX_SIZE` bytes encodes without error, and one whose encoding is
/// even one byte longer fails with `CapacityExceeded` and no other
/// error.
pub proof fn lemma_capacity_boundary(arcs: Seq<u32>)
    requires
        arcs.len() >= 3,
        head_ok(arcs[0], arcs[1]),
    ensures
        enc_of(arcs).len() <= MAX_SIZE ==> feed_err(arcs, 0) is None,
        enc_of(arcs).len() > MAX_SIZE ==> feed_err(arcs, 0) == Some(Error::CapacityExceeded),
{
    if enc_of(arcs).len() <= MAX_SIZE {
        lemma_feed_ok(arcs);
    } else {
        lemma_pack_unpack(arcs[0], arcs[1]);
        lemma_vlq_len(crate::encoder::pack_head(arcs[0], arcs[1]));
        assert(arcs.take(2)[0] == arcs[0] && arcs.take(2)[1] == arcs[1]);
        assert(arcs_to_raws(arcs.take(2)) =~= seq![
            crate::encoder::pack_head(arcs[0], arcs[1]) as u32,
        ]);
        let pk = crate::encoder::pack_head(arcs[0], arcs[1]) as u32;
        assert(seq![pk].drop_first() =~= Seq::<u32>::empty());
        assert(enc_raws(seq![pk]) == crate::vlq::vlq(pk as nat) + enc_raws(seq![pk].drop_first()));
        assert(enc_raws(seq![pk].drop_first()) == Seq::<u8>::empty());
        assert(enc_of(arcs.take(2)).len() <= 5);
        lemma_feed_capacity_from(arcs, 2);
        assert(arcs.take(0) =~= Seq::<u32>::empty());
        assert(arcs.take(1)[0] == arcs[0]);
        assert(append_err(arcs.take(0), arcs[0]) is None);
        assert(append_err(arcs.take(1), arcs[1]) is None);
        assert(feed_err(arcs, 1) == feed_err(arcs, 2));
        assert(feed_err(arcs, 0) == feed_err(arcs, 1));
    }
}

/// Round trip from arcs: decoding the encoding of any valid arc
/// sequence yields exactly those arcs, and the encoding is a valid
/// OID image whenever it fits the buffer.
pub proof fn lemma_encode_decode(arcs: Seq<u32>)
    requires
        arcs.len() >= 2,
        head_ok(arcs[0], arcs[1]),
    ensures
        arcs_res(enc_of(arcs)) == Ok::<Seq<u32>, Error>(arcs),
        arcs.len() >= 3 && enc_of(arcs).len() <= MAX_SIZE ==> oid_bytes_wf(enc_of(arcs))
            && oid_arcs(enc_of(arcs)) == arcs,
{
    let raws = arcs_to_raws(arcs);
    lemma_decode_enc_raws(raws);
    lemma_pack_unpack(arcs[0], arcs[1]);
    assert(raws.first() == crate::encoder::pack_head(arcs[0], arcs[1]) as u32);
    assert(raws.drop_first() =~= arcs.skip(2));
    assert(raws_to_arcs(raws) =~= arcs);
}

/// Round trip from bytes: ingesting the serialization of any valid
/// OID image of at least three bytes succeeds and yields the same
/// arcs, hence the same OID.  (A two-byte image, which only the
/// minimal heads produce, is rejected by the raw-byte length rule.)
pub proof fn lemma_bytes_round_trip(bytes: Seq<u8>)
    requires
        oid_bytes_wf(bytes),
        bytes.len() >= 3,
    ensures
        from_bytes_res(bytes) == Ok::<Seq<u32>, Error>(oid_arcs(bytes)),
{
}

/// Prefix law: one valid OID image is a byte prefix of another
/// exactly when its arcs are a literal arc prefix of the other's.
pub proof fn lemma_prefix_iff(p: Seq<u8>, q: Seq<u8>)
    requires
        oid_bytes_wf(p),
        oid_bytes_wf(q),
    ensures
        is_byte_prefix(p, q) <==> (oid_arcs(p).len() <= oid_arcs(q).len() && oid_arcs(p)
            == oid_arcs(q).take(oid_arcs(p).len() as int)),
{
    lemma_oid_props(p);
    lemma_oid_props(q);
    let pa = oid_arcs(p);
    let qa = oid_arcs(q);
    if is_byte_prefix(p, q) {
        let rest = q.skip(p.len() as int);
        assert(q =~= p + rest);
        let rp = decode_raws(p)->Ok_0;
        let rq = decode_raws(q)->Ok_0;
        lemma_decode_enc_raws_rest(rp, rest);
        match decode_step(rest, 0, false) {
            Err(_) => {
                assert(false);
            },
            Ok(rr) => {
                assert(rq == rp + rr);
                assert(rq.first() == rp.first());
                assert(pa.len() == rp.len() + 1 && qa.len() == rq.len() + 1);
                assert(pa =~= qa.take(pa.len() as int));
            },
        }
    }
    if pa.len() <= qa.len() && pa == qa.take(pa.len() as int) {
        lemma_enc_of_prefix(qa, pa.len() as int);
        assert(enc_of(qa.take(pa.len() as int)) == enc_of(pa));
    }
}

/// String round trip: rendering any valid arc sequence and parsing the
/// result yields exactly those arcs; with the parser's and renderer's
/// contracts this says the dotted form of a parsed string is its
/// canonical spelling, arcs unchanged and leading zeros dropped.
pub proof fn lemma_render_parse(arcs: Seq<u32>)
    requires
        arcs_valid(arcs),
    ensures
        parse_res(dotted(arcs)) == Ok::<Seq<u32>, Error>(arcs),
{
    lemma_appends_ok(arcs);
    assert(dotted(arcs) =~= dec_chars(arcs[0] as nat) + dotted_tail(arcs.skip(1)));
    lemma_shift10_zero(arcs[0] as nat);
    lemma_parse_digits(arcs[0], 0, dotted_tail(arcs.skip(1)), false, Seq::empty());
    assert(Seq::<u32>::empty() =~= arcs.take(0));
    lemma_parse_dotted_from(arcs, 1);
}

/// The accumulator after the decimal digits of `v` are folded onto
/// `acc`.
spec fn shift10(acc: nat, v: nat) -> nat
    decreases v,
{
    if v < 10 {
        acc * 10 + v
    } else {
        shift10(acc, v / 10) * 10 + v % 10
    }
}

proof fn lemma_shift10_zero(v: nat)
    ensures
        shift10(0, v) == v,
    decreases v,
{
    if v >= 10 {
        lemma_shift10_zero(v / 10);
    }
}

proof fn lemma_digit_code(d: nat)
    requires
        d < 10,
    ensures
        digit_char(d) as u32 == 48 + d,
        digit_char(d) != '.',
{
}

/// Scanning the decimal spelling of `v` folds `v` onto the
/// accumulator and marks the segment as begun.
proof fn lemma_parse_digits(v: u32, acc: nat, rest: Seq<char>, seen: bool, arcs: Seq<u32>)
    requires
        shift10(acc, v as nat) <= u32::MAX,
    ensures
        parse_rec(dec_chars(v as nat) + rest, acc, seen, arcs) == parse_rec(
            rest,
            shift10(acc, v as nat),
            true,
            arcs,
        ),
    decreases v,
{
    if v < 10 {
        lemma_digit_code(v as nat);
        let s = dec_chars(v as nat) + rest;
        assert(s.first() == digit_char(v as nat));
        assert(s.drop_first() =~= rest);
    } else {
        lemma_digit_code((v as nat) % 10);
        let low = digit_char((v as nat) % 10);
        assert(dec_chars(v as nat) + rest =~= dec_chars((v as nat) / 10) + (seq![low] + rest));
        assert(shift10(acc, (v as nat) / 10) <= shift10(acc, v as nat));
        lemma_parse_digits(v / 10, acc, seq![low] + rest, seen, arcs);
        let s1 = seq![low] + rest;
        assert(s1.first() == low);
        assert(s1.drop_first() =~= rest);
    }
}

/// Scanning the dotted spelling of the arcs from position `i` on,
/// with arc `i - 1` accumulated and the earlier arcs already fed,
/// parses the whole sequence.
proof fn lemma_parse_dotted_from(arcs: Seq<u32>, i: int)
    requires
        arcs_valid(arcs),
        1 <= i <= arcs.len(),
        forall|j: int| 0 <= j < arcs.len() ==> append_err(arcs.take(j), arcs[j]) is None,
    ensures
        parse_rec(dotted_tail(arcs.skip(i)), arcs[i - 1] as nat, true, arcs.take(i - 1)) == Ok::<
            Seq<u32>,
            Error,
        >(arcs),
    decreases arcs.len() - i,
{
    if i == arcs.len() {
        assert(arcs.skip(i) =~= Seq::<u32>::empty());
        assert(dotted_tail(arcs.skip(i)) =~= Seq::<char>::empty());
        assert(append_err(arcs.take(i - 1), arcs[i - 1]) is None);
        assert(arcs.take(i - 1).push(arcs[i - 1]) =~= arcs);
    } else {
        let tail = dotted_tail(arcs.skip(i));
        assert(arcs.skip(i).first() == arcs[i]);
        assert(arcs.skip(i).drop_first() =~= arcs.skip(i + 1));
        assert(tail =~= seq!['.'] + (dec_chars(arcs[i] as nat) + dotted_tail(arcs.skip(i + 1))));
        let s1 = seq!['.'] + (dec_chars(arcs[i] as nat) + dotted_tail(arcs.skip(i + 1)));
        assert(s1.first() == '.');
        assert(s1.drop_first() =~= dec_chars(arcs[i] as nat) + dotted_tail(arcs.skip(i + 1)));
        assert(append_err(arcs.take(i - 1), arcs[i - 1]) is None);
        assert(arcs.take(i - 1).push(arcs[i - 1]) =~= arcs.take(i));
        lemma_shift10_zero(arcs[i] as nat);
        lemma_parse_digits(arcs[i], 0, dotted_tail(arcs.skip(i + 1)), false, arcs.take(i));
        lemma_parse_dotted_from(arcs, i + 1);
    }
}

} // verus!
