//! The public object-identifier value type.

use vstd::prelude::*;
use vstd::slice::slice_to_vec;

use crate::arcs::{raws_to_arcs, read_all, Arc, Arcs};
use crate::buffer::{Buffer, MAX_SIZE};
use crate::encoder::{
    append_err, arcs_to_raws, enc_of, head_ok, lemma_enc_of_prefix, lemma_head_ok_of_raw,
    lemma_raws_arcs_raws, Encoder,
};
use crate::error::Error;
use crate::vlq::{
    decode_raws, decode_step, enc_raws, lemma_enc_raws_len, lemma_enc_raws_push, push_vlq,
    read_raw,
};

verus! {

/// A byte sequence is a valid OID encoding when it decodes without
/// error into at least two raw values and is the canonical encoding of
/// what it decodes to.
pub open spec fn oid_bytes_wf(bytes: Seq<u8>) -> bool {
    &&& bytes.len() <= MAX_SIZE
    &&& match decode_raws(bytes) {
        Ok(r) => r.len() >= 2 && enc_raws(r) == bytes,
        Err(_) => false,
    }
}

/// The arcs spelled by a valid encoding.
pub open spec fn oid_arcs(bytes: Seq<u8>) -> Seq<u32> {
    match decode_raws(bytes) {
        Ok(r) => raws_to_arcs(r),
        Err(_) => Seq::empty(),
    }
}

/// `p` is a literal byte prefix of `q`.
pub open spec fn is_byte_prefix(p: Seq<u8>, q: Seq<u8>) -> bool {
    p.len() <= q.len() && q.take(p.len() as int) == p
}

/// What ingesting raw bytes yields: the decoded arcs, or the exact
/// error.  Inputs of one or two bytes are rejected as having too few
/// arcs even though a two-byte encoding of a minimal OID exists; the
/// raw-byte constructor documents that choice.
pub open spec fn from_bytes_res(bytes: Seq<u8>) -> Result<Seq<u32>, Error> {
    if bytes.len() == 0 {
        Err(Error::EmptyInput)
    } else if bytes.len() < 3 {
        Err(Error::TooFewArcs)
    } else if bytes.len() > MAX_SIZE {
        Err(Error::CapacityExceeded)
    } else {
        match decode_raws(bytes) {
            Err(e) => Err(e),
            Ok(r) => if r.len() < 2 {
                Err(Error::TooFewArcs)
            } else if enc_raws(r) != bytes {
                Err(Error::MalformedInput)
            } else {
                Ok(raws_to_arcs(r))
            },
        }
    }
}

/// A valid encoding determines its arcs: there are at least three,
/// their head obeys the range rule, and re-encoding them gives the
/// bytes back.
pub proof fn lemma_oid_props(bytes: Seq<u8>)
    requires
        oid_bytes_wf(bytes),
    ensures
        3 <= oid_arcs(bytes).len() <= 40,
        head_ok(oid_arcs(bytes)[0], oid_arcs(bytes)[1]),
        enc_of(oid_arcs(bytes)) == bytes,
        arcs_to_raws(oid_arcs(bytes)) == decode_raws(bytes)->Ok_0,
{
    let r = decode_raws(bytes)->Ok_0;
    lemma_raws_arcs_raws(r);
    lemma_head_ok_of_raw(r.first());
    lemma_enc_raws_len(r);
    assert(oid_arcs(bytes)[0] == raws_to_arcs(r)[0]);
}

/// An object identifier: an immutable, validated OID encoding.
///
/// Every constructor establishes [`oid_bytes_wf`] of the stored bytes:
/// at least three arcs, a first arc in `0..=2`, a second arc in
/// `0..=39` when the first is 0 or 1, an encoding of at most
/// [`MAX_SIZE`] bytes, and every arc in canonical base-128 form.
///
/// Two OIDs are equal when their encodings are; the derived order is
/// byte-lexicographic on the encodings, a definable total order that
/// is consistent with but not identical to arc-wise numeric order.
#[derive(Clone, Debug, PartialEq, Eq, Hash, PartialOrd, Ord)]
pub struct ObjectIdentifier {
    pub buffer: Buffer,
}

impl View for ObjectIdentifier {
    type V = Seq<u32>;

    open spec fn view(&self) -> Seq<u32> {
        oid_arcs(self.buffer.bytes@)
    }
}

fn bytes_equal(a: &[u8], b: &[u8]) -> (r: bool)
    ensures
        r == (a@ == b@),
{
    if a.len() != b.len() {
        proof {
            assert(a@ != b@);
        }
        return false;
    }
    let mut i: usize = 0;
    while i < a.len()
        invariant
            0 <= i <= a@.len(),
            a@.len() == b@.len(),
            a@.take(i as int) == b@.take(i as int),
        decreases a@.len() - i,
    {
        if a[i] != b[i] {
            proof {
                assert(a@[i as int] != b@[i as int]);
            }
            return false;
        }
        proof {
            assert(a@.take(i + 1) =~= a@.take(i as int).push(a@[i as int]));
            assert(b@.take(i + 1) =~= b@.take(i as int).push(b@[i as int]));
        }
        i = i + 1;
    }
    proof {
        assert(a@.take(i as int) =~= a@);
        assert(b@.take(i as int) =~= b@);
    }
    true
}

impl ObjectIdentifier {
    /// The stored bytes satisfy the type's invariant.
    pub open spec fn wf(self) -> bool {
        oid_bytes_wf(self.buffer.bytes@)
    }

    /// Parse an OID from the dot-delimited string form.
    pub fn new(s: &str) -> (r: Result<ObjectIdentifier, Error>)
        ensures
            match (r, crate::parser::parse_res(s@)) {
                (Ok(oid), Ok(a)) => oid.wf() && oid@ == a && oid.buffer.bytes@ == enc_of(a),
                (Err(e), Err(e2)) => e == e2,
                _ => false,
            },
    {
        crate::parser::parse_str(s)
    }

    /// Parse an OID from the dot-delimited string form, for embedding
    /// a value that is known good by construction: the caller must
    /// show the parse succeeds, so this entry point never fails.  Use
    /// [`ObjectIdentifier::new`] for fallible parsing.
    pub fn new_unwrap(s: &str) -> (r: ObjectIdentifier)
        requires
            crate::parser::parse_res(s@) is Ok,
        ensures
            r.wf(),
            r@ == crate::parser::parse_res(s@)->Ok_0,
    {
        match crate::parser::parse_str(s) {
            Ok(oid) => oid,
            Err(_) => {
                proof {
                    assert(false);
                }
                vstd::pervasive::unreached()
            },
        }
    }

    /// The dot-joined decimal spelling of the arcs.
    pub fn render(&self) -> (r: String)
        requires
            self.wf(),
        ensures
            r@ == crate::parser::dotted(self@),
    {
        let all = match read_all(self.buffer.as_bytes()) {
            Ok(v) => v,
            Err(_) => {
                proof {
                    assert(false);
                }
                return String::new();
            },
        };
        let mut out = String::new();
        let mut j: usize = 0;
        proof {
            assert(self@.take(0) =~= Seq::<u32>::empty());
            assert(out@ =~= crate::parser::dotted(self@.take(0)));
        }
        while j < all.len()
            invariant
                0 <= j <= all@.len(),
                all@ == self@,
                out@ == crate::parser::dotted(self@.take(j as int)),
            decreases all@.len() - j,
        {
            if j > 0 {
                crate::parser::push_dot(&mut out);
            }
            crate::parser::push_decimal(all[j], &mut out);
            proof {
                crate::parser::lemma_dotted_push(self@.take(j as int), self@[j as int]);
                assert(self@.take(j as int).push(self@[j as int]) =~= self@.take(j as int + 1));
                if j > 0 {
                    assert(crate::parser::dotted(self@.take(j as int)) + seq!['.']
                        + crate::parser::dec_chars(self@[j as int] as nat) =~= crate::parser::dotted(
                        self@.take(j as int + 1),
                    ));
                }
            }
            j = j + 1;
        }
        proof {
            assert(self@.take(j as int) =~= self@);
        }
        out
    }

    /// Parse an OID from a slice of arc values, feeding each arc to
    /// the encoder in order; the first error met is returned.
    pub fn from_arcs(arcs: &[Arc]) -> (r: Result<ObjectIdentifier, Error>)
        ensures
            match r {
                Ok(oid) => {
                    &&& crate::encoder::feed_err(arcs@, 0) is None
                    &&& arcs@.len() >= 3
                    &&& oid.wf()
                    &&& oid@ == arcs@
                    &&& oid.buffer.bytes@ == enc_of(arcs@)
                },
                Err(e) => match crate::encoder::feed_err(arcs@, 0) {
                    Some(e0) => e == e0,
                    None => e == Error::TooFewArcs && arcs@.len() < 3,
                },
            },
    {
        let n = arcs.len();
        let mut enc = Encoder::new();
        let mut j: usize = 0;
        proof {
            assert(enc.arcs@ =~= arcs@.take(0));
        }
        while j < n
            invariant
                0 <= j <= n,
                n == arcs@.len(),
                enc.wf(),
                enc.arcs@ == arcs@.take(j as int),
                crate::encoder::feed_err(arcs@, 0) == crate::encoder::feed_err(arcs@, j as int),
            decreases n - j,
        {
            enc = match enc.arc(arcs[j]) {
                Ok(e2) => e2,
                Err(e) => {
                    return Err(e);
                },
            };
            proof {
                assert(arcs@.take(j as int).push(arcs@[j as int]) =~= arcs@.take(j as int + 1));
            }
            j = j + 1;
        }
        proof {
            assert(arcs@.take(n as int) =~= arcs@);
        }
        enc.finish()
    }

    /// Parse an OID from its BER/DER value octets, validating every
    /// arc and the canonical form of the whole encoding.
    pub fn from_bytes(ber_bytes: &[u8]) -> (r: Result<ObjectIdentifier, Error>)
        ensures
            match (r, from_bytes_res(ber_bytes@)) {
                (Ok(oid), Ok(a)) => oid.wf() && oid@ == a && oid.buffer.bytes@ == ber_bytes@,
                (Err(e), Err(e2)) => e == e2,
                _ => false,
            },
    {
        let len = ber_bytes.len();
        if len == 0 {
            return Err(Error::EmptyInput);
        }
        if len < 3 {
            return Err(Error::TooFewArcs);
        }
        if len > MAX_SIZE {
            return Err(Error::CapacityExceeded);
        }
        let mut i: usize = 0;
        let mut nraws: usize = 0;
        let mut re: Vec<u8> = Vec::new();
        let ghost mut raws: Seq<u32> = Seq::empty();
        proof {
            assert(ber_bytes@.skip(0) =~= ber_bytes@);
            assert(raws + decode_raws(ber_bytes@)->Ok_0 =~= decode_raws(ber_bytes@)->Ok_0);
        }
        while i < len
            invariant
                0 <= i <= len,
                len == ber_bytes@.len(),
                3 <= len <= MAX_SIZE,
                nraws == raws.len(),
                nraws <= i,
                re@ == enc_raws(raws),
                decode_raws(ber_bytes@) == (match decode_step(
                    ber_bytes@.skip(i as int),
                    0,
                    false,
                ) {
                    Ok(rr) => Ok::<Seq<u32>, Error>(raws + rr),
                    Err(e) => Err::<Seq<u32>, Error>(e),
                }),
            decreases len - i,
        {
            match read_raw(ber_bytes, i) {
                Err(e) => {
                    return Err(e);
                },
                Ok((v, end)) => {
                    push_vlq(v, &mut re);
                    proof {
                        lemma_enc_raws_push(raws, v);
                        let after = decode_step(ber_bytes@.skip(end as int), 0, false);
                        if after is Ok {
                            let rr = after->Ok_0;
                            assert(raws + (seq![v] + rr) =~= raws.push(v) + rr);
                        }
                        raws = raws.push(v);
                    }
                    nraws = nraws + 1;
                    i = end;
                },
            }
        }
        proof {
            assert(ber_bytes@.skip(i as int) =~= Seq::<u8>::empty());
            assert(raws + Seq::<u32>::empty() =~= raws);
        }
        if nraws < 2 {
            return Err(Error::TooFewArcs);
        }
        if !bytes_equal(re.as_slice(), ber_bytes) {
            return Err(Error::MalformedInput);
        }
        let buffer = Buffer { bytes: slice_to_vec(ber_bytes) };
        Ok(ObjectIdentifier { buffer })
    }

    /// The BER/DER serialization of this OID: the value octets only,
    /// without tag or length.
    pub fn as_bytes(&self) -> (r: &[u8])
        ensures
            r@ == self.buffer.bytes@,
    {
        self.buffer.as_bytes()
    }

    /// A fresh cursor over the arcs of this OID.
    pub fn arcs<'a>(&'a self) -> (r: Arcs<'a>)
        requires
            self.wf(),
        ensures
            r.wf(),
            r.bytes@ == self.buffer.bytes@,
            r.rem() == Ok::<Seq<u32>, Error>(self@),
    {
        Arcs::new(self.buffer.as_bytes())
    }

    /// The arc with the given index, if it exists.
    pub fn arc(&self, index: usize) -> (r: Option<Arc>)
        requires
            self.wf(),
        ensures
            r == if index < self@.len() {
                Some(self@[index as int])
            } else {
                None::<Arc>
            },
    {
        let all = match read_all(self.buffer.as_bytes()) {
            Ok(v) => v,
            Err(_) => {
                proof {
                    assert(false);
                }
                return None;
            },
        };
        if index < all.len() {
            Some(all[index])
        } else {
            None
        }
    }

    /// The number of arcs.
    pub fn len(&self) -> (r: usize)
        requires
            self.wf(),
        ensures
            r == self@.len(),
    {
        let all = match read_all(self.buffer.as_bytes()) {
            Ok(v) => v,
            Err(_) => {
                proof {
                    assert(false);
                }
                return 0;
            },
        };
        all.len()
    }

    /// The parent OID: every arc but the last, re-encoded.  Absent when
    /// this OID has only the minimum three arcs, since the result would
    /// not satisfy the three-arc invariant.
    pub fn parent(&self) -> (r: Option<ObjectIdentifier>)
        requires
            self.wf(),
        ensures
            match r {
                Some(p) => self@.len() >= 4 && p.wf() && p@ == self@.drop_last(),
                None => self@.len() == 3,
            },
    {
        proof {
            lemma_oid_props(self.buffer.bytes@);
        }
        let all = match read_all(self.buffer.as_bytes()) {
            Ok(v) => v,
            Err(_) => {
                proof {
                    assert(false);
                }
                return None;
            },
        };
        let n = all.len();
        if n <= 3 {
            return None;
        }
        let mut enc = Encoder::new();
        let mut j: usize = 0;
        proof {
            assert(enc.arcs@ =~= self@.take(0));
        }
        while j < n - 1
            invariant
                self.wf(),
                all@ == self@,
                n == self@.len(),
                4 <= n,
                0 <= j <= n - 1,
                enc.wf(),
                enc.arcs@ == self@.take(j as int),
            decreases n - 1 - j,
        {
            proof {
                lemma_oid_props(self.buffer.bytes@);
                if j >= 2 {
                    lemma_enc_of_prefix(self@, j as int + 1);
                    assert(self@.take(j as int).push(self@[j as int]) =~= self@.take(j as int + 1));
                }
            }
            enc = match enc.arc(all[j]) {
                Ok(e) => e,
                Err(_) => {
                    proof {
                        assert(false);
                    }
                    return None;
                },
            };
            proof {
                assert(self@.take(j as int).push(self@[j as int]) =~= self@.take(j as int + 1));
            }
            j = j + 1;
        }
        match enc.finish() {
            Ok(p) => {
                proof {
                    assert(self@.take(n - 1) =~= self@.drop_last());
                }
                Some(p)
            },
            Err(_) => {
                proof {
                    assert(false);
                }
                None
            },
        }
    }

    /// Pushes one more arc, returning the child OID; this OID is
    /// consumed, never mutated.
    pub fn push_arc(self, arc: Arc) -> (r: Result<ObjectIdentifier, Error>)
        requires
            self.wf(),
        ensures
            match r {
                Ok(o2) => append_err(self@, arc) is None && o2.wf() && o2@ == self@.push(arc),
                Err(e) => append_err(self@, arc) == Some(e),
            },
    {
        proof {
            lemma_oid_props(self.buffer.bytes@);
        }
        let all = match read_all(self.buffer.as_bytes()) {
            Ok(v) => v,
            Err(_) => {
                proof {
                    assert(false);
                }
                return Err(Error::MalformedInput);
            },
        };
        let n = all.len();
        let mut enc = Encoder::new();
        let mut j: usize = 0;
        proof {
            assert(enc.arcs@ =~= self@.take(0));
        }
        while j < n
            invariant
                self.wf(),
                all@ == self@,
                n == self@.len(),
                3 <= n,
                0 <= j <= n,
                enc.wf(),
                enc.arcs@ == self@.take(j as int),
            decreases n - j,
        {
            proof {
                lemma_oid_props(self.buffer.bytes@);
                if j >= 2 {
                    lemma_enc_of_prefix(self@, j as int + 1);
                    assert(self@.take(j as int).push(self@[j as int]) =~= self@.take(j as int + 1));
                }
            }
            enc = match enc.arc(all[j]) {
                Ok(e) => e,
                Err(_) => {
                    proof {
                        assert(false);
                    }
                    return Err(Error::MalformedInput);
                },
            };
            proof {
                assert(self@.take(j as int).push(self@[j as int]) =~= self@.take(j as int + 1));
            }
            j = j + 1;
        }
        proof {
            assert(self@.take(n as int) =~= self@);
        }
        match enc.arc(arc) {
            Err(e) => Err(e),
            Ok(e2) => match e2.finish() {
                Ok(o2) => Ok(o2),
                Err(_) => {
                    proof {
                        assert(false);
                    }
                    Err(Error::TooFewArcs)
                },
            },
        }
    }

    /// Does this OID start with the other one?  A byte-prefix match
    /// aligns on arc boundaries because arc encodings are
    /// self-terminating.
    pub fn starts_with(&self, other: &ObjectIdentifier) -> (r: bool)
        ensures
            r == is_byte_prefix(other.buffer.bytes@, self.buffer.bytes@),
    {
        let o = other.buffer.as_bytes();
        let s = self.buffer.as_bytes();
        if s.len() < o.len() {
            return false;
        }
        let mut i: usize = 0;
        while i < o.len()
            invariant
                0 <= i <= o@.len() <= s@.len(),
                o@ == other.buffer.bytes@,
                s@ == self.buffer.bytes@,
                s@.take(i as int) == o@.take(i as int),
            decreases o@.len() - i,
        {
            if s[i] != o[i] {
                proof {
                    assert(s@.take(o@.len() as int)[i as int] != o@[i as int]);
                }
                return false;
            }
            proof {
                assert(s@.take(i + 1) =~= s@.take(i as int).push(s@[i as int]));
                assert(o@.take(i + 1) =~= o@.take(i as int).push(o@[i as int]));
            }
            i = i + 1;
        }
        proof {
            assert(o@.take(i as int) =~= o@);
            assert(s@.take(i as int) =~= s@.take(o@.len() as int));
        }
        true
    }
}

impl core::str::FromStr for ObjectIdentifier {
    type Err = Error;

    fn from_str(s: &str) -> Result<ObjectIdentifier, Error> {
        ObjectIdentifier::new(s)
    }
}

} // verus!
