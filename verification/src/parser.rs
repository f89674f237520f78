//! The dotted-decimal text form: parsing and rendering.
//!
//! Parsing scans left to right without allocation beyond the output,
//! feeding each accumulated arc to the encoder when a delimiter or the
//! end of the input is reached; every fallible step reports through a
//! result value.

use vstd::prelude::*;
use vstd::string::StrSliceExecFns;
use vstd::string::StringExecFns;

use crate::encoder::{append_err, enc_of, Encoder};
use crate::error::Error;
use crate::oid::ObjectIdentifier;

verus! {

/// The decimal digit character for a value below ten.
pub open spec fn digit_char(d: nat) -> char {
    if d == 0 {
        '0'
    } else if d == 1 {
        '1'
    } else if d == 2 {
        '2'
    } else if d == 3 {
        '3'
    } else if d == 4 {
        '4'
    } else if d == 5 {
        '5'
    } else if d == 6 {
        '6'
    } else if d == 7 {
        '7'
    } else if d == 8 {
        '8'
    } else {
        '9'
    }
}

/// The decimal spelling of `v`, without leading zeros.
pub open spec fn dec_chars(v: nat) -> Seq<char>
    decreases v,
{
    if v < 10 {
        seq![digit_char(v)]
    } else {
        dec_chars(v / 10) + seq![digit_char(v % 10)]
    }
}

/// `'.' + spelling` for each arc in turn.
pub open spec fn dotted_tail(arcs: Seq<u32>) -> Seq<char>
    decreases arcs.len(),
{
    if arcs.len() == 0 {
        Seq::empty()
    } else {
        seq!['.'] + dec_chars(arcs.first() as nat) + dotted_tail(arcs.drop_first())
    }
}

/// The dot-joined decimal spelling of an arc sequence.
pub open spec fn dotted(arcs: Seq<u32>) -> Seq<char> {
    if arcs.len() == 0 {
        Seq::empty()
    } else {
        dec_chars(arcs.first() as nat) + dotted_tail(arcs.drop_first())
    }
}

pub proof fn lemma_dotted_tail_push(arcs: Seq<u32>, a: u32)
    ensures
        dotted_tail(arcs.push(a)) == dotted_tail(arcs) + (seq!['.'] + dec_chars(a as nat)),
    decreases arcs.len(),
{
    if arcs.len() == 0 {
        assert(arcs.push(a).drop_first() =~= Seq::<u32>::empty());
        assert(arcs.push(a).first() == a);
        assert(dotted_tail(arcs.push(a).drop_first()) == Seq::<char>::empty());
        assert(dotted_tail(arcs.push(a)) =~= dotted_tail(arcs) + (seq!['.'] + dec_chars(a as nat)));
    } else {
        assert(arcs.push(a).drop_first() =~= arcs.drop_first().push(a));
        assert(arcs.push(a).first() == arcs.first());
        lemma_dotted_tail_push(arcs.drop_first(), a);
        assert(dotted_tail(arcs.push(a)) =~= dotted_tail(arcs) + (seq!['.'] + dec_chars(a as nat)));
    }
}

pub proof fn lemma_dotted_push(arcs: Seq<u32>, a: u32)
    ensures
        dotted(arcs.push(a)) == if arcs.len() == 0 {
            dec_chars(a as nat)
        } else {
            dotted(arcs) + (seq!['.'] + dec_chars(a as nat))
        },
{
    if arcs.len() == 0 {
        assert(arcs.push(a).drop_first() =~= Seq::<u32>::empty());
        assert(arcs.push(a).first() == a);
        assert(dotted(arcs.push(a)) =~= dec_chars(a as nat));
    } else {
        assert(arcs.push(a).drop_first() =~= arcs.drop_first().push(a));
        assert(arcs.push(a).first() == arcs.first());
        lemma_dotted_tail_push(arcs.drop_first(), a);
        assert(dotted(arcs.push(a)) =~= dotted(arcs) + (seq!['.'] + dec_chars(a as nat)));
    }
}

/// Is `c` an ASCII decimal digit?
pub open spec fn is_digit(c: char) -> bool {
    48 <= c as u32 <= 57
}

/// One pass of the parsing state machine over the remaining input:
/// `acc` is the value accumulated for the current segment, `seen` says
/// whether that segment holds at least one digit, and `arcs` are the
/// arcs already fed to the encoder.  Returns all parsed arcs, or the
/// first error met, with encoder-level failures surfacing at the
/// delimiter that feeds the offending arc.
pub open spec fn parse_rec(s: Seq<char>, acc: nat, seen: bool, arcs: Seq<u32>) -> Result<
    Seq<u32>,
    Error,
>
    decreases s.len(),
{
    if s.len() == 0 {
        if !seen {
            Err(Error::MalformedInput)
        } else {
            match append_err(arcs, acc as u32) {
                Some(e) => Err(e),
                None => if arcs.len() + 1 < 3 {
                    Err(Error::TooFewArcs)
                } else {
                    Ok(arcs.push(acc as u32))
                },
            }
        }
    } else {
        let c = s.first();
        if c == '.' {
            if !seen {
                Err(Error::MalformedInput)
            } else {
                match append_err(arcs, acc as u32) {
                    Some(e) => Err(e),
                    None => parse_rec(s.drop_first(), 0, false, arcs.push(acc as u32)),
                }
            }
        } else if is_digit(c) {
            let acc2 = acc * 10 + (c as u32 - 48);
            if acc2 > u32::MAX {
                Err(Error::ArcOverflow)
            } else {
                parse_rec(s.drop_first(), acc2 as nat, true, arcs)
            }
        } else {
            Err(Error::MalformedInput)
        }
    }
}

/// What parsing the dotted string yields: the arcs, or the exact error.
pub open spec fn parse_res(s: Seq<char>) -> Result<Seq<u32>, Error> {
    parse_rec(s, 0, false, Seq::empty())
}

/// Parses the dot-delimited decimal form into a validated OID.
pub fn parse_str(s: &str) -> (r: Result<ObjectIdentifier, Error>)
    ensures
        match (r, parse_res(s@)) {
            (Ok(oid), Ok(a)) => oid.wf() && oid@ == a && oid.buffer.bytes@ == enc_of(a),
            (Err(e), Err(e2)) => e == e2,
            _ => false,
        },
{
    let n = s.unicode_len();
    let mut enc = Encoder::new();
    let mut acc: u32 = 0;
    let mut seen: bool = false;
    let mut i: usize = 0;
    proof {
        assert(s@.skip(0) =~= s@);
    }
    while i < n
        invariant
            0 <= i <= n,
            n == s@.len(),
            enc.wf(),
            parse_res(s@) == parse_rec(s@.skip(i as int), acc as nat, seen, enc.arcs@),
        decreases n - i,
    {
        let c = s.get_char(i);
        proof {
            assert(s@.skip(i as int).first() == c);
            assert(s@.skip(i as int).drop_first() =~= s@.skip(i as int + 1));
        }
        if c == '.' {
            if !seen {
                return Err(Error::MalformedInput);
            }
            enc = match enc.arc(acc) {
                Ok(e2) => e2,
                Err(e) => {
                    return Err(e);
                },
            };
            acc = 0;
            seen = false;
        } else {
            let d = c as u32;
            if d < 48 || d > 57 {
                return Err(Error::MalformedInput);
            }
            let wide: u64 = (acc as u64) * 10 + ((d - 48) as u64);
            if wide > u32::MAX as u64 {
                return Err(Error::ArcOverflow);
            }
            acc = wide as u32;
            seen = true;
        }
        i = i + 1;
    }
    proof {
        assert(s@.skip(i as int) =~= Seq::<char>::empty());
    }
    if !seen {
        return Err(Error::MalformedInput);
    }
    match enc.arc(acc) {
        Err(e) => Err(e),
        Ok(e2) => match e2.finish() {
            Ok(oid) => Ok(oid),
            Err(e) => Err(e),
        },
    }
}

/// Appends the character of one decimal digit.
fn push_digit(d: u32, out: &mut String)
    requires
        d < 10,
    ensures
        final(out)@ == old(out)@ + seq![digit_char(d as nat)],
{
    if d == 0 {
        proof {
            reveal_strlit("0");
            assert("0"@ =~= seq![digit_char(0)]);
        }
        out.append("0");
    } else if d == 1 {
        proof {
            reveal_strlit("1");
            assert("1"@ =~= seq![digit_char(1)]);
        }
        out.append("1");
    } else if d == 2 {
        proof {
            reveal_strlit("2");
            assert("2"@ =~= seq![digit_char(2)]);
        }
        out.append("2");
    } else if d == 3 {
        proof {
            reveal_strlit("3");
            assert("3"@ =~= seq![digit_char(3)]);
        }
        out.append("3");
    } else if d == 4 {
        proof {
            reveal_strlit("4");
            assert("4"@ =~= seq![digit_char(4)]);
        }
        out.append("4");
    } else if d == 5 {
        proof {
            reveal_strlit("5");
            assert("5"@ =~= seq![digit_char(5)]);
        }
        out.append("5");
    } else if d == 6 {
        proof {
            reveal_strlit("6");
            assert("6"@ =~= seq![digit_char(6)]);
        }
        out.append("6");
    } else if d == 7 {
        proof {
            reveal_strlit("7");
            assert("7"@ =~= seq![digit_char(7)]);
        }
        out.append("7");
    } else if d == 8 {
        proof {
            reveal_strlit("8");
            assert("8"@ =~= seq![digit_char(8)]);
        }
        out.append("8");
    } else {
        proof {
            reveal_strlit("9");
            assert("9"@ =~= seq![digit_char(9)]);
        }
        out.append("9");
    }
}

/// Appends the decimal spelling of `v`.
pub fn push_decimal(v: u32, out: &mut String)
    ensures
        final(out)@ == old(out)@ + dec_chars(v as nat),
    decreases v,
{
    if v < 10 {
        push_digit(v, out);
    } else {
        push_decimal(v / 10, out);
        push_digit(v % 10, out);
        proof {
            assert(old(out)@ + dec_chars((v / 10) as nat) + seq![digit_char((v % 10) as nat)]
                =~= old(out)@ + dec_chars(v as nat));
        }
    }
}

/// Appends one dot.
pub fn push_dot(out: &mut String)
    ensures
        final(out)@ == old(out)@ + seq!['.'],
{
    proof {
        reveal_strlit(".");
        assert("."@ =~= seq!['.']);
    }
    out.append(".");
}

} // verus!
