//! Decimal numerals: reading a signed 64-bit integer from the raw text
//! of a numeric token, and writing one back out as text.

use vstd::prelude::*;
use vstd::string::*;

verus! {

/// The value of a run of decimal digit bytes.
pub open spec fn dec_val(b: Seq<u8>) -> nat
    decreases b.len(),
{
    if b.len() == 0 {
        0
    } else {
        dec_val(b.drop_last()) * 10 + ((b.last() - 48) as nat)
    }
}

/// One or more decimal digit bytes and nothing else.
pub open spec fn is_digit_run(b: Seq<u8>) -> bool {
    b.len() > 0 && forall|k: int| 0 <= k < b.len() ==> #[trigger] crate::lexer::is_digit(b[k])
}

/// `b` is the text of an integer: an optional minus sign, then digits.
pub open spec fn is_int_text(b: Seq<u8>) -> bool {
    if b.len() > 0 && b[0] == 45 {
        is_digit_run(b.skip(1))
    } else {
        is_digit_run(b)
    }
}

/// The signed value of integer text.
pub open spec fn int_text_val(b: Seq<u8>) -> int
    recommends
        is_int_text(b),
{
    if b.len() > 0 && b[0] == 45 {
        -(dec_val(b.skip(1)) as int)
    } else {
        dec_val(b) as int
    }
}

/// A longer digit run never has a smaller value.
proof fn lemma_dec_val_prefix_le(b: Seq<u8>, k: int)
    requires
        0 <= k <= b.len(),
    ensures
        dec_val(b.take(k)) <= dec_val(b),
    decreases b.len() - k,
{
    if k < b.len() {
        assert(b.take(k + 1).drop_last() =~= b.take(k));
        assert(dec_val(b.take(k + 1)) >= dec_val(b.take(k)) * 10);
        lemma_dec_val_prefix_le(b, k + 1);
    } else {
        assert(b.take(k) =~= b);
    }
}

/// Read the digit run `b[from..]` as a `u64`, or report that its value
/// does not fit one.
fn dec_val_u64(b: &[u8], from: usize) -> (r: Option<u64>)
    requires
        from <= b@.len(),
    ensures
        r matches Option::Some(v) ==> is_digit_run(b@.skip(from as int)) && v == dec_val(
            b@.skip(from as int),
        ),
        r is None ==> !is_digit_run(b@.skip(from as int)) || dec_val(b@.skip(from as int))
            > u64::MAX,
    decreases b@.len(),
{
    let ghost d = b@.skip(from as int);
    if from == b.len() {
        return None;
    }
    let mut acc: u64 = 0;
    let mut k: usize = from;
    while k < b.len()
        invariant
            from <= k <= b@.len(),
            from < b@.len(),
            d == b@.skip(from as int),
            forall|m: int| from <= m < k ==> #[trigger] crate::lexer::is_digit(b@[m]),
            acc == dec_val(d.take(k - from)),
        decreases b@.len() - k,
    {
        let c = b[k];
        if c < 48 || c > 57 {
            proof {
                assert(d[k - from] == b@[k as int]);
                assert(!crate::lexer::is_digit(d[k - from]));
            }
            return None;
        }
        let digit = (c - 48) as u64;
        let step = match acc.checked_mul(10) {
            Option::Some(m) => m.checked_add(digit),
            Option::None => None,
        };
        match step {
            Option::Some(next) => {
                proof {
                    assert(d.take(k - from + 1).drop_last() =~= d.take(k - from));
                    assert(d.take(k - from + 1).last() == b@[k as int]);
                }
                acc = next;
                k = k + 1;
            },
            Option::None => {
                // the value of this prefix alone is beyond `u64`
                proof {
                    assert(d.take(k - from + 1).drop_last() =~= d.take(k - from));
                    assert(d.take(k - from + 1).last() == b@[k as int]);
                    assert(dec_val(d.take(k - from + 1)) > u64::MAX);
                    lemma_dec_val_prefix_le(d, k - from + 1);
                }
                return None;
            },
        }
    }
    proof {
        assert(d.take(k - from) =~= d);
        assert forall|m: int| 0 <= m < d.len() implies #[trigger] crate::lexer::is_digit(
            d[m],
        ) by {
            assert(d[m] == b@[m + from]);
            assert(crate::lexer::is_digit(b@[m + from]));
        }
    }
    Some(acc)
}

/// Read `b` as a signed 64-bit integer, as its decimal text: an
/// optional minus sign followed by digits, with a value in range.
/// Returns `None` for any other text, in particular for numeric tokens
/// with a decimal point or an exponent.
pub fn parse_i64(b: &[u8]) -> (r: Option<i64>)
    ensures
        r matches Option::Some(v) ==> is_int_text(b@) && i64::MIN <= int_text_val(b@)
            <= i64::MAX && v == int_text_val(b@),
        r is None ==> !is_int_text(b@) || int_text_val(b@) < i64::MIN || int_text_val(b@)
            > i64::MAX,
{
    if b.len() == 0 {
        return None;
    }
    if b[0] == 45 {
        match dec_val_u64(b, 1) {
            Option::Some(m) => {
                if m <= 0x7fff_ffff_ffff_ffff {
                    Some(-(m as i64))
                } else if m == 0x8000_0000_0000_0000 {
                    Some(i64::MIN)
                } else {
                    None
                }
            },
            Option::None => None,
        }
    } else {
        match dec_val_u64(b, 0) {
            Option::Some(m) => {
                proof {
                    assert(b@.skip(0) =~= b@);
                }
                if m <= 0x7fff_ffff_ffff_ffff {
                    Some(m as i64)
                } else {
                    None
                }
            },
            Option::None => {
                proof {
                    assert(b@.skip(0) =~= b@);
                }
                None
            },
        }
    }
}

/// The digit character of a value below ten.
pub open spec fn digit_char(d: int) -> char
    recommends
        0 <= d < 10,
{
    if d == 0 {
        '0'
    } else if d == 1 {
        '1'
    } else if d == 2 {
        '2'
    } else if d == 3 {
        '3'
    } else if d == 4 {
        '4'
    } else if d == 5 {
        '5'
    } else if d == 6 {
        '6'
    } else if d == 7 {
        '7'
    } else if d == 8 {
        '8'
    } else {
        '9'
    }
}

/// The decimal text of an unsigned value: no sign, no leading zero
/// except for the value zero itself.
pub open spec fn dec_text(n: nat) -> Seq<char>
    decreases n,
{
    if n < 10 {
        seq![digit_char(n as int)]
    } else {
        dec_text(n / 10).push(digit_char((n % 10) as int))
    }
}

/// The decimal text of a signed value: a minus sign where negative.
pub open spec fn int_text(v: int) -> Seq<char> {
    if v < 0 {
        seq!['-'] + dec_text((-v) as nat)
    } else {
        dec_text(v as nat)
    }
}

/// The digit character of `d`.
fn digit_str(d: u64) -> (r: &'static str)
    requires
        d < 10,
    ensures
        r@ == seq![digit_char(d as int)],
        r.is_ascii(),
{
    proof {
        reveal_strlit("0");
        reveal_strlit("1");
        reveal_strlit("2");
        reveal_strlit("3");
        reveal_strlit("4");
        reveal_strlit("5");
        reveal_strlit("6");
        reveal_strlit("7");
        reveal_strlit("8");
        reveal_strlit("9");
    }
    let r = if d == 0 {
        "0"
    } else if d == 1 {
        "1"
    } else if d == 2 {
        "2"
    } else if d == 3 {
        "3"
    } else if d == 4 {
        "4"
    } else if d == 5 {
        "5"
    } else if d == 6 {
        "6"
    } else if d == 7 {
        "7"
    } else if d == 8 {
        "8"
    } else {
        "9"
    };
    proof {
        assert(r@ =~= seq![digit_char(d as int)]);
    }
    r
}

/// Write `n` as decimal text.
pub fn u64_to_string(n: u64) -> (s: String)
    ensures
        s@ == dec_text(n as nat),
    decreases n,
{
    if n < 10 {
        digit_str(n).to_owned()
    } else {
        proof {
            assert(n / 10 < n) by (nonlinear_arith)
                requires
                    n >= 10,
            ;
            assert(n % 10 < 10) by (nonlinear_arith);
        }
        let mut s = u64_to_string(n / 10);
        s.append(digit_str(n % 10));
        proof {
            assert(s@ =~= dec_text(n as nat));
        }
        s
    }
}

/// Write `v` as decimal text, minus sign included where negative.
pub fn i64_to_string(v: i64) -> (s: String)
    ensures
        s@ == int_text(v as int),
{
    if v >= 0 {
        u64_to_string(v as u64)
    } else {
        let m: u64 = if v == i64::MIN {
            0x8000_0000_0000_0000
        } else {
            (-v) as u64
        };
        let mut s = ("-").to_owned();
        s.append(u64_to_string(m).as_str());
        proof {
            reveal_strlit("-");
            assert(s@ =~= int_text(v as int));
        }
        s
    }
}

} // verus!

