//! Character-level helpers shared by the codec and the interpreter:
//! string comparison, ASCII case-insensitive matching, and decimal
//! digit strings.

use vstd::prelude::*;

verus! {

/// `a` matches `b` up to ASCII case, where `b` is the character of an
/// upper-case pattern: either the characters are equal, or `a` is the
/// lower-case form of an ASCII letter `b`.
pub open spec fn char_eq_nocase(a: char, b: char) -> bool {
    a == b || (97 <= a as u32 <= 122 && b as u32 == a as u32 - 32)
}

/// `s` spells the upper-case pattern `t`, ignoring ASCII case in `s`.
pub open spec fn eq_nocase(s: Seq<char>, t: Seq<char>) -> bool {
    s.len() == t.len() && forall|i: int| 0 <= i < s.len() ==> char_eq_nocase(s[i], #[trigger] t[i])
}

/// Case-insensitive comparison of `s` against an upper-case pattern `t`.
pub fn str_eq_nocase(s: &str, t: &str) -> (r: bool)
    ensures
        r == eq_nocase(s@, t@),
{
    let n = s.unicode_len();
    let m = t.unicode_len();
    if n != m {
        return false;
    }
    let mut i: usize = 0;
    while i < n
        invariant
            i <= n,
            n == s@.len(),
            n == t@.len(),
            forall|j: int| 0 <= j < i ==> char_eq_nocase(s@[j], #[trigger] t@[j]),
        decreases n - i,
    {
        let a = s.get_char(i);
        let b = t.get_char(i);
        let au = a as u32;
        let bu = b as u32;
        if !(a == b || (97 <= au && au <= 122 && bu == au - 32)) {
            return false;
        }
        i += 1;
    }
    true
}

/// Character-for-character equality of two string slices.
pub fn str_eq(s: &str, t: &str) -> (r: bool)
    ensures
        r == (s@ == t@),
{
    let n = s.unicode_len();
    let m = t.unicode_len();
    if n != m {
        return false;
    }
    let mut i: usize = 0;
    while i < n
        invariant
            i <= n,
            n == s@.len(),
            n == t@.len(),
            forall|j: int| 0 <= j < i ==> s@[j] == t@[j],
        decreases n - i,
    {
        if s.get_char(i) != t.get_char(i) {
            return false;
        }
        i += 1;
    }
    proof {
        assert(s@ =~= t@);
    }
    true
}

pub open spec fn is_digit(c: char) -> bool {
    48 <= c as u32 <= 57
}

pub open spec fn digit_val(c: char) -> int {
    c as u32 - 48
}

pub open spec fn is_digits(s: Seq<char>) -> bool {
    forall|i: int| 0 <= i < s.len() ==> is_digit(#[trigger] s[i])
}

/// The number denoted by a string of decimal digits, most significant first.
pub open spec fn digits_val(s: Seq<char>) -> int
    decreases s.len(),
{
    if s.len() == 0 {
        0
    } else {
        digits_val(s.drop_last()) * 10 + digit_val(s.last())
    }
}

pub open spec fn digit_char(d: int) -> char {
    if d == 0 {
        '0'
    } else if d == 1 {
        '1'
    } else if d == 2 {
        '2'
    } else if d == 3 {
        '3'
    } else if d == 4 {
        '4'
    } else if d == 5 {
        '5'
    } else if d == 6 {
        '6'
    } else if d == 7 {
        '7'
    } else if d == 8 {
        '8'
    } else {
        '9'
    }
}

/// The decimal digit string of `n`, most significant digit first.
pub open spec fn dec_digits(n: int) -> Seq<char>
    decreases n,
{
    if n < 10 {
        seq![digit_char(n)]
    } else {
        dec_digits(n / 10).push(digit_char(n % 10))
    }
}

pub proof fn lemma_dec_digits_wf(n: int)
    requires
        n >= 0,
    ensures
        dec_digits(n).len() >= 1,
        is_digits(dec_digits(n)),
    decreases n,
{
    if n >= 10 {
        lemma_dec_digits_wf(n / 10);
        assert forall|i: int| 0 <= i < dec_digits(n).len() implies is_digit(
            #[trigger] dec_digits(n)[i],
        ) by {
            if i < dec_digits(n / 10).len() {
                assert(dec_digits(n)[i] == dec_digits(n / 10)[i]);
            } else {
                assert(dec_digits(n)[i] == digit_char(n % 10));
            }
        }
    }
}

pub proof fn lemma_digits_val_nonneg(s: Seq<char>)
    requires
        is_digits(s),
    ensures
        digits_val(s) >= 0,
    decreases s.len(),
{
    if s.len() > 0 {
        assert(is_digits(s.drop_last()));
        lemma_digits_val_nonneg(s.drop_last());
    }
}

pub proof fn lemma_digit_char_val(d: int)
    requires
        0 <= d <= 9,
    ensures
        digit_val(digit_char(d)) == d,
        is_digit(digit_char(d)),
{
    assert('0' as u32 == 48 && '1' as u32 == 49 && '2' as u32 == 50 && '3' as u32 == 51 && '4'
        as u32 == 52 && '5' as u32 == 53 && '6' as u32 == 54 && '7' as u32 == 55 && '8' as u32
        == 56 && '9' as u32 == 57);
}

/// Reading back the digit string of `n` yields `n`.
pub proof fn lemma_digits_val_dec_digits(n: int)
    requires
        n >= 0,
    ensures
        digits_val(dec_digits(n)) == n,
    decreases n,
{
    if n < 10 {
        lemma_digit_char_val(n);
        assert(dec_digits(n) == seq![digit_char(n)]);
        assert(seq![digit_char(n)].drop_last() =~= Seq::<char>::empty());
        assert(digits_val(dec_digits(n)) == digits_val(Seq::<char>::empty()) * 10 + digit_val(
            digit_char(n),
        ));
    } else {
        lemma_digits_val_dec_digits(n / 10);
        lemma_digit_char_val(n % 10);
        assert(dec_digits(n).drop_last() =~= dec_digits(n / 10));
        assert(digits_val(dec_digits(n)) == digits_val(dec_digits(n / 10)) * 10 + digit_val(
            digit_char(n % 10),
        ));
    }
}

/// A digit string is extended on the right only by growing its value.
pub proof fn lemma_digits_val_prefix(s: Seq<char>, j: int)
    requires
        is_digits(s),
        0 <= j <= s.len(),
    ensures
        digits_val(s) >= digits_val(s.subrange(0, j)),
    decreases s.len() - j,
{
    if j < s.len() {
        lemma_digits_val_prefix(s, j + 1);
        let t = s.subrange(0, j + 1);
        assert(t.drop_last() =~= s.subrange(0, j));
        assert(is_digits(s.subrange(0, j)));
        lemma_digits_val_nonneg(s.subrange(0, j));
        assert(digits_val(t) == digits_val(s.subrange(0, j)) * 10 + digit_val(t.last()));
        assert(digits_val(t) >= digits_val(s.subrange(0, j)));
    } else {
        assert(s.subrange(0, j) =~= s);
    }
}

/// Renders `n` in decimal.
pub fn usize_to_string(n: usize) -> (r: String)
    ensures
        r@ == dec_digits(n as int),
    decreases n,
{
    let d = n % 10;
    let ds = if d == 0 {
        proof { reveal_strlit("0"); }
        "0"
    } else if d == 1 {
        proof { reveal_strlit("1"); }
        "1"
    } else if d == 2 {
        proof { reveal_strlit("2"); }
        "2"
    } else if d == 3 {
        proof { reveal_strlit("3"); }
        "3"
    } else if d == 4 {
        proof { reveal_strlit("4"); }
        "4"
    } else if d == 5 {
        proof { reveal_strlit("5"); }
        "5"
    } else if d == 6 {
        proof { reveal_strlit("6"); }
        "6"
    } else if d == 7 {
        proof { reveal_strlit("7"); }
        "7"
    } else if d == 8 {
        proof { reveal_strlit("8"); }
        "8"
    } else {
        proof { reveal_strlit("9"); }
        "9"
    };
    assert(ds@ =~= seq![digit_char(d as int)]);
    if n < 10 {
        assert(d == n as int);
        let r = String::from_str(ds);
        assert(r@ =~= dec_digits(n as int));
        r
    } else {
        let mut r = usize_to_string(n / 10);
        r.append(ds);
        assert(r@ =~= dec_digits(n as int));
        r
    }
}

/// Reads the decimal number written in `s[from..to]`, if that range is a
/// non-empty string of digits whose value fits the result type.
pub fn parse_usize(s: &str, from: usize, to: usize) -> (r: Option<usize>)
    requires
        from <= to <= s@.len(),
    ensures
        ({
            let d = s@.subrange(from as int, to as int);
            match r {
                Some(v) => from < to && is_digits(d) && digits_val(d) <= usize::MAX && v as int
                    == digits_val(d),
                None => !(from < to && is_digits(d) && digits_val(d) <= usize::MAX),
            }
        }),
{
    let ghost d = s@.subrange(from as int, to as int);
    if from == to {
        return None;
    }
    let mut acc: usize = 0;
    let mut i = from;
    while i < to
        invariant
            from <= i <= to <= s@.len(),
            d == s@.subrange(from as int, to as int),
            is_digits(d.subrange(0, i - from)),
            acc as int == digits_val(d.subrange(0, i - from)),
        decreases to - i,
    {
        let c = s.get_char(i);
        let cu = c as u32;
        proof {
            assert(d[i - from] == s@[i as int]);
        }
        if cu < 48 || cu > 57 {
            proof {
                assert(!is_digit(d[i - from]));
            }
            return None;
        }
        let dv = (cu - 48) as usize;
        let ghost pre = d.subrange(0, i - from);
        let ghost ext = d.subrange(0, i - from + 1);
        proof {
            assert(ext.drop_last() =~= pre);
            assert(ext.last() == d[i - from]);
            assert(is_digits(ext));
        }
        if acc > (usize::MAX - dv) / 10 {
            proof {
                assert(digits_val(ext) == acc as int * 10 + dv);
                assert(acc as int >= (usize::MAX - dv) as int / 10 + 1);
                assert(acc as int * 10 >= ((usize::MAX - dv) as int / 10 + 1) * 10) by (nonlinear_arith)
                    requires acc as int >= (usize::MAX - dv) as int / 10 + 1;
                assert(((usize::MAX - dv) as int / 10) * 10 + 10 > (usize::MAX - dv) as int) by (nonlinear_arith);
                assert(digits_val(ext) > usize::MAX);
                if is_digits(d) {
                    lemma_digits_val_prefix(d, i - from + 1);
                    assert(digits_val(d) > usize::MAX);
                }
            }
            return None;
        }
        proof {
            assert(acc as int <= (usize::MAX - dv) as int / 10);
            assert(acc as int * 10 <= ((usize::MAX - dv) as int / 10) * 10) by (nonlinear_arith)
                requires acc as int <= (usize::MAX - dv) as int / 10;
            assert(((usize::MAX - dv) as int / 10) * 10 <= (usize::MAX - dv) as int) by (nonlinear_arith);
        }
        acc = acc * 10 + dv;
        i += 1;
        proof {
            assert(d.subrange(0, i - from) =~= ext);
        }
    }
    proof {
        assert(d.subrange(0, i - from) =~= d);
    }
    Some(acc)
}

/// Reads the decimal number written in `s[from..to]` as a `u64`, if that
/// range is a non-empty string of digits whose value fits.
pub fn parse_u64(s: &str, from: usize, to: usize) -> (r: Option<u64>)
    requires
        from <= to <= s@.len(),
    ensures
        ({
            let d = s@.subrange(from as int, to as int);
            match r {
                Some(v) => from < to && is_digits(d) && digits_val(d) <= u64::MAX && v as int
                    == digits_val(d),
                None => !(from < to && is_digits(d) && digits_val(d) <= u64::MAX),
            }
        }),
{
    let ghost d = s@.subrange(from as int, to as int);
    if from == to {
        return None;
    }
    let mut acc: u64 = 0;
    let mut i = from;
    while i < to
        invariant
            from <= i <= to <= s@.len(),
            d == s@.subrange(from as int, to as int),
            is_digits(d.subrange(0, i - from)),
            acc as int == digits_val(d.subrange(0, i - from)),
        decreases to - i,
    {
        let c = s.get_char(i);
        let cu = c as u32;
        proof {
            assert(d[i - from] == s@[i as int]);
        }
        if cu < 48 || cu > 57 {
            proof {
                assert(!is_digit(d[i - from]));
            }
            return None;
        }
        let dv = (cu - 48) as u64;
        let ghost pre = d.subrange(0, i - from);
        let ghost ext = d.subrange(0, i - from + 1);
        proof {
            assert(ext.drop_last() =~= pre);
            assert(ext.last() == d[i - from]);
            assert(is_digits(ext));
        }
        if acc > (u64::MAX - dv) / 10 {
            proof {
                assert(digits_val(ext) == acc as int * 10 + dv);
                assert(acc as int >= (u64::MAX - dv) as int / 10 + 1);
                assert(acc as int * 10 >= ((u64::MAX - dv) as int / 10 + 1) * 10) by (nonlinear_arith)
                    requires acc as int >= (u64::MAX - dv) as int / 10 + 1;
                assert(((u64::MAX - dv) as int / 10) * 10 + 10 > (u64::MAX - dv) as int) by (nonlinear_arith);
                assert(digits_val(ext) > u64::MAX);
                if is_digits(d) {
                    lemma_digits_val_prefix(d, i - from + 1);
                    assert(digits_val(d) > u64::MAX);
                }
            }
            return None;
        }
        proof {
            assert(acc as int <= (u64::MAX - dv) as int / 10);
            assert(acc as int * 10 <= ((u64::MAX - dv) as int / 10) * 10) by (nonlinear_arith)
                requires acc as int <= (u64::MAX - dv) as int / 10;
            assert(((u64::MAX - dv) as int / 10) * 10 <= (u64::MAX - dv) as int) by (nonlinear_arith);
        }
        acc = acc * 10 + dv;
        i += 1;
        proof {
            assert(d.subrange(0, i - from) =~= ext);
        }
    }
    proof {
        assert(d.subrange(0, i - from) =~= d);
    }
    Some(acc)
}

} // verus!
