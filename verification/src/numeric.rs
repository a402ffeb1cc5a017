//! Decimal reading and writing of non-negative integers, with the grammar
//! `u64::from_str` accepts: an optional leading `+`, then one or more ASCII
//! digits, and a value that fits in 64 bits.

use vstd::prelude::*;

verus! {

/// Whether `c` is an ASCII decimal digit.
pub open spec fn is_digit(c: char) -> bool {
    0x30 <= c as u32 && c as u32 <= 0x39
}

/// The numeric value of an ASCII decimal digit.
pub open spec fn digit_val(c: char) -> int {
    c as u32 - 0x30
}

/// The ASCII digit character for a value in `0 ..= 9`.
pub open spec fn digit_char(d: int) -> char {
    if d == 0 {
        '0'
    } else if d == 1 {
        '1'
    } else if d == 2 {
        '2'
    } else if d == 3 {
        '3'
    } else if d == 4 {
        '4'
    } else if d == 5 {
        '5'
    } else if d == 6 {
        '6'
    } else if d == 7 {
        '7'
    } else if d == 8 {
        '8'
    } else {
        '9'
    }
}

/// Whether every character of `s` is an ASCII decimal digit.
pub open spec fn all_digits(s: Seq<char>) -> bool {
    forall|i: int| 0 <= i < s.len() ==> is_digit(s[i])
}

/// The integer that the digit string `s` denotes, most significant first.
pub open spec fn dec_val(s: Seq<char>) -> int
    decreases s.len(),
{
    if s.len() == 0 {
        0
    } else {
        dec_val(s.take(s.len() - 1)) * 10 + digit_val(s[s.len() - 1])
    }
}

/// The decimal digit string of a non-negative integer, without padding or a
/// sign, as `u64`'s `Display` writes it.
pub open spec fn dec_digits(n: int) -> Seq<char>
    decreases n,
{
    if n < 10 {
        seq![digit_char(n)]
    } else {
        dec_digits(n / 10).push(digit_char(n % 10))
    }
}

/// What parsing `s` as a `u64` yields: the denoted value if `s` is an
/// optional `+` followed by one or more digits and the value is at most
/// `u64::MAX`, and nothing otherwise.
pub open spec fn dec_parse(s: Seq<char>) -> Option<int> {
    let t = if s.len() > 0 && s[0] == '+' {
        s.skip(1)
    } else {
        s
    };
    if t.len() > 0 && all_digits(t) && dec_val(t) <= u64::MAX {
        Some(dec_val(t))
    } else {
        None
    }
}

/// The value of a digit string is never negative.
proof fn lemma_dec_val_nonneg(s: Seq<char>)
    requires
        all_digits(s),
    ensures
        dec_val(s) >= 0,
    decreases s.len(),
{
    if s.len() > 0 {
        let t = s.take(s.len() - 1);
        assert(all_digits(t));
        lemma_dec_val_nonneg(t);
        assert(digit_val(s[s.len() - 1]) >= 0);
    }
}

/// Extending a digit string to the right can only increase its value.
proof fn lemma_dec_val_prefix(s: Seq<char>, j: int)
    requires
        all_digits(s),
        0 <= j <= s.len(),
    ensures
        dec_val(s.take(j)) <= dec_val(s),
    decreases s.len() - j,
{
    if j < s.len() {
        let t = s.take(s.len() - 1);
        assert(all_digits(t));
        assert(t.take(j) =~= s.take(j));
        lemma_dec_val_prefix(t, j);
        lemma_dec_val_nonneg(t);
        assert(dec_val(t) * 10 + digit_val(s[s.len() - 1]) >= dec_val(t)) by {
            assert(dec_val(t) * 10 >= dec_val(t)) by (nonlinear_arith)
                requires
                    dec_val(t) >= 0,
            ;
            assert(digit_val(s[s.len() - 1]) >= 0);
        }
    } else {
        assert(s.take(j) =~= s);
    }
}

/// Executable check for [`is_digit`].
pub fn is_digit_char(c: char) -> (r: bool)
    ensures
        r == is_digit(c),
{
    let u = c as u32;
    0x30 <= u && u <= 0x39
}

/// The value of an ASCII digit character.
fn digit_val_char(c: char) -> (r: u64)
    requires
        is_digit(c),
    ensures
        r == digit_val(c),
        r < 10,
{
    (c as u32 - 0x30) as u64
}

/// The ASCII digit character of a value below ten.
fn digit_char_of(d: u64) -> (r: char)
    requires
        d < 10,
    ensures
        r == digit_char(d as int),
{
    if d == 0 {
        '0'
    } else if d == 1 {
        '1'
    } else if d == 2 {
        '2'
    } else if d == 3 {
        '3'
    } else if d == 4 {
        '4'
    } else if d == 5 {
        '5'
    } else if d == 6 {
        '6'
    } else if d == 7 {
        '7'
    } else if d == 8 {
        '8'
    } else {
        '9'
    }
}

/// Parses the characters of `v` as a non-negative 64-bit decimal integer,
/// with exactly the outcomes of [`dec_parse`].
pub fn parse_dec(v: &Vec<char>) -> (r: Option<u64>)
    ensures
        match r {
            Some(x) => dec_parse(v@) == Some(x as int),
            None => dec_parse(v@) is None,
        },
{
    let start: usize = if v.len() > 0 && v[0] == '+' {
        1
    } else {
        0
    };
    let ghost t = if v@.len() > 0 && v@[0] == '+' {
        v@.skip(1)
    } else {
        v@
    };
    proof {
        assert(v@.skip(start as int) =~= t);
    }
    if v.len() == start {
        return None;
    }
    let mut acc: u64 = 0;
    let mut i: usize = start;
    while i < v.len()
        invariant
            start <= i <= v@.len(),
            start < v@.len(),
            t == v@.skip(start as int),
            t == (if v@.len() > 0 && v@[0] == '+' {
                v@.skip(1)
            } else {
                v@
            }),
            t.len() == v@.len() - start,
            all_digits(t.take(i - start)),
            acc == dec_val(t.take(i - start)),
        decreases v@.len() - i,
    {
        let c = v[i];
        proof {
            assert(t[i - start] == v@[i as int]);
        }
        if !is_digit_char(c) {
            proof {
                assert(!all_digits(t));
            }
            return None;
        }
        let d = digit_val_char(c);
        if acc > (u64::MAX - d) / 10 {
            proof {
                let p = t.take(i + 1 - start);
                assert(p.take(p.len() - 1) =~= t.take(i - start));
                assert(all_digits(p));
                assert(dec_val(p) == acc * 10 + d);
                assert(acc * 10 + d > u64::MAX) by (nonlinear_arith)
                    requires
                        acc > (u64::MAX - d) / 10,
                        0 <= d < 10,
                        acc <= u64::MAX,
                ;
                if all_digits(t) {
                    lemma_dec_val_prefix(t, i + 1 - start);
                }
            }
            return None;
        }
        proof {
            let p = t.take(i + 1 - start);
            assert(p.take(p.len() - 1) =~= t.take(i - start));
            assert(all_digits(p));
            assert(acc * 10 + d <= u64::MAX) by (nonlinear_arith)
                requires
                    acc <= (u64::MAX - d) / 10,
                    0 <= d < 10,
            ;
        }
        acc = acc * 10 + d;
        i = i + 1;
    }
    proof {
        assert(t.take(v@.len() - start) =~= t);
    }
    Some(acc)
}

/// Writes `n` as its decimal digit string.
pub fn format_dec(n: u64) -> (r: Vec<char>)
    ensures
        r@ == dec_digits(n as int),
    decreases n,
{
    if n < 10 {
        let mut r: Vec<char> = Vec::new();
        r.push(digit_char_of(n));
        proof {
            assert(r@ =~= seq![digit_char(n as int)]);
        }
        r
    } else {
        let mut r = format_dec(n / 10);
        r.push(digit_char_of(n % 10));
        r
    }
}

} // verus!
