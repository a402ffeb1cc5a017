//! Character-level helpers: whitespace classification, trimming, and
//! substring replacement over sequences of characters.

use vstd::prelude::*;
use vstd::string::StrSliceExecFns;
use vstd::string::StringExecFns;

verus! {

/// Whether `c` has the Unicode `White_Space` property, the class that
/// `str::trim` removes from both ends of a string.
pub open spec fn is_wspace(c: char) -> bool {
    let u = c as u32;
    (0x09 <= u && u <= 0x0D) || u == 0x20 || u == 0x85 || u == 0xA0 || u == 0x1680 || (0x2000
        <= u && u <= 0x200A) || u == 0x2028 || u == 0x2029 || u == 0x202F || u == 0x205F || u
        == 0x3000
}

/// Executable check for [`is_wspace`].
pub fn is_wspace_char(c: char) -> (r: bool)
    ensures
        r == is_wspace(c),
{
    let u = c as u32;
    (0x09 <= u && u <= 0x0D) || u == 0x20 || u == 0x85 || u == 0xA0 || u == 0x1680 || (0x2000
        <= u && u <= 0x200A) || u == 0x2028 || u == 0x2029 || u == 0x202F || u == 0x205F || u
        == 0x3000
}

/// The characters of `s`, as a vector.
pub fn to_chars(s: &str) -> (r: Vec<char>)
    ensures
        r@ == s@,
{
    let n = s.unicode_len();
    let mut r: Vec<char> = Vec::new();
    let mut i: usize = 0;
    while i < n
        invariant
            n == s@.len(),
            i <= n,
            r@ == s@.subrange(0, i as int),
        decreases n - i,
    {
        r.push(s.get_char(i));
        proof {
            assert(r@ =~= s@.subrange(0, i + 1 as int));
        }
        i = i + 1;
    }
    proof {
        assert(r@ =~= s@);
    }
    r
}

/// Relies on `String::push`: appends one character to the string.
#[verifier::external_body]
fn push_char(s: &mut String, c: char)
    ensures
        final(s)@ == old(s)@.push(c),
{
    s.push(c);
}

/// A string holding exactly the characters of `v`.
pub fn from_chars(v: &Vec<char>) -> (r: String)
    ensures
        r@ == v@,
{
    let mut r = String::new();
    let mut i: usize = 0;
    while i < v.len()
        invariant
            i <= v@.len(),
            r@ == v@.subrange(0, i as int),
        decreases v@.len() - i,
    {
        push_char(&mut r, v[i]);
        proof {
            assert(r@ =~= v@.subrange(0, i + 1 as int));
        }
        i = i + 1;
    }
    proof {
        assert(r@ =~= v@);
    }
    r
}

/// The characters of `v` from position `a` (inclusive) to `b` (exclusive).
pub fn subrange_chars(v: &Vec<char>, a: usize, b: usize) -> (r: Vec<char>)
    requires
        a <= b <= v@.len(),
    ensures
        r@ == v@.subrange(a as int, b as int),
{
    let mut r: Vec<char> = Vec::new();
    let mut i: usize = a;
    while i < b
        invariant
            a <= i <= b <= v@.len(),
            r@ == v@.subrange(a as int, i as int),
        decreases b - i,
    {
        r.push(v[i]);
        proof {
            assert(r@ =~= v@.subrange(a as int, i + 1 as int));
        }
        i = i + 1;
    }
    r
}

/// `s` with every character of the `White_Space` class removed from its
/// start, as `str::trim_start` does.
pub open spec fn trim_start_spec(s: Seq<char>) -> Seq<char>
    decreases s.len(),
{
    if s.len() > 0 && is_wspace(s[0]) {
        trim_start_spec(s.skip(1))
    } else {
        s
    }
}

/// `s` with every character of the `White_Space` class removed from its
/// end, as `str::trim_end` does.
pub open spec fn trim_end_spec(s: Seq<char>) -> Seq<char>
    decreases s.len(),
{
    if s.len() > 0 && is_wspace(s[s.len() - 1]) {
        trim_end_spec(s.take(s.len() - 1))
    } else {
        s
    }
}

/// `s` with leading and trailing whitespace removed, as `str::trim` does.
pub open spec fn trim_spec(s: Seq<char>) -> Seq<char> {
    trim_end_spec(trim_start_spec(s))
}

proof fn lemma_trim_start_at(s: Seq<char>, a: int)
    requires
        0 <= a <= s.len(),
        forall|j: int| 0 <= j < a ==> is_wspace(s[j]),
        a == s.len() || !is_wspace(s[a]),
    ensures
        trim_start_spec(s) == s.skip(a),
    decreases a,
{
    if a == 0 {
        assert(s.skip(0) =~= s);
    } else {
        let t = s.skip(1);
        assert(forall|j: int| 0 <= j < a - 1 ==> is_wspace(t[j]));
        lemma_trim_start_at(t, a - 1);
        assert(t.skip(a - 1) =~= s.skip(a));
    }
}

proof fn lemma_trim_end_at(s: Seq<char>, b: int)
    requires
        0 <= b <= s.len(),
        forall|j: int| b <= j < s.len() ==> is_wspace(s[j]),
        b == 0 || !is_wspace(s[b - 1]),
    ensures
        trim_end_spec(s) == s.take(b),
    decreases s.len() - b,
{
    if b == s.len() {
        assert(s.take(b) =~= s);
    } else {
        let t = s.take(s.len() - 1);
        assert(forall|j: int| b <= j < t.len() ==> is_wspace(t[j]));
        lemma_trim_end_at(t, b);
        assert(t.take(b) =~= s.take(b));
    }
}

/// The characters of `v` with leading and trailing whitespace removed.
pub fn trim_chars(v: &Vec<char>) -> (r: Vec<char>)
    ensures
        r@ == trim_spec(v@),
{
    let n = v.len();
    let mut a: usize = 0;
    while a < n && is_wspace_char(v[a])
        invariant
            a <= n,
            n == v@.len(),
            forall|j: int| 0 <= j < a ==> is_wspace(v@[j]),
        decreases n - a,
    {
        a = a + 1;
    }
    let mut b: usize = n;
    while b > a && is_wspace_char(v[b - 1])
        invariant
            a <= b <= n,
            n == v@.len(),
            forall|j: int| b <= j < n ==> is_wspace(v@[j]),
        decreases b,
    {
        b = b - 1;
    }
    proof {
        lemma_trim_start_at(v@, a as int);
        let t = v@.skip(a as int);
        assert(forall|j: int| b - a <= j < t.len() ==> is_wspace(t[j]));
        if b > a {
            assert(!is_wspace(t[b - a - 1]));
        }
        lemma_trim_end_at(t, b - a);
        assert(t.take(b - a) =~= v@.subrange(a as int, b as int));
    }
    subrange_chars(v, a, b)
}

/// `h` with every non-overlapping occurrence of `needle` replaced by `r`,
/// scanning left to right, as `str::replace` does for a non-empty needle.
pub open spec fn replace_spec(h: Seq<char>, needle: Seq<char>, r: Seq<char>) -> Seq<char>
    decreases h.len(),
{
    if h.len() == 0 {
        h
    } else if 0 < needle.len() && needle.len() <= h.len() && h.take(needle.len() as int)
        == needle {
        r + replace_spec(h.skip(needle.len() as int), needle, r)
    } else {
        seq![h[0]] + replace_spec(h.skip(1), needle, r)
    }
}

/// Appends all characters of `src` to `out`.
pub fn append_chars(out: &mut Vec<char>, src: &Vec<char>)
    ensures
        final(out)@ == old(out)@ + src@,
{
    let mut j: usize = 0;
    while j < src.len()
        invariant
            j <= src@.len(),
            out@ == old(out)@ + src@.subrange(0, j as int),
        decreases src@.len() - j,
    {
        out.push(src[j]);
        proof {
            assert(old(out)@ + src@.subrange(0, j as int) + seq![src@[j as int]] =~= old(out)@
                + src@.subrange(0, j + 1 as int));
        }
        j = j + 1;
    }
    proof {
        assert(old(out)@ + src@.subrange(0, src@.len() as int) =~= old(out)@ + src@);
    }
}

/// Whether the characters of `n` occur in `h` starting at position `i`.
fn matches_at(h: &Vec<char>, n: &Vec<char>, i: usize) -> (r: bool)
    requires
        i <= h@.len(),
        n@.len() <= h@.len() - i,
    ensures
        r == (h@.subrange(i as int, i + n@.len()) == n@),
{
    let hl = h.len();
    let mut j: usize = 0;
    while j < n.len()
        invariant
            j <= n@.len(),
            i <= h@.len(),
            hl == h@.len(),
            n@.len() <= h@.len() - i,
            forall|k: int| 0 <= k < j ==> h@[i + k] == n@[k],
        decreases n@.len() - j,
    {
        if h[i + j] != n[j] {
            proof {
                assert(h@.subrange(i as int, i + n@.len())[j as int] != n@[j as int]);
            }
            return false;
        }
        j = j + 1;
    }
    proof {
        assert(h@.subrange(i as int, i + n@.len()) =~= n@);
    }
    true
}

/// `h` with every occurrence of `needle` replaced by `r`, leftmost first.
pub fn replace_chars(h: &Vec<char>, needle: &Vec<char>, r: &Vec<char>) -> (out: Vec<char>)
    requires
        needle@.len() > 0,
    ensures
        out@ == replace_spec(h@, needle@, r@),
{
    let mut out: Vec<char> = Vec::new();
    let mut i: usize = 0;
    proof {
        assert(h@.skip(0) =~= h@);
        assert(Seq::<char>::empty() + replace_spec(h@, needle@, r@) =~= replace_spec(
            h@,
            needle@,
            r@,
        ));
    }
    while i < h.len()
        invariant
            i <= h@.len(),
            needle@.len() > 0,
            replace_spec(h@, needle@, r@) == out@ + replace_spec(
                h@.skip(i as int),
                needle@,
                r@,
            ),
        decreases h@.len() - i,
    {
        let ghost rest = h@.skip(i as int);
        if needle.len() <= h.len() - i && matches_at(h, needle, i) {
            proof {
                assert(rest.take(needle@.len() as int) =~= h@.subrange(
                    i as int,
                    i + needle@.len(),
                ));
                assert(rest.skip(needle@.len() as int) =~= h@.skip(i + needle@.len()));
                assert(out@ + (r@ + replace_spec(h@.skip(i + needle@.len()), needle@, r@))
                    =~= (out@ + r@) + replace_spec(h@.skip(i + needle@.len()), needle@, r@));
            }
            append_chars(&mut out, r);
            i = i + needle.len();
        } else {
            proof {
                if needle@.len() <= rest.len() {
                    assert(rest.take(needle@.len() as int) =~= h@.subrange(
                        i as int,
                        i + needle@.len(),
                    ));
                }
                assert(rest.skip(1) =~= h@.skip(i + 1));
                assert(out@ + (seq![h@[i as int]] + replace_spec(h@.skip(i + 1), needle@, r@))
                    =~= out@.push(h@[i as int]) + replace_spec(h@.skip(i + 1), needle@, r@));
            }
            out.push(h[i]);
            i = i + 1;
        }
    }
    proof {
        assert(h@.skip(h@.len() as int) =~= Seq::<char>::empty());
        assert(out@ + replace_spec(Seq::<char>::empty(), needle@, r@) =~= out@);
    }
    out
}

} // verus!
