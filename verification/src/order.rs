//! Deriving the part order from the reassembly template: the labels of the
//! `{label}` placeholders, in left-to-right order of occurrence. The label
//! runs from a `{` to the next `}` (or the end of the template) and is
//! trimmed of surrounding whitespace.

use crate::text::{from_chars, subrange_chars, trim_chars, trim_spec};
use vstd::prelude::*;

verus! {

/// The position of the first `}` at or after `i`, or the end of `t`.
pub open spec fn close_from(t: Seq<char>, i: int) -> int
    decreases t.len() - i,
{
    if i < 0 || i >= t.len() {
        t.len() as int
    } else if t[i] == '}' {
        i
    } else {
        close_from(t, i + 1)
    }
}

/// The label of the placeholder opened at position `i`: the text up to the
/// next `}` (or the end), trimmed.
pub open spec fn label_at(t: Seq<char>, i: int) -> Seq<char> {
    trim_spec(t.subrange(i + 1, close_from(t, i + 1)))
}

/// The labels of the placeholders opened at or after position `i`.
pub open spec fn order_from(t: Seq<char>, i: int) -> Seq<Seq<char>>
    decreases t.len() - i,
{
    if i < 0 || i >= t.len() {
        Seq::empty()
    } else if t[i] == '{' {
        seq![label_at(t, i)] + order_from(t, i + 1)
    } else {
        order_from(t, i + 1)
    }
}

/// The part order of template `t`: one label per `{`, most significant
/// first.
pub open spec fn part_order(t: Seq<char>) -> Seq<Seq<char>> {
    order_from(t, 0)
}

proof fn lemma_close_from_bounds(t: Seq<char>, i: int)
    requires
        0 <= i <= t.len(),
    ensures
        i <= close_from(t, i) <= t.len(),
    decreases t.len() - i,
{
    if i < t.len() && t[i] != '}' {
        lemma_close_from_bounds(t, i + 1);
    }
}

/// The position of the first `}` at or after `i` in `v`, or the length.
fn close_at(v: &Vec<char>, i: usize) -> (r: usize)
    requires
        i <= v@.len(),
    ensures
        r == close_from(v@, i as int),
        i <= r <= v@.len(),
{
    let mut j = i;
    while j < v.len()
        invariant
            i <= j <= v@.len(),
            close_from(v@, i as int) == close_from(v@, j as int),
        decreases v@.len() - j,
    {
        if v[j] == '}' {
            return j;
        }
        j = j + 1;
    }
    j
}

/// The labels of the placeholders of `tmpl`, in order of occurrence.
pub fn derive_order(tmpl: &Vec<char>) -> (r: Vec<String>)
    ensures
        r.deep_view() == part_order(tmpl@),
{
    let mut out: Vec<String> = Vec::new();
    let mut i: usize = 0;
    proof {
        assert(out.deep_view() + order_from(tmpl@, 0) =~= part_order(tmpl@));
    }
    while i < tmpl.len()
        invariant
            i <= tmpl@.len(),
            part_order(tmpl@) == out.deep_view() + order_from(tmpl@, i as int),
        decreases tmpl@.len() - i,
    {
        let ghost pre = out.deep_view();
        if tmpl[i] == '{' {
            let j = close_at(tmpl, i + 1);
            let raw = subrange_chars(tmpl, i + 1, j);
            let lab = trim_chars(&raw);
            let s = from_chars(&lab);
            out.push(s);
            proof {
                assert(s@ == label_at(tmpl@, i as int));
                assert(out.deep_view() =~= pre.push(label_at(tmpl@, i as int)));
                assert(pre + (seq![label_at(tmpl@, i as int)] + order_from(tmpl@, i + 1))
                    =~= pre.push(label_at(tmpl@, i as int)) + order_from(tmpl@, i + 1));
            }
        }
        i = i + 1;
    }
    proof {
        assert(out.deep_view() + order_from(tmpl@, tmpl@.len() as int) =~= out.deep_view());
    }
    out
}

} // verus!
