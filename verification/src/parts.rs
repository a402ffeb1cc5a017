//! Parts of a version: each named part carries a kind — numeric, or a walk
//! through an ordered list of allowed values — and the parts captured from
//! the current version form an association list from label to text.

use vstd::prelude::*;

verus! {

/// How a part advances when it is bumped.
#[derive(Debug, Clone)]
pub enum PartKind {
    /// The captured text is a non-negative decimal integer; bumping adds one.
    Number,
    /// The captured text is one of `values`; bumping moves to the next entry,
    /// staying at the last one once it is reached.
    Enumerated { values: Vec<String> },
}

/// The mathematical image of a [`PartKind`].
pub enum PartKindView {
    Number,
    Enumerated(Seq<Seq<char>>),
}

impl DeepView for PartKind {
    type V = PartKindView;

    open spec fn deep_view(&self) -> PartKindView {
        match self {
            PartKind::Number => PartKindView::Number,
            PartKind::Enumerated { values } => PartKindView::Enumerated(values.deep_view()),
        }
    }
}

/// The value bound to `label` in the association list `parts`: the value of
/// the first pair whose key is `label`, if any.
pub open spec fn lookup(parts: Seq<(Seq<char>, Seq<char>)>, label: Seq<char>) -> Option<
    Seq<char>,
>
    decreases parts.len(),
{
    if parts.len() == 0 {
        None
    } else if parts[0].0 == label {
        Some(parts[0].1)
    } else {
        lookup(parts.skip(1), label)
    }
}

/// `parts` with the first pair whose key is `label` rebound to `value`; a
/// list without such a pair is returned unchanged.
pub open spec fn with_value(
    parts: Seq<(Seq<char>, Seq<char>)>,
    label: Seq<char>,
    value: Seq<char>,
) -> Seq<(Seq<char>, Seq<char>)>
    decreases parts.len(),
{
    if parts.len() == 0 {
        parts
    } else if parts[0].0 == label {
        seq![(parts[0].0, value)] + parts.skip(1)
    } else {
        seq![parts[0]] + with_value(parts.skip(1), label, value)
    }
}

/// The kind configured for `label`, `Number` when none is configured.
pub open spec fn kind_of(specs: Seq<(Seq<char>, PartKindView)>, label: Seq<char>) -> PartKindView
    decreases specs.len(),
{
    if specs.len() == 0 {
        PartKindView::Number
    } else if specs[0].0 == label {
        specs[0].1
    } else {
        kind_of(specs.skip(1), label)
    }
}

/// The position of the first occurrence of `x` in `vals`, if any.
pub open spec fn first_pos(vals: Seq<Seq<char>>, x: Seq<char>) -> Option<int>
    decreases vals.len(),
{
    if vals.len() == 0 {
        None
    } else if vals[0] == x {
        Some(0int)
    } else {
        match first_pos(vals.skip(1), x) {
            None => None,
            Some(i) => Some(i + 1),
        }
    }
}

/// The value a part is reset to once a more significant part was bumped:
/// `"0"` for a numeric part, the first allowed value for an enumerated one.
pub open spec fn zero_state(kind: PartKindView) -> Seq<char> {
    match kind {
        PartKindView::Number => seq!['0'],
        PartKindView::Enumerated(vals) => vals[0],
    }
}

/// [`lookup`] finds the value at the first index whose key matches.
pub proof fn lemma_lookup_at(parts: Seq<(Seq<char>, Seq<char>)>, label: Seq<char>, i: int)
    requires
        0 <= i < parts.len(),
        parts[i].0 == label,
        forall|j: int| 0 <= j < i ==> parts[j].0 != label,
    ensures
        lookup(parts, label) == Some(parts[i].1),
    decreases i,
{
    if i > 0 {
        let t = parts.skip(1);
        assert(forall|j: int| 0 <= j < i - 1 ==> t[j] == parts[j + 1]);
        lemma_lookup_at(t, label, i - 1);
    }
}

/// [`lookup`] finds nothing when no key matches.
pub proof fn lemma_lookup_none(parts: Seq<(Seq<char>, Seq<char>)>, label: Seq<char>)
    requires
        forall|j: int| 0 <= j < parts.len() ==> parts[j].0 != label,
    ensures
        lookup(parts, label) is None,
    decreases parts.len(),
{
    if parts.len() > 0 {
        let t = parts.skip(1);
        assert(forall|j: int| 0 <= j < t.len() ==> t[j] == parts[j + 1]);
        lemma_lookup_none(t, label);
    }
}

/// [`with_value`] rewrites exactly the first index whose key matches.
pub proof fn lemma_with_value_at(
    parts: Seq<(Seq<char>, Seq<char>)>,
    label: Seq<char>,
    value: Seq<char>,
    i: int,
)
    requires
        0 <= i < parts.len(),
        parts[i].0 == label,
        forall|j: int| 0 <= j < i ==> parts[j].0 != label,
    ensures
        with_value(parts, label, value) == parts.update(i, (parts[i].0, value)),
    decreases i,
{
    if i == 0 {
        assert(seq![(parts[0].0, value)] + parts.skip(1) =~= parts.update(
            0,
            (parts[0].0, value),
        ));
    } else {
        let t = parts.skip(1);
        assert(forall|j: int| 0 <= j < i - 1 ==> t[j] == parts[j + 1]);
        lemma_with_value_at(t, label, value, i - 1);
        assert(seq![parts[0]] + t.update(i - 1, (t[i - 1].0, value)) =~= parts.update(
            i,
            (parts[i].0, value),
        ));
    }
}

/// What [`lookup`] sees after a [`with_value`]: the rebound label reads the
/// new value if it was bound at all, and every other label is untouched.
pub proof fn lemma_lookup_with_value(
    parts: Seq<(Seq<char>, Seq<char>)>,
    label: Seq<char>,
    value: Seq<char>,
    m: Seq<char>,
)
    ensures
        lookup(with_value(parts, label, value), m) == (if m == label && lookup(
            parts,
            label,
        ) is Some {
            Some(value)
        } else {
            lookup(parts, m)
        }),
    decreases parts.len(),
{
    if parts.len() > 0 {
        let t = parts.skip(1);
        if parts[0].0 == label {
            let w = seq![(parts[0].0, value)] + t;
            assert(w[0] == (parts[0].0, value));
            assert(w.skip(1) =~= t);
        } else {
            let w = seq![parts[0]] + with_value(t, label, value);
            assert(w[0] == parts[0]);
            assert(w.skip(1) =~= with_value(t, label, value));
            lemma_lookup_with_value(t, label, value, m);
        }
    }
}

/// [`first_pos`] names an occurrence and nothing earlier.
pub proof fn lemma_first_pos_props(vals: Seq<Seq<char>>, x: Seq<char>)
    ensures
        match first_pos(vals, x) {
            Some(i) => 0 <= i < vals.len() && vals[i] == x && forall|j: int|
                0 <= j < i ==> vals[j] != x,
            None => forall|j: int| 0 <= j < vals.len() ==> vals[j] != x,
        },
    decreases vals.len(),
{
    if vals.len() > 0 && vals[0] != x {
        let t = vals.skip(1);
        lemma_first_pos_props(t, x);
        assert(forall|j: int| 0 <= j < t.len() ==> t[j] == vals[j + 1]);
        match first_pos(t, x) {
            Some(i) => {
                assert(vals[i + 1] == t[i]);
                assert(forall|j: int| 1 <= j < i + 1 ==> vals[j] == t[j - 1]);
            },
            None => {
                assert(forall|j: int| 1 <= j < vals.len() ==> vals[j] == t[j - 1]);
            },
        }
    }
}

/// Finds the first pair of `parts` whose key is `label`.
pub fn find_part(parts: &Vec<(String, String)>, label: &String) -> (r: Option<usize>)
    ensures
        match r {
            Some(i) => i < parts@.len() && parts@[i as int].0@ == label@ && forall|j: int|
                0 <= j < i ==> parts@[j].0@ != label@,
            None => forall|j: int| 0 <= j < parts@.len() ==> parts@[j].0@ != label@,
        },
{
    let mut i: usize = 0;
    while i < parts.len()
        invariant
            i <= parts@.len(),
            forall|j: int| 0 <= j < i ==> parts@[j].0@ != label@,
        decreases parts@.len() - i,
    {
        if parts[i].0.eq(label) {
            return Some(i);
        }
        i = i + 1;
    }
    None
}

/// Finds the first entry of `specs` whose key is `label`.
pub fn find_spec(specs: &Vec<(String, PartKind)>, label: &String) -> (r: Option<usize>)
    ensures
        match r {
            Some(i) => i < specs@.len() && specs@[i as int].0@ == label@ && forall|j: int|
                0 <= j < i ==> specs@[j].0@ != label@,
            None => forall|j: int| 0 <= j < specs@.len() ==> specs@[j].0@ != label@,
        },
{
    let mut i: usize = 0;
    while i < specs.len()
        invariant
            i <= specs@.len(),
            forall|j: int| 0 <= j < i ==> specs@[j].0@ != label@,
        decreases specs@.len() - i,
    {
        if specs[i].0.eq(label) {
            return Some(i);
        }
        i = i + 1;
    }
    None
}

/// Finds the first occurrence of `x` in `vals`.
pub fn find_value(vals: &Vec<String>, x: &String) -> (r: Option<usize>)
    ensures
        match r {
            Some(i) => i < vals@.len() && vals@[i as int]@ == x@ && forall|j: int|
                0 <= j < i ==> vals@[j]@ != x@,
            None => forall|j: int| 0 <= j < vals@.len() ==> vals@[j]@ != x@,
        },
{
    let mut i: usize = 0;
    while i < vals.len()
        invariant
            i <= vals@.len(),
            forall|j: int| 0 <= j < i ==> vals@[j]@ != x@,
        decreases vals@.len() - i,
    {
        if vals[i].eq(x) {
            return Some(i);
        }
        i = i + 1;
    }
    None
}

/// The `kind_of` a label is read off the first matching entry.
pub proof fn lemma_kind_of_at(specs: Seq<(Seq<char>, PartKindView)>, label: Seq<char>, i: int)
    requires
        0 <= i < specs.len(),
        specs[i].0 == label,
        forall|j: int| 0 <= j < i ==> specs[j].0 != label,
    ensures
        kind_of(specs, label) == specs[i].1,
    decreases i,
{
    if i > 0 {
        let t = specs.skip(1);
        assert(forall|j: int| 0 <= j < i - 1 ==> t[j] == specs[j + 1]);
        lemma_kind_of_at(t, label, i - 1);
    }
}

/// The `kind_of` an unconfigured label is `Number`.
pub proof fn lemma_kind_of_none(specs: Seq<(Seq<char>, PartKindView)>, label: Seq<char>)
    requires
        forall|j: int| 0 <= j < specs.len() ==> specs[j].0 != label,
    ensures
        kind_of(specs, label) == PartKindView::Number,
    decreases specs.len(),
{
    if specs.len() > 0 {
        let t = specs.skip(1);
        assert(forall|j: int| 0 <= j < t.len() ==> t[j] == specs[j + 1]);
        lemma_kind_of_none(t, label);
    }
}

} // verus!
