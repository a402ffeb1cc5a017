//! Laws of the bump engine: determinism, absence of a bump when nothing was
//! captured or requested, saturation at the ceiling of an enumerated part,
//! the scope of the cascade reset, and independence from capture order.

use crate::engine::{
    spec_attempt_bump, spec_bump_parts, substitute, walk, BumpOutcome, WalkResult,
};
use crate::numeric::{dec_digits, dec_parse};
use crate::order::part_order;
use crate::parts::{
    first_pos, kind_of, lemma_lookup_with_value, lookup, with_value, zero_state, PartKindView,
};
use crate::text::replace_spec;
use vstd::prelude::*;

verus! {

/// Determinism: a bump is a function of its inputs — any two results that
/// the bump contract admits for the same request and configuration are the
/// same version string (or both are no version at all).
pub proof fn lemma_bump_deterministic(
    parse: Seq<char>,
    current: Seq<char>,
    requested: Seq<char>,
    template: Seq<char>,
    specs: Seq<(Seq<char>, PartKindView)>,
    r1: Option<String>,
    r2: Option<String>,
)
    requires
        r1.deep_view() == spec_attempt_bump(parse, current, requested, template, specs),
        r2.deep_view() == spec_attempt_bump(parse, current, requested, template, specs),
    ensures
        r1.deep_view() == r2.deep_view(),
{
}

/// A walk that never finds the requested label bound to a value changes
/// nothing and bumps nothing.
pub proof fn lemma_walk_no_requested(
    order: Seq<Seq<char>>,
    parts: Seq<(Seq<char>, Seq<char>)>,
    specs: Seq<(Seq<char>, PartKindView)>,
    requested: Seq<char>,
)
    requires
        lookup(parts, requested) is None,
    ensures
        walk(order, parts, specs, requested, false) == (WalkResult::Finished {
            parts,
            bumped: false,
        }),
    decreases order.len(),
{
    if order.len() > 0 {
        lemma_walk_no_requested(order.skip(1), parts, specs, requested);
    }
}

/// A walk whose order never names the requested label changes nothing and
/// bumps nothing.
pub proof fn lemma_walk_requested_unlisted(
    order: Seq<Seq<char>>,
    parts: Seq<(Seq<char>, Seq<char>)>,
    specs: Seq<(Seq<char>, PartKindView)>,
    requested: Seq<char>,
)
    requires
        forall|i: int| 0 <= i < order.len() ==> order[i] != requested,
    ensures
        walk(order, parts, specs, requested, false) == (WalkResult::Finished {
            parts,
            bumped: false,
        }),
    decreases order.len(),
{
    if order.len() > 0 {
        let t = order.skip(1);
        assert(forall|i: int| 0 <= i < t.len() ==> t[i] == order[i + 1]);
        lemma_walk_requested_unlisted(t, parts, specs, requested);
    }
}

/// No match, no bump: when the pattern captured nothing at all, the bump
/// yields no new version, whatever was requested.
pub proof fn lemma_no_capture_no_bump(
    requested: Seq<char>,
    template: Seq<char>,
    specs: Seq<(Seq<char>, PartKindView)>,
)
    ensures
        spec_bump_parts(Seq::empty(), requested, template, specs) == BumpOutcome::NoBump,
{
    lemma_walk_no_requested(part_order(template), Seq::empty(), specs, requested);
}

/// Idempotence of absence: requesting a label that the pattern never
/// captured yields no bump, and the captured values are left exactly as
/// they were.
pub proof fn lemma_absent_request_no_bump(
    parts: Seq<(Seq<char>, Seq<char>)>,
    requested: Seq<char>,
    template: Seq<char>,
    specs: Seq<(Seq<char>, PartKindView)>,
)
    requires
        lookup(parts, requested) is None,
    ensures
        spec_bump_parts(parts, requested, template, specs) == BumpOutcome::NoBump,
{
    lemma_walk_no_requested(part_order(template), parts, specs, requested);
}

/// Idempotence of absence: requesting a label that the template never
/// names yields no bump, and the captured values are left exactly as they
/// were.
pub proof fn lemma_unlisted_request_no_bump(
    parts: Seq<(Seq<char>, Seq<char>)>,
    requested: Seq<char>,
    template: Seq<char>,
    specs: Seq<(Seq<char>, PartKindView)>,
)
    requires
        forall|i: int|
            0 <= i < part_order(template).len() ==> part_order(template)[i] != requested,
    ensures
        spec_bump_parts(parts, requested, template, specs) == BumpOutcome::NoBump,
{
    lemma_walk_requested_unlisted(part_order(template), parts, specs, requested);
}

/// Ceiling saturation: once an enumerated part stands at its last allowed
/// value, any walk — however often it bumps or resets other parts — leaves
/// it at that value.
pub proof fn lemma_ceiling_saturates(
    order: Seq<Seq<char>>,
    parts: Seq<(Seq<char>, Seq<char>)>,
    specs: Seq<(Seq<char>, PartKindView)>,
    requested: Seq<char>,
    vals: Seq<Seq<char>>,
    b: bool,
)
    requires
        kind_of(specs, requested) == PartKindView::Enumerated(vals),
        vals.len() > 0,
        lookup(parts, requested) == Some(vals[vals.len() - 1]),
        first_pos(vals, vals[vals.len() - 1]) == Some(vals.len() - 1),
    ensures
        match walk(order, parts, specs, requested, b) {
            WalkResult::Finished { parts: done, .. } => lookup(done, requested) == Some(
                vals[vals.len() - 1],
            ),
            _ => true,
        },
    decreases order.len(),
{
    if order.len() > 0 {
        let label = order[0];
        let t = order.skip(1);
        match lookup(parts, label) {
            None => {
                lemma_ceiling_saturates(t, parts, specs, requested, vals, b);
            },
            Some(value) => {
                if label == requested {
                    let next = with_value(parts, requested, vals[vals.len() - 1]);
                    lemma_lookup_with_value(
                        parts,
                        requested,
                        vals[vals.len() - 1],
                        requested,
                    );
                    lemma_ceiling_saturates(t, next, specs, requested, vals, true);
                } else if b {
                    match kind_of(specs, label) {
                        PartKindView::Number => {
                            let next = with_value(parts, label, seq!['0']);
                            lemma_lookup_with_value(parts, label, seq!['0'], requested);
                            lemma_ceiling_saturates(t, next, specs, requested, vals, true);
                        },
                        PartKindView::Enumerated(vs) => {
                            if vs.len() > 0 {
                                let next = with_value(parts, label, vs[0]);
                                lemma_lookup_with_value(parts, label, vs[0], requested);
                                lemma_ceiling_saturates(t, next, specs, requested, vals, true);
                            }
                        },
                    }
                } else {
                    lemma_ceiling_saturates(t, parts, specs, requested, vals, b);
                }
            },
        }
    }
}

/// Whether two capture lists bind every label to the same value.
pub open spec fn lookup_equiv(
    p1: Seq<(Seq<char>, Seq<char>)>,
    p2: Seq<(Seq<char>, Seq<char>)>,
) -> bool {
    forall|l: Seq<char>| lookup(p1, l) == lookup(p2, l)
}

proof fn lemma_with_value_equiv(
    p1: Seq<(Seq<char>, Seq<char>)>,
    p2: Seq<(Seq<char>, Seq<char>)>,
    label: Seq<char>,
    v: Seq<char>,
)
    requires
        lookup_equiv(p1, p2),
    ensures
        lookup_equiv(with_value(p1, label, v), with_value(p2, label, v)),
{
    assert forall|m: Seq<char>|
        lookup(with_value(p1, label, v), m) == lookup(with_value(p2, label, v), m) by {
        lemma_lookup_with_value(p1, label, v, m);
        lemma_lookup_with_value(p2, label, v, m);
    }
}

/// Two lookup-equivalent capture lists walk to the same end: the same
/// error, or the same flag and lookup-equivalent values.
pub proof fn lemma_walk_lookup_equiv(
    order: Seq<Seq<char>>,
    p1: Seq<(Seq<char>, Seq<char>)>,
    p2: Seq<(Seq<char>, Seq<char>)>,
    specs: Seq<(Seq<char>, PartKindView)>,
    requested: Seq<char>,
    b: bool,
)
    requires
        lookup_equiv(p1, p2),
    ensures
        match walk(order, p1, specs, requested, b) {
            WalkResult::Finished { parts: d1, bumped: m1 } => match walk(
                order,
                p2,
                specs,
                requested,
                b,
            ) {
                WalkResult::Finished { parts: d2, bumped: m2 } => m1 == m2 && lookup_equiv(
                    d1,
                    d2,
                ),
                _ => false,
            },
            WalkResult::NumberError => walk(order, p2, specs, requested, b)
                == WalkResult::NumberError,
            WalkResult::ValuesError => walk(order, p2, specs, requested, b)
                == WalkResult::ValuesError,
        },
    decreases order.len(),
{
    if order.len() > 0 {
        let label = order[0];
        let t = order.skip(1);
        assert(lookup(p1, label) == lookup(p2, label));
        match lookup(p1, label) {
            None => {
                lemma_walk_lookup_equiv(t, p1, p2, specs, requested, b);
            },
            Some(value) => {
                if label == requested {
                    match kind_of(specs, label) {
                        PartKindView::Number => {
                            match dec_parse(value) {
                                Some(v) => {
                                    if v < u64::MAX {
                                        let nv = dec_digits(v + 1);
                                        lemma_with_value_equiv(p1, p2, label, nv);
                                        lemma_walk_lookup_equiv(
                                            t,
                                            with_value(p1, label, nv),
                                            with_value(p2, label, nv),
                                            specs,
                                            requested,
                                            true,
                                        );
                                    }
                                },
                                None => {},
                            }
                        },
                        PartKindView::Enumerated(vals) => {
                            match first_pos(vals, value) {
                                None => {},
                                Some(k) => {
                                    let nk = if k + 1 < vals.len() {
                                        k + 1
                                    } else {
                                        vals.len() - 1
                                    };
                                    lemma_with_value_equiv(p1, p2, label, vals[nk]);
                                    lemma_walk_lookup_equiv(
                                        t,
                                        with_value(p1, label, vals[nk]),
                                        with_value(p2, label, vals[nk]),
                                        specs,
                                        requested,
                                        true,
                                    );
                                },
                            }
                        },
                    }
                } else if b {
                    match kind_of(specs, label) {
                        PartKindView::Number => {
                            lemma_with_value_equiv(p1, p2, label, seq!['0']);
                            lemma_walk_lookup_equiv(
                                t,
                                with_value(p1, label, seq!['0']),
                                with_value(p2, label, seq!['0']),
                                specs,
                                requested,
                                true,
                            );
                        },
                        PartKindView::Enumerated(vals) => {
                            if vals.len() > 0 {
                                lemma_with_value_equiv(p1, p2, label, vals[0]);
                                lemma_walk_lookup_equiv(
                                    t,
                                    with_value(p1, label, vals[0]),
                                    with_value(p2, label, vals[0]),
                                    specs,
                                    requested,
                                    true,
                                );
                            }
                        },
                    }
                } else {
                    lemma_walk_lookup_equiv(t, p1, p2, specs, requested, b);
                }
            },
        }
    }
}

proof fn lemma_substitute_equiv(
    order: Seq<Seq<char>>,
    p1: Seq<(Seq<char>, Seq<char>)>,
    p2: Seq<(Seq<char>, Seq<char>)>,
    cur: Seq<char>,
)
    requires
        lookup_equiv(p1, p2),
    ensures
        substitute(order, p1, cur) == substitute(order, p2, cur),
    decreases order.len(),
{
    if order.len() > 0 {
        assert(lookup(p1, order[0]) == lookup(p2, order[0]));
        match lookup(p1, order[0]) {
            None => {},
            Some(v) => {
                lemma_substitute_equiv(
                    order.skip(1),
                    p1,
                    p2,
                    replace_spec(cur, seq!['{'] + order[0] + seq!['}'], v),
                );
            },
        }
    }
}

/// Independence from capture order: the captured pairs enter the bump only
/// as a label-to-value table, so two capture lists that bind every label
/// identically — for instance the same groups captured in another order —
/// yield the same outcome. The cascade order is the template's alone.
pub proof fn lemma_capture_order_irrelevant(
    p1: Seq<(Seq<char>, Seq<char>)>,
    p2: Seq<(Seq<char>, Seq<char>)>,
    requested: Seq<char>,
    template: Seq<char>,
    specs: Seq<(Seq<char>, PartKindView)>,
)
    requires
        lookup_equiv(p1, p2),
    ensures
        spec_bump_parts(p1, requested, template, specs) == spec_bump_parts(
            p2,
            requested,
            template,
            specs,
        ),
{
    let order = part_order(template);
    lemma_walk_lookup_equiv(order, p1, p2, specs, requested, false);
    match walk(order, p1, specs, requested, false) {
        WalkResult::Finished { parts: d1, bumped: m1 } => {
            match walk(order, p2, specs, requested, false) {
                WalkResult::Finished { parts: d2, .. } => {
                    if m1 {
                        lemma_substitute_equiv(order, d1, d2, template);
                    }
                },
                _ => {},
            }
        },
        _ => {},
    }
}

/// A walk over a concatenated order is the walk over the first piece,
/// continued — unless it already failed — over the second.
pub proof fn lemma_walk_concat(
    a: Seq<Seq<char>>,
    b: Seq<Seq<char>>,
    parts: Seq<(Seq<char>, Seq<char>)>,
    specs: Seq<(Seq<char>, PartKindView)>,
    requested: Seq<char>,
    bm: bool,
)
    ensures
        walk(a + b, parts, specs, requested, bm) == (match walk(a, parts, specs, requested, bm) {
            WalkResult::Finished { parts: mid, bumped: m } => walk(b, mid, specs, requested, m),
            WalkResult::NumberError => WalkResult::NumberError,
            WalkResult::ValuesError => WalkResult::ValuesError,
        }),
    decreases a.len(),
{
    if a.len() == 0 {
        assert(a + b =~= b);
    } else {
        let label = a[0];
        assert((a + b)[0] == label);
        assert((a + b).skip(1) =~= a.skip(1) + b);
        match lookup(parts, label) {
            None => {
                lemma_walk_concat(a.skip(1), b, parts, specs, requested, bm);
            },
            Some(value) => {
                if label == requested {
                    match kind_of(specs, label) {
                        PartKindView::Number => {
                            match dec_parse(value) {
                                Some(v) => {
                                    if v < u64::MAX {
                                        lemma_walk_concat(
                                            a.skip(1),
                                            b,
                                            with_value(parts, label, dec_digits(v + 1)),
                                            specs,
                                            requested,
                                            true,
                                        );
                                    }
                                },
                                None => {},
                            }
                        },
                        PartKindView::Enumerated(vals) => {
                            match first_pos(vals, value) {
                                None => {},
                                Some(k) => {
                                    let nk = if k + 1 < vals.len() {
                                        k + 1
                                    } else {
                                        vals.len() - 1
                                    };
                                    lemma_walk_concat(
                                        a.skip(1),
                                        b,
                                        with_value(parts, label, vals[nk]),
                                        specs,
                                        requested,
                                        true,
                                    );
                                },
                            }
                        },
                    }
                } else if bm {
                    match kind_of(specs, label) {
                        PartKindView::Number => {
                            lemma_walk_concat(
                                a.skip(1),
                                b,
                                with_value(parts, label, seq!['0']),
                                specs,
                                requested,
                                true,
                            );
                        },
                        PartKindView::Enumerated(vals) => {
                            if vals.len() > 0 {
                                lemma_walk_concat(
                                    a.skip(1),
                                    b,
                                    with_value(parts, label, vals[0]),
                                    specs,
                                    requested,
                                    true,
                                );
                            }
                        },
                    }
                } else {
                    lemma_walk_concat(a.skip(1), b, parts, specs, requested, bm);
                }
            },
        }
    }
}

/// After the requested part was bumped, the rest of the walk resets every
/// captured label it names to its zero state, binds and unbinds nothing,
/// and touches no label outside the order.
pub proof fn lemma_walk_reset(
    order: Seq<Seq<char>>,
    parts: Seq<(Seq<char>, Seq<char>)>,
    specs: Seq<(Seq<char>, PartKindView)>,
    requested: Seq<char>,
)
    requires
        forall|i: int| 0 <= i < order.len() ==> order[i] != requested,
    ensures
        match walk(order, parts, specs, requested, true) {
            WalkResult::Finished { parts: done, bumped: m } => m == true && (forall|l: Seq<char>|
                lookup(parts, l) is Some <==> #[trigger] lookup(done, l) is Some) && (forall|
                l: Seq<char>,
            |
                !order.contains(l) ==> #[trigger] lookup(done, l) == lookup(parts, l)) && (forall|
                i: int,
            |
                0 <= i < order.len() && lookup(parts, #[trigger] order[i]) is Some ==> lookup(
                    done,
                    order[i],
                ) == Some(zero_state(kind_of(specs, order[i])))),
            _ => true,
        },
    decreases order.len(),
{
    if order.len() > 0 {
        let label = order[0];
        let t = order.skip(1);
        assert(forall|i: int| 0 <= i < t.len() ==> t[i] == order[i + 1]);
        assert(order.contains(label));
        match lookup(parts, label) {
            None => {
                lemma_walk_reset(t, parts, specs, requested);
                match walk(t, parts, specs, requested, true) {
                    WalkResult::Finished { parts: done, .. } => {
                        assert forall|l: Seq<char>| !order.contains(l) implies #[trigger] lookup(
                            done,
                            l,
                        ) == lookup(parts, l) by {
                            if t.contains(l) {
                                let j = choose|j: int| 0 <= j < t.len() && t[j] == l;
                                assert(order[j + 1] == l);
                            }
                        }
                        assert forall|i: int|
                            0 <= i < order.len() && lookup(
                                parts,
                                #[trigger] order[i],
                            ) is Some implies lookup(done, order[i]) == Some(
                            zero_state(kind_of(specs, order[i])),
                        ) by {
                            if i > 0 {
                                assert(order[i] == t[i - 1]);
                            }
                        }
                    },
                    _ => {},
                }
            },
            Some(value) => {
                let zs = zero_state(kind_of(specs, label));
                let proceed: bool = match kind_of(specs, label) {
                    PartKindView::Number => true,
                    PartKindView::Enumerated(vals) => vals.len() > 0,
                };
                if proceed {
                    let next = with_value(parts, label, zs);
                    assert(walk(order, parts, specs, requested, true) == walk(
                        t,
                        next,
                        specs,
                        requested,
                        true,
                    ));
                    lemma_lookup_with_value(parts, label, zs, label);
                    lemma_walk_reset(t, next, specs, requested);
                    match walk(t, next, specs, requested, true) {
                        WalkResult::Finished { parts: done, .. } => {
                            assert forall|l: Seq<char>|
                                lookup(parts, l) is Some <==> #[trigger] lookup(
                                    done,
                                    l,
                                ) is Some by {
                                lemma_lookup_with_value(parts, label, zs, l);
                            }
                            assert forall|l: Seq<char>| !order.contains(l) implies #[trigger] lookup(
                                done,
                                l,
                            ) == lookup(parts, l) by {
                                lemma_lookup_with_value(parts, label, zs, l);
                                if t.contains(l) {
                                    let j = choose|j: int| 0 <= j < t.len() && t[j] == l;
                                    assert(order[j + 1] == l);
                                }
                            }
                            assert forall|i: int|
                                0 <= i < order.len() && lookup(
                                    parts,
                                    #[trigger] order[i],
                                ) is Some implies lookup(done, order[i]) == Some(
                                zero_state(kind_of(specs, order[i])),
                            ) by {
                                lemma_lookup_with_value(parts, label, zs, order[i]);
                                if i == 0 {
                                    if t.contains(label) {
                                        let j = choose|j: int|
                                            0 <= j < t.len() && t[j] == label;
                                        assert(lookup(next, t[j]) is Some);
                                    } else {
                                        assert(lookup(done, label) == lookup(next, label));
                                    }
                                } else {
                                    assert(order[i] == t[i - 1]);
                                    assert(lookup(next, t[i - 1]) is Some);
                                }
                            }
                        },
                        _ => {},
                    }
                }
            },
        }
    }
}

/// Cascade scope: in a duplicate-free part order, a successful bump of the
/// label at position `k` leaves the value of every label before `k`
/// untouched, and resets exactly the captured labels strictly after `k` to
/// their zero states.
pub proof fn lemma_cascade_scope(
    order: Seq<Seq<char>>,
    parts: Seq<(Seq<char>, Seq<char>)>,
    specs: Seq<(Seq<char>, PartKindView)>,
    requested: Seq<char>,
    k: int,
)
    requires
        0 <= k < order.len(),
        order[k] == requested,
        forall|i: int, j: int| 0 <= i < j < order.len() ==> order[i] != order[j],
        walk(order, parts, specs, requested, false) matches WalkResult::Finished {
            bumped: true,
            ..
        },
    ensures
        match walk(order, parts, specs, requested, false) {
            WalkResult::Finished { parts: done, .. } => (forall|i: int|
                0 <= i < k ==> lookup(done, #[trigger] order[i]) == lookup(parts, order[i]))
                && (forall|i: int|
                k < i < order.len() && lookup(parts, #[trigger] order[i]) is Some ==> lookup(
                    done,
                    order[i],
                ) == Some(zero_state(kind_of(specs, order[i])))),
            _ => true,
        },
{
    let a = order.take(k);
    let b = order.skip(k);
    assert(order =~= a + b);
    assert(forall|i: int| 0 <= i < a.len() ==> a[i] == order[i]);
    lemma_walk_requested_unlisted(a, parts, specs, requested);
    lemma_walk_concat(a, b, parts, specs, requested, false);
    let tail = order.skip(k + 1);
    assert(b[0] == requested);
    assert(b.skip(1) =~= tail);
    assert(forall|i: int| 0 <= i < tail.len() ==> tail[i] == order[k + 1 + i]);
    assert(forall|i: int| 0 <= i < tail.len() ==> tail[i] != requested);
    match lookup(parts, requested) {
        None => {
            lemma_walk_requested_unlisted(tail, parts, specs, requested);
            assert(false);
        },
        Some(value) => {
            let nv: Seq<char> = match kind_of(specs, requested) {
                PartKindView::Number => match dec_parse(value) {
                    Some(v) => dec_digits(v + 1),
                    None => Seq::empty(),
                },
                PartKindView::Enumerated(vals) => match first_pos(vals, value) {
                    Some(p) => {
                        let nk = if p + 1 < vals.len() {
                            p + 1
                        } else {
                            vals.len() - 1
                        };
                        vals[nk]
                    },
                    None => Seq::empty(),
                },
            };
            let next = with_value(parts, requested, nv);
            assert(walk(order, parts, specs, requested, false) == walk(
                tail,
                next,
                specs,
                requested,
                true,
            ));
            lemma_walk_reset(tail, next, specs, requested);
            match walk(tail, next, specs, requested, true) {
                WalkResult::Finished { parts: done, .. } => {
                    assert forall|i: int| 0 <= i < k implies lookup(
                        done,
                        #[trigger] order[i],
                    ) == lookup(parts, order[i]) by {
                        lemma_lookup_with_value(parts, requested, nv, order[i]);
                        if tail.contains(order[i]) {
                            let j = choose|j: int| 0 <= j < tail.len() && tail[j] == order[i];
                            assert(order[k + 1 + j] == order[i]);
                            assert(false);
                        }
                    }
                    assert forall|i: int|
                        k < i < order.len() && lookup(
                            parts,
                            #[trigger] order[i],
                        ) is Some implies lookup(done, order[i]) == Some(
                        zero_state(kind_of(specs, order[i])),
                    ) by {
                        lemma_lookup_with_value(parts, requested, nv, order[i]);
                        assert(order[i] == tail[i - k - 1]);
                        assert(lookup(next, tail[i - k - 1]) is Some);
                    }
                },
                _ => {},
            }
        },
    }
}

} // verus!
