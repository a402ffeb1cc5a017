//! The bump engine: walking the part order, advancing the requested part,
//! resetting every less significant part, and reassembling the new version
//! string from the template.

use crate::capture::{captured_parts, extract_parts, pattern_accepted};
use crate::numeric::{dec_digits, dec_parse, format_dec, parse_dec};
use crate::order::{derive_order, part_order};
use crate::parts::{
    find_part, find_spec, find_value, first_pos, kind_of, lemma_first_pos_props,
    lemma_kind_of_at, lemma_kind_of_none, lemma_lookup_at, lemma_lookup_none,
    lemma_with_value_at, lookup, with_value, PartKind, PartKindView,
};
use crate::text::{append_chars, from_chars, replace_chars, replace_spec, to_chars};
use vstd::prelude::*;

verus! {

/// A configuration defect: the request cannot be carried out because the
/// configuration contradicts itself, not because of the version data.
#[derive(Debug, Clone, Copy, PartialEq, Eq, Structural)]
pub enum BumpDefect {
    /// An enumerated part's captured value is not among its allowed values
    /// (in particular, the list of allowed values is empty).
    MissingPartValues,
    /// The template names a label that the pattern never captured, so the
    /// new version cannot be assembled.
    TemplateLabelMissing,
}

/// What a bump yields: a new version string, no bump, or a defect.
pub enum BumpOutcome {
    Produced(Seq<char>),
    NoBump,
    Defect(BumpDefect),
}

/// The state in which the walk over the part order ends.
pub enum WalkResult {
    /// The walk ran through; `parts` holds the updated values and `bumped`
    /// says whether the requested part was found and advanced.
    Finished { parts: Seq<(Seq<char>, Seq<char>)>, bumped: bool },
    /// The requested part is numeric but its text is not a bumpable
    /// non-negative 64-bit integer.
    NumberError,
    /// An enumerated part's value was not found among its allowed values.
    ValuesError,
}

/// One pass over the part order, most significant label first: the requested
/// label is advanced according to its kind, every later label that was
/// captured is reset to its zero state, and labels that were not captured
/// are skipped.
pub open spec fn walk(
    order: Seq<Seq<char>>,
    parts: Seq<(Seq<char>, Seq<char>)>,
    specs: Seq<(Seq<char>, PartKindView)>,
    requested: Seq<char>,
    bumped: bool,
) -> WalkResult
    decreases order.len(),
{
    if order.len() == 0 {
        WalkResult::Finished { parts, bumped }
    } else {
        let label = order[0];
        match lookup(parts, label) {
            None => walk(order.skip(1), parts, specs, requested, bumped),
            Some(value) => {
                if label == requested {
                    match kind_of(specs, label) {
                        PartKindView::Number => match dec_parse(value) {
                            Some(v) => if v < u64::MAX {
                                walk(
                                    order.skip(1),
                                    with_value(parts, label, dec_digits(v + 1)),
                                    specs,
                                    requested,
                                    true,
                                )
                            } else {
                                WalkResult::NumberError
                            },
                            None => WalkResult::NumberError,
                        },
                        PartKindView::Enumerated(vals) => match first_pos(vals, value) {
                            None => WalkResult::ValuesError,
                            Some(k) => {
                                let nk = if k + 1 < vals.len() {
                                    k + 1
                                } else {
                                    vals.len() - 1
                                };
                                walk(
                                    order.skip(1),
                                    with_value(parts, label, vals[nk]),
                                    specs,
                                    requested,
                                    true,
                                )
                            },
                        },
                    }
                } else if bumped {
                    match kind_of(specs, label) {
                        PartKindView::Number => walk(
                            order.skip(1),
                            with_value(parts, label, seq!['0']),
                            specs,
                            requested,
                            true,
                        ),
                        PartKindView::Enumerated(vals) => if vals.len() == 0 {
                            WalkResult::ValuesError
                        } else {
                            walk(
                                order.skip(1),
                                with_value(parts, label, vals[0]),
                                specs,
                                requested,
                                true,
                            )
                        },
                    }
                } else {
                    walk(order.skip(1), parts, specs, requested, bumped)
                }
            },
        }
    }
}

/// Reassembly: for each label of the part order in turn, every occurrence of
/// `{label}` in the working string is replaced by the label's value; a label
/// that was never captured is a defect.
pub open spec fn substitute(
    order: Seq<Seq<char>>,
    parts: Seq<(Seq<char>, Seq<char>)>,
    cur: Seq<char>,
) -> Option<Seq<char>>
    decreases order.len(),
{
    if order.len() == 0 {
        Some(cur)
    } else {
        match lookup(parts, order[0]) {
            None => None,
            Some(v) => substitute(
                order.skip(1),
                parts,
                replace_spec(cur, seq!['{'] + order[0] + seq!['}'], v),
            ),
        }
    }
}

/// The outcome of bumping `requested` in the captured `parts`, with the part
/// order and the reassembly drawn from `template` and the kinds from
/// `specs`.
pub open spec fn spec_bump_parts(
    parts: Seq<(Seq<char>, Seq<char>)>,
    requested: Seq<char>,
    template: Seq<char>,
    specs: Seq<(Seq<char>, PartKindView)>,
) -> BumpOutcome {
    let order = part_order(template);
    match walk(order, parts, specs, requested, false) {
        WalkResult::Finished { parts: done, bumped } => if !bumped {
            BumpOutcome::NoBump
        } else {
            match substitute(order, done, template) {
                Some(s) => BumpOutcome::Produced(s),
                None => BumpOutcome::Defect(BumpDefect::TemplateLabelMissing),
            }
        },
        WalkResult::NumberError => BumpOutcome::NoBump,
        WalkResult::ValuesError => BumpOutcome::Defect(BumpDefect::MissingPartValues),
    }
}

/// The outcome that an executable result stands for.
pub open spec fn result_outcome(r: Result<Option<String>, BumpDefect>) -> BumpOutcome {
    match r {
        Ok(Some(s)) => BumpOutcome::Produced(s@),
        Ok(None) => BumpOutcome::NoBump,
        Err(d) => BumpOutcome::Defect(d),
    }
}

/// A copy of the captured parts, pair by pair.
fn copy_parts(parts: &Vec<(String, String)>) -> (r: Vec<(String, String)>)
    ensures
        r@ == parts@,
{
    let mut r: Vec<(String, String)> = Vec::new();
    let mut i: usize = 0;
    while i < parts.len()
        invariant
            i <= parts@.len(),
            r@ == parts@.subrange(0, i as int),
        decreases parts@.len() - i,
    {
        let key = parts[i].0.clone();
        let val = parts[i].1.clone();
        r.push((key, val));
        proof {
            assert(r@ =~= parts@.subrange(0, i + 1 as int));
        }
        i = i + 1;
    }
    proof {
        assert(r@ =~= parts@);
    }
    r
}

/// Bumps `requested` in the already captured `parsed` parts and reassembles
/// the version from `template`, exactly as [`spec_bump_parts`] describes:
/// the new version string on success, no result when nothing could be
/// bumped, and a defect when the configuration contradicts itself.
pub fn bump_parts(
    parsed: &Vec<(String, String)>,
    requested: &String,
    template: &String,
    specs: &Vec<(String, PartKind)>,
) -> (r: Result<Option<String>, BumpDefect>)
    ensures
        result_outcome(r) == spec_bump_parts(
            parsed.deep_view(),
            requested@,
            template@,
            specs.deep_view(),
        ),
{
    let ghost parts0 = parsed.deep_view();
    let ghost specsv = specs.deep_view();
    let tmpl_chars = to_chars(template.as_str());
    let order = derive_order(&tmpl_chars);
    let ghost orderv = order.deep_view();
    let mut work = copy_parts(parsed);
    let mut bumped = false;
    let mut k: usize = 0;
    proof {
        assert(work.deep_view() =~= parts0);
        assert(orderv.skip(0) =~= orderv);
    }
    while k < order.len()
        invariant
            k <= orderv.len(),
            orderv == order.deep_view(),
            orderv == part_order(template@),
            specsv == specs.deep_view(),
            parts0 == parsed.deep_view(),
            walk(orderv, parts0, specsv, requested@, false) == walk(
                orderv.skip(k as int),
                work.deep_view(),
                specsv,
                requested@,
                bumped,
            ),
        decreases orderv.len() - k,
    {
        let ghost pre = work.deep_view();
        let ghost rest = orderv.skip(k as int);
        let label = &order[k];
        proof {
            assert(orderv[k as int] == order@[k as int]@);
            assert(rest[0] == orderv[k as int]);
            assert(rest.skip(1) =~= orderv.skip(k + 1));
            assert(forall|j: int|
                0 <= j < work@.len() ==> pre[j] == (work@[j].0@, work@[j].1@));
        }
        match find_part(&work, label) {
            None => {
                proof {
                    lemma_lookup_none(pre, label@);
                }
            },
            Some(i) => {
                proof {
                    lemma_lookup_at(pre, label@, i as int);
                }
                let requested_here = label.eq(requested);
                if requested_here || bumped {
                    let ghost kind = kind_of(specsv, label@);
                    let values_opt: Option<&Vec<String>> = match find_spec(specs, label) {
                        Some(si) => {
                            proof {
                                assert(forall|j: int|
                                    0 <= j < specs@.len() ==> specsv[j] == (
                                        specs@[j].0@,
                                        specs@[j].1.deep_view(),
                                    ));
                                lemma_kind_of_at(specsv, label@, si as int);
                            }
                            match &specs[si].1 {
                                PartKind::Number => None,
                                PartKind::Enumerated { values } => Some(values),
                            }
                        },
                        None => {
                            proof {
                                assert(forall|j: int|
                                    0 <= j < specs@.len() ==> specsv[j] == (
                                        specs@[j].0@,
                                        specs@[j].1.deep_view(),
                                    ));
                                lemma_kind_of_none(specsv, label@);
                            }
                            None
                        },
                    };
                    proof {
                        assert(match values_opt {
                            Some(vs) => kind == PartKindView::Enumerated(vs.deep_view()),
                            None => kind == PartKindView::Number,
                        });
                    }
                    if requested_here {
                        match values_opt {
                            None => {
                                let vchars = to_chars(work[i].1.as_str());
                                match parse_dec(&vchars) {
                                    Some(v) => {
                                        if v < u64::MAX {
                                            let newval = from_chars(&format_dec(v + 1));
                                            let key = work[i].0.clone();
                                            work[i] = (key, newval);
                                            proof {
                                                lemma_with_value_at(
                                                    pre,
                                                    label@,
                                                    dec_digits(v + 1),
                                                    i as int,
                                                );
                                                assert(work.deep_view() =~= with_value(
                                                    pre,
                                                    label@,
                                                    dec_digits(v + 1),
                                                ));
                                            }
                                            bumped = true;
                                        } else {
                                            return Ok(None);
                                        }
                                    },
                                    None => {
                                        return Ok(None);
                                    },
                                }
                            },
                            Some(values) => {
                                let ghost valsdv = values.deep_view();
                                let cur = work[i].1.clone();
                                proof {
                                    assert(forall|j: int|
                                        0 <= j < values@.len() ==> valsdv[j] == values@[j]@);
                                    lemma_first_pos_props(valsdv, cur@);
                                }
                                match find_value(values, &cur) {
                                    None => {
                                        return Err(BumpDefect::MissingPartValues);
                                    },
                                    Some(p) => {
                                        let vl = values.len();
                                        proof {
                                            match first_pos(valsdv, cur@) {
                                                Some(fp) => {
                                                    if fp < p as int {
                                                        assert(valsdv[fp] == values@[fp]@);
                                                        assert(false);
                                                    }
                                                    if fp > p as int {
                                                        assert(valsdv[p as int] == cur@);
                                                        assert(false);
                                                    }
                                                },
                                                None => {
                                                    assert(valsdv[p as int] == cur@);
                                                    assert(false);
                                                },
                                            }
                                            assert(p < vl);
                                        }
                                        let np = if p + 1 < vl {
                                            p + 1
                                        } else {
                                            vl - 1
                                        };
                                        let newval = values[np].clone();
                                        let key = work[i].0.clone();
                                        work[i] = (key, newval);
                                        proof {
                                            lemma_with_value_at(
                                                pre,
                                                label@,
                                                valsdv[np as int],
                                                i as int,
                                            );
                                            assert(work.deep_view() =~= with_value(
                                                pre,
                                                label@,
                                                valsdv[np as int],
                                            ));
                                        }
                                        bumped = true;
                                    },
                                }
                            },
                        }
                    } else {
                        match values_opt {
                            None => {
                                let newval = String::from_str("0");
                                proof {
                                    reveal_strlit("0");
                                    assert(newval@ =~= seq!['0']);
                                }
                                let key = work[i].0.clone();
                                work[i] = (key, newval);
                                proof {
                                    lemma_with_value_at(pre, label@, seq!['0'], i as int);
                                    assert(work.deep_view() =~= with_value(
                                        pre,
                                        label@,
                                        seq!['0'],
                                    ));
                                }
                            },
                            Some(values) => {
                                let ghost valsdv = values.deep_view();
                                proof {
                                    assert(forall|j: int|
                                        0 <= j < values@.len() ==> valsdv[j] == values@[j]@);
                                }
                                if values.len() == 0 {
                                    return Err(BumpDefect::MissingPartValues);
                                }
                                let newval = values[0].clone();
                                let key = work[i].0.clone();
                                work[i] = (key, newval);
                                proof {
                                    lemma_with_value_at(pre, label@, valsdv[0], i as int);
                                    assert(work.deep_view() =~= with_value(
                                        pre,
                                        label@,
                                        valsdv[0],
                                    ));
                                }
                            },
                        }
                    }
                }
            },
        }
        k = k + 1;
    }
    proof {
        assert(orderv.skip(orderv.len() as int) =~= Seq::<Seq<char>>::empty());
    }
    if !bumped {
        return Ok(None);
    }
    let ghost donev = work.deep_view();
    let mut cur = tmpl_chars;
    let mut m: usize = 0;
    proof {
        assert(orderv.skip(0) =~= orderv);
    }
    while m < order.len()
        invariant
            m <= orderv.len(),
            orderv == order.deep_view(),
            orderv == part_order(template@),
            specsv == specs.deep_view(),
            parts0 == parsed.deep_view(),
            donev == work.deep_view(),
            walk(orderv, parts0, specsv, requested@, false) == (WalkResult::Finished {
                parts: donev,
                bumped: true,
            }),
            substitute(orderv, donev, template@) == substitute(
                orderv.skip(m as int),
                donev,
                cur@,
            ),
        decreases orderv.len() - m,
    {
        let ghost rest = orderv.skip(m as int);
        let ghost pre = work.deep_view();
        let label = &order[m];
        proof {
            assert(orderv[m as int] == order@[m as int]@);
            assert(rest[0] == orderv[m as int]);
            assert(rest.skip(1) =~= orderv.skip(m + 1));
            assert(forall|j: int|
                0 <= j < work@.len() ==> pre[j] == (work@[j].0@, work@[j].1@));
        }
        match find_part(&work, label) {
            None => {
                proof {
                    lemma_lookup_none(donev, label@);
                }
                return Err(BumpDefect::TemplateLabelMissing);
            },
            Some(i) => {
                proof {
                    lemma_lookup_at(donev, label@, i as int);
                }
                let mut needle: Vec<char> = Vec::new();
                needle.push('{');
                let labc = to_chars(label.as_str());
                append_chars(&mut needle, &labc);
                needle.push('}');
                proof {
                    assert(needle@ =~= seq!['{'] + label@ + seq!['}']);
                }
                let valc = to_chars(work[i].1.as_str());
                cur = replace_chars(&cur, &needle, &valc);
            },
        }
        m = m + 1;
    }
    proof {
        assert(orderv.skip(orderv.len() as int) =~= Seq::<Seq<char>>::empty());
    }
    Ok(Some(from_chars(&cur)))
}

/// The resolved configuration a bump works from.
#[derive(Debug, Clone)]
pub struct Config {
    /// The current version string.
    pub current_version: String,
    /// The decomposition pattern: a regular expression whose named groups
    /// name the parts.
    pub parse: String,
    /// The reassembly template, with one `{label}` placeholder per part.
    pub serialize: String,
    /// The per-part grammar, keyed by label; an absent label is numeric.
    pub part: Vec<(String, PartKind)>,
}

/// The outcome of a bump, before any defect is folded away: no bump when the
/// pattern is invalid, and otherwise whatever bumping the captured parts
/// yields.
pub open spec fn spec_try_bump(
    parse: Seq<char>,
    current: Seq<char>,
    requested: Seq<char>,
    template: Seq<char>,
    specs: Seq<(Seq<char>, PartKindView)>,
) -> BumpOutcome {
    if !pattern_accepted(parse) {
        BumpOutcome::NoBump
    } else {
        spec_bump_parts(captured_parts(parse, current), requested, template, specs)
    }
}

/// The version string a bump yields, if any: a defect yields none, as an
/// invalid pattern or an impossible bump does.
pub open spec fn spec_attempt_bump(
    parse: Seq<char>,
    current: Seq<char>,
    requested: Seq<char>,
    template: Seq<char>,
    specs: Seq<(Seq<char>, PartKindView)>,
) -> Option<Seq<char>> {
    match spec_try_bump(parse, current, requested, template, specs) {
        BumpOutcome::Produced(s) => Some(s),
        _ => None,
    }
}

/// Bumps the part labelled `bump` in the configured current version,
/// distinguishing configuration defects from the ordinary "no bump"
/// outcome.
pub fn try_version_bump(bump: &String, config: &Config) -> (r: Result<
    Option<String>,
    BumpDefect,
>)
    ensures
        result_outcome(r) == spec_try_bump(
            config.parse@,
            config.current_version@,
            bump@,
            config.serialize@,
            config.part.deep_view(),
        ),
{
    match extract_parts(config.parse.as_str(), config.current_version.as_str()) {
        None => Ok(None),
        Some(parsed) => bump_parts(&parsed, bump, &config.serialize, &config.part),
    }
}

/// Bumps the part labelled `bump` in the configured current version and
/// returns the new version string, or nothing when no bump was possible —
/// an invalid pattern, a version the pattern does not match, a label never
/// captured, an unparsable number, or a configuration defect.
pub fn attempt_version_bump(bump: &String, config: &Config) -> (r: Option<String>)
    ensures
        r.deep_view() == spec_attempt_bump(
            config.parse@,
            config.current_version@,
            bump@,
            config.serialize@,
            config.part.deep_view(),
        ),
{
    match try_version_bump(bump, config) {
        Ok(r) => r,
        Err(_) => None,
    }
}

/// The default decomposition pattern: dotted `major.minor.patch`, each part
/// a run of digits.
pub fn default_parse() -> (r: String)
    ensures
        r@ == "(?P<major>\\d+)\\.(?P<minor>\\d+)\\.(?P<patch>\\d+)"@,
{
    String::from_str("(?P<major>\\d+)\\.(?P<minor>\\d+)\\.(?P<patch>\\d+)")
}

/// The default reassembly template for the default pattern.
pub fn default_serialize() -> (r: String)
    ensures
        r@ == "{major}.{minor}.{patch}"@,
{
    String::from_str("{major}.{minor}.{patch}")
}

} // verus!
