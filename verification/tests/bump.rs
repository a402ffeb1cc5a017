use bump2version::engine::{
    attempt_version_bump, bump_parts, default_parse, default_serialize, try_version_bump,
    BumpDefect, Config,
};
use bump2version::parts::PartKind;

fn config(current: &str, parse: &str, serialize: &str, part: Vec<(String, PartKind)>) -> Config {
    Config {
        current_version: current.to_string(),
        parse: parse.to_string(),
        serialize: serialize.to_string(),
        part,
    }
}

fn default_config(current: &str) -> Config {
    Config {
        current_version: current.to_string(),
        parse: default_parse(),
        serialize: default_serialize(),
        part: Vec::new(),
    }
}

fn release_part(values: &[&str]) -> Vec<(String, PartKind)> {
    vec![(
        "release".to_string(),
        PartKind::Enumerated {
            values: values.iter().map(|v| v.to_string()).collect(),
        },
    )]
}

#[test]
fn patch_bump_increments_last_part() {
    let cfg = default_config("1.2.3");
    assert_eq!(
        attempt_version_bump(&"patch".to_string(), &cfg),
        Some("1.2.4".to_string())
    );
}

#[test]
fn minor_bump_resets_patch() {
    let cfg = default_config("1.2.3");
    assert_eq!(
        attempt_version_bump(&"minor".to_string(), &cfg),
        Some("1.3.0".to_string())
    );
}

#[test]
fn major_bump_resets_minor_and_patch() {
    let cfg = default_config("1.2.3");
    assert_eq!(
        attempt_version_bump(&"major".to_string(), &cfg),
        Some("2.0.0".to_string())
    );
}

#[test]
fn string_kind_advances_to_next_value() {
    let cfg = config(
        "1.0.0-alpha",
        r"(?P<major>\d+)\.(?P<minor>\d+)\.(?P<patch>\d+)-(?P<release>[a-z]+)",
        "{major}.{minor}.{patch}-{release}",
        release_part(&["dev", "alpha", "beta", "rc", "final"]),
    );
    assert_eq!(
        attempt_version_bump(&"release".to_string(), &cfg),
        Some("1.0.0-beta".to_string())
    );
}

#[test]
fn string_kind_saturates_at_ceiling() {
    let cfg = config(
        "1.0.0-final",
        r"(?P<major>\d+)\.(?P<minor>\d+)\.(?P<patch>\d+)-(?P<release>[a-z]+)",
        "{major}.{minor}.{patch}-{release}",
        release_part(&["dev", "alpha", "beta", "rc", "final"]),
    );
    assert_eq!(
        attempt_version_bump(&"release".to_string(), &cfg),
        Some("1.0.0-final".to_string())
    );
}

#[test]
fn no_match_yields_absence() {
    let cfg = default_config("not-a-version");
    assert_eq!(attempt_version_bump(&"patch".to_string(), &cfg), None);
}

#[test]
fn cascade_resets_only_later_parts() {
    let cfg = config(
        "1.2.3.7",
        r"(?P<a>\d+)\.(?P<b>\d+)\.(?P<c>\d+)\.(?P<d>\d+)",
        "{a}.{b}.{c}.{d}",
        Vec::new(),
    );
    assert_eq!(
        attempt_version_bump(&"b".to_string(), &cfg),
        Some("1.3.0.0".to_string())
    );
}

#[test]
fn significance_follows_template_not_pattern() {
    // The pattern declares the groups least significant first; the template
    // alone decides that `major` outranks `minor` outranks `patch`.
    let cfg = config(
        "3.2.1",
        r"(?P<patch>\d+)\.(?P<minor>\d+)\.(?P<major>\d+)",
        "{major}.{minor}.{patch}",
        Vec::new(),
    );
    assert_eq!(
        attempt_version_bump(&"minor".to_string(), &cfg),
        Some("1.3.0".to_string())
    );
}

#[test]
fn absent_label_yields_absence() {
    let cfg = default_config("1.2.3");
    assert_eq!(attempt_version_bump(&"build".to_string(), &cfg), None);
}

#[test]
fn unparsable_number_yields_absence() {
    let cfg = config(
        "abc.2",
        r"(?P<major>\w+)\.(?P<minor>\d+)",
        "{major}.{minor}",
        Vec::new(),
    );
    assert_eq!(attempt_version_bump(&"major".to_string(), &cfg), None);
}

#[test]
fn plus_sign_parses_like_u64() {
    let cfg = config("+4", r"(?P<major>[0-9+]+)", "{major}", Vec::new());
    assert_eq!(
        attempt_version_bump(&"major".to_string(), &cfg),
        Some("5".to_string())
    );
}

#[test]
fn leading_zeros_are_not_preserved() {
    let cfg = config("007", r"(?P<major>\d+)", "{major}", Vec::new());
    assert_eq!(
        attempt_version_bump(&"major".to_string(), &cfg),
        Some("8".to_string())
    );
}

#[test]
fn largest_number_yields_absence() {
    let cfg = config(
        "18446744073709551615",
        r"(?P<major>\d+)",
        "{major}",
        Vec::new(),
    );
    assert_eq!(attempt_version_bump(&"major".to_string(), &cfg), None);
}

#[test]
fn invalid_pattern_yields_absence() {
    let cfg = config("1.2.3", r"(?P<major>\d+", "{major}", Vec::new());
    assert_eq!(attempt_version_bump(&"major".to_string(), &cfg), None);
    assert_eq!(try_version_bump(&"major".to_string(), &cfg), Ok(None));
}

#[test]
fn value_outside_allowed_list_is_a_defect() {
    let cfg = config(
        "1.0.0-gamma",
        r"(?P<major>\d+)\.(?P<minor>\d+)\.(?P<patch>\d+)-(?P<release>[a-z]+)",
        "{major}.{minor}.{patch}-{release}",
        release_part(&["dev", "alpha"]),
    );
    assert_eq!(
        try_version_bump(&"release".to_string(), &cfg),
        Err(BumpDefect::MissingPartValues)
    );
    assert_eq!(attempt_version_bump(&"release".to_string(), &cfg), None);
}

#[test]
fn empty_allowed_list_is_a_defect_on_reset() {
    let cfg = config(
        "1-dev",
        r"(?P<major>\d+)-(?P<release>[a-z]+)",
        "{major}-{release}",
        release_part(&[]),
    );
    assert_eq!(
        try_version_bump(&"major".to_string(), &cfg),
        Err(BumpDefect::MissingPartValues)
    );
}

#[test]
fn template_label_never_captured_is_a_defect() {
    let cfg = config("1", r"(?P<major>\d+)", "{major}.{minor}", Vec::new());
    assert_eq!(
        try_version_bump(&"major".to_string(), &cfg),
        Err(BumpDefect::TemplateLabelMissing)
    );
    assert_eq!(attempt_version_bump(&"major".to_string(), &cfg), None);
}

#[test]
fn duplicate_placeholder_bumps_twice() {
    // Each occurrence of the requested label in the template advances the
    // same underlying value once more.
    let cfg = config("1", r"(?P<major>\d+)", "{major}.{major}", Vec::new());
    assert_eq!(
        attempt_version_bump(&"major".to_string(), &cfg),
        Some("3.3".to_string())
    );
}

#[test]
fn padded_placeholder_is_trimmed_but_not_substituted() {
    // "{ major }" names the part `major` for the walk, yet reassembly only
    // ever replaces the exact text "{major}", so the padded placeholder
    // survives in the output.
    let cfg = config("7", r"(?P<major>\d+)", "{ major }", Vec::new());
    assert_eq!(
        attempt_version_bump(&"major".to_string(), &cfg),
        Some("{ major }".to_string())
    );
}

#[test]
fn enumerated_part_resets_to_first_value() {
    let cfg = config(
        "1.b",
        r"(?P<major>\d+)\.(?P<release>[a-z]+)",
        "{major}.{release}",
        release_part(&["a", "b", "c"]),
    );
    assert_eq!(
        attempt_version_bump(&"major".to_string(), &cfg),
        Some("2.a".to_string())
    );
}

#[test]
fn optional_group_outside_match_yields_absence() {
    let cfg = config(
        "1",
        r"(?P<major>\d+)(?:\.(?P<minor>\d+))?",
        "{major}",
        Vec::new(),
    );
    assert_eq!(attempt_version_bump(&"minor".to_string(), &cfg), None);
    assert_eq!(
        attempt_version_bump(&"major".to_string(), &cfg),
        Some("2".to_string())
    );
}

#[test]
fn bump_parts_works_on_plain_pairs() {
    let parsed = vec![
        ("major".to_string(), "1".to_string()),
        ("minor".to_string(), "4".to_string()),
    ];
    let r = bump_parts(
        &parsed,
        &"major".to_string(),
        &"{major}.{minor}".to_string(),
        &Vec::new(),
    );
    assert_eq!(r, Ok(Some("2.0".to_string())));
}

#[test]
fn same_inputs_same_output() {
    let cfg = default_config("0.9.9");
    let first = attempt_version_bump(&"minor".to_string(), &cfg);
    let second = attempt_version_bump(&"minor".to_string(), &cfg);
    assert_eq!(first, Some("0.10.0".to_string()));
    assert_eq!(first, second);
}
