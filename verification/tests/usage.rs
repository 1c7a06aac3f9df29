use easy_flag::var::Var;
use easy_flag::{Flag, FlagSet};

#[test]
fn quoted_placeholder_overrides_kind_tag() {
    let f = Flag {
        name: "-u, --usize".to_string(),
        help: "`value` usize".to_string(),
        var: Var::Usize(0),
    };
    let (name, help) = f.unquote_usage();
    assert_eq!(name, "value");
    assert_eq!(help, "value usize");
}

#[test]
fn help_without_backticks_keeps_kind_tag() {
    let f = Flag { name: "-u".to_string(), help: "plain help".to_string(), var: Var::Usize(0) };
    let (name, help) = f.unquote_usage();
    assert_eq!(name, "usize");
    assert_eq!(help, "plain help");
}

#[test]
fn one_backtick_is_not_a_placeholder() {
    let f = Flag { name: "-u".to_string(), help: "one`tick".to_string(), var: Var::U8(0) };
    let (name, help) = f.unquote_usage();
    assert_eq!(name, "u8");
    assert_eq!(help, "one`tick");
}

#[test]
fn closing_backtick_at_the_end_is_not_a_placeholder() {
    let f = Flag { name: "-u".to_string(), help: "`value`".to_string(), var: Var::U8(0) };
    let (name, help) = f.unquote_usage();
    assert_eq!(name, "u8");
    assert_eq!(help, "`value`");
}

#[test]
fn empty_quoted_segment_strips_backticks() {
    let f = Flag { name: "-u".to_string(), help: "``x".to_string(), var: Var::U8(0) };
    let (name, help) = f.unquote_usage();
    assert_eq!(name, "");
    assert_eq!(help, "x");
}

#[test]
fn defaults_lists_flags_in_order() {
    let set = FlagSet::new("app")
        .add("-b", Var::Bool(false), "toggles")
        .add("-u, --usize", Var::Usize(0), "`value` usize");
    assert_eq!(set.defaults(), "  -b\ttoggles\n  -u, --usize value\n    \tvalue usize\n");
}

#[test]
fn short_head_gets_a_tab_and_long_head_a_break() {
    let set = FlagSet::new("app").add("abcd", Var::Bool(false), "short head");
    assert_eq!(set.defaults(), "  abcd\tshort head\n");
    let set = FlagSet::new("app").add("abcde", Var::Bool(false), "long head");
    assert_eq!(set.defaults(), "  abcde\n    \tlong head\n");
    // the placeholder counts toward the head: "-x u8" is five characters
    let set = FlagSet::new("app").add("-x", Var::U8(0), "value");
    assert_eq!(set.defaults(), "  -x u8\n    \tvalue\n");
}

#[test]
fn embedded_newlines_are_indented() {
    let set = FlagSet::new("app").add("-m", Var::Bool(false), "first\nsecond\nthird");
    assert_eq!(set.defaults(), "  -m\tfirst\n    \tsecond\n    \tthird\n");
}

#[test]
fn usage_prefixes_the_set_name() {
    let set = FlagSet::new("my set").add("-b", Var::Bool(false), "toggles");
    assert_eq!(set.name(), "my set");
    assert_eq!(set.usage(), "Usage of my set:\n  -b\ttoggles\n");
}

#[test]
fn boolean_flag_never_shows_a_placeholder() {
    // even a quoted segment in the help adds no placeholder for a boolean
    let set = FlagSet::new("app").add("-b", Var::Bool(false), "`value` toggles");
    assert_eq!(set.defaults(), "  -b\tvalue toggles\n");
}
