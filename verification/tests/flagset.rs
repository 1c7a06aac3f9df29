use easy_flag::var::Var;
use easy_flag::{FlagSet, ParseError};

#[test]
fn flagset_test() {
    let args = vec![
        "app_name".to_string(),
        "-b".to_string(),
        "--isize".to_string(),
        "-10".to_string(),
        "--f32".to_string(),
        "1.888".to_string(),
        "-u".to_string(),
        "40".to_string(),
        "-s".to_string(),
        "test_value".to_string(),
    ];

    let mut flag_set = FlagSet::new(&args[0])
        .add("-b,--bool", Var::Bool(false), "value bool")
        .add("-i, --isize", Var::Isize(20), "value isize")
        .add("-u, --usize", Var::Usize(15), "`value` usize")
        .add("-f, --f32", Var::F32("1.4".to_string()), "`value` f32")
        .add("-s, --string", Var::Str("default".to_string()), "test string")
        .add("--s2", Var::Str("default".to_string()), "test string default");
    flag_set.parse(&args[1..]).unwrap();

    assert_eq!(flag_set.set[0].var, Var::Bool(true));
    assert_eq!(flag_set.set[1].var, Var::Isize(-10));
    assert_eq!(flag_set.set[2].var, Var::Usize(40));
    match &flag_set.set[3].var {
        Var::F32(text) => assert_eq!(text.parse::<f32>().unwrap(), 1.888),
        other => panic!("wrong slot: {:?}", other),
    }
    assert_eq!(flag_set.set[4].var, Var::Str("test_value".to_string()));
    assert_eq!(flag_set.set[5].var, Var::Str("default".to_string()));
}

#[test]
fn bool_presence_consumes_no_value() {
    let mut set = FlagSet::new("app")
        .add("-b,--bool", Var::Bool(false), "value bool")
        .add("-u", Var::Usize(0), "value");
    set.parse(&["-b".to_string(), "-u".to_string(), "7".to_string()]).unwrap();
    assert_eq!(set.set[0].var, Var::Bool(true));
    assert_eq!(set.set[1].var, Var::Usize(7));
}

#[test]
fn signed_pointer_width_parses_negative() {
    let mut set = FlagSet::new("app").add("-i, --isize", Var::Isize(20), "value isize");
    set.parse(&["--isize".to_string(), "-10".to_string()]).unwrap();
    assert_eq!(set.set[0].var, Var::Isize(-10));
}

#[test]
fn unrecognized_flag_mutates_nothing() {
    let mut set = FlagSet::new("app")
        .add("-u", Var::Usize(15), "value")
        .add("-s", Var::Str("default".to_string()), "text");
    let err = set.parse(&["--unknown".to_string()]).unwrap_err();
    assert_eq!(err, ParseError::Unrecognized { token: "--unknown".to_string() });
    assert_eq!(err.message(), "flag --unknown provided but not defined");
    assert_eq!(set.set[0].var, Var::Usize(15));
    assert_eq!(set.set[1].var, Var::Str("default".to_string()));
}

#[test]
fn missing_argument_names_the_flag() {
    let mut set = FlagSet::new("app").add("-u, --usize", Var::Usize(15), "value");
    let err = set.parse(&["--usize".to_string()]).unwrap_err();
    assert_eq!(err, ParseError::Missing { alias: "-u, --usize".to_string() });
    assert_eq!(err.message(), "flag needs an argument: -u, --usize");
    assert_eq!(set.set[0].var, Var::Usize(15));
}

#[test]
fn bad_value_keeps_old_value_and_wraps_detail() {
    let mut set = FlagSet::new("app").add("-u", Var::Usize(15), "value");
    let err = set.parse(&["-u".to_string(), "abc".to_string()]).unwrap_err();
    assert_eq!(
        err,
        ParseError::BadValue {
            alias: "-u".to_string(),
            detail: "invalid digit found in string".to_string()
        }
    );
    assert_eq!(err.message(), "parse flag -u failed: invalid digit found in string");
    assert_eq!(set.set[0].var, Var::Usize(15));
}

#[test]
fn earlier_flags_keep_values_after_failure() {
    let mut set = FlagSet::new("app")
        .add("-u", Var::Usize(0), "value")
        .add("-s", Var::Str("default".to_string()), "text");
    let err = set.parse(&["-u".to_string(), "7".to_string(), "--nope".to_string()]).unwrap_err();
    assert_eq!(err, ParseError::Unrecognized { token: "--nope".to_string() });
    assert_eq!(set.set[0].var, Var::Usize(7));
    assert_eq!(set.set[1].var, Var::Str("default".to_string()));
}

#[test]
fn first_matching_declaration_wins() {
    let mut set = FlagSet::new("app")
        .add("-d", Var::Usize(1), "first")
        .add("-d", Var::Usize(2), "second");
    set.parse(&["-d".to_string(), "9".to_string()]).unwrap();
    assert_eq!(set.set[0].var, Var::Usize(9));
    assert_eq!(set.set[1].var, Var::Usize(2));
}

#[test]
fn aliases_are_trimmed_and_empty_segments_skipped() {
    let mut set = FlagSet::new("app").add(" -x ,, --long-x ", Var::U8(0), "value");
    set.parse(&["-x".to_string(), "3".to_string()]).unwrap();
    assert_eq!(set.set[0].var, Var::U8(3));
    let mut set2 = FlagSet::new("app").add(" -x ,, --long-x ", Var::U8(0), "value");
    set2.parse(&["--long-x".to_string(), "4".to_string()]).unwrap();
    assert_eq!(set2.set[0].var, Var::U8(4));
}

#[test]
fn later_value_overwrites_earlier_one() {
    let mut set = FlagSet::new("app").add("-u", Var::Usize(0), "value");
    set.parse(&["-u".to_string(), "1".to_string(), "-u".to_string(), "2".to_string()]).unwrap();
    assert_eq!(set.set[0].var, Var::Usize(2));
}

#[test]
fn empty_args_succeed_and_change_nothing() {
    let mut set = FlagSet::new("app").add("-u", Var::Usize(5), "value");
    let empty: Vec<String> = Vec::new();
    set.parse(&empty).unwrap();
    assert_eq!(set.set[0].var, Var::Usize(5));
}
