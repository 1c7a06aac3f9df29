use easy_flag::var::{Kind, Var};

#[test]
fn assign_parses_each_integer_kind() {
    let mut v = Var::I8(1);
    v.parse("-128").unwrap();
    assert_eq!(v, Var::I8(-128));
    v.parse("127").unwrap();
    assert_eq!(v, Var::I8(127));

    let mut v = Var::I16(0);
    v.parse("-32768").unwrap();
    assert_eq!(v, Var::I16(-32768));

    let mut v = Var::I32(0);
    v.parse("+2147483647").unwrap();
    assert_eq!(v, Var::I32(2147483647));

    let mut v = Var::I64(0);
    v.parse("-9223372036854775808").unwrap();
    assert_eq!(v, Var::I64(i64::MIN));

    let mut v = Var::I128(0);
    v.parse("-170141183460469231731687303715884105728").unwrap();
    assert_eq!(v, Var::I128(i128::MIN));

    let mut v = Var::Isize(0);
    v.parse("-10").unwrap();
    assert_eq!(v, Var::Isize(-10));

    let mut v = Var::U8(0);
    v.parse("255").unwrap();
    assert_eq!(v, Var::U8(255));

    let mut v = Var::U16(0);
    v.parse("65535").unwrap();
    assert_eq!(v, Var::U16(65535));

    let mut v = Var::U32(0);
    v.parse("0000000042").unwrap();
    assert_eq!(v, Var::U32(42));

    let mut v = Var::U64(0);
    v.parse("18446744073709551615").unwrap();
    assert_eq!(v, Var::U64(u64::MAX));

    let mut v = Var::U128(0);
    v.parse("340282366920938463463374607431768211455").unwrap();
    assert_eq!(v, Var::U128(u128::MAX));

    let mut v = Var::Usize(0);
    v.parse("+40").unwrap();
    assert_eq!(v, Var::Usize(40));
}

#[test]
fn assign_rejects_malformed_and_keeps_value() {
    let mut v = Var::I8(7);
    assert_eq!(v.parse("128").unwrap_err(), "number too large to fit in target type");
    assert_eq!(v, Var::I8(7));
    assert_eq!(v.parse("-129").unwrap_err(), "number too small to fit in target type");
    assert_eq!(v, Var::I8(7));
    assert_eq!(v.parse("").unwrap_err(), "cannot parse integer from empty string");
    assert_eq!(v.parse("+").unwrap_err(), "invalid digit found in string");
    assert_eq!(v.parse("-").unwrap_err(), "invalid digit found in string");
    assert_eq!(v.parse("1x").unwrap_err(), "invalid digit found in string");
    assert_eq!(v.parse(" 5").unwrap_err(), "invalid digit found in string");
    assert_eq!(v, Var::I8(7));

    let mut u = Var::U32(3);
    assert_eq!(u.parse("-1").unwrap_err(), "invalid digit found in string");
    assert_eq!(u.parse("4294967296").unwrap_err(), "number too large to fit in target type");
    assert_eq!(u, Var::U32(3));
}

#[test]
fn assign_parses_booleans_strictly() {
    let mut b = Var::Bool(false);
    b.parse("true").unwrap();
    assert_eq!(b, Var::Bool(true));
    b.parse("false").unwrap();
    assert_eq!(b, Var::Bool(false));
    assert_eq!(b.parse("TRUE").unwrap_err(), "provided string was not `true` or `false`");
    assert_eq!(b.parse("1").unwrap_err(), "provided string was not `true` or `false`");
    assert_eq!(b, Var::Bool(false));
}

#[test]
fn assign_accepts_valid_real_literals() {
    for text in [
        "1.888", "-.5", "+3.", "1e10", "2E-7", "0.25e+4", "7", "inf", "-inf", "Infinity", "NaN",
        "nan",
    ] {
        let mut v = Var::F32("0".to_string());
        v.parse(text).unwrap();
        assert_eq!(v, Var::F32(text.to_string()));
        // the accepted text is exactly what the standard float parser accepts
        assert!(text.parse::<f32>().is_ok());
        let mut w = Var::F64("0".to_string());
        w.parse(text).unwrap();
        assert_eq!(w, Var::F64(text.to_string()));
        assert!(text.parse::<f64>().is_ok());
    }
}

#[test]
fn assign_rejects_malformed_real_literals() {
    for text in ["", ".", "1.2.3", "1e", "e5", "--1", "0x10", " 1.5", "nanx", "in", "+", "1e+"] {
        let mut v = Var::F32("1.4".to_string());
        assert_eq!(v.parse(text).unwrap_err(), "invalid float literal");
        assert_eq!(v, Var::F32("1.4".to_string()));
        // the rejected text is rejected by the standard float parser too
        assert!(text.parse::<f32>().is_err());
    }
}

#[test]
fn assign_stores_strings_verbatim() {
    let mut v = Var::Str("default".to_string());
    v.parse("test_value").unwrap();
    assert_eq!(v, Var::Str("test_value".to_string()));
    v.parse("").unwrap();
    assert_eq!(v, Var::Str(String::new()));
    v.parse("  spaced text  ").unwrap();
    assert_eq!(v, Var::Str("  spaced text  ".to_string()));
}

#[test]
fn new_slots_hold_zero_values() {
    assert_eq!(Var::new(Kind::Bool), Var::Bool(false));
    assert_eq!(Var::new(Kind::I8), Var::I8(0));
    assert_eq!(Var::new(Kind::I64), Var::I64(0));
    assert_eq!(Var::new(Kind::Usize), Var::Usize(0));
    assert_eq!(Var::new(Kind::F32), Var::F32("0".to_string()));
    assert_eq!(Var::new(Kind::Str), Var::Str(String::new()));
}

#[test]
fn unquotename_gives_the_kind_tag() {
    assert_eq!(Var::Bool(false).unquotename(), "");
    assert_eq!(Var::I8(0).unquotename(), "i8");
    assert_eq!(Var::I16(0).unquotename(), "i16");
    assert_eq!(Var::I32(0).unquotename(), "i32");
    assert_eq!(Var::I64(0).unquotename(), "i64");
    assert_eq!(Var::I128(0).unquotename(), "i128");
    assert_eq!(Var::Isize(0).unquotename(), "isize");
    assert_eq!(Var::U8(0).unquotename(), "u8");
    assert_eq!(Var::U16(0).unquotename(), "u16");
    assert_eq!(Var::U32(0).unquotename(), "u32");
    assert_eq!(Var::U64(0).unquotename(), "u64");
    assert_eq!(Var::U128(0).unquotename(), "u128");
    assert_eq!(Var::Usize(0).unquotename(), "usize");
    assert_eq!(Var::F32("0".to_string()).unquotename(), "f32");
    assert_eq!(Var::F64("0".to_string()).unquotename(), "f64");
    assert_eq!(Var::Str(String::new()).unquotename(), "string");
}
