//! The typed variable slot a flag is bound to: a tagged union over the
//! supported primitive kinds, with textual assignment.  Real-number
//! slots hold the accepted literal text; converting that text to a
//! machine float is left to the caller, so the library itself stays
//! within exact arithmetic.

use vstd::prelude::*;

use crate::num::{
    is_float_text, float_text, num_msg, num_message, parse_int, parse_signed, parse_unsigned,
};
use crate::text::text_eq;

verus! {

/// The supported kinds of bound variable.
#[derive(Clone, Copy, Debug, PartialEq, Eq, Structural)]
pub enum Kind {
    Bool,
    I8,
    I16,
    I32,
    I64,
    I128,
    Isize,
    U8,
    U16,
    U32,
    U64,
    U128,
    Usize,
    F32,
    F64,
    Str,
}

/// A typed slot: the value a flag writes when it is parsed.  The two
/// real-number kinds store the accepted literal text verbatim.
#[derive(Debug, PartialEq)]
pub enum Var {
    Bool(bool),
    I8(i8),
    I16(i16),
    I32(i32),
    I64(i64),
    I128(i128),
    Isize(isize),
    U8(u8),
    U16(u16),
    U32(u32),
    U64(u64),
    U128(u128),
    Usize(usize),
    F32(String),
    F64(String),
    Str(String),
}

/// The mathematical value a slot holds: a truth value, an integer, or a
/// character sequence.
pub enum Val {
    B(bool),
    I(int),
    T(Seq<char>),
}

/// The kind a slot was constructed with; it never changes.
pub open spec fn var_kind(v: Var) -> Kind {
    match v {
        Var::Bool(_) => Kind::Bool,
        Var::I8(_) => Kind::I8,
        Var::I16(_) => Kind::I16,
        Var::I32(_) => Kind::I32,
        Var::I64(_) => Kind::I64,
        Var::I128(_) => Kind::I128,
        Var::Isize(_) => Kind::Isize,
        Var::U8(_) => Kind::U8,
        Var::U16(_) => Kind::U16,
        Var::U32(_) => Kind::U32,
        Var::U64(_) => Kind::U64,
        Var::U128(_) => Kind::U128,
        Var::Usize(_) => Kind::Usize,
        Var::F32(_) => Kind::F32,
        Var::F64(_) => Kind::F64,
        Var::Str(_) => Kind::Str,
    }
}

/// The value a slot holds, as a mathematical value.
pub open spec fn var_val(v: Var) -> Val {
    match v {
        Var::Bool(b) => Val::B(b),
        Var::I8(x) => Val::I(x as int),
        Var::I16(x) => Val::I(x as int),
        Var::I32(x) => Val::I(x as int),
        Var::I64(x) => Val::I(x as int),
        Var::I128(x) => Val::I(x as int),
        Var::Isize(x) => Val::I(x as int),
        Var::U8(x) => Val::I(x as int),
        Var::U16(x) => Val::I(x as int),
        Var::U32(x) => Val::I(x as int),
        Var::U64(x) => Val::I(x as int),
        Var::U128(x) => Val::I(x as int),
        Var::Usize(x) => Val::I(x as int),
        Var::F32(s) => Val::T(s@),
        Var::F64(s) => Val::T(s@),
        Var::Str(s) => Val::T(s@),
    }
}

/// The lowercase tag of a kind, used as the default value placeholder in
/// usage text.  Booleans take no value, so their tag is empty.
pub open spec fn kind_tag(k: Kind) -> Seq<char> {
    match k {
        Kind::Bool => Seq::empty(),
        Kind::I8 => "i8"@,
        Kind::I16 => "i16"@,
        Kind::I32 => "i32"@,
        Kind::I64 => "i64"@,
        Kind::I128 => "i128"@,
        Kind::Isize => "isize"@,
        Kind::U8 => "u8"@,
        Kind::U16 => "u16"@,
        Kind::U32 => "u32"@,
        Kind::U64 => "u64"@,
        Kind::U128 => "u128"@,
        Kind::Usize => "usize"@,
        Kind::F32 => "f32"@,
        Kind::F64 => "f64"@,
        Kind::Str => "string"@,
    }
}

/// The zero value of each kind: false, zero, the literal `0`, or the
/// empty string.
pub open spec fn is_default_var(v: Var) -> bool {
    match v {
        Var::Bool(b) => b == false,
        Var::I8(x) => x == 0,
        Var::I16(x) => x == 0,
        Var::I32(x) => x == 0,
        Var::I64(x) => x == 0,
        Var::I128(x) => x == 0,
        Var::Isize(x) => x == 0,
        Var::U8(x) => x == 0,
        Var::U16(x) => x == 0,
        Var::U32(x) => x == 0,
        Var::U64(x) => x == 0,
        Var::U128(x) => x == 0,
        Var::Usize(x) => x == 0,
        Var::F32(s) => s@ == "0"@,
        Var::F64(s) => s@ == "0"@,
        Var::Str(s) => s@ == Seq::<char>::empty(),
    }
}

/// The truth value `s` denotes, if any: exactly `true` or `false`.
pub open spec fn bool_text(s: Seq<char>) -> Option<bool> {
    if s == "true"@ {
        Some(true)
    } else if s == "false"@ {
        Some(false)
    } else {
        None
    }
}

/// The wording that accompanies a rejected truth value.
pub open spec fn bool_msg() -> Seq<char> {
    "provided string was not `true` or `false`"@
}

/// The wording that accompanies a rejected real-number literal.
pub open spec fn float_msg() -> Seq<char> {
    "invalid float literal"@
}

/// Assignment to an integer slot: the parsed value, or the numeric
/// error's wording.
pub open spec fn int_assign(s: Seq<char>, min: int, max: int) -> Result<Val, Seq<char>> {
    match parse_int(s, min, max) {
        Ok(v) => Ok(Val::I(v)),
        Err(e) => Err(num_msg(e)),
    }
}

/// What assigning the text `s` to a slot of kind `k` yields: the new
/// value of the slot, or the wording of the error that leaves it
/// unchanged.
pub open spec fn assign_spec(k: Kind, s: Seq<char>) -> Result<Val, Seq<char>> {
    match k {
        Kind::Bool => match bool_text(s) {
            Some(b) => Ok(Val::B(b)),
            None => Err(bool_msg()),
        },
        Kind::I8 => int_assign(s, i8::MIN as int, i8::MAX as int),
        Kind::I16 => int_assign(s, i16::MIN as int, i16::MAX as int),
        Kind::I32 => int_assign(s, i32::MIN as int, i32::MAX as int),
        Kind::I64 => int_assign(s, i64::MIN as int, i64::MAX as int),
        Kind::I128 => int_assign(s, i128::MIN as int, i128::MAX as int),
        Kind::Isize => int_assign(s, isize::MIN as int, isize::MAX as int),
        Kind::U8 => int_assign(s, 0, u8::MAX as int),
        Kind::U16 => int_assign(s, 0, u16::MAX as int),
        Kind::U32 => int_assign(s, 0, u32::MAX as int),
        Kind::U64 => int_assign(s, 0, u64::MAX as int),
        Kind::U128 => int_assign(s, 0, u128::MAX as int),
        Kind::Usize => int_assign(s, 0, usize::MAX as int),
        Kind::F32 => if is_float_text(s) {
            Ok(Val::T(s))
        } else {
            Err(float_msg())
        },
        Kind::F64 => if is_float_text(s) {
            Ok(Val::T(s))
        } else {
            Err(float_msg())
        },
        Kind::Str => Ok(Val::T(s)),
    }
}

impl Var {
    /// A fresh slot of kind `kind`, holding that kind's zero value.
    pub fn new(kind: Kind) -> (v: Var)
        ensures
            var_kind(v) == kind,
            is_default_var(v),
    {
        match kind {
            Kind::Bool => Var::Bool(false),
            Kind::I8 => Var::I8(0),
            Kind::I16 => Var::I16(0),
            Kind::I32 => Var::I32(0),
            Kind::I64 => Var::I64(0),
            Kind::I128 => Var::I128(0),
            Kind::Isize => Var::Isize(0),
            Kind::U8 => Var::U8(0),
            Kind::U16 => Var::U16(0),
            Kind::U32 => Var::U32(0),
            Kind::U64 => Var::U64(0),
            Kind::U128 => Var::U128(0),
            Kind::Usize => Var::Usize(0),
            Kind::F32 => Var::F32(String::from_str("0")),
            Kind::F64 => Var::F64(String::from_str("0")),
            Kind::Str => Var::Str(String::new()),
        }
    }

    /// The slot's kind tag, used as the default value placeholder in
    /// usage text; empty for a boolean slot.
    pub fn unquotename(&self) -> (r: &'static str)
        ensures
            r@ == kind_tag(var_kind(*self)),
    {
        proof {
            reveal_strlit("");
            assert(""@ =~= Seq::<char>::empty());
        }
        match self {
            Var::Bool(_) => "",
            Var::I8(_) => "i8",
            Var::I16(_) => "i16",
            Var::I32(_) => "i32",
            Var::I64(_) => "i64",
            Var::I128(_) => "i128",
            Var::Isize(_) => "isize",
            Var::U8(_) => "u8",
            Var::U16(_) => "u16",
            Var::U32(_) => "u32",
            Var::U64(_) => "u64",
            Var::U128(_) => "u128",
            Var::Usize(_) => "usize",
            Var::F32(_) => "f32",
            Var::F64(_) => "f64",
            Var::Str(_) => "string",
        }
    }

    /// Assign the text `value` to the slot, following the slot's kind:
    /// the standard textual parsing rules for that kind decide, the kind
    /// itself never changes, and a rejected text leaves the slot exactly
    /// as it was.
    #[verifier::rlimit(100)]
    pub fn parse(&mut self, value: &str) -> (r: Result<(), String>)
        ensures
            match assign_spec(var_kind(*old(self)), value@) {
                Ok(val) => r is Ok && var_kind(*final(self)) == var_kind(*old(self)) && var_val(
                    *final(self),
                ) == val,
                Err(m) => r is Err && *final(self) == *old(self) && r->Err_0@ == m,
            },
    {
        match self {
            Var::Bool(_) => {
                if text_eq(value, "true") {
                    *self = Var::Bool(true);
                    Ok(())
                } else if text_eq(value, "false") {
                    *self = Var::Bool(false);
                    Ok(())
                } else {
                    Err(String::from_str("provided string was not `true` or `false`"))
                }
            },
            Var::I8(_) => {
                match parse_signed(value, i8::MIN as i128, i8::MAX as i128) {
                    Ok(v) => {
                        *self = Var::I8(v as i8);
                        Ok(())
                    },
                    Err(e) => Err(num_message(e)),
                }
            },
            Var::I16(_) => {
                match parse_signed(value, i16::MIN as i128, i16::MAX as i128) {
                    Ok(v) => {
                        *self = Var::I16(v as i16);
                        Ok(())
                    },
                    Err(e) => Err(num_message(e)),
                }
            },
            Var::I32(_) => {
                match parse_signed(value, i32::MIN as i128, i32::MAX as i128) {
                    Ok(v) => {
                        *self = Var::I32(v as i32);
                        Ok(())
                    },
                    Err(e) => Err(num_message(e)),
                }
            },
            Var::I64(_) => {
                match parse_signed(value, i64::MIN as i128, i64::MAX as i128) {
                    Ok(v) => {
                        *self = Var::I64(v as i64);
                        Ok(())
                    },
                    Err(e) => Err(num_message(e)),
                }
            },
            Var::I128(_) => {
                match parse_signed(value, i128::MIN, i128::MAX) {
                    Ok(v) => {
                        *self = Var::I128(v);
                        Ok(())
                    },
                    Err(e) => Err(num_message(e)),
                }
            },
            Var::Isize(_) => {
                match parse_signed(value, isize::MIN as i128, isize::MAX as i128) {
                    Ok(v) => {
                        *self = Var::Isize(v as isize);
                        Ok(())
                    },
                    Err(e) => Err(num_message(e)),
                }
            },
            Var::U8(_) => {
                match parse_unsigned(value, u8::MAX as u128) {
                    Ok(v) => {
                        *self = Var::U8(v as u8);
                        Ok(())
                    },
                    Err(e) => Err(num_message(e)),
                }
            },
            Var::U16(_) => {
                match parse_unsigned(value, u16::MAX as u128) {
                    Ok(v) => {
                        *self = Var::U16(v as u16);
                        Ok(())
                    },
                    Err(e) => Err(num_message(e)),
                }
            },
            Var::U32(_) => {
                match parse_unsigned(value, u32::MAX as u128) {
                    Ok(v) => {
                        *self = Var::U32(v as u32);
                        Ok(())
                    },
                    Err(e) => Err(num_message(e)),
                }
            },
            Var::U64(_) => {
                match parse_unsigned(value, u64::MAX as u128) {
                    Ok(v) => {
                        *self = Var::U64(v as u64);
                        Ok(())
                    },
                    Err(e) => Err(num_message(e)),
                }
            },
            Var::U128(_) => {
                match parse_unsigned(value, u128::MAX) {
                    Ok(v) => {
                        *self = Var::U128(v);
                        Ok(())
                    },
                    Err(e) => Err(num_message(e)),
                }
            },
            Var::Usize(_) => {
                match parse_unsigned(value, usize::MAX as u128) {
                    Ok(v) => {
                        *self = Var::Usize(v as usize);
                        Ok(())
                    },
                    Err(e) => Err(num_message(e)),
                }
            },
            Var::F32(_) => {
                if float_text(value) {
                    *self = Var::F32(value.to_owned());
                    Ok(())
                } else {
                    Err(String::from_str("invalid float literal"))
                }
            },
            Var::F64(_) => {
                if float_text(value) {
                    *self = Var::F64(value.to_owned());
                    Ok(())
                } else {
                    Err(String::from_str("invalid float literal"))
                }
            },
            Var::Str(_) => {
                *self = Var::Str(value.to_owned());
                Ok(())
            },
        }
    }
}

} // verus!
