//! The value and type system: the closed set of column data types and the
//! tagged values that rows are made of.

use vstd::prelude::*;

use crate::numeric::{float_bits, float_bits_spec, parse_decimal, parse_decimal_spec, parse_int, parse_int_spec};
use crate::text::{check_email, is_valid_email};

verus! {

/// The closed set of column data types.
///
/// `Serial` is an engine-assigned, monotonically increasing 32-bit
/// identifier; `Email` is a string type with format validation.
#[derive(Clone, Copy, PartialEq, Eq, Structural, Debug, Hash)]
pub enum DataType {
    Int,
    Float,
    Char,
    String,
    Serial,
    Email,
}

impl View for DataType {
    type V = DataType;

    open spec fn view(&self) -> DataType {
        *self
    }
}

impl DataType {
    /// The SQL column type a storage backend would use for this data type.
    pub fn to_sql(&self) -> (r: String)
        ensures
            r@ == self.spec_sql(),
    {
        match self {
            DataType::Int => "INTEGER".to_owned(),
            DataType::Float => "REAL".to_owned(),
            _ => "TEXT".to_owned(),
        }
    }

    pub open spec fn spec_sql(self) -> Seq<char> {
        match self {
            DataType::Int => "INTEGER"@,
            DataType::Float => "REAL"@,
            _ => "TEXT"@,
        }
    }

    /// The lowercase keyword under which this type appears in the schema file.
    pub open spec fn spec_keyword(self) -> Seq<char> {
        match self {
            DataType::Int => "int"@,
            DataType::Float => "float"@,
            DataType::Char => "char"@,
            DataType::String => "string"@,
            DataType::Serial => "serial"@,
            DataType::Email => "email"@,
        }
    }
}

/// A tagged value, as stored in a row or supplied by a caller.
///
/// `Float` holds the IEEE 754 binary64 bit pattern of the number: the engine
/// stores, encodes and compares bit patterns and never performs
/// floating-point arithmetic itself.
#[derive(Debug)]
pub enum TypedValue {
    Int(i64),
    Float(u64),
    Char(char),
    String(String),
    Serial(u32),
    Email(String),
}

/// The mathematical image of a `TypedValue`: the same tag over plain payloads,
/// with strings abstracted to their character sequences.
pub enum Val {
    Int(i64),
    Float(u64),
    Char(char),
    Str(Seq<char>),
    Serial(u32),
    Email(Seq<char>),
}

impl View for TypedValue {
    type V = Val;

    open spec fn view(&self) -> Val {
        match self {
            TypedValue::Int(i) => Val::Int(*i),
            TypedValue::Float(b) => Val::Float(*b),
            TypedValue::Char(c) => Val::Char(*c),
            TypedValue::String(s) => Val::Str(s@),
            TypedValue::Serial(u) => Val::Serial(*u),
            TypedValue::Email(s) => Val::Email(s@),
        }
    }
}

impl Val {
    /// The tag of a value.
    pub open spec fn data_type(self) -> DataType {
        match self {
            Val::Int(_) => DataType::Int,
            Val::Float(_) => DataType::Float,
            Val::Char(_) => DataType::Char,
            Val::Str(_) => DataType::String,
            Val::Serial(_) => DataType::Serial,
            Val::Email(_) => DataType::Email,
        }
    }
}

impl Clone for TypedValue {
    fn clone(&self) -> (res: Self)
        ensures
            res == *self,
    {
        match self {
            TypedValue::Int(i) => TypedValue::Int(*i),
            TypedValue::Float(b) => TypedValue::Float(*b),
            TypedValue::Char(c) => TypedValue::Char(*c),
            TypedValue::String(s) => TypedValue::String(s.clone()),
            TypedValue::Serial(u) => TypedValue::Serial(*u),
            TypedValue::Email(s) => TypedValue::Email(s.clone()),
        }
    }
}

impl PartialEq for TypedValue {
    /// Equality is structural: same tag and same payload.
    fn eq(&self, other: &Self) -> (r: bool) {
        match (self, other) {
            (TypedValue::Int(a), TypedValue::Int(b)) => *a == *b,
            (TypedValue::Float(a), TypedValue::Float(b)) => *a == *b,
            (TypedValue::Char(a), TypedValue::Char(b)) => (*a as u32) == (*b as u32),
            (TypedValue::String(a), TypedValue::String(b)) => *a == *b,
            (TypedValue::Serial(a), TypedValue::Serial(b)) => *a == *b,
            (TypedValue::Email(a), TypedValue::Email(b)) => *a == *b,
            _ => false,
        }
    }
}

impl Eq for TypedValue {

}

impl vstd::std_specs::cmp::PartialEqSpecImpl for TypedValue {
    open spec fn obeys_eq_spec() -> bool {
        true
    }

    open spec fn eq_spec(&self, other: &Self) -> bool {
        self@ == other@
    }
}

impl TypedValue {
    /// The data type this value is tagged with.
    pub fn data_type(&self) -> (r: DataType)
        ensures
            r == self@.data_type(),
    {
        match self {
            TypedValue::Int(_) => DataType::Int,
            TypedValue::Float(_) => DataType::Float,
            TypedValue::Char(_) => DataType::Char,
            TypedValue::String(_) => DataType::String,
            TypedValue::Serial(_) => DataType::Serial,
            TypedValue::Email(_) => DataType::Email,
        }
    }
}

/// Which operation a column set is checked for: writes to a Serial column
/// are refused for Insert and Update; Unchecked applies no restriction.
#[derive(Debug, Clone, Copy, PartialEq, Eq, Structural)]
pub enum TableMethod {
    Update,
    Select,
    Insert,
    Delete,
    Unchecked,
}

/// Every failure the engine reports, as a value.
#[derive(Debug)]
pub enum PoorlyError {
    TableAlreadyExists(String),
    TableNotFound(String),
    DatabaseNotFound(String),
    DatabaseAlreadyExists(String),
    CannotDropDefaultDb,
    ColumnAlreadyExists(String, String),
    NoColumns,
    ColumnNotFound(String, String),
    InvalidName(String),
    InvalidEmail,
    InvalidValue(TypedValue, DataType),
    IncompleteData(String, String),
    InvalidDataType(String),
    InvalidOperation(String),
    IoError(String),
}

/// The mathematical image of a `PoorlyError`.
pub enum ErrV {
    TableAlreadyExists(Seq<char>),
    TableNotFound(Seq<char>),
    DatabaseNotFound(Seq<char>),
    DatabaseAlreadyExists(Seq<char>),
    CannotDropDefaultDb,
    ColumnAlreadyExists(Seq<char>, Seq<char>),
    NoColumns,
    ColumnNotFound(Seq<char>, Seq<char>),
    InvalidName(Seq<char>),
    InvalidEmail,
    InvalidValue(Val, DataType),
    IncompleteData(Seq<char>, Seq<char>),
    InvalidDataType(Seq<char>),
    InvalidOperation(Seq<char>),
    IoError(Seq<char>),
}

impl View for PoorlyError {
    type V = ErrV;

    open spec fn view(&self) -> ErrV {
        match self {
            PoorlyError::TableAlreadyExists(a) => ErrV::TableAlreadyExists(a@),
            PoorlyError::TableNotFound(a) => ErrV::TableNotFound(a@),
            PoorlyError::DatabaseNotFound(a) => ErrV::DatabaseNotFound(a@),
            PoorlyError::DatabaseAlreadyExists(a) => ErrV::DatabaseAlreadyExists(a@),
            PoorlyError::CannotDropDefaultDb => ErrV::CannotDropDefaultDb,
            PoorlyError::ColumnAlreadyExists(a, b) => ErrV::ColumnAlreadyExists(a@, b@),
            PoorlyError::NoColumns => ErrV::NoColumns,
            PoorlyError::ColumnNotFound(a, b) => ErrV::ColumnNotFound(a@, b@),
            PoorlyError::InvalidName(a) => ErrV::InvalidName(a@),
            PoorlyError::InvalidEmail => ErrV::InvalidEmail,
            PoorlyError::InvalidValue(v, t) => ErrV::InvalidValue(v@, *t),
            PoorlyError::IncompleteData(a, b) => ErrV::IncompleteData(a@, b@),
            PoorlyError::InvalidDataType(a) => ErrV::InvalidDataType(a@),
            PoorlyError::InvalidOperation(a) => ErrV::InvalidOperation(a@),
            PoorlyError::IoError(a) => ErrV::IoError(a@),
        }
    }
}

/// The magnitude of an i64, as a u64.
pub open spec fn abs_i64(i: i64) -> u64 {
    if i >= 0 {
        i as u64
    } else {
        (-(i as int)) as u64
    }
}

/// The low 32 bits of an i64, as Rust's narrowing cast takes them.
pub open spec fn low32_i64(i: i64) -> u32 {
    ((i as u64) % 0x1_0000_0000) as u32
}

/// What coercion yields: the value itself between equal types, the
/// conversions the engine supports, and nothing else. `None` stands for the
/// invalid-value failure.
pub open spec fn coerce_spec(v: Val, to: DataType) -> Option<Val> {
    if v.data_type() == to {
        Some(v)
    } else {
        match (v, to) {
            (Val::Int(i), DataType::Float) => Some(
                Val::Float(float_bits_spec(i < 0, abs_i64(i), 0)),
            ),
            (Val::Int(i), DataType::Serial) => Some(Val::Serial(low32_i64(i))),
            (Val::Str(s), DataType::Char) => if s.len() == 1 {
                Some(Val::Char(s[0]))
            } else {
                None
            },
            (Val::Str(s), DataType::Email) => Some(Val::Email(s)),
            (Val::Str(s), DataType::Int) => match parse_int_spec(s) {
                Some(i) => Some(Val::Int(i)),
                None => None,
            },
            (Val::Str(s), DataType::Float) => match parse_decimal_spec(s) {
                Some((neg, m, f)) => Some(Val::Float(float_bits_spec(neg, m, f))),
                None => None,
            },
            (Val::Char(c), DataType::String) => Some(Val::Str(seq![c])),
            (Val::Char(c), DataType::Int) => match parse_int_spec(seq![c]) {
                Some(i) => Some(Val::Int(i)),
                None => None,
            },
            (Val::Char(c), DataType::Float) => match parse_decimal_spec(seq![c]) {
                Some((neg, m, f)) => Some(Val::Float(float_bits_spec(neg, m, f))),
                None => None,
            },
            (Val::Email(s), DataType::String) => Some(Val::Str(s)),
            (Val::Serial(u), DataType::Int) => Some(Val::Int(u as i64)),
            _ => None,
        }
    }
}

/// Whether a value passes validation: only Email is checked, against the
/// fixed email shape; every other type validates trivially.
pub open spec fn validate_spec(v: Val) -> bool {
    match v {
        Val::Email(s) => is_valid_email(s),
        _ => true,
    }
}

/// Relies on `char::to_string`: the string of exactly that one character.
#[verifier::external_body]
fn char_to_string(c: char) -> (r: String)
    ensures
        r@ == seq![c],
{
    c.to_string()
}

impl TypedValue {
    /// Validates the value: an Email must have the email shape.
    pub fn validate(&self) -> (r: Result<(), PoorlyError>)
        ensures
            r is Ok <==> validate_spec(self@),
            r matches Err(e) ==> e@ == ErrV::InvalidEmail,
    {
        match self {
            TypedValue::Email(email) => {
                if check_email(email.as_str()) {
                    Ok(())
                } else {
                    Err(PoorlyError::InvalidEmail)
                }
            },
            _ => Ok(()),
        }
    }

    /// Coerces the value to the target type, as `coerce_spec` says; a pair
    /// outside the supported conversions is an invalid value for that type.
    pub fn coerce(self, to: DataType) -> (r: Result<TypedValue, PoorlyError>)
        ensures
            r matches Ok(w) ==> coerce_spec(self@, to) == Some(w@),
            r matches Err(e) ==> coerce_spec(self@, to) is None && e@ == ErrV::InvalidValue(
                self@,
                to,
            ),
    {
        if self.data_type() == to {
            return Ok(self);
        }
        match (&self, to) {
            (TypedValue::Int(i), DataType::Float) => {
                let neg = *i < 0;
                let m: u64 = if *i >= 0 {
                    *i as u64
                } else {
                    (-(*i as i128)) as u64
                };
                proof {
                    assert(m == abs_i64(self@->Int_0));
                }
                Ok(TypedValue::Float(float_bits(neg, m, 0)))
            },
            (TypedValue::Int(i), DataType::Serial) => {
                let u64v: u64 = *i as u64;
                let low: u32 = (u64v % 0x1_0000_0000u64) as u32;
                Ok(TypedValue::Serial(low))
            },
            (TypedValue::String(s), DataType::Char) => {
                if s.as_str().unicode_len() == 1 {
                    let c = s.as_str().get_char(0);
                    Ok(TypedValue::Char(c))
                } else {
                    Err(PoorlyError::InvalidValue(self, to))
                }
            },
            (TypedValue::String(s), DataType::Email) => {
                match self {
                    TypedValue::String(s) => Ok(TypedValue::Email(s)),
                    _ => Err(PoorlyError::InvalidValue(self, to)),
                }
            },
            (TypedValue::String(s), DataType::Int) => {
                match parse_int(s.as_str()) {
                    Some(i) => Ok(TypedValue::Int(i)),
                    None => Err(PoorlyError::InvalidValue(self, to)),
                }
            },
            (TypedValue::String(s), DataType::Float) => {
                match parse_decimal(s.as_str()) {
                    Some((neg, m, f)) => Ok(TypedValue::Float(float_bits(neg, m, f))),
                    None => Err(PoorlyError::InvalidValue(self, to)),
                }
            },
            (TypedValue::Char(c), DataType::String) => Ok(
                TypedValue::String(char_to_string(*c)),
            ),
            (TypedValue::Char(c), DataType::Int) => {
                let u = *c as u32;
                proof {
                    lemma_single_char_parse(*c);
                }
                if 48 <= u && u <= 57 {
                    Ok(TypedValue::Int((u - 48) as i64))
                } else {
                    Err(PoorlyError::InvalidValue(self, to))
                }
            },
            (TypedValue::Char(c), DataType::Float) => {
                let u = *c as u32;
                proof {
                    lemma_single_char_parse(*c);
                }
                if 48 <= u && u <= 57 {
                    Ok(TypedValue::Float(float_bits(false, (u - 48) as u64, 0)))
                } else {
                    Err(PoorlyError::InvalidValue(self, to))
                }
            },
            (TypedValue::Email(s), DataType::String) => {
                match self {
                    TypedValue::Email(s) => Ok(TypedValue::String(s)),
                    _ => Err(PoorlyError::InvalidValue(self, to)),
                }
            },
            (TypedValue::Serial(u), DataType::Int) => Ok(TypedValue::Int(*u as i64)),
            _ => Err(PoorlyError::InvalidValue(self, to)),
        }
    }
}

/// What the integer and decimal parsers make of a single character: a digit
/// and nothing else.
proof fn lemma_single_char_parse(c: char)
    ensures
        parse_int_spec(seq![c]) == (if crate::numeric::is_digit(c) {
            Some((c as u32 - 48) as i64)
        } else {
            None::<i64>
        }),
        parse_decimal_spec(seq![c]) == (if crate::numeric::is_digit(c) {
            Some((false, (c as u32 - 48) as u64, 0u8))
        } else {
            None::<(bool, u64, u8)>
        }),
{
    let s = seq![c];
    assert(s.len() == 1 && s[0] == c);
    let (neg, ds) = crate::numeric::split_sign(s);
    if c == '-' || c == '+' {
        assert(ds =~= s.skip(1));
        assert(ds.len() == 0);
        assert(!crate::numeric::is_digit(c));
    } else {
        assert(ds == s);
        if crate::numeric::is_digit(c) {
            assert(crate::numeric::all_digits(s)) by {
                assert(forall|i: int| 0 <= i < 1 ==> s[i] == c);
            }
            reveal_with_fuel(crate::numeric::digits_val, 3);
            reveal_with_fuel(crate::numeric::first_dot, 3);
            assert(s.drop_last() =~= Seq::<char>::empty());
            assert(s.skip(1) =~= Seq::<char>::empty());
            assert(s.last() == c);
            assert(crate::numeric::digits_val(s) == crate::numeric::digit_val(c));
            assert(crate::numeric::first_dot(s) == -1);
        } else {
            assert(!crate::numeric::all_digits(s));
            if crate::numeric::first_dot(s) >= 0 {
                crate::numeric::lemma_first_dot(s);
                let p = crate::numeric::first_dot(s);
                assert(p == 0);
                assert(s.take(0).len() + s.skip(1).len() == 0);
            }
        }
    }
}

} // verus!
