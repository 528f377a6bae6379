use poorly::codec::{value_from_bytes, value_to_bytes};
use poorly::numeric::{float_bits, parse_decimal, parse_int};
use poorly::text::{check_email, check_name};
use poorly::types::{DataType, PoorlyError, TypedValue};

fn round_trips(v: TypedValue, dt: DataType) {
    let bytes = value_to_bytes(&v);
    let n = bytes.len();
    let (back, end) = value_from_bytes(dt, &bytes, 0).unwrap();
    assert_eq!(back, v);
    assert_eq!(end, n);
}

#[test]
fn codec_round_trip_int_edges() {
    round_trips(TypedValue::Int(0), DataType::Int);
    round_trips(TypedValue::Int(i64::MAX), DataType::Int);
    round_trips(TypedValue::Int(i64::MIN), DataType::Int);
    round_trips(TypedValue::Int(-1), DataType::Int);
}

#[test]
fn codec_round_trip_strings() {
    round_trips(TypedValue::String(String::new()), DataType::String);
    round_trips(TypedValue::String("plain".to_string()), DataType::String);
    round_trips(TypedValue::String("héllo wörld — ☃".to_string()), DataType::String);
    round_trips(TypedValue::Email("someone@example.com".to_string()), DataType::Email);
}

#[test]
fn codec_round_trip_others() {
    round_trips(TypedValue::Float(1.23f64.to_bits()), DataType::Float);
    round_trips(TypedValue::Float(f64::NEG_INFINITY.to_bits()), DataType::Float);
    round_trips(TypedValue::Char('A'), DataType::Char);
    round_trips(TypedValue::Char('é'), DataType::Char);
    round_trips(TypedValue::Serial(0), DataType::Serial);
    round_trips(TypedValue::Serial(u32::MAX), DataType::Serial);
}

#[test]
fn codec_layout() {
    // Int: 8 bytes little-endian
    assert_eq!(value_to_bytes(&TypedValue::Int(1)), vec![1, 0, 0, 0, 0, 0, 0, 0]);
    // Serial: 4 bytes
    assert_eq!(value_to_bytes(&TypedValue::Serial(258)), vec![2, 1, 0, 0]);
    // Char: 1 byte
    assert_eq!(value_to_bytes(&TypedValue::Char('A')), vec![65]);
    // String: 8-byte length prefix plus UTF-8 bytes
    assert_eq!(
        value_to_bytes(&TypedValue::String("ab".to_string())),
        vec![2, 0, 0, 0, 0, 0, 0, 0, 97, 98]
    );
    // Float: the IEEE 754 bytes
    assert_eq!(
        value_to_bytes(&TypedValue::Float(1.5f64.to_bits())),
        1.5f64.to_le_bytes().to_vec()
    );
}

#[test]
fn coerce_boundaries() {
    // a two-character string does not coerce to Char
    let r = TypedValue::String("ab".to_string()).coerce(DataType::Char);
    assert!(matches!(r, Err(PoorlyError::InvalidValue(_, DataType::Char))));
    // a non-numeric string does not coerce to Int
    let r = TypedValue::String("abc".to_string()).coerce(DataType::Int);
    assert!(matches!(r, Err(PoorlyError::InvalidValue(_, DataType::Int))));
    // Int to Serial truncates to 32 bits without error
    let r = TypedValue::Int(0x1_0000_0001).coerce(DataType::Serial).unwrap();
    assert_eq!(r, TypedValue::Serial(1));
    let r = TypedValue::Int(-1).coerce(DataType::Serial).unwrap();
    assert_eq!(r, TypedValue::Serial(u32::MAX));
}

#[test]
fn coerce_conversions() {
    assert_eq!(
        TypedValue::Int(3).coerce(DataType::Float).unwrap(),
        TypedValue::Float(3.0f64.to_bits())
    );
    assert_eq!(
        TypedValue::Int(i64::MAX).coerce(DataType::Float).unwrap(),
        TypedValue::Float((i64::MAX as f64).to_bits())
    );
    assert_eq!(
        TypedValue::Int(i64::MIN).coerce(DataType::Float).unwrap(),
        TypedValue::Float((i64::MIN as f64).to_bits())
    );
    assert_eq!(
        TypedValue::String("1.23".to_string()).coerce(DataType::Float).unwrap(),
        TypedValue::Float(1.23f64.to_bits())
    );
    assert_eq!(
        TypedValue::String("-42".to_string()).coerce(DataType::Int).unwrap(),
        TypedValue::Int(-42)
    );
    assert_eq!(
        TypedValue::String("x".to_string()).coerce(DataType::Char).unwrap(),
        TypedValue::Char('x')
    );
    assert_eq!(
        TypedValue::Char('7').coerce(DataType::Int).unwrap(),
        TypedValue::Int(7)
    );
    assert_eq!(
        TypedValue::Char('7').coerce(DataType::Float).unwrap(),
        TypedValue::Float(7.0f64.to_bits())
    );
    assert_eq!(
        TypedValue::Char('q').coerce(DataType::String).unwrap(),
        TypedValue::String("q".to_string())
    );
    assert_eq!(
        TypedValue::Serial(7).coerce(DataType::Int).unwrap(),
        TypedValue::Int(7)
    );
    assert_eq!(
        TypedValue::Email("a@b.co".to_string()).coerce(DataType::String).unwrap(),
        TypedValue::String("a@b.co".to_string())
    );
    assert_eq!(
        TypedValue::String("a@b.co".to_string()).coerce(DataType::Email).unwrap(),
        TypedValue::Email("a@b.co".to_string())
    );
    // identity
    assert_eq!(
        TypedValue::Int(5).coerce(DataType::Int).unwrap(),
        TypedValue::Int(5)
    );
    // an unsupported pairing
    let r = TypedValue::Float(1.0f64.to_bits()).coerce(DataType::Char);
    assert!(matches!(r, Err(PoorlyError::InvalidValue(_, _))));
}

#[test]
fn float_bits_matches_ieee() {
    assert_eq!(float_bits(false, 123, 2), 1.23f64.to_bits());
    assert_eq!(float_bits(false, 1818, 2), 18.18f64.to_bits());
    assert_eq!(float_bits(true, 12345, 2), (-123.45f64).to_bits());
    assert_eq!(float_bits(false, 0, 0), 0.0f64.to_bits());
    assert_eq!(float_bits(true, 0, 0), (-0.0f64).to_bits());
    assert_eq!(float_bits(false, u64::MAX, 0), (u64::MAX as f64).to_bits());
    assert_eq!(float_bits(false, 1, 19), 1e-19f64.to_bits());
}

#[test]
fn integer_parsing() {
    assert_eq!(parse_int("0"), Some(0));
    assert_eq!(parse_int("+17"), Some(17));
    assert_eq!(parse_int("-9223372036854775808"), Some(i64::MIN));
    assert_eq!(parse_int("9223372036854775807"), Some(i64::MAX));
    assert_eq!(parse_int("9223372036854775808"), None);
    assert_eq!(parse_int(""), None);
    assert_eq!(parse_int("12a"), None);
    assert_eq!(parse_decimal("1.23"), Some((false, 123, 2)));
    assert_eq!(parse_decimal("-0.5"), Some((true, 5, 1)));
    assert_eq!(parse_decimal("7"), Some((false, 7, 0)));
    assert_eq!(parse_decimal("1.2.3"), None);
    assert_eq!(parse_decimal("."), None);
}

#[test]
fn email_validation() {
    assert!(check_email("a@b.co"));
    assert!(check_email("first.last-x_1@mail.example.com"));
    assert!(!check_email("a@b"));
    assert!(!check_email("a@b.c"));
    assert!(!check_email("a@b.toolong"));
    assert!(!check_email("@b.co"));
    assert!(!check_email("a@.co"));
    assert!(!check_email("a@b..co"));
    assert!(!check_email("a b@c.co"));
    let r = TypedValue::Email("nonsense".to_string()).validate();
    assert!(matches!(r, Err(PoorlyError::InvalidEmail)));
    assert!(TypedValue::Email("a@b.co".to_string()).validate().is_ok());
    assert!(TypedValue::Int(1).validate().is_ok());
}

#[test]
fn name_validation() {
    assert!(check_name("orders_2"));
    assert!(!check_name("a b"));
    assert!(!check_name("a-b"));
}
