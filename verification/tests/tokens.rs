use bencode::to_bytes;
use bencode::Decoder;
use bencode::Encoder;
use bencode::Error;
use bencode::IntValue;
use bencode::Serializer;
use bencode::StructSerializer;
use bencode::Token;
use bencode::Value;

#[test]
fn decoding_serialized_integer_yields_value() {
    let bytes = to_bytes(&Value::Int(-42)).unwrap();
    let mut dec = Decoder::new(bytes);
    match dec.next() {
        Ok(Some(Token::Int(iv))) => {
            assert!(iv.neg);
            assert_eq!(iv.mag, 42);
        },
        other => panic!("expected an integer token, got {:?}", other.is_ok()),
    }
    assert!(matches!(dec.next(), Ok(None)));
}

#[test]
fn decoding_serialized_bytes_yields_payload() {
    let bytes = to_bytes(&Value::Bytes(b"spam".to_vec())).unwrap();
    let mut dec = Decoder::new(bytes);
    match dec.next() {
        Ok(Some(Token::Bytes(payload))) => {
            assert_eq!(payload, b"spam".to_vec());
        },
        other => panic!("expected a byte-string token, got {:?}", other.is_ok()),
    }
    assert!(matches!(dec.next(), Ok(None)));
}

#[test]
fn decoding_a_container_stream() {
    let bytes = to_bytes(&Value::List(vec![Value::Int(1)])).unwrap();
    let mut dec = Decoder::new(bytes);
    assert!(matches!(dec.next(), Ok(Some(Token::List))));
    match dec.next() {
        Ok(Some(Token::Int(iv))) => {
            assert!(!iv.neg);
            assert_eq!(iv.mag, 1);
        },
        _ => panic!("expected an integer token"),
    }
    assert!(matches!(dec.next(), Ok(Some(Token::End))));
    assert!(matches!(dec.next(), Ok(None)));
}

#[test]
fn decoder_rejects_noncanonical_integers() {
    assert!(matches!(Decoder::new(b"i-0e".to_vec()).next(), Err(Error::MalformedStream)));
    assert!(matches!(Decoder::new(b"i01e".to_vec()).next(), Err(Error::MalformedStream)));
    assert!(matches!(Decoder::new(b"ie".to_vec()).next(), Err(Error::MalformedStream)));
    assert!(matches!(Decoder::new(b"i12".to_vec()).next(), Err(Error::MalformedStream)));
}

#[test]
fn decoder_rejects_bad_byte_strings() {
    assert!(matches!(Decoder::new(b"3:ab".to_vec()).next(), Err(Error::MalformedStream)));
    assert!(matches!(Decoder::new(b"03:abc".to_vec()).next(), Err(Error::MalformedStream)));
    assert!(matches!(Decoder::new(b"4".to_vec()).next(), Err(Error::MalformedStream)));
}

#[test]
fn decoder_rejects_unknown_bytes() {
    assert!(matches!(Decoder::new(b"x".to_vec()).next(), Err(Error::MalformedStream)));
}

#[test]
fn unbalanced_containers_fail_finalize() {
    let mut enc = Encoder::new();
    assert_eq!(enc.emit_token(Token::List), Ok(()));
    assert_eq!(enc.get_output(), Err(Error::UnbalancedContainers));
}

#[test]
fn closing_with_nothing_open_fails() {
    let mut enc = Encoder::new();
    assert_eq!(enc.emit_token(Token::End), Err(Error::UnbalancedContainers));
}

#[test]
fn encoder_emits_canonical_integer_bytes() {
    let mut enc = Encoder::new();
    assert_eq!(enc.emit_token(Token::Int(IntValue { neg: true, mag: 7 })), Ok(()));
    assert_eq!(enc.get_output().unwrap(), b"i-7e".to_vec());
}

#[test]
fn negative_zero_normalizes_to_zero() {
    let mut enc = Encoder::new();
    enc.emit_int(IntValue { neg: true, mag: 0 });
    assert_eq!(enc.get_output().unwrap(), b"i0e".to_vec());
}

#[test]
fn struct_serializer_collects_and_sorts() {
    let mut s = Serializer::new();
    let mut fields = s.struct_serializer();
    assert_eq!(fields.serialize_field(&b"zeta".to_vec(), &Value::Int(2)), Ok(()));
    assert_eq!(fields.serialize_field(&b"alpha".to_vec(), &Value::Int(1)), Ok(()));
    assert_eq!(fields.end(&mut s), Ok(()));
    assert_eq!(s.into_bytes().unwrap(), b"d5:alphai1e4:zetai2ee".to_vec());
}

#[test]
fn struct_serializer_with_no_fields() {
    let mut s = Serializer::new();
    let fields: StructSerializer = s.struct_serializer();
    assert_eq!(fields.end(&mut s), Ok(()));
    assert_eq!(s.into_bytes().unwrap(), b"de".to_vec());
}
