use bencode::to_bytes;
use bencode::Error;
use bencode::Serializer;
use bencode::Shape;
use bencode::Value;

#[test]
fn integer_tokens() {
    assert_eq!(to_bytes(&Value::Int(42)).unwrap(), b"i42e".to_vec());
    assert_eq!(to_bytes(&Value::Int(0)).unwrap(), b"i0e".to_vec());
    assert_eq!(to_bytes(&Value::Int(-1)).unwrap(), b"i-1e".to_vec());
    assert_eq!(to_bytes(&Value::Uint(7)).unwrap(), b"i7e".to_vec());
}

#[test]
fn integer_extremes() {
    assert_eq!(
        to_bytes(&Value::Int(i128::MIN)).unwrap(),
        b"i-170141183460469231731687303715884105728e".to_vec()
    );
    assert_eq!(
        to_bytes(&Value::Uint(u128::MAX)).unwrap(),
        b"i340282366920938463463374607431768211455e".to_vec()
    );
}

#[test]
fn byte_string_tokens() {
    assert_eq!(to_bytes(&Value::Bytes(b"spam".to_vec())).unwrap(), b"4:spam".to_vec());
    assert_eq!(to_bytes(&Value::Bytes(Vec::new())).unwrap(), b"0:".to_vec());
}

#[test]
fn list_preserves_order() {
    let v = Value::List(vec![Value::Int(1), Value::Int(2), Value::Int(3)]);
    assert_eq!(to_bytes(&v).unwrap(), b"li1ei2ei3ee".to_vec());
}

#[test]
fn empty_record_is_bare_dict() {
    let v = Value::Record(Vec::new());
    assert_eq!(to_bytes(&v).unwrap(), b"de".to_vec());
}

#[test]
fn field_order_does_not_affect_output() {
    let ba = Value::Record(vec![
        (b"b".to_vec(), Value::Int(1)),
        (b"a".to_vec(), Value::Int(2)),
    ]);
    let ab = Value::Record(vec![
        (b"a".to_vec(), Value::Int(2)),
        (b"b".to_vec(), Value::Int(1)),
    ]);
    let out_ba = to_bytes(&ba).unwrap();
    let out_ab = to_bytes(&ab).unwrap();
    assert_eq!(out_ba, out_ab);
    assert_eq!(out_ba, b"d1:ai2e1:bi1ee".to_vec());
}

#[test]
fn record_keys_sorted_bytewise() {
    let v = Value::Record(vec![
        (b"zz".to_vec(), Value::Int(3)),
        (b"a".to_vec(), Value::Int(1)),
        (b"ab".to_vec(), Value::Int(2)),
    ]);
    assert_eq!(to_bytes(&v).unwrap(), b"d1:ai1e2:abi2e2:zzi3ee".to_vec());
}

#[test]
fn duplicate_field_overwrites() {
    let v = Value::Record(vec![
        (b"a".to_vec(), Value::Int(1)),
        (b"a".to_vec(), Value::Int(2)),
    ]);
    assert_eq!(to_bytes(&v).unwrap(), b"d1:ai2ee".to_vec());
}

#[test]
fn nested_record_in_record() {
    let inner = Value::Record(vec![(b"x".to_vec(), Value::Int(9))]);
    let outer = Value::Record(vec![(b"n".to_vec(), inner)]);
    assert_eq!(to_bytes(&outer).unwrap(), b"d1:nd1:xi9eee".to_vec());
}

#[test]
fn unsupported_shapes_fail() {
    assert_eq!(to_bytes(&Value::Bool(true)), Err(Error::Unsupported(Shape::Bool)));
    assert_eq!(to_bytes(&Value::Float), Err(Error::Unsupported(Shape::Float)));
    assert_eq!(to_bytes(&Value::Char('x')), Err(Error::Unsupported(Shape::Char)));
    assert_eq!(to_bytes(&Value::Optional), Err(Error::Unsupported(Shape::Optional)));
    assert_eq!(to_bytes(&Value::Unit), Err(Error::Unsupported(Shape::Unit)));
    assert_eq!(to_bytes(&Value::Variant), Err(Error::Unsupported(Shape::Variant)));
    assert_eq!(to_bytes(&Value::Mapping), Err(Error::Unsupported(Shape::Mapping)));
}

#[test]
fn unsupported_shape_inside_list_fails() {
    let v = Value::List(vec![Value::Int(1), Value::Bool(false)]);
    assert_eq!(to_bytes(&v), Err(Error::Unsupported(Shape::Bool)));
}

#[test]
fn nesting_to_exactly_the_maximum_succeeds() {
    let v = Value::List(vec![Value::List(vec![Value::List(vec![])])]);
    let mut s = Serializer::with_max_depth(3);
    assert_eq!(s.serialize_value(&v), Ok(()));
    assert_eq!(s.into_bytes().unwrap(), b"llleee".to_vec());
}

#[test]
fn nesting_past_the_maximum_fails() {
    let v = Value::List(vec![Value::List(vec![Value::List(vec![])])]);
    let mut s = Serializer::with_max_depth(2);
    assert_eq!(s.serialize_value(&v), Err(Error::NestingTooDeep));
}

#[test]
fn record_nesting_respects_depth_budget() {
    let inner = Value::Record(vec![(b"x".to_vec(), Value::Int(1))]);
    let outer = Value::Record(vec![(b"o".to_vec(), inner)]);
    let mut ok = Serializer::with_max_depth(2);
    assert_eq!(ok.serialize_value(&outer), Ok(()));
    assert_eq!(ok.into_bytes().unwrap(), b"d1:od1:xi1eee".to_vec());
    let inner2 = Value::Record(vec![(b"x".to_vec(), Value::Int(1))]);
    let outer2 = Value::Record(vec![(b"o".to_vec(), inner2)]);
    let mut too_shallow = Serializer::with_max_depth(1);
    assert_eq!(too_shallow.serialize_value(&outer2), Err(Error::NestingTooDeep));
}

#[test]
fn serialization_is_idempotent() {
    let v = Value::Record(vec![
        (b"k".to_vec(), Value::List(vec![Value::Int(5), Value::Bytes(b"hi".to_vec())])),
        (b"j".to_vec(), Value::Int(-3)),
    ]);
    let once = to_bytes(&v).unwrap();
    let twice = to_bytes(&v).unwrap();
    assert_eq!(once, twice);
}
