use ratioup::bencode::{
    bytes_less, decode_at, encode_bencode_value, BencodeDecoder, BencodeDecoderError,
    BencodeValue,
};

fn decode(data: &[u8]) -> Result<BencodeValue, BencodeDecoderError> {
    BencodeDecoder::new(data).decode()
}

fn encoded(v: &BencodeValue) -> Vec<u8> {
    let mut out = Vec::new();
    encode_bencode_value(v, &mut out);
    out
}

#[test]
fn decodes_integers() {
    assert!(matches!(decode(b"i42e"), Ok(BencodeValue::Integer(42))));
    assert!(matches!(decode(b"i-7e"), Ok(BencodeValue::Integer(-7))));
    assert!(matches!(decode(b"i0e"), Ok(BencodeValue::Integer(0))));
    assert!(matches!(decode(b"i9223372036854775807e"), Ok(BencodeValue::Integer(i64::MAX))));
    assert!(matches!(decode(b"i-9223372036854775808e"), Ok(BencodeValue::Integer(i64::MIN))));
}

#[test]
fn rejects_bad_integers() {
    assert_eq!(decode(b"i9223372036854775808e").unwrap_err(), BencodeDecoderError::InvalidInteger);
    assert_eq!(decode(b"i-0e").unwrap_err(), BencodeDecoderError::InvalidInteger);
    assert_eq!(decode(b"i03e").unwrap_err(), BencodeDecoderError::InvalidInteger);
    assert_eq!(decode(b"ie").unwrap_err(), BencodeDecoderError::InvalidInteger);
    assert_eq!(decode(b"i12x").unwrap_err(), BencodeDecoderError::InvalidInteger);
    assert_eq!(decode(b"i12").unwrap_err(), BencodeDecoderError::UnexpectedEof);
    assert_eq!(decode(b"i-").unwrap_err(), BencodeDecoderError::UnexpectedEof);
}

#[test]
fn decodes_byte_strings() {
    match decode(b"4:spam") {
        Ok(BencodeValue::ByteString(b)) => assert_eq!(b, b"spam".to_vec()),
        other => panic!("{other:?}"),
    }
    match decode(b"0:") {
        Ok(BencodeValue::ByteString(b)) => assert!(b.is_empty()),
        other => panic!("{other:?}"),
    }
    assert_eq!(decode(b"5:spam").unwrap_err(), BencodeDecoderError::UnexpectedEof);
    assert_eq!(decode(b"04:spam").unwrap_err(), BencodeDecoderError::InvalidStringLength);
    assert_eq!(decode(b"4spam").unwrap_err(), BencodeDecoderError::InvalidStringLength);
    assert_eq!(decode(b"4").unwrap_err(), BencodeDecoderError::UnexpectedEof);
}

#[test]
fn decodes_lists_and_dictionaries() {
    match decode(b"l4:spami3ee") {
        Ok(BencodeValue::List(items)) => {
            assert_eq!(items.len(), 2);
            assert!(matches!(items[1], BencodeValue::Integer(3)));
        },
        other => panic!("{other:?}"),
    }
    match decode(b"d1:bi2e1:ai1e1:bi3ee") {
        Ok(BencodeValue::Dictionary(entries)) => {
            assert_eq!(entries.len(), 2);
            assert_eq!(entries[0].0, b"a".to_vec());
            assert_eq!(entries[1].0, b"b".to_vec());
            assert!(matches!(entries[1].1, BencodeValue::Integer(3)));
        },
        other => panic!("{other:?}"),
    }
    assert_eq!(decode(b"di1ei2ee").unwrap_err(), BencodeDecoderError::NonStringKey);
    assert_eq!(decode(b"l").unwrap_err(), BencodeDecoderError::UnexpectedEof);
    assert_eq!(decode(b"x").unwrap_err(), BencodeDecoderError::UnexpectedByte(b'x'));
    assert_eq!(decode(b"").unwrap_err(), BencodeDecoderError::UnexpectedEof);
}

#[test]
fn decoder_moves_past_each_value() {
    let mut d = BencodeDecoder::new(b"i1e3:abc");
    assert!(matches!(d.decode(), Ok(BencodeValue::Integer(1))));
    assert!(matches!(d.decode(), Ok(BencodeValue::ByteString(_))));
    assert_eq!(d.decode().unwrap_err(), BencodeDecoderError::UnexpectedEof);
    match decode_at(b"xxi5e", 2) {
        Ok((BencodeValue::Integer(5), 5)) => {},
        other => panic!("{other:?}"),
    }
}

#[test]
fn encodes_canonically() {
    let v = decode(b"d3:zzzl1:ai-12ee3:aaai0ee").unwrap();
    assert_eq!(encoded(&v), b"d3:aaai0e3:zzzl1:ai-12eee".to_vec());
    let m = BencodeValue::Integer(i64::MIN);
    assert_eq!(encoded(&m), b"i-9223372036854775808e".to_vec());
}

#[test]
fn decode_of_encode_is_identity() {
    let data: &[u8] = b"d4:infod6:lengthi1024e4:name8:file.txte4:listli1ei2e0:ee";
    let v = decode(data).unwrap();
    let again = decode(&encoded(&v)).unwrap();
    assert_eq!(encoded(&again), encoded(&v));
    assert_eq!(encoded(&v), data.to_vec());
}

#[test]
fn byte_string_order() {
    assert!(bytes_less(b"a", b"b"));
    assert!(bytes_less(b"ab", b"abc"));
    assert!(!bytes_less(b"abc", b"ab"));
    assert!(!bytes_less(b"x", b"x"));
    assert!(bytes_less(b"", b"a"));
}
