use base64::{engine::general_purpose, Engine as _};
use prefill_router::data_uri::{
    can_count, data_uri_bytes, data_uri_payload, dimensions_from_data_uri,
};

#[test]
fn payload_follows_the_first_comma() {
    assert_eq!(data_uri_payload("data:,"), Some(""));
    assert_eq!(data_uri_payload("data:a,b,c"), Some("b,c"));
    assert_eq!(data_uri_payload("data:\u{e9},\u{4e2d}"), Some("\u{4e2d}"));
    assert_eq!(data_uri_payload("data:image/png;base64"), None);
    assert_eq!(data_uri_payload("data"), None);
    assert_eq!(data_uri_payload("DATA:,x"), None);
    assert_eq!(data_uri_payload(""), None);
    assert_eq!(data_uri_payload(",data:"), None);
}

#[test]
fn payload_is_decoded() {
    assert_eq!(data_uri_bytes("data:,aGVsbG8="), Some(b"hello".to_vec()));
    assert_eq!(data_uri_bytes("data:;base64,aGVsbA=="), Some(b"hell".to_vec()));
    assert_eq!(data_uri_bytes("data:x,aGVs"), Some(b"hel".to_vec()));
    assert_eq!(data_uri_bytes("data:x,+/+/"), Some(vec![0xfb, 0xff, 0xbf]));
}

#[test]
fn what_was_encoded_is_decoded() {
    for len in 1..200u8 {
        let bytes: Vec<u8> = (0..len).map(|i| i.wrapping_mul(83).wrapping_add(len)).collect();
        let uri = format!("data:image/png;base64,{}", general_purpose::STANDARD.encode(&bytes));
        assert_eq!(data_uri_bytes(&uri), Some(bytes));
    }
}

#[test]
fn payloads_that_encode_nothing_are_refused() {
    for uri in [
        "data:,",            // empty
        "data:,aGVsbG8",     // padding missing
        "data:,aGVsbG9=",    // trailing bits
        "data:,aGVsbB==",    // trailing bits
        "data:,aGVsbG8==",   // too much padding
        "data:,aGVs=",       // stray padding
        "data:,aG=sbG8=",    // padding inside
        "data:,aGVs bG8=",   // space
        "data:,aGVs\n",      // newline
        "data:,a",           // one symbol
        "data:,-_-_",        // another alphabet
        "data:,\u{e9}\u{e9}", // not ASCII
    ] {
        assert_eq!(data_uri_bytes(uri), None, "{uri:?}");
        assert_eq!(dimensions_from_data_uri(uri), None, "{uri:?}");
    }
}

#[test]
fn bytes_that_are_no_image_have_no_dimensions() {
    assert_eq!(data_uri_bytes("data:,aGVsbG8="), Some(b"hello".to_vec()));
    assert_eq!(dimensions_from_data_uri("data:,aGVsbG8="), None);
}

#[test]
fn long_words_count_everything_of_31_bits() {
    for bytes in [
        vec![],
        vec![0x76, 0x2f, 0x31, 0x01],
        vec![0, 0, 1, 0],
        b"..acTL\xff\xff\xff\xff".to_vec(),
        b"..IHDR\xff\xff\xff\xff".to_vec(),
        vec![0; 0x400_0001],
    ] {
        assert!(can_count(&bytes, 64));
    }
    assert!(!can_count(&vec![0; 0x8000_0000], 64));
}

#[test]
fn short_words_leave_out_what_they_cannot_count() {
    for bytes in [
        vec![0x76, 0x2f, 0x31, 0x01],
        vec![0, 0, 1, 0],
        b"acTL\xff\xff\xff\xff".to_vec(),
        b"..acTL\xff\xff\xff\xff..".to_vec(),
        b"IHDR\x20".to_vec(),
        b"..IHDR\xff\xff\xff\xff".to_vec(),
        vec![1; 0x400_0001],
    ] {
        assert!(!can_count(&bytes, 32), "{:?}", &bytes[..4]);
    }
    for bytes in [
        vec![],
        vec![0x76, 0x2f, 0x31],
        vec![0x76, 0x2f, 0x31, 0x02],
        vec![0, 0, 1, 1],
        b"acTL\xff\xff\xff".to_vec(),
        b"acTL\xff\xff\xff\xfe".to_vec(),
        b"IHDR".to_vec(),
        b"..IHDR\x1f\xff\xff\xff".to_vec(),
        vec![1; 0x1_0000],
    ] {
        assert!(can_count(&bytes, 32));
    }
}
