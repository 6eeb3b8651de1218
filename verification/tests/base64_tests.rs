use base64::decoding::DecodingError;
use rand::Rng;

#[test]
fn test_encode_rfc4648_test_vectors() {
    let rfc4648_test_vectors = vec![
        ("", ""),
        ("f", "Zg=="),
        ("fo", "Zm8="),
        ("foo", "Zm9v"),
        ("foob", "Zm9vYg=="),
        ("foobar", "Zm9vYmFy"),
    ];

    for data in rfc4648_test_vectors.iter() {
        assert_eq!(
            std::str::from_utf8(base64::encode(data.0.as_bytes()).as_slice()).unwrap(),
            data.1,
            "input vector {}",
            data.0
        );
    }
}

#[test]
fn test_decode_empty() {
    let r0 = base64::decode(b"");
    assert_eq!(r0, Ok(vec![]));
}

#[test]
fn test_decode_rfc4648_test_vectors() {
    let rfc4648_test_vectors = vec![
        ("", ""),
        ("f", "Zg=="),
        ("fo", "Zm8="),
        ("foo", "Zm9v"),
        ("foob", "Zm9vYg=="),
        ("foobar", "Zm9vYmFy"),
    ];

    for data in rfc4648_test_vectors.iter() {
        assert_eq!(
            std::str::from_utf8(base64::decode(data.1.as_bytes()).unwrap().as_slice()).unwrap(),
            data.0,
            "input vector {}",
            data.1
        );
    }
}

#[test]
fn test_decode_incomplete_padding() {
    assert_eq!(base64::decode(b"Zg="), Ok(b"f".to_vec()));
    assert_eq!(base64::decode(b"Zg"), Ok(b"f".to_vec()));

    assert_eq!(base64::decode(b"Zm9vYg="), Ok(b"foob".to_vec()));
    assert_eq!(base64::decode(b"Zm9vYg"), Ok(b"foob".to_vec()));
}

#[test]
fn test_encode_decode_roundtrip() {
    let data = vec!["", "Alexander Seifarth", "ioa\ndkdi", "Enjoy the Silence", "09a 9./9d+"];

    for d in data.iter() {
        let enc = base64::encode(d.as_bytes());
        let dec = base64::decode(enc.as_slice());
        assert_eq!(dec, Ok(d.as_bytes().to_vec()));
    }
}

#[test]
fn test_encode_decode_roundtrip_random_binary() {
    let side = rand::distributions::Uniform::new_inclusive(0, 255);

    let rng = rand::thread_rng();
    let n1: Vec<u8> = rng.sample_iter(&side).take(500).collect();
    let enc = base64::encode(&n1);
    let dec = base64::decode(enc.as_slice());
    assert_eq!(dec, Ok(n1));
}

#[test]
fn test_decode_invalid_input() {
    let input: Vec<u8> = vec![0x41, 0x42, 0x43, 0x99, 0x3d];
    assert_eq!(
        base64::decode(input.as_slice()),
        Err(DecodingError::InvalidChar {
            value: 0x99,
            index: 3
        })
    );

    assert_eq!(
        base64::decode(b"Zg==="),
        Err(DecodingError::InvalidChar {
            value: 0x3d,
            index: 2
        })
    );
}

#[test]
fn test_encode_filename_safe_vectors() {
    // the 6-bit values 62 and 63 are the only ones the alphabets differ on
    assert_eq!(base64::encode(&[0xfb, 0xef]), b"++8=".to_vec());
    assert_eq!(base64::encode_fns(&[0xfb, 0xef]), b"--8=".to_vec());
    assert_eq!(base64::encode(&[0xff, 0xff, 0xff]), b"////".to_vec());
    assert_eq!(base64::encode_fns(&[0xff, 0xff, 0xff]), b"____".to_vec());
    assert_eq!(base64::encode_fns(b"foob"), b"Zm9vYg==".to_vec());
}

#[test]
fn test_cross_alphabet_decode() {
    // the single decoder accepts either alphabet's symbols
    assert_eq!(base64::decode(b"--8="), Ok(vec![0xfb, 0xef]));
    assert_eq!(base64::decode(b"++8="), Ok(vec![0xfb, 0xef]));
    assert_eq!(base64::decode(b"____"), Ok(vec![0xff, 0xff, 0xff]));
    assert_eq!(base64::decode(b"////"), Ok(vec![0xff, 0xff, 0xff]));

    let data: Vec<u8> = vec![0x00, 0x10, 0x83, 0xfb, 0xff, 0xbe, 0xff];
    let enc_fns = base64::encode_fns(data.as_slice());
    let enc = base64::encode(data.as_slice());
    assert_eq!(base64::decode(enc_fns.as_slice()), Ok(data.clone()));
    assert_eq!(base64::decode(enc.as_slice()), Ok(data));
}

#[test]
fn test_decode_length_remainder_one() {
    // a trailing group of one character can never be completed
    assert_eq!(base64::decode(b"A"), Err(DecodingError::InvalidSize));
    assert_eq!(base64::decode(b"Zm9vY"), Err(DecodingError::InvalidSize));
    assert_eq!(base64::decode(b"Zm9vZm9vY"), Err(DecodingError::InvalidSize));
}

#[test]
fn test_decode_misplaced_padding() {
    // padding in the first two positions of the final group
    assert_eq!(base64::decode(b"=AAA"), Err(DecodingError::InvalidSize));
    assert_eq!(base64::decode(b"A=AA"), Err(DecodingError::InvalidSize));
    // padding at position 2 without padding at position 3
    assert_eq!(base64::decode(b"AB=C"), Err(DecodingError::InvalidSize));
    // a valid char where the error scan stops first wins over the size error
    assert_eq!(
        base64::decode(b"AB\x07C"),
        Err(DecodingError::InvalidChar {
            value: 0x07,
            index: 2
        })
    );
}
