use n85::decode;
use n85::dec;
use n85::enc;
use n85::encode;
use n85::DecodeError;
use n85::EncodeError;

#[test]
fn enc_dec_12() {
    let s = b"Abracadabra!";
    let mut a = [0; 15];
    let l = encode(s, &mut a).unwrap();
    assert_eq!(l, 15);

    let mut b = [0; 12];
    let l = decode(&a[..l], &mut b).unwrap();
    assert_eq!(&b[..l], s);
}

#[test]
fn enc_dec_13() {
    let s = b"Abracadabra!1";
    let mut a = [0; 17];
    let l = encode(s, &mut a).unwrap();
    assert_eq!(l, 17);

    let mut b = [0; 13];
    let l = decode(&a[..l], &mut b).unwrap();
    assert_eq!(&b[..l], s);
}

#[test]
fn enc_dec_14() {
    let s = b"Abracadabra!12";
    let mut a = [0; 18];
    let l = encode(s, &mut a).unwrap();
    assert_eq!(l, 18);

    let mut b = [0; 14];
    let l = decode(&a[..l], &mut b).unwrap();
    assert_eq!(&b[..l], s);
}

#[test]
fn enc_dec_15() {
    let s = b"Abracadabra!123";
    let mut a = [0; 19];
    let l = encode(s, &mut a).unwrap();
    assert_eq!(l, 19);

    let mut b = [0; 15];
    let l = decode(&a[..l], &mut b).unwrap();
    assert_eq!(&b[..l], s);
}

#[test]
fn enc_dec_64() {
    let s = &[0; 64];
    let mut a = [0; 80];
    let l = encode(s, &mut a).unwrap();
    assert_eq!(l, 80);

    let mut b = [0; 64];
    let l = decode(&a[..l], &mut b).unwrap();
    assert_eq!(&b[..l], s);
}

#[test]
fn enc_max() {
    let s = &[84];
    let mut a = [0; 2];
    let l = encode(s, &mut a).unwrap();
    assert_eq!(l, 2);
    assert_eq!(a, [b'}', b'(']);

    let s = &[85];
    let mut a = [0; 2];
    let l = encode(s, &mut a).unwrap();
    assert_eq!(l, 2);
    assert_eq!(a, [b'(', b')']);
}

#[test]
fn alphabet_bijection() {
    for d in 0u8..85 {
        let c = enc(d);
        assert!((0x28..=0x5b).contains(&c) || (0x5d..=0x7d).contains(&c));
        assert_eq!(dec(c), d);
    }
    for c in 0x28u8..=0x7d {
        if c == 0x5c {
            continue;
        }
        let d = dec(c);
        assert!(d < 85);
        assert_eq!(enc(d), c);
    }
}

#[test]
fn round_trip_all_small_lengths() {
    for n in 0usize..=200 {
        let mut input = vec![0u8; n];
        for (i, byte) in input.iter_mut().enumerate() {
            *byte = (i as u8).wrapping_mul(37).wrapping_add(11);
        }
        let enc_len = n * 5 / 4 + usize::from(n % 4 != 0);
        let mut encoded = vec![0u8; enc_len];
        let l = encode(&input, &mut encoded).unwrap();
        assert_eq!(l, enc_len);
        assert_eq!(l * 4 / 5, n);

        let mut decoded = vec![0u8; n];
        let l = decode(&encoded, &mut decoded).unwrap();
        assert_eq!(l, n);
        assert_eq!(decoded, input);
    }
}

#[test]
fn encode_known_vector() {
    let s = b"Abracadabra!";
    let mut a = [0; 15];
    let l = encode(s, &mut a).unwrap();
    assert_eq!(&a[..l], b"Jo3CG^m_AG*Kwf2");
}

#[test]
fn encode_64_zeros_is_all_open_paren() {
    let s = &[0u8; 64];
    let mut a = [0xffu8; 80];
    let l = encode(s, &mut a).unwrap();
    assert_eq!(l, 80);
    assert!(a.iter().all(|&c| c == b'('));

    let mut b = [1u8; 64];
    let l = decode(&a, &mut b).unwrap();
    assert_eq!(l, 64);
    assert!(b.iter().all(|&x| x == 0));
}

#[test]
fn encode_empty() {
    let mut a = [0u8; 4];
    let l = encode(&[], &mut a).unwrap();
    assert_eq!(l, 0);
    let mut b = [0u8; 4];
    let l = decode(&[], &mut b).unwrap();
    assert_eq!(l, 0);
}

#[test]
fn decode_invalid_length() {
    let mut out = [0u8; 16];
    for n in [1usize, 6, 11, 16] {
        let input = vec![b'('; n];
        assert_eq!(decode(&input, &mut out), Err(DecodeError::InvalidLength));
    }
    // The length check comes first, even when the bytes are not symbols.
    assert_eq!(decode(&[0x5c], &mut out), Err(DecodeError::InvalidLength));
}

#[test]
fn decode_invalid_char() {
    let mut out = [0u8; 16];
    // A backslash anywhere in the input is rejected.
    assert_eq!(
        decode(&[b'(', b'\\'], &mut out),
        Err(DecodeError::InvalidChar)
    );
    // Bytes outside the printable range are rejected.
    assert_eq!(decode(&[b'(', 0x27], &mut out), Err(DecodeError::InvalidChar));
    assert_eq!(decode(&[0x7e, b'('], &mut out), Err(DecodeError::InvalidChar));
    assert_eq!(decode(&[0x00, 0xff], &mut out), Err(DecodeError::InvalidChar));
    // Validation covers the whole input, not just the first group.
    let mut input = vec![b'('; 10];
    input[9] = b'\\';
    assert_eq!(decode(&input, &mut out), Err(DecodeError::InvalidChar));
}

#[test]
fn encode_output_too_short() {
    let s = b"Abracadabra!";
    let mut short = [0u8; 14];
    assert_eq!(encode(s, &mut short), Err(EncodeError::OutputTooShort));
    assert!(short.iter().all(|&x| x == 0));

    let one = [84u8];
    let mut short = [0u8; 1];
    assert_eq!(encode(&one, &mut short), Err(EncodeError::OutputTooShort));
}

#[test]
fn decode_output_too_short() {
    let input = b"Jo3CG^m_AG*Kwf2";
    let mut short = [7u8; 11];
    assert_eq!(decode(input, &mut short), Err(DecodeError::OutputTooShort));
    assert!(short.iter().all(|&x| x == 7));

    let pair = [b'}', b'('];
    let mut short = [0u8; 0];
    assert_eq!(decode(&pair, &mut short), Err(DecodeError::OutputTooShort));

    // The capacity check comes before character validation.
    let bad = [0x5c, 0x5c];
    let mut short = [0u8; 0];
    assert_eq!(decode(&bad, &mut short), Err(DecodeError::OutputTooShort));
}

#[test]
fn decode_keeps_low_bytes_of_overfull_groups() {
    // A full group of '}' symbols carries the base-85 value 4437053124,
    // which exceeds 32 bits; only its low 4 bytes are written.
    let input = [b'}'; 5];
    let mut out = [0u8; 4];
    let l = decode(&input, &mut out).unwrap();
    assert_eq!(l, 4);
    assert_eq!(out, [196, 14, 120, 8]);

    // A short group of two '}' symbols carries 7224; its low byte is kept.
    let input = [b'}'; 2];
    let mut out = [0u8; 1];
    let l = decode(&input, &mut out).unwrap();
    assert_eq!(l, 1);
    assert_eq!(out, [56]);
}

#[test]
fn output_beyond_written_region_is_untouched() {
    let s = b"ab";
    let mut a = [9u8; 8];
    let l = encode(s, &mut a).unwrap();
    assert_eq!(l, 3);
    assert_eq!(&a[3..], &[9u8; 5]);

    let mut b = [9u8; 8];
    let l = decode(&a[..3], &mut b).unwrap();
    assert_eq!(l, 2);
    assert_eq!(&b[..2], s);
    assert_eq!(&b[2..], &[9u8; 6]);
}
