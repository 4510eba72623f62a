use asn1_aper::{encode_length, shift_bytes_left, EncodeError, Encoder};

fn pack(bits: &[bool]) -> (Vec<u8>, usize) {
    let mut bytes = vec![0u8; (bits.len() + 7) / 8];
    for (i, b) in bits.iter().enumerate() {
        if *b {
            bytes[i / 8] |= 0x80 >> (i % 8);
        }
    }
    (bytes, (8 - bits.len() % 8) % 8)
}

fn encoder_of(bits: &[bool]) -> Encoder {
    let (bytes, pad) = pack(bits);
    Encoder::with_bytes_and_padding(bytes, pad)
}

fn pattern(seed: usize, len: usize) -> Vec<bool> {
    (0..len).map(|i| (i * 7 + seed * 3 + i / 3) % 5 < 2 || i == 0).collect()
}

#[test]
fn new_encoder_is_empty() {
    let e = Encoder::new();
    assert!(e.bytes().is_empty());
    assert_eq!(e.r_padding(), 0);
}

#[test]
fn seeded_encoder_keeps_bytes_and_padding() {
    let e = Encoder::with_bytes_and_padding(vec![0xab, 0xc0], 6);
    assert_eq!(*e.bytes(), vec![0xab, 0xc0]);
    assert_eq!(*e.bytes_mut(), vec![0xab, 0xc0]);
    assert_eq!(e.r_padding(), 6);
    let e = Encoder::with_bytes(vec![1, 2, 3]);
    assert_eq!(*e.bytes(), vec![1, 2, 3]);
    assert_eq!(e.r_padding(), 0);
}

#[test]
fn set_r_padding_changes_the_padding_only() {
    let mut e = Encoder::with_bytes(vec![0xf0]);
    e.set_r_padding(4);
    assert_eq!(e.r_padding(), 4);
    assert_eq!(*e.bytes(), vec![0xf0]);
}

#[test]
fn append_to_an_empty_encoder() {
    let mut e = Encoder::new();
    e.append(&Encoder::with_bytes_and_padding(vec![0xab, 0xc0], 6));
    assert_eq!(*e.bytes(), vec![0xab, 0xc0]);
    assert_eq!(e.r_padding(), 6);
}

#[test]
fn append_an_empty_encoder() {
    let mut e = Encoder::with_bytes_and_padding(vec![0xab, 0xc0], 6);
    e.append(&Encoder::new());
    assert_eq!(*e.bytes(), vec![0xab, 0xc0]);
    assert_eq!(e.r_padding(), 6);
}

#[test]
fn append_on_a_byte_boundary() {
    let mut e = Encoder::with_bytes(vec![0x01]);
    e.append(&Encoder::with_bytes_and_padding(vec![0x02, 0x80], 7));
    assert_eq!(*e.bytes(), vec![0x01, 0x02, 0x80]);
    assert_eq!(e.r_padding(), 7);
}

#[test]
fn append_one_bit_to_one_bit() {
    let mut e = Encoder::with_bytes_and_padding(vec![0x80], 7);
    e.append(&Encoder::with_bytes_and_padding(vec![0x80], 7));
    assert_eq!(*e.bytes(), vec![0xc0]);
    assert_eq!(e.r_padding(), 6);
}

#[test]
fn append_fills_the_last_byte_exactly() {
    let mut e = Encoder::with_bytes_and_padding(vec![0xe0], 5);
    e.append(&Encoder::with_bytes_and_padding(vec![0xa8], 3));
    assert_eq!(*e.bytes(), vec![0xf5]);
    assert_eq!(e.r_padding(), 0);
}

#[test]
fn append_a_byte_to_three_bits() {
    let mut e = Encoder::with_bytes_and_padding(vec![0xa0], 5);
    e.append(&Encoder::with_bytes(vec![0xff]));
    assert_eq!(*e.bytes(), vec![0xbf, 0xe0]);
    assert_eq!(e.r_padding(), 5);
}

#[test]
fn append_a_padded_byte_that_spills_over() {
    // 111 then 10101: the three bits and five more make one byte
    let mut e = Encoder::with_bytes_and_padding(vec![0xe0], 5);
    e.append(&Encoder::with_bytes_and_padding(vec![0xaa, 0xc0], 6));
    // 111 10101 | 010 11 000
    assert_eq!(*e.bytes(), vec![0xf5, 0x58]);
    assert_eq!(e.r_padding(), 3);
}

#[test]
fn append_many_bytes_whose_last_bits_move_up() {
    // seven bits, then nine: two whole bytes
    let mut e = Encoder::with_bytes_and_padding(vec![0xfe], 1);
    e.append(&Encoder::with_bytes_and_padding(vec![0x00, 0x80], 7));
    assert_eq!(*e.bytes(), vec![0xfe, 0x01]);
    assert_eq!(e.r_padding(), 0);
}

#[test]
fn append_joins_the_two_bit_strings() {
    for la in 0..20 {
        for lb in 0..20 {
            let a = pattern(la, la);
            let b = pattern(lb + 1, lb);
            let mut e = encoder_of(&a);
            e.append(&encoder_of(&b));
            let mut joined = a.clone();
            joined.extend_from_slice(&b);
            let (bytes, pad) = pack(&joined);
            assert_eq!(*e.bytes(), bytes, "{} bits and {} bits", la, lb);
            assert_eq!(e.r_padding(), pad, "{} bits and {} bits", la, lb);
            assert!(e.r_padding() <= 7);
        }
    }
}

#[test]
fn append_three_fragments_in_a_row() {
    let a = pattern(1, 5);
    let b = pattern(2, 13);
    let c = pattern(3, 9);
    let mut e = encoder_of(&a);
    e.append(&encoder_of(&b));
    e.append(&encoder_of(&c));
    let mut joined = a.clone();
    joined.extend_from_slice(&b);
    joined.extend_from_slice(&c);
    let (bytes, pad) = pack(&joined);
    assert_eq!(*e.bytes(), bytes);
    assert_eq!(e.r_padding(), pad);
}

#[test]
fn shift_left_by_three() {
    let mut v = vec![0b1010_1010u8, 0b1100_0011];
    shift_bytes_left(&mut v, 3);
    assert_eq!(v, vec![0b0101_0110, 0b0001_1000]);
}

#[test]
fn shift_left_by_seven() {
    let mut v = vec![0x01u8, 0x80, 0xff];
    shift_bytes_left(&mut v, 7);
    assert_eq!(v, vec![0xc0, 0x7f, 0x80]);
}

#[test]
fn shift_left_by_nothing() {
    let mut v = vec![0x12u8, 0x34];
    shift_bytes_left(&mut v, 0);
    assert_eq!(v, vec![0x12, 0x34]);
}

#[test]
fn shift_left_of_one_byte_and_of_none() {
    let mut v = vec![0xffu8];
    shift_bytes_left(&mut v, 4);
    assert_eq!(v, vec![0xf0]);
    let mut v: Vec<u8> = Vec::new();
    shift_bytes_left(&mut v, 5);
    assert!(v.is_empty());
}

#[test]
fn encode_length_short_form() {
    for n in [0usize, 1, 5, 64, 127] {
        let e = encode_length(n).unwrap();
        assert_eq!(*e.bytes(), vec![n as u8]);
        assert_eq!(e.bytes()[0] & 0x80, 0);
        assert_eq!(e.r_padding(), 0);
    }
}

#[test]
fn encode_length_long_form() {
    assert_eq!(*encode_length(128).unwrap().bytes(), vec![0x80, 0x80]);
    assert_eq!(*encode_length(300).unwrap().bytes(), vec![0x81, 0x2c]);
    assert_eq!(*encode_length(16383).unwrap().bytes(), vec![0xbf, 0xff]);
    for n in [128usize, 255, 256, 1000, 16383] {
        let e = encode_length(n).unwrap();
        assert_eq!(e.bytes().len(), 2);
        assert_eq!(e.bytes()[0] & 0xc0, 0x80);
        assert_eq!(e.r_padding(), 0);
    }
}

#[test]
fn encode_length_beyond_fourteen_bits() {
    assert_eq!(encode_length(16384).unwrap_err(), EncodeError::NotImplemented);
    assert_eq!(encode_length(65534).unwrap_err(), EncodeError::NotImplemented);
    assert_eq!(encode_length(65535).unwrap_err(), EncodeError::NotImplemented);
    assert_eq!(encode_length(usize::MAX).unwrap_err(), EncodeError::NotImplemented);
}
