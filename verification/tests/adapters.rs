use asn1_aper::{
    encode_int, unconstrained, APerDecode, APerEncode, BitString, Constraint, Constraints,
    DecodeError, Decoder, EncodeError, Encoder,
};

fn sized(min: Option<i64>, max: Option<i64>) -> Constraints {
    Constraints {
        value: None,
        size: Some(Constraint::new(min, max)),
    }
}

#[derive(Debug, PartialEq)]
struct Flagged {
    flag: bool,
    level: u8,
    name: Vec<u8>,
}

impl APerEncode for Flagged {
    fn constraints() -> Constraints {
        unconstrained()
    }

    fn to_aper(&self, _: Constraints) -> Result<Encoder, EncodeError> {
        let mut enc = self.flag.to_aper(unconstrained())?;
        enc.append(&encode_int(self.level as i64, Some(0), Some(9))?);
        enc.append(&self.name.to_aper(unconstrained())?);
        Ok(enc)
    }
}

impl APerDecode for Flagged {
    type Model = ();

    fn constraints() -> Constraints {
        unconstrained()
    }

    fn from_aper(decoder: &mut Decoder<'_>, _: Constraints) -> Result<Self, DecodeError> {
        let flag = bool::from_aper(decoder, unconstrained())?;
        let level = decoder.decode_int(Some(0), Some(9))? as u8;
        let name = Vec::<u8>::from_aper(decoder, sized(None, Some(10)))?;
        Ok(Flagged { flag, level, name })
    }
}

#[derive(Debug, PartialEq)]
enum Message {
    Ping,
    Level(u8),
    Pair(u8, u16),
}

impl APerEncode for Message {
    fn constraints() -> Constraints {
        unconstrained()
    }

    fn to_aper(&self, _: Constraints) -> Result<Encoder, EncodeError> {
        encode_message(self)
    }
}

impl APerDecode for Message {
    type Model = ();

    fn constraints() -> Constraints {
        unconstrained()
    }

    fn from_aper(decoder: &mut Decoder<'_>, _: Constraints) -> Result<Self, DecodeError> {
        decode_message(decoder)
    }
}

fn encode_message(m: &Message) -> Result<Encoder, EncodeError> {
    let mut enc = false.to_aper(unconstrained())?;
    match m {
        Message::Ping => {
            enc.append(&encode_int(0, Some(0), Some(2))?);
        }
        Message::Level(a) => {
            enc.append(&encode_int(1, Some(0), Some(2))?);
            enc.append(&a.to_aper(unconstrained())?);
        }
        Message::Pair(a, b) => {
            enc.append(&encode_int(2, Some(0), Some(2))?);
            enc.append(&a.to_aper(unconstrained())?);
            enc.append(&b.to_aper(unconstrained())?);
        }
    }
    Ok(enc)
}

fn decode_message(decoder: &mut Decoder<'_>) -> Result<Message, DecodeError> {
    let _extended = bool::from_aper(decoder, unconstrained())?;
    // two bits hold the index: a fourth alternative can be spelled, and is none
    let choice = decoder.read(2)?;
    match choice {
        0 => Ok(Message::Ping),
        1 => Ok(Message::Level(u8::from_aper(decoder, unconstrained())?)),
        2 => {
            let a = u8::from_aper(decoder, unconstrained())?;
            let b = u16::from_aper(decoder, unconstrained())?;
            Ok(Message::Pair(a, b))
        }
        _ => Err(DecodeError::InvalidChoice),
    }
}

#[test]
fn constraints_are_plain_data() {
    let c = Constraint::new(Some(-3), None);
    assert_eq!(c.min(), Some(-3));
    assert_eq!(c.max(), None);
    assert_eq!(c, Constraint::new(Some(-3), None));
    assert_ne!(c, Constraint::new(Some(-3), Some(0)));
    let u = unconstrained();
    assert_eq!(u.value, None);
    assert_eq!(u.size, None);
    assert_eq!(u, Constraints { value: None, size: None });
    assert_ne!(u, sized(None, None));
    assert_eq!(<bool as APerEncode>::constraints(), unconstrained());
    assert_eq!(<Vec<u8> as APerDecode>::constraints(), unconstrained());
}

#[test]
fn bool_takes_one_bit() {
    let e = true.to_aper(unconstrained()).unwrap();
    assert_eq!(*e.bytes(), vec![0x80]);
    assert_eq!(e.r_padding(), 7);
    let e = false.to_aper(unconstrained()).unwrap();
    assert_eq!(*e.bytes(), vec![0x00]);
    assert_eq!(e.r_padding(), 7);
    let mut d = Decoder::new(b"\xa0");
    assert_eq!(bool::from_aper(&mut d, unconstrained()), Ok(true));
    assert_eq!(bool::from_aper(&mut d, unconstrained()), Ok(false));
    assert_eq!(bool::from_aper(&mut d, unconstrained()), Ok(true));
    assert_eq!(d.read(5).unwrap(), 0);
    assert_eq!(bool::from_aper(&mut d, unconstrained()), Err(DecodeError::NotEnoughBits));
}

#[test]
fn null_takes_no_bits() {
    let e = ().to_aper(unconstrained()).unwrap();
    assert!(e.bytes().is_empty());
    assert_eq!(e.r_padding(), 0);
    let data: [u8; 0] = [];
    let mut d = Decoder::new(&data);
    assert_eq!(<()>::from_aper(&mut d, unconstrained()), Ok(()));
    let mut d = Decoder::new(b"\x7f");
    assert_eq!(<()>::from_aper(&mut d, unconstrained()), Ok(()));
    assert_eq!(d.read_u8().unwrap(), 0x7f);
}

#[test]
fn primitive_integers() {
    assert_eq!(*200u8.to_aper(unconstrained()).unwrap().bytes(), vec![200]);
    assert_eq!(*(-128i8).to_aper(unconstrained()).unwrap().bytes(), vec![0]);
    assert_eq!(*(127i8).to_aper(unconstrained()).unwrap().bytes(), vec![255]);
    assert_eq!(*43i16.to_aper(unconstrained()).unwrap().bytes(), vec![0x80, 0x2b]);
    assert_eq!(*0xfe46u16.to_aper(unconstrained()).unwrap().bytes(), vec![0xfe, 0x46]);
    assert_eq!(
        *0xdeadbeefu32.to_aper(unconstrained()).unwrap().bytes(),
        vec![0x04, 0xde, 0xad, 0xbe, 0xef]
    );
    assert_eq!(
        *(-1i32).to_aper(unconstrained()).unwrap().bytes(),
        vec![0x04, 0x7f, 0xff, 0xff, 0xff]
    );
    let mut d = Decoder::new(b"\x80\x2b");
    assert_eq!(i16::from_aper(&mut d, unconstrained()), Ok(43));
    let mut d = Decoder::new(b"\x00\xff");
    assert_eq!(i8::from_aper(&mut d, unconstrained()), Ok(-128));
    assert_eq!(u8::from_aper(&mut d, unconstrained()), Ok(255));
    let mut d = Decoder::new(b"\x04\xde\xad\xbe\xef");
    assert_eq!(u32::from_aper(&mut d, unconstrained()), Ok(0xdeadbeef));
    let mut d = Decoder::new(b"\x02\x80\x00");
    assert_eq!(i32::from_aper(&mut d, unconstrained()), Ok(i32::MIN + 0x8000));
    let mut d = Decoder::new(b"\x05\x01\x00\x00\x00\x00");
    assert_eq!(u32::from_aper(&mut d, unconstrained()), Err(DecodeError::MalformedInt));
}

#[test]
fn primitive_integers_come_back_as_they_went() {
    for v in [i8::MIN, -1, 0, 1, i8::MAX] {
        let e = v.to_aper(unconstrained()).unwrap();
        assert_eq!(i8::from_aper(&mut Decoder::new(e.bytes()), unconstrained()), Ok(v));
    }
    for v in [i16::MIN, -1, 0, 1, i16::MAX] {
        let e = v.to_aper(unconstrained()).unwrap();
        assert_eq!(i16::from_aper(&mut Decoder::new(e.bytes()), unconstrained()), Ok(v));
    }
    for v in [i32::MIN, -1, 0, 1, i32::MAX] {
        let e = v.to_aper(unconstrained()).unwrap();
        assert_eq!(i32::from_aper(&mut Decoder::new(e.bytes()), unconstrained()), Ok(v));
    }
    for v in [0u8, 1, 128, u8::MAX] {
        let e = v.to_aper(unconstrained()).unwrap();
        assert_eq!(u8::from_aper(&mut Decoder::new(e.bytes()), unconstrained()), Ok(v));
    }
    for v in [0u16, 1, 256, u16::MAX] {
        let e = v.to_aper(unconstrained()).unwrap();
        assert_eq!(u16::from_aper(&mut Decoder::new(e.bytes()), unconstrained()), Ok(v));
    }
    for v in [0u32, 1, 65536, u32::MAX] {
        let e = v.to_aper(unconstrained()).unwrap();
        assert_eq!(u32::from_aper(&mut Decoder::new(e.bytes()), unconstrained()), Ok(v));
    }
}

#[test]
fn sequence_of_with_a_fixed_size_has_no_length() {
    let v: Vec<u8> = vec![1, 2, 3];
    let e = v.to_aper(sized(Some(3), Some(3))).unwrap();
    assert_eq!(*e.bytes(), vec![1, 2, 3]);
    let mut d = Decoder::new(e.bytes());
    assert_eq!(Vec::<u8>::from_aper(&mut d, sized(Some(3), Some(3))), Ok(v));
    assert_eq!(d.read(1), Err(DecodeError::NotEnoughBits));
}

#[test]
fn sequence_of_with_a_size_range_has_a_length() {
    let v: Vec<u16> = vec![7, 300];
    let e = v.to_aper(sized(Some(1), Some(5))).unwrap();
    assert_eq!(*e.bytes(), vec![0x02, 0x00, 0x07, 0x01, 0x2c]);
    let mut d = Decoder::new(e.bytes());
    assert_eq!(Vec::<u16>::from_aper(&mut d, sized(Some(1), Some(5))), Ok(v));
}

#[test]
fn sequence_of_bools_is_packed() {
    let v = vec![true, false, true, true, false, false, true, false, true];
    let e = v.to_aper(sized(None, Some(20))).unwrap();
    assert_eq!(*e.bytes(), vec![0x09, 0xb2, 0x80]);
    assert_eq!(e.r_padding(), 7);
    let mut d = Decoder::new(e.bytes());
    assert_eq!(Vec::<bool>::from_aper(&mut d, sized(None, Some(20))), Ok(v));
}

#[test]
fn sequence_of_nothing() {
    let v: Vec<u8> = Vec::new();
    assert_eq!(*v.to_aper(unconstrained()).unwrap().bytes(), vec![0x00]);
    let mut d = Decoder::new(b"\x00");
    assert_eq!(Vec::<u8>::from_aper(&mut d, sized(None, Some(3))), Ok(vec![]));
    // without bounds the size is fixed at zero: nothing is read
    let mut d = Decoder::new(b"\x05");
    assert_eq!(Vec::<u8>::from_aper(&mut d, sized(None, None)), Ok(vec![]));
    assert_eq!(d.read_u8().unwrap(), 0x05);
}

#[test]
fn sequence_of_sequences() {
    let v: Vec<Vec<u8>> = vec![vec![1, 2], vec![], vec![3]];
    let c = Constraints {
        value: Some(Constraint::new(None, Some(4))),
        size: Some(Constraint::new(None, Some(4))),
    };
    let e = v.to_aper(c).unwrap();
    assert_eq!(*e.bytes(), vec![3, 2, 1, 2, 0, 1, 3]);
    let mut d = Decoder::new(e.bytes());
    assert_eq!(Vec::<Vec<u8>>::from_aper(&mut d, c), Ok(v));
}

#[test]
fn sequence_of_needs_a_size_constraint_to_decode() {
    let mut d = Decoder::new(b"\x01\x05");
    assert_eq!(
        Vec::<u8>::from_aper(&mut d, unconstrained()),
        Err(DecodeError::MissingSizeConstraint)
    );
}

#[test]
fn sequence_of_size_limits() {
    let mut d = Decoder::new(b"\x01\x05");
    assert_eq!(
        Vec::<u8>::from_aper(&mut d, sized(None, Some(65535))),
        Err(DecodeError::NotImplemented)
    );
    assert_eq!(
        Vec::<u8>::from_aper(&mut d, sized(None, Some(-1))),
        Err(DecodeError::NotImplemented)
    );
    assert_eq!(Vec::<u8>::from_aper(&mut d, sized(None, Some(65534))), Ok(vec![5]));
    let long: Vec<bool> = vec![false; 16384];
    assert_eq!(long.to_aper(unconstrained()).unwrap_err(), EncodeError::NotImplemented);
    let long: Vec<bool> = vec![true; 16383];
    let e = long.to_aper(unconstrained()).unwrap();
    assert_eq!(e.bytes().len(), 2 + 2048);
    assert_eq!(e.bytes()[0], 0xbf);
    assert_eq!(e.bytes()[1], 0xff);
    assert_eq!(e.r_padding(), 1);
}

#[test]
fn sequence_of_errors_come_from_the_first_bad_element() {
    let mut d = Decoder::new(b"\x02\x07");
    assert_eq!(
        Vec::<u8>::from_aper(&mut d, sized(None, Some(3))),
        Err(DecodeError::NotEnoughBits)
    );
    let mut d = Decoder::new(b"\xc0");
    assert_eq!(
        Vec::<u8>::from_aper(&mut d, sized(None, Some(3))),
        Err(DecodeError::NotImplemented)
    );
    let data: [u8; 0] = [];
    let mut d = Decoder::new(&data);
    assert_eq!(
        Vec::<u8>::from_aper(&mut d, sized(None, Some(3))),
        Err(DecodeError::MalformedLength)
    );
    // a bit string element without the size that the value constraint would give it
    let v = vec![BitString::with_len(4)];
    assert_eq!(v.to_aper(unconstrained()).unwrap_err(), EncodeError::MissingSizeConstraint);
    let mut d = Decoder::new(b"\x01\xe0");
    assert_eq!(
        Vec::<BitString>::from_aper(&mut d, sized(None, Some(3))).unwrap_err(),
        DecodeError::MissingSizeConstraint
    );
}

#[test]
fn bit_string_starts_clear() {
    let mut b = BitString::with_len(20);
    for i in 0..20 {
        assert_eq!(b.is_set(i), false);
    }
    b.set(3, true);
    b.set(19, true);
    b.set(8, true);
    b.set(8, false);
    for i in 0..20 {
        assert_eq!(b.is_set(i), i == 3 || i == 19);
    }
    let e = b.to_aper(sized(None, Some(20))).unwrap();
    // bit 19 goes first, bit 0 last, four bits of padding behind it
    assert_eq!(*e.bytes(), vec![0x80, 0x00, 0x80]);
    assert_eq!(e.r_padding(), 4);
}

#[test]
fn bit_string_needs_a_size_constraint() {
    let b = BitString::with_bytes_and_len(&vec![0x0e], 4);
    assert_eq!(b.to_aper(unconstrained()).unwrap_err(), EncodeError::MissingSizeConstraint);
    let mut d = Decoder::new(b"\xe0");
    assert_eq!(
        BitString::from_aper(&mut d, unconstrained()).unwrap_err(),
        DecodeError::MissingSizeConstraint
    );
}

#[test]
fn bit_string_of_variable_size_has_a_length() {
    let b = BitString::with_bytes_and_len(&vec![0x0e], 4);
    let e = b.to_aper(sized(Some(0), Some(10))).unwrap();
    assert_eq!(*e.bytes(), vec![0x04, 0xe0]);
    assert_eq!(e.r_padding(), 4);
    let mut d = Decoder::new(e.bytes());
    let back = BitString::from_aper(&mut d, sized(Some(0), Some(10))).unwrap();
    for i in 0..4 {
        assert_eq!(back.is_set(i), b.is_set(i));
    }
    assert_eq!(d.read(4).unwrap(), 0);
    let e = b.to_aper(sized(Some(0), None)).unwrap();
    assert_eq!(*e.bytes(), vec![0x04, 0xe0]);
}

#[test]
fn bit_string_limits() {
    let mut d = Decoder::new(b"\xe0");
    assert_eq!(
        BitString::from_aper(&mut d, sized(None, Some(-1))).unwrap_err(),
        DecodeError::NotImplemented
    );
    assert_eq!(
        BitString::from_aper(&mut d, sized(None, Some(9))).unwrap_err(),
        DecodeError::NotEnoughBits
    );
    assert_eq!(
        BitString::from_aper(&mut d, sized(Some(1), Some(9))).unwrap_err(),
        DecodeError::NotImplemented
    );
    let b = BitString::from_aper(&mut d, sized(None, Some(0))).unwrap();
    assert_eq!(*b.to_aper(sized(None, Some(0))).unwrap().bytes(), Vec::<u8>::new());
    let long = BitString::with_len(16384);
    assert_eq!(long.to_aper(sized(Some(0), None)).unwrap_err(), EncodeError::NotImplemented);
    assert_eq!(long.to_aper(sized(None, Some(16384))).unwrap().bytes().len(), 2048);
}

#[test]
fn bit_strings_come_back_as_they_went() {
    for len in [0usize, 1, 3, 7, 8, 16, 24, 64] {
        let mut b = BitString::with_len(len);
        for i in 0..len {
            b.set(i, i % 3 == 0 || i % 7 == 2);
        }
        let c = sized(None, Some(len as i64));
        let e = b.to_aper(c).unwrap();
        assert_eq!(e.bytes().len(), (len + 7) / 8);
        let mut d = Decoder::new(e.bytes());
        let back = BitString::from_aper(&mut d, c).unwrap();
        for i in 0..len {
            assert_eq!(back.is_set(i), b.is_set(i), "bit {} of {}", i, len);
        }
    }
}

#[test]
fn structure_fields_follow_each_other_bit_by_bit() {
    let f = Flagged {
        flag: true,
        level: 9,
        name: vec![0x46, 0x4f],
    };
    let e = f.to_aper(unconstrained()).unwrap();
    // 1 | 1001 | 0000 0010 | 0100 0110 | 0100 1111 | 000
    assert_eq!(*e.bytes(), vec![0xc8, 0x12, 0x32, 0x78]);
    assert_eq!(e.r_padding(), 3);
    let mut d = Decoder::new(e.bytes());
    assert_eq!(Flagged::from_aper(&mut d, unconstrained()), Ok(f));
    assert_eq!(d.read(3).unwrap(), 0);
}

#[test]
fn choice_index_and_alternative() {
    let m = Message::Pair(7, 300);
    let e = m.to_aper(unconstrained()).unwrap();
    // 0 | 10 | 0000 0111 | 0000 0001 0010 1100 | 00000
    assert_eq!(*e.bytes(), vec![0x40, 0xe0, 0x25, 0x80]);
    assert_eq!(e.r_padding(), 5);
    let mut d = Decoder::new(e.bytes());
    assert_eq!(Message::from_aper(&mut d, unconstrained()), Ok(m));
    let e = encode_message(&Message::Ping).unwrap();
    assert_eq!(*e.bytes(), vec![0x00]);
    assert_eq!(e.r_padding(), 5);
    let e = encode_message(&Message::Level(255)).unwrap();
    assert_eq!(*e.bytes(), vec![0x3f, 0xe0]);
    assert_eq!(decode_message(&mut Decoder::new(e.bytes())), Ok(Message::Level(255)));
}

#[test]
fn choice_index_without_an_alternative() {
    let mut d = Decoder::new(b"\x60");
    assert_eq!(Message::from_aper(&mut d, unconstrained()), Err(DecodeError::InvalidChoice));
    // read as a whole number over the range of the indices, index 3 is malformed
    let mut d = Decoder::new(b"\x60");
    d.read(1).unwrap();
    assert_eq!(d.decode_int(Some(0), Some(2)), Err(DecodeError::MalformedInt));
}

#[test]
fn sequence_of_structures_and_choices() {
    let v = vec![Message::Ping, Message::Pair(1, 2), Message::Level(3)];
    let e = v.to_aper(unconstrained()).unwrap();
    // 0000 0011 | 0 00 | 0 10 0000 0001 0000 0000 0000 0010 | 0 01 0000 0011
    // 00000011 00001000 00000100 00000000 00001000 10000001 1.......
    assert_eq!(*e.bytes(), vec![0x03, 0x08, 0x04, 0x00, 0x08, 0x81, 0x80]);
    assert_eq!(e.r_padding(), 7);
    let mut d = Decoder::new(e.bytes());
    assert_eq!(Vec::<Message>::from_aper(&mut d, sized(None, Some(5))), Ok(v));
    let mut d = Decoder::new(b"\x01\x60");
    assert_eq!(
        Vec::<Message>::from_aper(&mut d, sized(None, Some(5))),
        Err(DecodeError::InvalidChoice)
    );
}

struct Foo {
    bar: BitString,
    baz: u16,
}

impl APerDecode for Foo {
    type Model = ();

    fn constraints() -> Constraints {
        unconstrained()
    }

    fn from_aper(decoder: &mut Decoder<'_>, _: Constraints) -> Result<Self, DecodeError> {
        let bar = BitString::from_aper(
            decoder,
            Constraints { value: None, size: Some(Constraint::new(Some(4), Some(4))) },
        )?;
        let baz = u16::from_aper(decoder, unconstrained())?;
        Ok(Foo { bar, baz })
    }
}

enum Signal {
    Ping,
    Level(u8),
}

impl APerEncode for Signal {
    fn constraints() -> Constraints {
        unconstrained()
    }

    fn to_aper(&self, _: Constraints) -> Result<Encoder, EncodeError> {
        let mut enc = false.to_aper(unconstrained())?;
        match self {
            Signal::Ping => {
                enc.append(&encode_int(0, Some(0), Some(1))?);
            }
            Signal::Level(level) => {
                enc.append(&encode_int(1, Some(0), Some(1))?);
                enc.append(&level.to_aper(unconstrained())?);
            }
        }
        Ok(enc)
    }
}

#[test]
fn structure_with_a_bit_string() {
    // 1010 | 0000 0001 0010 1100 | 0000
    let mut d = Decoder::new(b"\xa0\x12\xc0");
    let foo = Foo::from_aper(&mut d, unconstrained()).unwrap();
    assert_eq!(foo.baz, 300);
    assert_eq!(foo.bar.is_set(3), true);
    assert_eq!(foo.bar.is_set(2), false);
    assert_eq!(foo.bar.is_set(1), true);
    assert_eq!(foo.bar.is_set(0), false);
    assert_eq!(d.read(4).unwrap(), 0);
}

#[test]
fn choice_of_two() {
    let e = Signal::Ping.to_aper(unconstrained()).unwrap();
    assert_eq!(*e.bytes(), vec![0x00]);
    assert_eq!(e.r_padding(), 6);
    let e = Signal::Level(0xff).to_aper(unconstrained()).unwrap();
    // 0 | 1 | 1111 1111
    assert_eq!(*e.bytes(), vec![0x7f, 0xc0]);
    assert_eq!(e.r_padding(), 6);
}
