use sfnt_codec::error::{DecodeError, Error};
use sfnt_codec::sfnt::types::{FWord, Fixed, LongDateTime, ShortFrac, UFWord};
use sfnt_codec::utils::bitflag::BitFlag;
use sfnt_codec::utils::codec::{decode, encode, Decode, Encode};
use sfnt_codec::utils::reader::{ReadSeq, Stream, TryFromStream};
use sfnt_codec::utils::types::{Opt, Sequence};

fn big_endian() -> impl bincode::config::Config {
    bincode::config::standard()
        .with_big_endian()
        .with_fixed_int_encoding()
}

#[test]
fn u16_is_written_big_endian() {
    assert_eq!(encode(0x1234u16).unwrap(), vec![0x12, 0x34]);
}

#[test]
fn u32_is_written_big_endian() {
    assert_eq!(encode(0x0102_0304u32).unwrap(), vec![1, 2, 3, 4]);
}

#[test]
fn u64_is_written_big_endian() {
    assert_eq!(
        encode(0x0102_0304_0506_0708u64).unwrap(),
        vec![1, 2, 3, 4, 5, 6, 7, 8]
    );
}

#[test]
fn signed_values_are_two_complement() {
    assert_eq!(encode(-1i8).unwrap(), vec![0xff]);
    assert_eq!(encode(-128i8).unwrap(), vec![0x80]);
    assert_eq!(encode(-2i16).unwrap(), vec![0xff, 0xfe]);
    assert_eq!(encode(i16::MIN).unwrap(), vec![0x80, 0x00]);
    assert_eq!(encode(-1i64).unwrap(), vec![0xff; 8]);
    assert_eq!(
        encode(i64::MIN).unwrap(),
        vec![0x80, 0, 0, 0, 0, 0, 0, 0]
    );
}

#[test]
fn decode_reads_big_endian_and_moves_the_cursor() {
    let data = [0x12u8, 0x34, 0xff, 0xfe, 0x80];
    let mut stream = Stream::new(&data);
    assert_eq!(decode::<u16>(&mut stream), Ok(0x1234));
    assert_eq!(stream.stream_position(), 2);
    assert_eq!(decode::<i16>(&mut stream), Ok(-2));
    assert_eq!(decode::<i8>(&mut stream), Ok(-128));
    assert_eq!(stream.stream_position(), 5);
    assert_eq!(stream.remaining(), 0);
}

#[test]
fn decode_fails_at_the_end_and_leaves_the_cursor() {
    let data = [0x12u8, 0x34, 0x56];
    let mut stream = Stream::new(&data);
    assert_eq!(decode::<u32>(&mut stream), Err(DecodeError::UnexpectedEof));
    assert_eq!(stream.stream_position(), 0);
    assert_eq!(decode::<u16>(&mut stream), Ok(0x1234));
    assert_eq!(decode::<u16>(&mut stream), Err(DecodeError::UnexpectedEof));
    assert_eq!(stream.stream_position(), 2);
}

#[test]
fn try_from_stream_wraps_the_decode_error() {
    let data = [0u8; 1];
    let mut stream = Stream::new(&data);
    assert_eq!(
        u16::try_from_stream(&mut stream),
        Err(Error::DecodeError(DecodeError::UnexpectedEof))
    );
}

#[test]
fn primitives_round_trip_at_their_limits() {
    for v in [0u16, 1, 255, 256, 0x7fff, 0x8000, u16::MAX] {
        let bytes = encode(v).unwrap();
        assert_eq!(u16::decode_from_slice(&bytes), v);
    }
    for v in [i16::MIN, -1, 0, 1, i16::MAX] {
        let bytes = encode(v).unwrap();
        assert_eq!(i16::decode_from_slice(&bytes), v);
    }
    for v in [0u32, 1, 0xffff, 0x1_0000, u32::MAX] {
        let bytes = encode(v).unwrap();
        assert_eq!(u32::decode_from_slice(&bytes), v);
    }
    for v in [0u64, 1, u32::MAX as u64, u32::MAX as u64 + 1, u64::MAX] {
        let bytes = encode(v).unwrap();
        assert_eq!(u64::decode_from_slice(&bytes), v);
    }
    for v in [i64::MIN, -1, 0, 1, i64::MAX] {
        let bytes = encode(v).unwrap();
        assert_eq!(i64::decode_from_slice(&bytes), v);
    }
    for v in [i32::MIN, -1, 0, 1, i32::MAX] {
        let bytes = encode(v).unwrap();
        assert_eq!(i32::decode_from_slice(&bytes), v);
    }
    for v in [i8::MIN, -1, 0, 1, i8::MAX] {
        let bytes = encode(v).unwrap();
        assert_eq!(i8::decode_from_slice(&bytes), v);
    }
}

#[test]
fn integers_are_written_as_bincode_writes_them() {
    let config = big_endian();
    for v in [0u16, 1, 0x1234, u16::MAX] {
        assert_eq!(encode(v).unwrap(), bincode::encode_to_vec(v, config).unwrap());
    }
    for v in [i16::MIN, -300, 0, 300, i16::MAX] {
        assert_eq!(encode(v).unwrap(), bincode::encode_to_vec(v, config).unwrap());
    }
    for v in [0u32, 0x0102_0304, u32::MAX] {
        assert_eq!(encode(v).unwrap(), bincode::encode_to_vec(v, config).unwrap());
    }
    for v in [0u64, 0x0102_0304_0506_0708, u64::MAX] {
        assert_eq!(encode(v).unwrap(), bincode::encode_to_vec(v, config).unwrap());
    }
    for v in [i64::MIN, -77, 0, 77, i64::MAX] {
        assert_eq!(encode(v).unwrap(), bincode::encode_to_vec(v, config).unwrap());
    }
    for v in [i32::MIN, -70000, 0, 70000, i32::MAX] {
        assert_eq!(encode(v).unwrap(), bincode::encode_to_vec(v, config).unwrap());
    }
    for v in [i8::MIN, -3, 0, 3, i8::MAX] {
        assert_eq!(encode(v).unwrap(), bincode::encode_to_vec(v, config).unwrap());
    }
    for v in [0u8, 7, u8::MAX] {
        assert_eq!(encode(v).unwrap(), bincode::encode_to_vec(v, config).unwrap());
    }
}

#[test]
fn integers_are_read_as_bincode_reads_them() {
    let config = big_endian();
    let bytes = [0x80u8, 0x01, 0x02, 0x03, 0x04, 0x05, 0x06, 0x07];
    let (a, _): (u16, usize) = bincode::decode_from_slice(&bytes, config).unwrap();
    assert_eq!(u16::decode_from_slice(&bytes[..2]), a);
    let (b, _): (i16, usize) = bincode::decode_from_slice(&bytes, config).unwrap();
    assert_eq!(i16::decode_from_slice(&bytes[..2]), b);
    let (c, _): (u32, usize) = bincode::decode_from_slice(&bytes, config).unwrap();
    assert_eq!(u32::decode_from_slice(&bytes[..4]), c);
    let (d, _): (u64, usize) = bincode::decode_from_slice(&bytes, config).unwrap();
    assert_eq!(u64::decode_from_slice(&bytes), d);
    let (e, _): (i64, usize) = bincode::decode_from_slice(&bytes, config).unwrap();
    assert_eq!(i64::decode_from_slice(&bytes), e);
    let (f, _): (i8, usize) = bincode::decode_from_slice(&bytes, config).unwrap();
    assert_eq!(i8::decode_from_slice(&bytes[..1]), f);
}

#[test]
fn fixed_is_integer_part_then_fraction() {
    let bytes = [0x00u8, 0x01, 0x80, 0x00];
    let value = Fixed::decode_from_slice(&bytes);
    assert_eq!(value, Fixed(1, 0x8000));
    assert_eq!(value.integer_part(), 1);
    assert_eq!(value.fraction(), 0x8000);
    assert_eq!(encode(value).unwrap(), bytes.to_vec());
    assert_eq!(Fixed::size(), 4);
}

#[test]
fn short_frac_splits_two_and_fourteen_bits() {
    let value = ShortFrac::decode_from_slice(&[0x70, 0x00]);
    assert_eq!(value, ShortFrac(0x7000));
    assert_eq!(value.integer_part(), 1);
    assert_eq!(value.fraction(), 0x3000);
    let top = ShortFrac(0xffff);
    assert_eq!(top.integer_part(), 3);
    assert_eq!(top.fraction(), 0x3fff);
    assert_eq!(encode(top).unwrap(), vec![0xff, 0xff]);
}

#[test]
fn design_units_and_dates_keep_their_value() {
    assert_eq!(FWord::decode_from_slice(&[0xff, 0x38]).value(), -200);
    assert_eq!(UFWord::decode_from_slice(&[0xff, 0x38]).value(), 0xff38);
    let date = LongDateTime::decode_from_slice(&[0, 0, 0, 0, 0xd9, 0x3a, 0x5e, 0x10]);
    assert_eq!(date.value(), 0xd93a_5e10);
    assert_eq!(encode(date).unwrap(), vec![0, 0, 0, 0, 0xd9, 0x3a, 0x5e, 0x10]);
    assert_eq!(encode(FWord(-200)).unwrap(), vec![0xff, 0x38]);
    assert_eq!(encode(UFWord(513)).unwrap(), vec![2, 1]);
}

#[test]
fn bit_flags_are_counted_from_the_lowest_bit() {
    assert_eq!(0b0000_1001u8.get(0), 1);
    assert_eq!(0b0000_1001u8.get(1), 0);
    assert_eq!(0b0000_1001u8.get(3), 1);
    assert!(0b0000_1001u8.has(3));
    assert!(!0b0000_1001u8.has(7));
    assert!(0x8000u16.has(15));
    assert_eq!(0x0100u16.get(8), 1);
    assert!(!0x0100u16.has(5));
}

#[test]
fn read_seq_reads_a_run_of_values() {
    let data = [0u8, 1, 0, 2, 0x80, 0];
    let mut stream = Stream::new(&data);
    let items: Sequence<u16> = stream.read_seq(3).unwrap();
    assert_eq!(items.as_slice(), &[1u16, 2, 0x8000][..]);
    assert_eq!(items.len(), 3);
    assert_eq!(stream.stream_position(), 6);
    assert_eq!(items.iter().copied().collect::<Vec<u16>>(), vec![1, 2, 0x8000]);
    assert_eq!(items.into_vec(), vec![1, 2, 0x8000]);
}

#[test]
fn read_seq_reads_all_or_nothing() {
    let data = [0u8, 1, 0, 2, 0x80];
    let mut stream = Stream::new(&data);
    let r: Result<Sequence<u16>, Error> = stream.read_seq(3);
    assert_eq!(r, Err(Error::DecodeError(DecodeError::UnexpectedEof)));
    assert_eq!(stream.stream_position(), 0);
    let r: Result<Sequence<u64>, Error> = stream.read_seq(usize::MAX);
    assert_eq!(r, Err(Error::DecodeError(DecodeError::UnexpectedEof)));
}

#[test]
fn empty_reads_succeed_even_beyond_the_end() {
    let data = [1u8, 2];
    let mut stream = Stream::new(&data);
    stream.seek(10);
    assert_eq!(stream.remaining(), 0);
    let items: Sequence<u32> = stream.read_seq(0).unwrap();
    assert_eq!(items.len(), 0);
    assert_eq!(stream.read_bytes(0).unwrap().len(), 0);
    assert_eq!(stream.take(0).unwrap().len(), 0);
    assert_eq!(stream.take(1), Err(DecodeError::UnexpectedEof));
    assert_eq!(stream.stream_position(), 10);
}

#[test]
fn sequence_and_opt_take_no_extra_bytes() {
    let items = Sequence::from(vec![0x0102u16, 0x0304]);
    assert_eq!(encode(items).unwrap(), vec![1, 2, 3, 4]);
    let empty: Sequence<u32> = Sequence::from(Vec::new());
    assert_eq!(encode(empty).unwrap(), Vec::<u8>::new());
    assert_eq!(encode(Opt::Present(0x0506u16)).unwrap(), vec![5, 6]);
    let none: Opt<u16> = Opt::from(None);
    assert_eq!(encode(none).unwrap(), Vec::<u8>::new());
    assert_eq!(Opt::from(Some(3u8)), Opt::Present(3u8));
    assert_eq!(Opt::Present(9u8).as_option(), Some(&9u8));
    assert_eq!(Opt::<u8>::Absent.as_option(), None);
}

#[test]
fn encode_appends_to_what_is_there() {
    let mut out = vec![9u8];
    0x0102u16.encode(&mut out);
    FWord(-1).encode(&mut out);
    assert_eq!(out, vec![9, 1, 2, 0xff, 0xff]);
}

#[test]
fn error_messages_name_the_failure() {
    assert_eq!(Error::MissingRequiredTable.message(), "Required tables are missing");
    assert_eq!(
        Error::DecodeError(DecodeError::UnexpectedEof).message(),
        "a value could not be decoded"
    );
    assert_eq!(
        Error::UnsupportedCmapSubtable(2).message(),
        "unsupported cmap subtable format"
    );
    assert_eq!(
        Error::ExpectedTable("head").message(),
        "a table of another kind was expected"
    );
    assert_eq!(
        Error::MissingDependency(7).message(),
        "a table was decoded before its dependency"
    );
}
