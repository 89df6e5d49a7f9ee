use packable::codec::Packable;
use packable::record::pack;

fn pack_one<T: Packable>(little_endian: bool, value: T) -> Vec<u8> {
    pack(little_endian, &(value, ()))
}

#[test]
fn it_works() {
    let result: i32 = 2 + 2;
    assert_eq!(result, 4);
}

#[test]
fn tast_pack_u8() {
    assert_eq!(vec![42u8], pack_one(false, 42u8));
}

#[test]
fn tast_pack_u16() {
    assert_eq!(vec![0, 42], pack_one(false, 42u16));
    assert_eq!(vec![42, 0], pack_one(true, 42u16));
}

#[test]
fn tast_pack_u32() {
    assert_eq!(vec![0, 0, 0, 42], pack_one(false, 42u32));
    assert_eq!(vec![42, 0, 0, 0], pack_one(true, 42u32));
}

#[test]
fn tast_pack_u64() {
    assert_eq!(vec![0, 0, 0, 0, 0, 0, 0, 42], pack_one(false, 42u64));
    assert_eq!(vec![42, 0, 0, 0, 0, 0, 0, 0], pack_one(true, 42u64));
}

#[test]
fn tast_pack_i8() {
    assert_eq!(vec![214], pack_one(false, -42i8));
}

#[test]
fn tast_pack_i16() {
    assert_eq!(vec![255, 214], pack_one(false, -42i16));
    assert_eq!(vec![214, 255], pack_one(true, -42i16));
}

#[test]
fn tast_pack_i32() {
    assert_eq!(vec![255, 255, 255, 214], pack_one(false, -42i32));
    assert_eq!(vec![214, 255, 255, 255], pack_one(true, -42i32));
}

#[test]
fn tast_pack_i64() {
    assert_eq!(vec![255, 255, 255, 255, 255, 255, 255, 214], pack_one(false, -42i64));
    assert_eq!(vec![214, 255, 255, 255, 255, 255, 255, 255], pack_one(true, -42i64));
}

#[test]
fn tast_pack_f32() {
    assert_eq!(vec![66, 42, 204, 205], pack_one(false, 42.7f32.to_bits()));
    assert_eq!(vec![205, 204, 42, 66], pack_one(true, 42.7f32.to_bits()));
}

#[test]
fn tast_pack_f64() {
    assert_eq!(vec![64, 69, 94, 184, 81, 235, 133, 31], pack_one(false, 42.74f64.to_bits()));
    assert_eq!(vec![31, 133, 235, 81, 184, 94, 69, 64], pack_one(true, 42.74f64.to_bits()));
}

#[test]
fn pack_matches_native_byte_order() {
    assert_eq!(0x1234_5678u32.pack(true), 0x1234_5678u32.to_le_bytes().to_vec());
    assert_eq!(0x1234_5678u32.pack(false), 0x1234_5678u32.to_be_bytes().to_vec());
    assert_eq!(u128::MAX.pack(true), u128::MAX.to_le_bytes().to_vec());
    assert_eq!(
        0x0102_0304_0506_0708_090a_0b0c_0d0e_0f10u128.pack(false),
        vec![1, 2, 3, 4, 5, 6, 7, 8, 9, 10, 11, 12, 13, 14, 15, 16]
    );
    assert_eq!(i128::MIN.pack(false), i128::MIN.to_be_bytes().to_vec());
    assert_eq!((-1i128).pack(true), vec![255u8; 16]);
    assert_eq!(i64::MIN.pack(true), i64::MIN.to_le_bytes().to_vec());
    assert_eq!(i8::MIN.pack(true), vec![128]);
    assert_eq!((-2i16).pack(false), vec![255, 254]);
}

#[test]
fn sizes_are_the_byte_widths() {
    assert_eq!(0u8.size(), 1);
    assert_eq!(u8::MAX.size(), 1);
    assert_eq!(7u16.size(), 2);
    assert_eq!(7u32.size(), 4);
    assert_eq!(7u64.size(), 8);
    assert_eq!(7u128.size(), 16);
    assert_eq!((-7i8).size(), 1);
    assert_eq!((-7i16).size(), 2);
    assert_eq!((-7i32).size(), 4);
    assert_eq!((-7i64).size(), 8);
    assert_eq!((-7i128).size(), 16);
    assert_eq!(i128::MAX.size(), 16);
}

#[test]
fn round_trip_unsigned() {
    for little_endian in [true, false] {
        let mut a: u8 = 0;
        a.unpack(&mut 200u8.pack(little_endian), little_endian).unwrap();
        assert_eq!(a, 200);
        let mut b: u16 = 0;
        b.unpack(&mut 0xBEEFu16.pack(little_endian), little_endian).unwrap();
        assert_eq!(b, 0xBEEF);
        let mut c: u32 = 0;
        c.unpack(&mut 0xDEAD_BEEFu32.pack(little_endian), little_endian).unwrap();
        assert_eq!(c, 0xDEAD_BEEF);
        let mut d: u64 = 0;
        d.unpack(&mut u64::MAX.pack(little_endian), little_endian).unwrap();
        assert_eq!(d, u64::MAX);
        let mut e: u128 = 0;
        e.unpack(&mut (u128::MAX - 5).pack(little_endian), little_endian).unwrap();
        assert_eq!(e, u128::MAX - 5);
    }
}

#[test]
fn round_trip_signed() {
    for little_endian in [true, false] {
        let mut a: i8 = 0;
        a.unpack(&mut (-128i8).pack(little_endian), little_endian).unwrap();
        assert_eq!(a, -128);
        let mut b: i16 = 0;
        b.unpack(&mut (-12345i16).pack(little_endian), little_endian).unwrap();
        assert_eq!(b, -12345);
        let mut c: i32 = 0;
        c.unpack(&mut i32::MIN.pack(little_endian), little_endian).unwrap();
        assert_eq!(c, i32::MIN);
        let mut d: i64 = 0;
        d.unpack(&mut (-1i64).pack(little_endian), little_endian).unwrap();
        assert_eq!(d, -1);
        let mut e: i128 = 0;
        e.unpack(&mut i128::MIN.pack(little_endian), little_endian).unwrap();
        assert_eq!(e, i128::MIN);
        let mut f: i128 = 0;
        f.unpack(&mut i128::MAX.pack(little_endian), little_endian).unwrap();
        assert_eq!(f, i128::MAX);
        let mut g: i32 = 0;
        g.unpack(&mut 42i32.pack(little_endian), little_endian).unwrap();
        assert_eq!(g, 42);
    }
}

#[test]
fn round_trip_float_bit_patterns() {
    for little_endian in [true, false] {
        let mut bits: u32 = 0;
        bits.unpack(&mut 42.7f32.to_bits().pack(little_endian), little_endian).unwrap();
        assert_eq!(f32::from_bits(bits), 42.7f32);
        let mut wide: u64 = 0;
        wide.unpack(&mut 42.74f64.to_bits().pack(little_endian), little_endian).unwrap();
        assert_eq!(f64::from_bits(wide), 42.74f64);
    }
}

#[test]
fn unpack_reads_only_the_front() {
    let mut data: Vec<u8> = vec![1, 2, 3, 4, 5];
    let mut v: u16 = 0;
    v.unpack(&mut data, true).unwrap();
    assert_eq!(v, 0x0201);
    v.unpack(&mut data, false).unwrap();
    assert_eq!(v, 0x0102);
    assert_eq!(data, vec![1, 2, 3, 4, 5]);
}

#[test]
fn byte_order_matters_for_uneven_bytes() {
    let v: u16 = 0x1234;
    assert_ne!(v.pack(true), v.pack(false));
    let mut other: u16 = 0;
    other.unpack(&mut v.pack(true), false).unwrap();
    assert_eq!(other, 0x3412);
    assert_ne!(other, v);
    let w: i32 = -2;
    let mut swapped: i32 = 0;
    swapped.unpack(&mut w.pack(false), true).unwrap();
    assert_eq!(swapped, i32::from_le_bytes(w.to_be_bytes()));
    assert_ne!(swapped, w);
}

#[test]
fn byte_order_is_invisible_for_mirrored_bytes() {
    let v: u32 = 0x1234_3421;
    assert_ne!(v.pack(true), v.pack(false));
    let p: u32 = 0x1234_3412;
    assert_eq!(p.pack(true), p.pack(false));
    let mut back: u32 = 0;
    back.unpack(&mut p.pack(true), false).unwrap();
    assert_eq!(back, p);
}

#[test]
fn single_bytes_ignore_the_byte_order() {
    assert_eq!(200u8.pack(true), 200u8.pack(false));
    assert_eq!((-7i8).pack(true), (-7i8).pack(false));
    assert_eq!((-7i8).pack(true), vec![249]);
}
