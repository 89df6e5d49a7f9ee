use packable::error::ErrorKind;
use packable::error::PackableError;
use packable::flag::Flag;
use packable::record::pack;
use packable::record::unpack;
use packable::record::Fields;
use packable::Packable;

#[test]
fn pack_record_of_mixed_fields() {
    let mut flag: Flag = Flag::default();
    flag.set(1, true);
    let record = (7u8, (0x0102u16, ([0xAAu8, 0xBB], (flag, (-1i32, ())))));
    assert_eq!(pack(false, &record), vec![7, 1, 2, 0xAA, 0xBB, 2, 255, 255, 255, 255]);
    assert_eq!(pack(true, &record), vec![7, 2, 1, 0xAA, 0xBB, 2, 255, 255, 255, 255]);
}

#[test]
fn pack_empty_record() {
    assert_eq!(pack(true, &()), Vec::<u8>::new());
}

#[test]
fn pack_into_appends() {
    let mut out: Vec<u8> = vec![9];
    (1u8, (2u16, ())).pack_into(&mut out, true);
    assert_eq!(out, vec![9, 1, 2, 0]);
}

#[test]
fn unpack_record_leaves_the_tail() {
    let mut buffer: Vec<u8> = vec![7, 2, 1, 0xAA, 0xBB, 0x81, 254, 255, 255, 255, 99, 98];
    let mut record = (0u8, (0u16, ([0u8; 2], (Flag::default(), (0i32, ())))));
    unpack(true, &mut buffer, &mut record).unwrap();
    let (a, (b, (c, (d, (e, ()))))) = record;
    assert_eq!(a, 7);
    assert_eq!(b, 0x0102);
    assert_eq!(c, [0xAA, 0xBB]);
    assert!(d.get(0));
    assert!(d.get(7));
    assert!(!d.get(3));
    assert_eq!(e, -2);
    assert_eq!(buffer, vec![99, 98]);
}

#[test]
fn unpack_u8_then_u16_from_two_bytes() {
    let mut buffer: Vec<u8> = vec![5, 6];
    let mut record = (0u8, (77u16, ()));
    let e: PackableError = unpack(true, &mut buffer, &mut record).unwrap_err();
    assert_eq!(e.error_kind, ErrorKind::BufferLengthError);
    assert_eq!(e.data, "except 2 bytes and get 1");
    assert_eq!(record, (5, (77, ())));
    assert_eq!(buffer, vec![6]);
}

#[test]
fn unpack_leaves_later_fields_untouched() {
    let mut buffer: Vec<u8> = vec![1, 2, 3, 4, 5];
    let mut record = (0u16, (0u8, (0x7777u32, (0x55u8, ([9u8; 2], ())))));
    let e: PackableError = unpack(false, &mut buffer, &mut record).unwrap_err();
    assert_eq!(e.error_kind, ErrorKind::BufferLengthError);
    assert_eq!(e.data, "except 4 bytes and get 2");
    assert_eq!(record, (0x0102, (3, (0x7777, (0x55, ([9, 9], ()))))));
    assert_eq!(buffer, vec![4, 5]);
}

#[test]
fn unpack_from_empty_buffer() {
    let mut buffer: Vec<u8> = Vec::new();
    let mut record = (1u64, ());
    let e: PackableError = unpack(true, &mut buffer, &mut record).unwrap_err();
    assert_eq!(e.data, "except 8 bytes and get 0");
    assert_eq!(record, (1, ()));
    let mut nothing = ();
    assert!(unpack(true, &mut buffer, &mut nothing).is_ok());
}

#[test]
fn record_round_trip_in_both_orders() {
    let record = (0xBEEFu16, (-5i64, ([1u8, 2, 3], (u128::MAX - 1, (i8::MIN, ())))));
    for little_endian in [true, false] {
        let mut buffer: Vec<u8> = pack(little_endian, &record);
        assert_eq!(buffer.len(), 2 + 8 + 3 + 16 + 1);
        let mut target = (0u16, (0i64, ([0u8; 3], (0u128, (0i8, ())))));
        unpack(little_endian, &mut buffer, &mut target).unwrap();
        assert_eq!(target, record);
        assert!(buffer.is_empty());
    }
}

#[test]
fn unpack_under_the_other_order_differs() {
    let record = (0x1234u16, (0x0102_0304u32, ()));
    let mut buffer: Vec<u8> = pack(true, &record);
    let mut target = (0u16, (0u32, ()));
    unpack(false, &mut buffer, &mut target).unwrap();
    assert_eq!(target, (0x3412, (0x0403_0201, ())));
}

#[test]
fn crate_root_names_the_main_items() {
    let mut flag: packable::Flag = packable::Flag::default();
    flag.set(7, true);
    let bytes: Vec<u8> = packable::pack(true, &(flag, (1u16, ())));
    assert_eq!(bytes, vec![128, 1, 0]);
    assert_eq!(1u16.size(), 2);
    let mut buffer: Vec<u8> = vec![1];
    let mut target: u16 = 0;
    let e: packable::PackableError =
        packable::unpack_field(&mut target, &mut buffer, true).unwrap_err();
    assert!(matches!(e.error_kind, packable::ErrorKind::BufferLengthError));
}

#[test]
fn unpack_names_the_bytes_left_for_the_short_field() {
    let mut buffer: Vec<u8> = vec![1, 2, 3, 4, 5, 6, 7];
    let mut record = (0u32, (0u16, (0x11u64, (0x22u8, ()))));
    let e: PackableError = unpack(true, &mut buffer, &mut record).unwrap_err();
    assert_eq!(e.error_kind, ErrorKind::BufferLengthError);
    assert_eq!(e.data, "except 8 bytes and get 1");
    assert_eq!(record, (0x0403_0201, (0x0605, (0x11, (0x22, ())))));
    assert_eq!(buffer, vec![7]);
}
