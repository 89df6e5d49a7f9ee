use packable::codec::Packable;
use packable::error::decimal;
use packable::error::ErrorKind;
use packable::error::PackableError;

#[test]
fn decimal_writes_every_digit() {
    assert_eq!(decimal(0), "0");
    assert_eq!(decimal(7), "7");
    assert_eq!(decimal(10), "10");
    assert_eq!(decimal(1234567890), "1234567890");
    assert_eq!(decimal(usize::MAX), format!("{}", usize::MAX));
}

#[test]
fn shortfall_names_both_lengths() {
    let e: PackableError = PackableError::shortfall(2, 1);
    assert_eq!(e.error_kind, ErrorKind::BufferLengthError);
    assert_eq!(e.data, "except 2 bytes and get 1");
    assert_eq!(e.to_string(), "packable error BufferLengthError except 2 bytes and get 1");
    let big: PackableError = PackableError::shortfall(16, 0);
    assert_eq!(big.data, "except 16 bytes and get 0");
}

#[test]
fn conversion_carries_the_conversion_text() {
    let e: PackableError = PackableError::conversion();
    assert_eq!(e.error_kind, ErrorKind::TryFromSliceError);
    assert_eq!(e.data, "could not convert slice to array");
    assert_eq!(
        e.to_string(),
        "packable error TryFromSliceError could not convert slice to array"
    );
}

#[test]
fn numeric_unpack_from_too_few_bytes_fails() {
    let mut data: Vec<u8> = vec![9, 8, 7];
    let mut v: u32 = 5;
    let e: PackableError = v.unpack(&mut data, true).unwrap_err();
    assert_eq!(e.error_kind, ErrorKind::TryFromSliceError);
    assert_eq!(e.data, "could not convert slice to array");
    assert_eq!(v, 5);
    assert_eq!(data, vec![9, 8, 7]);
    let mut empty: Vec<u8> = Vec::new();
    let mut s: i8 = -3;
    let e2: PackableError = s.unpack(&mut empty, false).unwrap_err();
    assert_eq!(e2.error_kind, ErrorKind::TryFromSliceError);
    assert_eq!(s, -3);
    let mut w: i128 = 1;
    let mut fifteen: Vec<u8> = vec![0; 15];
    assert!(w.unpack(&mut fifteen, true).is_err());
    assert_eq!(w, 1);
}

#[test]
fn from_a_failed_slice_conversion() {
    let short: &[u8] = &[1u8];
    let failure = <[u8; 2]>::try_from(short).unwrap_err();
    let e: PackableError = PackableError::from(failure);
    assert_eq!(e.error_kind, ErrorKind::TryFromSliceError);
    assert_eq!(e.data, format!("{}", failure));
    assert_eq!(e.data, PackableError::conversion().data);
}
