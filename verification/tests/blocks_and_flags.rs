use packable::codec::Packable;
use packable::error::ErrorKind;
use packable::error::PackableError;
use packable::flag::Flag;

#[test]
fn block_packs_verbatim_in_either_order() {
    let block: [u8; 4] = [1, 2, 3, 4];
    assert_eq!(block.pack(true), vec![1, 2, 3, 4]);
    assert_eq!(block.pack(false), vec![1, 2, 3, 4]);
    assert_eq!(block.size(), 4);
    let none: [u8; 0] = [];
    assert_eq!(none.pack(true), Vec::<u8>::new());
    assert_eq!(none.size(), 0);
}

#[test]
fn block_unpack_copies_the_front() {
    let mut block: [u8; 3] = [0; 3];
    let mut data: Vec<u8> = vec![9, 8, 7, 6];
    block.unpack(&mut data, true).unwrap();
    assert_eq!(block, [9, 8, 7]);
    assert_eq!(data, vec![9, 8, 7, 6]);
    let mut again: [u8; 3] = [1; 3];
    again.unpack(&mut data, false).unwrap();
    assert_eq!(again, [9, 8, 7]);
}

#[test]
fn block_unpack_from_too_few_bytes_fails() {
    let mut block: [u8; 3] = [5; 3];
    let mut data: Vec<u8> = vec![9, 8];
    let e: PackableError = block.unpack(&mut data, true).unwrap_err();
    assert_eq!(e.error_kind, ErrorKind::BufferLengthError);
    assert_eq!(e.data, "except 3 bytes and get 2");
    assert_eq!(block, [5; 3]);
}

#[test]
fn flag_set_then_get() {
    let mut flag: Flag = Flag::default();
    flag.set(3, true);
    assert!(flag.get(3));
    for id in [0u8, 1, 2, 4, 5, 6, 7] {
        assert!(!flag.get(id));
    }
    assert_eq!(flag.pack(true), vec![0b0000_1000]);
    assert_eq!(flag.pack(false), vec![8]);
    assert_eq!(flag.size(), 1);
}

#[test]
fn flag_default_is_all_clear() {
    let flag: Flag = Flag::default();
    for id in 0u8..8 {
        assert!(!flag.get(id));
    }
    assert_eq!(flag.pack(true), vec![0]);
}

#[test]
fn flag_bits_are_independent() {
    for start in [0u8, 0xFF, 0b1010_0101] {
        for id in 0u8..8 {
            for value in [true, false] {
                let before: Flag = Flag::from_byte(start);
                let mut after: Flag = Flag::from_byte(start);
                after.set(id, value);
                assert_eq!(after.get(id), value);
                for other in 0u8..8 {
                    if other != id {
                        assert_eq!(after.get(other), before.get(other));
                    }
                }
            }
        }
    }
}

#[test]
fn flag_clear_a_set_bit() {
    let mut flag: Flag = Flag::from_byte(0xFF);
    flag.set(7, false);
    flag.set(0, false);
    assert_eq!(flag.pack(true), vec![0b0111_1110]);
    flag.set(7, true);
    assert_eq!(flag.pack(true), vec![0b1111_1110]);
}

#[test]
fn flag_unpack_reads_one_byte() {
    let mut flag: Flag = Flag::default();
    let mut data: Vec<u8> = vec![0b1000_0001, 0xFF];
    flag.unpack(&mut data, true).unwrap();
    assert!(flag.get(0));
    assert!(flag.get(7));
    assert!(!flag.get(4));
    let mut empty: Vec<u8> = Vec::new();
    let e: PackableError = flag.unpack(&mut empty, true).unwrap_err();
    assert_eq!(e.error_kind, ErrorKind::TryFromSliceError);
    assert!(flag.get(0));
}
