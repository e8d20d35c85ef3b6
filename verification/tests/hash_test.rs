use custom_hashmap::hash::SHORT_INPUT_DIGEST;
use custom_hashmap::{look_up_identifier, AssemblyHash};

#[test]
fn digest_of_hello() {
    let expected: u32 = ((('h' as u32) | (('e' as u32) << 8)) << 16)
        | (('l' as u32) | (('o' as u32) << 8));
    assert_eq!(expected, 0x6568_6f6c);
    assert_eq!("hello".assembly_hash(), expected);
    assert_eq!("hello".to_string().assembly_hash(), 1701343084);
    assert_eq!(look_up_identifier(b"hello"), 0x6568_6f6c);
}

#[test]
fn digest_of_short_input_is_the_sentinel() {
    assert_eq!(SHORT_INPUT_DIGEST, 80);
    assert_eq!("ab".assembly_hash(), 80);
    assert_eq!("".assembly_hash(), 80);
    assert_eq!("abc".to_string().assembly_hash(), 80);
    assert_eq!(look_up_identifier(&[]), 80);
    assert_eq!(look_up_identifier(&[1, 2, 3]), 80);
}

#[test]
fn digest_of_four_bytes_uses_each_byte_once() {
    assert_eq!(look_up_identifier(b"abcd"), 0x6261_6463);
    assert_eq!("abcd".assembly_hash(), 0x6261_6463);
    assert_eq!(look_up_identifier(&[0x01, 0x02, 0x03, 0x04]), 0x0201_0403);
    assert_eq!(look_up_identifier(&[0xff, 0xff, 0xff, 0xff]), 0xffff_ffff);
}

#[test]
fn digest_ignores_the_middle_bytes() {
    assert_eq!(look_up_identifier(b"he-----lo"), look_up_identifier(b"hello"));
    assert_eq!(look_up_identifier(&[1, 2, 9, 9, 9, 3, 4]), 0x0201_0403);
    assert_eq!(look_up_identifier(&[1, 2, 0, 3, 4]), 0x0201_0403);
}

#[test]
fn digest_of_multibyte_text_is_taken_over_its_bytes() {
    // "éa" is three bytes in UTF-8, "éé" is four: c3 a9 c3 a9.
    assert_eq!("éa".assembly_hash(), 80);
    assert_eq!("éé".assembly_hash(), 0xa9c3_a9c3);
}

#[test]
fn digest_of_32_bit_integers_is_the_identity() {
    assert_eq!(0u32.assembly_hash(), 0);
    assert_eq!(12345u32.assembly_hash(), 12345);
    assert_eq!(u32::MAX.assembly_hash(), u32::MAX);
    assert_eq!(7i32.assembly_hash(), 7);
    assert_eq!((-1i32).assembly_hash(), 0xffff_ffff);
    assert_eq!(i32::MIN.assembly_hash(), 0x8000_0000);
}

#[test]
fn digest_of_64_bit_integers_folds_the_halves() {
    assert_eq!(5u64.assembly_hash(), 5);
    assert_eq!(0x0000_0001_0000_0003u64.assembly_hash(), 2);
    assert_eq!(0x1234_5678_9abc_def0u64.assembly_hash(), 0x1234_5678 ^ 0x9abc_def0);
    assert_eq!(u64::MAX.assembly_hash(), 0);
    assert_eq!((-1i64).assembly_hash(), 0);
    assert_eq!(5i64.assembly_hash(), 5);
    assert_eq!(i64::MIN.assembly_hash(), 0x8000_0000);
    assert_eq!((-2i64).assembly_hash(), 1);
}

#[test]
fn digest_of_pointer_sized_integers_folds_what_lies_above_32_bits() {
    assert_eq!(9usize.assembly_hash(), 9);
    assert_eq!(9isize.assembly_hash(), 9);
    let wide: u64 = 0x0000_0007_0000_0001;
    if usize::BITS == 64 {
        assert_eq!((wide as usize).assembly_hash(), 6);
        assert_eq!((-1isize).assembly_hash(), 0);
        assert_eq!(usize::MAX.assembly_hash(), 0);
    } else {
        assert_eq!((-1isize).assembly_hash(), 0xffff_ffff);
        assert_eq!(usize::MAX.assembly_hash(), 0xffff_ffff);
    }
}

#[test]
fn digest_of_narrow_integers_extends_with_zeros() {
    assert_eq!(0u8.assembly_hash(), 0);
    assert_eq!(200u8.assembly_hash(), 200);
    assert_eq!(65535u16.assembly_hash(), 65535);
    assert_eq!(5i8.assembly_hash(), 5);
    assert_eq!((-1i8).assembly_hash(), 0xff);
    assert_eq!((-1i16).assembly_hash(), 0xffff);
    assert_eq!(i16::MIN.assembly_hash(), 0x8000);
}
