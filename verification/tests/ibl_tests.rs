use ace::ibl::{diffuse_core_count, mip_level_count, radical_inverse_bits};

#[test]
fn radical_inverse_bits_should_reverse_bit_order() {
    assert_eq!(0x8000_0000, radical_inverse_bits(1));
    assert_eq!(0x4000_0000, radical_inverse_bits(2));
    assert_eq!(0xC000_0000, radical_inverse_bits(3));
    assert_eq!(0x0F00_0000, radical_inverse_bits(0xF0));
    assert_eq!(0, radical_inverse_bits(0));
    assert_eq!(0x1234_5678u32.reverse_bits(), radical_inverse_bits(0x1234_5678));
}

#[test]
fn mip_level_count_should_follow_the_larger_side() {
    assert_eq!(1, mip_level_count(1, 1));
    assert_eq!(2, mip_level_count(3, 1));
    assert_eq!(10, mip_level_count(512, 512));
    assert_eq!(11, mip_level_count(1024, 500));
    assert_eq!(11, mip_level_count(0, 1024));
    assert_eq!(32, mip_level_count(u32::MAX, 7));
}

#[test]
fn diffuse_core_count_should_keep_two_workers_for_the_other_maps() {
    assert_eq!(6, diffuse_core_count(1, Some(8)));
    assert_eq!(1, diffuse_core_count(1, None));
    assert_eq!(1, diffuse_core_count(3, Some(2)));
    assert_eq!(14, diffuse_core_count(16, Some(4)));
}
