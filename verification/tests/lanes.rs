use onebrc::lanes::{
    extract_lane, first_flag, last_flag, load_lanes, match_lanes, sub_lanes, LANE_TOPS,
};

#[test]
fn lanes_are_loaded_low_end_first() {
    let bytes = [1u8, 2, 3, 4, 5, 6, 7, 8, 9, 10];
    assert_eq!(load_lanes(&bytes, 0), 0x0807060504030201);
    assert_eq!(load_lanes(&bytes, 2), 0x0a09080706050403);
    assert_eq!(load_lanes(&bytes, 7), 0x00000000000a0908);
    assert_eq!(load_lanes(&bytes, 10), 0);
    assert_eq!(load_lanes(b"", 0), 0);
    for k in 0..8u64 {
        assert_eq!(extract_lane(0x0807060504030201, k), (k + 1) as u8);
    }
}

#[test]
fn lanes_are_subtracted_each_on_its_own() {
    let word = load_lanes(b"12.3\x00\xff0/", 0);
    let digits = sub_lanes(word, b'0');
    assert_eq!(extract_lane(digits, 0), 1);
    assert_eq!(extract_lane(digits, 1), 2);
    assert_eq!(extract_lane(digits, 2), 254);
    assert_eq!(extract_lane(digits, 3), 3);
    assert_eq!(extract_lane(digits, 4), 208);
    assert_eq!(extract_lane(digits, 5), 207);
    assert_eq!(extract_lane(digits, 6), 0);
    assert_eq!(extract_lane(digits, 7), 255);
    assert_eq!(sub_lanes(0, 1), 0xffff_ffff_ffff_ffff);
    assert_eq!(sub_lanes(0x0102030405060708, 0), 0x0102030405060708);
    assert_eq!(sub_lanes(0xffff_ffff_ffff_ffff, 0xff), 0);
}

#[test]
fn matching_lanes_are_flagged() {
    let word = load_lanes(b"a;bc;;d;", 0);
    let flags = match_lanes(word, b';');
    assert_eq!(flags, 0x8000_8080_0000_8000);
    assert_eq!(first_flag(flags), 1);
    assert_eq!(last_flag(flags), 7);
    assert_eq!(match_lanes(word, b'z'), 0);
    assert_eq!(match_lanes(word, b':'), 0);
    assert_eq!(match_lanes(word, b'<'), 0);
    assert_eq!(match_lanes(0, 0), LANE_TOPS);
    assert_eq!(match_lanes(0xffff_ffff_ffff_ffff, 0xff), LANE_TOPS);
    assert_eq!(match_lanes(0x8000_0000_0000_0001, 0x80), 0x8000_0000_0000_0000);
    assert_eq!(match_lanes(0x0100_0000_0000_0080, 0x01), 0x8000_0000_0000_0000);
    assert_eq!(match_lanes(0xff00_ff00_ff00_ff00, 0), 0x0080_0080_0080_0080);
    for needle in 0..=255u8 {
        for k in 0..8u32 {
            let word = (needle as u64) << (8 * k);
            let flags = match_lanes(word, needle);
            if needle == 0 {
                assert_eq!(flags, LANE_TOPS);
            } else {
                assert_eq!(flags, 0x80u64 << (8 * k));
                assert_eq!(first_flag(flags), k as usize);
                assert_eq!(last_flag(flags), k as usize);
            }
        }
    }
}

#[test]
fn flags_are_found_from_either_end() {
    assert_eq!(first_flag(0x80), 0);
    assert_eq!(last_flag(0x80), 0);
    assert_eq!(first_flag(LANE_TOPS), 0);
    assert_eq!(last_flag(LANE_TOPS), 7);
    assert_eq!(first_flag(0x0080_0000_8000_0000), 3);
    assert_eq!(last_flag(0x0080_0000_8000_0000), 6);
    assert_eq!(first_flag(0x8000_0000_0000_0000), 7);
}
