use onebrc::scan::find_from;
use onebrc::{search_u8_avx2, search_u8_sse2_reverse, split_file};

#[test]
fn split_points_follow_the_next_new_line() {
    let data = b"a;1.0\nb;2.0\nc;3.0\n";
    assert_eq!(split_file(1, data), Vec::<usize>::new());
    assert_eq!(split_file(2, data), vec![12]);
    assert_eq!(split_file(3, data), vec![12, 18]);
    assert_eq!(split_file(4, data), vec![6, 12, 18]);
    assert_eq!(split_file(0, data), Vec::<usize>::new());
}

#[test]
fn split_points_round_the_share_down() {
    let data = b"aa;1.0\nb;2.0\n";
    assert_eq!(split_file(2, data), vec![7]);
    assert_eq!(split_file(3, data), vec![7, 13]);
    let data = b"a;1.0\nb;2.0\nc;3.0\nd;4.0\ne;5.0\nf;6.0\ng;7.0\n";
    assert_eq!(split_file(7, data), vec![12, 18, 24, 30, 36, 42]);
    assert_eq!(split_file(5, data), vec![12, 18, 30, 36]);
}

#[test]
fn split_points_aim_at_shares_of_the_whole_length() {
    let data = b"a\nb\nc\nd";
    assert_eq!(split_file(4, data), vec![2, 4, 6]);
    assert_eq!(split_file(2, data), vec![4]);
    assert_eq!(split_file(7, data), vec![2, 4, 4, 6, 6, 7]);
}

#[test]
fn split_tolerates_more_workers_than_lines() {
    let data = b"a;1.0\nb;2.0";
    assert_eq!(split_file(4, data), vec![6, 6, 11]);
    let points = split_file(32, data);
    assert_eq!(points.len(), 31);
    for p in points {
        assert!(p == 6 || p == 11);
    }
    assert_eq!(split_file(3, b""), vec![0, 0]);
    assert_eq!(split_file(3, b"abc"), vec![3, 3]);
}

#[test]
fn forward_search_finds_the_first() {
    assert_eq!(search_u8_avx2(b"", b';'), None);
    assert_eq!(search_u8_avx2(b"abc", b';'), None);
    assert_eq!(search_u8_avx2(b";", b';'), Some(0));
    assert_eq!(search_u8_avx2(b"a;b;c", b';'), Some(1));
    let mut long = vec![b'x'; 100];
    assert_eq!(search_u8_avx2(&long, b';'), None);
    long[99] = b';';
    assert_eq!(search_u8_avx2(&long, b';'), Some(99));
    long[64] = b';';
    assert_eq!(search_u8_avx2(&long, b';'), Some(64));
    long[63] = b';';
    assert_eq!(search_u8_avx2(&long, b';'), Some(63));
    long[31] = b';';
    assert_eq!(search_u8_avx2(&long, b';'), Some(31));
    long[0] = b';';
    assert_eq!(search_u8_avx2(&long, b';'), Some(0));
    assert_eq!(search_u8_avx2(&[0u8; 40], 0), Some(0));
}

#[test]
fn backward_search_finds_the_last() {
    assert_eq!(search_u8_sse2_reverse(b"", b';'), None);
    assert_eq!(search_u8_sse2_reverse(b"abc", b';'), None);
    assert_eq!(search_u8_sse2_reverse(b";", b';'), Some(0));
    assert_eq!(search_u8_sse2_reverse(b"a;b;c", b';'), Some(3));
    assert_eq!(search_u8_sse2_reverse(b";;;;;;;;;;;;", b';'), Some(11));
    let mut long = vec![b'x'; 29];
    assert_eq!(search_u8_sse2_reverse(&long, b';'), None);
    long[0] = b';';
    assert_eq!(search_u8_sse2_reverse(&long, b';'), Some(0));
    long[4] = b';';
    assert_eq!(search_u8_sse2_reverse(&long, b';'), Some(4));
    long[5] = b';';
    assert_eq!(search_u8_sse2_reverse(&long, b';'), Some(5));
    long[12] = b';';
    assert_eq!(search_u8_sse2_reverse(&long, b';'), Some(12));
    long[21] = b';';
    long[22] = b';';
    assert_eq!(search_u8_sse2_reverse(&long, b';'), Some(22));
    long[28] = b';';
    assert_eq!(search_u8_sse2_reverse(&long, b';'), Some(28));
    assert_eq!(search_u8_sse2_reverse(&[0u8; 5], 0), Some(4));
}

#[test]
fn find_from_gives_the_length_when_nothing_is_found() {
    let data = b"ab\ncd\nef";
    assert_eq!(find_from(data, b'\n', 0), 2);
    assert_eq!(find_from(data, b'\n', 2), 2);
    assert_eq!(find_from(data, b'\n', 3), 5);
    assert_eq!(find_from(data, b'\n', 6), 8);
    assert_eq!(find_from(data, b'\n', 8), 8);
}
