use onebrc::{parse_to_i16, parse_to_i16_simd, search_u8_avx2, search_u8_sse2_reverse};

#[test]
fn test_parse_to_i16() {
    assert_eq!(parse_to_i16(b"0.1"), 1);
    assert_eq!(parse_to_i16(b"1.1"), 11);
    assert_eq!(parse_to_i16(b"9.9"), 99);
    assert_eq!(parse_to_i16(b"-0.1"), -1);
    assert_eq!(parse_to_i16(b"-1.1"), -11);
    assert_eq!(parse_to_i16(b"-9.9"), -99);
}

#[test]
fn test_parse_to_i16_simd() {
    assert_eq!(parse_to_i16_simd(b"0.1"), 1);
    assert_eq!(parse_to_i16_simd(b"1.1"), 11);
    assert_eq!(parse_to_i16_simd(b"9.9"), 99);
    assert_eq!(parse_to_i16_simd(b"-0.1"), -1);
    assert_eq!(parse_to_i16_simd(b"-1.1"), -11);
    assert_eq!(parse_to_i16_simd(b"-9.9"), -99);
}

#[test]
fn test_search_u8_avx2() {
    let haystack = b"Kladanj;85.3";
    let needle = b';';
    let index = search_u8_avx2(haystack, needle);
    assert_eq!(index, Some(7));
}

#[test]
fn test_search_u8_sse2_reverse() {
    assert_eq!(
        search_u8_sse2_reverse(b"Phra Nakhon Si Ayutthaya;14.3478", b';'),
        Some(24)
    );
    assert_eq!(
        search_u8_sse2_reverse(b"Colonia del Sacramento;-34.4714", b';'),
        Some(22)
    );
    assert_eq!(
        search_u8_sse2_reverse(b"Yunxian Chengguanzhen;32.8082", b';'),
        Some(21)
    );
    assert_eq!(
        search_u8_sse2_reverse(b"Fernando de la Mora;-25.3200", b';'),
        Some(19)
    );
    assert_eq!(
        search_u8_sse2_reverse("Kamensk-Ural’skiy;56.4000".as_bytes(), b';'),
        Some(19)
    );
    assert_eq!(
        search_u8_sse2_reverse(b"Huntington Beach;33.6960", b';'),
        Some(16)
    );
    assert_eq!(
        search_u8_sse2_reverse(b"Rafael Calzada;-34.7833", b';'),
        Some(14)
    );
    assert_eq!(
        search_u8_sse2_reverse("Harrow Weald;51.6040".as_bytes(), b';'),
        Some(12)
    );
    assert_eq!(
        search_u8_sse2_reverse("Rafsanjān;30.4067".as_bytes(), b';'),
        Some(10)
    );
    assert_eq!(search_u8_sse2_reverse(b"Kladanj;85.3", b';'), Some(7));
}
