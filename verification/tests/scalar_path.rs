//! Tests of the scalar decoder.

use url_decode_simd::fallback::url_decode;

#[test]
fn fallback_url_decode_space() {
    let v = b"%20\0\0\0\0\0\0\0\0\0\0\0\0\0";
    let mut result = Vec::new();

    url_decode(v, &mut result);
    assert_eq!(b" \0\0\0\0\0\0\0\0\0\0\0\0\0", &result[..])
}

#[test]
fn fallback_url_decode_A() {
    let v = b"%41\0\0\0\0\0\0\0\0\0\0\0\0\0";
    let mut result = Vec::new();

    url_decode(v, &mut result);
    assert_eq!(b"A\0\0\0\0\0\0\0\0\0\0\0\0\0", &result[..])
}

#[test]
fn fallback_url_decode_AB() {
    let v = b"%41%42\0\0\0\0\0\0\0\0\0\0";
    let mut result = Vec::new();

    url_decode(v, &mut result);
    assert_eq!(b"AB\0\0\0\0\0\0\0\0\0\0", &result[..])
}

#[test]
fn fallback_url_decode_AaBb() {
    let v = b"%41a%42b\0\0\0\0\0\0\0\0\0";
    let mut result = Vec::new();

    url_decode(v, &mut result);
    assert_eq!(b"AaBb\0\0\0\0\0\0\0\0\0", &result[..])
}

#[test]
fn fallback_url_decode_AaBb_numbers() {
    let v = b"%41a%42b12345678";
    let mut result = Vec::new();

    url_decode(v, &mut result);
    assert_eq!(b"AaBb12345678", &result[..])
}

#[test]
fn fallback_url_decode_upper_hex_KaLb_numbers() {
    let v = b"%4Ba%4Cb12345678";
    let mut result = Vec::new();

    url_decode(v, &mut result);
    assert_eq!(b"KaLb12345678", &result[..])
}

#[test]
fn fallback_url_decode_lower_hex_KaLb_numbers() {
    let v = b"%4ba%4cb12345678";
    let mut result = Vec::new();

    url_decode(v, &mut result);
    assert_eq!(b"KaLb12345678", &result[..])
}

#[test]
fn fallback_test_decode_invalid_chars() {
    let mut result = Vec::new();

    let v = b"%%12345678901234";
    url_decode(v, &mut result);
    assert_eq!(b"%\x12345678901234", &result[..]);

    let v = b"%1%2345678901234";
    result.clear();
    url_decode(v, &mut result);
    assert_eq!(b"%1\x2345678901234", &result[..]);

    let v = b"%%%1234567890123";
    result.clear();
    url_decode(v, &mut result);
    assert_eq!(b"%%\x1234567890123", &result[..]);

    let v = b"%-12345678901234";
    result.clear();
    url_decode(v, &mut result);
    assert_eq!(b"%-12345678901234", &result[..]);

    let v = b"%1-2345678901234";
    result.clear();
    url_decode(v, &mut result);
    assert_eq!(b"%1-2345678901234", &result[..]);
}

#[test]
fn fallback_test_end_percent() {
    let mut result = Vec::new();

    // last char of block is %
    let v = b"aaaaaaaaaaaaaaa%";
    url_decode(v, &mut result);
    assert_eq!(b"aaaaaaaaaaaaaaa%", &result[..]);

    // 2nd last char of block is %
    let v = b"aaaaaaaaaaaaaa%a";
    result.clear();
    url_decode(v, &mut result);
    assert_eq!(b"aaaaaaaaaaaaaa%a", &result[..]);
}

#[test]
fn fallback_test_split_percent() {
    let mut result = Vec::new();

    // last char of block is %
    let v = b"aaaaaaaaaaaaaaa%aaaaaaaaaaaaaaaa";
    url_decode(v, &mut result);
    assert_eq!(b"aaaaaaaaaaaaaaa\xAAaaaaaaaaaaaaaa", &result[..]);

    // 2nd last char of block is %
    let v = b"aaaaaaaaaaaaaa%aaaaaaaaaaaaaaaaa";
    result.clear();
    url_decode(v, &mut result);
    assert_eq!(b"aaaaaaaaaaaaaa\xAAaaaaaaaaaaaaaaa", &result[..]);
}

#[test]
fn fallback_test_out_of_ascii_hex() {
    let mut result = Vec::new();

    let v = b"%AAaaaaaaaaaaaaa";
    url_decode(v, &mut result);
    assert_eq!(b"\xAAaaaaaaaaaaaaa", &result[..]);
}

#[test]
fn fallback_test_replace_plus() {
    let mut result = Vec::new();

    let v = b"a+a+a+a+a+a+a+a+";
    url_decode(v, &mut result);
    assert_eq!(b"a a a a a a a a ", &result[..]);
}

#[test]
fn fallback_test_random_junk() {
    let mut result = Vec::new();

    let v = b"\xCF%%sA\x00`A%5%%6%6\xEF";
    url_decode(v, &mut result);
    assert_eq!(b"\xCF%%sA\x00`A%5%%6%6\xEF", &result[..]);
}
