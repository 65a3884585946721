//! Tests of the public entry point and of the pieces behind it.

use url_decode_simd::block;
use url_decode_simd::fallback;
use url_decode_simd::hex::hex_digit_value;
use url_decode_simd::table::CompactionTable;
use url_decode_simd::url_decode;

#[test]
fn smoke_test() {
    // Two full block widths of input.
    let v = b"%20\0\0\0\0\0\0\0\0\0\0\0\0\0%20\0\0\0\0\0\0\0\0\0\0\0\0\0";
    let mut result = Vec::new();

    url_decode(v, &mut result);
    assert_eq!(b" \0\0\0\0\0\0\0\0\0\0\0\0\0 \0\0\0\0\0\0\0\0\0\0\0\0\0", &result[..])
}

#[test]
fn single_escape() {
    let mut result = Vec::new();
    url_decode(b"%41", &mut result);
    assert_eq!(b"A", &result[..]);
}

#[test]
fn plus_between_letters() {
    let mut result = Vec::new();
    url_decode(b"a+a+a", &mut result);
    assert_eq!(b"a a a", &result[..]);
}

#[test]
fn one_block_exactly() {
    let mut result = Vec::new();
    url_decode(b"%41a%42b12345678", &mut result);
    assert_eq!(b"AaBb12345678", &result[..]);
}

#[test]
fn adjacent_percents_one_block() {
    let mut result = Vec::new();
    url_decode(b"%%%1234567890123", &mut result);
    assert_eq!(b"%%\x1234567890123", &result[..]);
}

#[test]
fn escape_across_block_boundary() {
    // The escape begins in the last lane of the first block, so the block
    // path must carry it and resolve it in the next iteration; the scalar
    // path must agree byte for byte.
    let v = b"aaaaaaaaaaaaaaa%41aaaaaaaaaaaaaa";
    let expected = b"aaaaaaaaaaaaaaaAaaaaaaaaaaaaaa";

    let mut blockwise = Vec::new();
    block::url_decode(v, &mut blockwise);
    let mut scalar = Vec::new();
    fallback::url_decode(v, &mut scalar);
    let mut dispatched = Vec::new();
    url_decode(v, &mut dispatched);

    assert_eq!(&expected[..], &blockwise[..]);
    assert_eq!(blockwise, scalar);
    assert_eq!(blockwise, dispatched);
}

#[test]
fn escape_one_before_block_boundary() {
    // The escape begins in the next-to-last lane: two bytes are carried.
    let v = b"aaaaaaaaaaaaaa%41aaaaaaaaaaaaaaa";
    let expected = b"aaaaaaaaaaaaaaAaaaaaaaaaaaaaaa";

    let mut blockwise = Vec::new();
    block::url_decode(v, &mut blockwise);
    let mut scalar = Vec::new();
    fallback::url_decode(v, &mut scalar);

    assert_eq!(&expected[..], &blockwise[..]);
    assert_eq!(blockwise, scalar);
}

#[test]
fn lone_percent() {
    let mut result = Vec::new();
    url_decode(b"%", &mut result);
    assert_eq!(b"%", &result[..]);
}

#[test]
fn empty_input() {
    let mut result = Vec::new();
    url_decode(b"", &mut result);
    assert_eq!(b"", &result[..]);
}

#[test]
fn output_never_longer_than_input() {
    let inputs: [&[u8]; 6] = [
        b"",
        b"%",
        b"%41%42%43%44%45%46%47%48",
        b"\xCF%%sA\x00`A%5%%6%6\xEF",
        b"++++++++++++++++++++",
        b"%25%25%25%25%25%25%25%25%25%25%25",
    ];
    for v in inputs {
        let mut result = Vec::new();
        url_decode(v, &mut result);
        assert!(result.len() <= v.len());
    }
}

#[test]
fn passthrough_without_escapes() {
    // Neither `%` nor `+` occurs, in a run long enough to cross blocks.
    let v = b"abcdefghij0123456789ABCDEFxyz-_.~!";
    let mut result = Vec::new();
    url_decode(v, &mut result);
    assert_eq!(&v[..], &result[..]);
}

#[test]
fn plus_everywhere() {
    let v = b"+a++b+++c++++d++++++++++++++++e+";
    let expected = b" a  b   c    d                e ";
    let mut result = Vec::new();
    url_decode(v, &mut result);
    assert_eq!(&expected[..], &result[..]);
}

#[test]
fn encoded_plus_stays_plus() {
    // `%2B` decodes to the byte `+` itself; only literal `+` becomes a
    // space, whatever the order of the two.
    let mut result = Vec::new();
    url_decode(b"+%2B", &mut result);
    assert_eq!(b" +", &result[..]);
}

#[test]
fn hex_case_insensitive() {
    let mut upper = Vec::new();
    url_decode(b"%4B", &mut upper);
    let mut lower = Vec::new();
    url_decode(b"%4b", &mut lower);
    assert_eq!(b"K", &upper[..]);
    assert_eq!(upper, lower);
}

#[test]
fn malformed_escapes_preserved() {
    let inputs: [&[u8]; 5] = [b"%", b"%4", b"%g", b"%4g", b"%zz"];
    for v in inputs {
        let mut result = Vec::new();
        url_decode(v, &mut result);
        assert_eq!(&v[..], &result[..]);
    }

    let mut result = Vec::new();
    url_decode(b"aaaaaaaaaaaaaaaaaaaa%4", &mut result);
    assert_eq!(b"aaaaaaaaaaaaaaaaaaaa%4", &result[..]);
}

#[test]
fn replace_plus_alone() {
    let out = fallback::replace_plus(b"a+b+%2B");
    assert_eq!(b"a b %2B", &out[..]);
}

#[test]
fn percent_decode_leaves_plus() {
    let out = fallback::percent_decode(b"%2B+");
    assert_eq!(b"++", &out[..]);
}

#[test]
fn after_percent_sign_pairs() {
    assert_eq!(fallback::after_percent_sign(b"41", 0), Some(0x41));
    assert_eq!(fallback::after_percent_sign(b"4b", 0), Some(0x4B));
    assert_eq!(fallback::after_percent_sign(b"4", 0), None);
    assert_eq!(fallback::after_percent_sign(b"zz", 0), None);
    assert_eq!(fallback::after_percent_sign(b"x41", 1), Some(0x41));
}

#[test]
fn hex_digit_classifier() {
    assert_eq!(hex_digit_value(b'0'), Some(0));
    assert_eq!(hex_digit_value(b'9'), Some(9));
    assert_eq!(hex_digit_value(b'A'), Some(10));
    assert_eq!(hex_digit_value(b'F'), Some(15));
    assert_eq!(hex_digit_value(b'a'), Some(10));
    assert_eq!(hex_digit_value(b'f'), Some(15));
    assert_eq!(hex_digit_value(b'/'), None);
    assert_eq!(hex_digit_value(b':'), None);
    assert_eq!(hex_digit_value(b'@'), None);
    assert_eq!(hex_digit_value(b'G'), None);
    assert_eq!(hex_digit_value(b'`'), None);
    assert_eq!(hex_digit_value(b'g'), None);
    assert_eq!(hex_digit_value(b'%'), None);
    assert_eq!(hex_digit_value(b'+'), None);
}

#[test]
fn fallback_decode_extend_appends() {
    let mut dst = b"xy".to_vec();
    fallback::decode_extend(b"%41+", &mut dst);
    assert_eq!(b"xyA ", &dst[..]);
}

#[test]
fn paths_agree_at_every_cut() {
    // A pattern dense in `%`, `+`, hex digits and malformed escapes, cut at
    // every length from empty to past two block widths, so block boundaries
    // fall on, one before, and two before a `%`.
    let pattern: &[u8] = b"%41+%zz%4%%252B+a%20b%GG%3d%3D++%%%31x";
    let table = CompactionTable::new();
    for cut in 0..pattern.len() + 1 {
        let v = &pattern[..cut];

        let mut blockwise = Vec::new();
        block::decode_extend(&table, v, &mut blockwise);
        let mut scalar = Vec::new();
        fallback::url_decode(v, &mut scalar);
        let mut dispatched = Vec::new();
        url_decode(v, &mut dispatched);

        assert_eq!(blockwise, scalar);
        assert_eq!(blockwise, dispatched);
        assert!(blockwise.len() <= v.len());
    }
}

#[test]
fn block_decode_extend_reuses_table() {
    let table = CompactionTable::new();
    let mut dst = Vec::new();
    block::decode_extend(&table, b"%48ello%20world%21&a=b+c%3D1%3D2", &mut dst);
    block::decode_extend(&table, b"; tail%2", &mut dst);
    assert_eq!(b"Hello world!&a=b c=1=2; tail%2", &dst[..]);
}
