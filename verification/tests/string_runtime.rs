//! The string runtime.

use pinp::runtime::string::{
    MAX_INLINE, PinpStr, pinp_str_cmp, pinp_str_concat, pinp_str_concat_n, pinp_str_eq, pinp_str_free,
    pinp_str_from_cstr, pinp_str_from_int, pinp_str_len,
};


// A string from its bytes and a NUL behind them.
fn terminated(content: &[u8]) -> PinpStr {
    let mut bytes = content.to_vec();
    bytes.push(0);
    pinp_str_from_cstr(&bytes).unwrap()
}
// Build a PinpStr from a Rust &str (test inputs carry no interior NUL).
fn make(text: &str) -> PinpStr {
    terminated(text.as_bytes())
}
fn freed(mut s: PinpStr) {
    pinp_str_free(&mut s)
}

// --- SSO boundary ---------------------------------------------------------
#[test]
fn empty_is_inline() {
    let s = make("");
    assert!(!s.is_heap());
    assert_eq!(s.as_bytes(), b"");
    freed(s);
}
#[test]
fn fifteen_bytes_is_inline() {
    let s = make("123456789012345"); // 15 == SSO max
    assert!(!s.is_heap());
    assert_eq!(s.as_bytes().len(), 15);
    freed(s);
}
#[test]
fn sixteen_bytes_is_heap() {
    let s = make("1234567890123456"); // 16 crosses to heap
    assert!(s.is_heap());
    assert_eq!(s.as_bytes(), b"1234567890123456");
    freed(s);
}

// --- content round-trip ---------------------------------------------------
#[test]
fn inline_round_trips() {
    let s = make("hello");
    assert_eq!(s.as_bytes(), b"hello");
    freed(s);
}
#[test]
fn long_heap_round_trips() {
    let text = "the quick brown fox jumps over the lazy dog";
    let s = make(text);
    assert!(s.is_heap());
    assert_eq!(s.as_bytes(), text.as_bytes());
    freed(s);
}
#[test]
fn high_byte_stored_opaque() {
    let s = terminated(&[0xC3u8, 0xA9]); // "é" utf-8 bytes
    assert_eq!(s.as_bytes(), &[0xC3, 0xA9]);
    freed(s);
}

// --- concat ---------------------------------------------------------------
#[test]
fn concat_pair_inline() {
    let (a, b) = (make("foo"), make("bar"));
    let c = pinp_str_concat(&a, &b).unwrap();
    assert_eq!(c.as_bytes(), b"foobar");
    assert!(!c.is_heap());
    freed(a);
    freed(b);
    freed(c);
}
#[test]
fn concat_crosses_into_heap() {
    let (a, b) = (make("0123456789"), make("0123456789")); // 10 + 10 = 20
    let c = pinp_str_concat(&a, &b).unwrap();
    assert!(c.is_heap());
    assert_eq!(c.as_bytes().len(), 20);
    freed(a);
    freed(b);
    freed(c);
}
#[test]
fn concat_n_joins_in_order() {
    let parts = vec![make("a"), make("bb"), make("ccc")];
    let c = pinp_str_concat_n(&parts).unwrap();
    assert_eq!(c.as_bytes(), b"abbccc");
    for p in parts {
        freed(p);
    }
    freed(c);
}
#[test]
fn concat_n_with_empties() {
    let parts = vec![make(""), make("x"), make("")];
    let c = pinp_str_concat_n(&parts).unwrap();
    assert_eq!(c.as_bytes(), b"x");
    for p in parts {
        freed(p);
    }
    freed(c);
}
#[test]
fn concat_n_zero_parts_is_empty() {
    let c = pinp_str_concat_n(&Vec::new()).unwrap();
    assert_eq!(c.as_bytes(), b"");
    freed(c);
}

// --- len / eq / cmp -------------------------------------------------------
#[test]
fn len_counts_bytes() {
    let s = make("héllo"); // 6 bytes (é is 2)
    assert_eq!(pinp_str_len(&s), s.as_bytes().len() as i64);
    freed(s);
}
#[test]
fn len_reads_the_heap_length_field() {
    // The inline and heap modes keep their length in different places, so a heap string's
    // length exercises a branch the inline cases never reach.
    let text = "x".repeat(MAX_INLINE + 25);
    let s = make(&text);
    assert!(s.is_heap());
    assert_eq!(pinp_str_len(&s), text.len() as i64);
    freed(s);
}
#[test]
fn eq_compares_content_not_storage() {
    let (a, b, c) = (make("abc"), make("abc"), make("abd"));
    assert_eq!(pinp_str_eq(&a, &b), 1);
    assert_eq!(pinp_str_eq(&a, &c), 0);
    freed(a);
    freed(b);
    freed(c);
}
#[test]
fn eq_differing_lengths() {
    let (a, b) = (make("ab"), make("abc"));
    assert_eq!(pinp_str_eq(&a, &b), 0);
    freed(a);
    freed(b);
}
#[test]
fn cmp_three_way_and_prefix() {
    let (a, b, p) = (make("abc"), make("abd"), make("ab"));
    assert!(pinp_str_cmp(&a, &b) < 0);
    assert!(pinp_str_cmp(&b, &a) > 0);
    assert_eq!(pinp_str_cmp(&a, &a), 0);
    assert!(pinp_str_cmp(&p, &a) < 0); // prefix sorts first
    freed(a);
    freed(b);
    freed(p);
}

// --- numeric → str --------------------------------------------------------
#[test]
fn from_int_renders_decimal() {
    for (n, want) in [
        (0i64, "0"),
        (42, "42"),
        (-7, "-7"),
        (i64::MIN, "-9223372036854775808"),
    ] {
        let s = pinp_str_from_int(n);
        assert_eq!(s.as_bytes(), want.as_bytes());
        freed(s);
    }
}

#[test]
fn concat_n_at_the_sso_boundary() {
    // 7 + 8 = 15 bytes stays inline; 8 + 8 = 16 crosses to the heap.
    let inline_parts = vec![make("1234567"), make("12345678")];
    let inline_sum = pinp_str_concat_n(&inline_parts).unwrap();
    assert!(!inline_sum.is_heap());
    assert_eq!(inline_sum.as_bytes(), b"123456712345678");

    let heap_parts = vec![make("12345678"), make("12345678")];
    let heap_sum = pinp_str_concat_n(&heap_parts).unwrap();
    assert!(heap_sum.is_heap());
    assert_eq!(heap_sum.as_bytes(), b"1234567812345678");

    for part in inline_parts.into_iter().chain(heap_parts) {
        freed(part);
    }
    freed(inline_sum);
    freed(heap_sum);
}

// --- free resets descriptor ----------------------------------------------
#[test]
fn free_resets_to_empty_inline() {
    let mut s = make("1234567890123456"); // heap
    pinp_str_free(&mut s);
    assert!(!s.is_heap());
    assert_eq!(s.as_bytes(), b"");
    pinp_str_free(&mut s); // safe to free again
}
