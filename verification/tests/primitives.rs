use pxl::pixels::{count_symmetric_difference, detect_shift, same_pixels, PixelSet};
use pxl::raster::rasterization_order;
use pxl::text::{append_decimal, append_signed_decimal, join_strings, str_eq, str_lt, string_of};
use pxl::token_map::{sorted_union_names, TokenMap};

fn pixels(points: &[(i32, i32)]) -> PixelSet {
    let mut s = PixelSet::new();
    for (x, y) in points {
        s.insert(*x, *y);
    }
    s
}

#[test]
fn pixel_set_holds_each_pixel_once() {
    let mut s = PixelSet::new();
    assert!(s.is_empty());
    s.insert(3, 4);
    s.insert(3, 4);
    s.insert(0, 0);
    assert_eq!(s.len(), 2);
    assert!(s.contains(3, 4));
    assert!(!s.contains(4, 3));
}

#[test]
fn shift_detection() {
    let a = pixels(&[(1, 1), (2, 1), (2, 2)]);
    let b = pixels(&[(4, 0), (5, 0), (5, 1)]);
    assert_eq!(detect_shift(&a, &b), Some((3, -1)));
    assert_eq!(detect_shift(&b, &a), Some((-3, 1)));
    // Same set: no shift.
    assert_eq!(detect_shift(&a, &a), None);
    // Different sizes.
    assert_eq!(detect_shift(&a, &pixels(&[(4, 0)])), None);
    // Same size and same least corner offset, but another shape.
    let c = pixels(&[(4, 0), (5, 0), (4, 1)]);
    assert_eq!(detect_shift(&a, &c), None);
    // Empty sets.
    assert_eq!(detect_shift(&PixelSet::new(), &PixelSet::new()), None);
    // Far apart.
    let far = pixels(&[(2147483646, 2147483647)]);
    let near = pixels(&[(0, 0)]);
    assert_eq!(detect_shift(&near, &far), Some((2147483646, 2147483647)));
}

#[test]
fn pixel_set_comparisons() {
    let a = pixels(&[(0, 0), (1, 0), (2, 0)]);
    let b = pixels(&[(2, 0), (1, 0), (0, 0)]);
    let c = pixels(&[(0, 0), (1, 1)]);
    assert!(same_pixels(&a, &b));
    assert!(!same_pixels(&a, &c));
    assert_eq!(count_symmetric_difference(&a, &b), 0);
    assert_eq!(count_symmetric_difference(&a, &c), 3);
}

#[test]
fn token_map_insert_and_get() {
    let mut m: TokenMap<String> = TokenMap::new();
    assert!(m.get("a").is_none());
    m.insert("a".to_string(), "1".to_string());
    m.insert("b".to_string(), "2".to_string());
    m.insert("a".to_string(), "3".to_string());
    assert_eq!(m.get("a").map(|s| s.as_str()), Some("3"));
    assert_eq!(m.get("b").map(|s| s.as_str()), Some("2"));
    assert!(m.contains_key("b"));
    assert!(!m.contains_key("c"));
    let c = m.copied();
    assert_eq!(c.get("a").map(|s| s.as_str()), Some("3"));
}

#[test]
fn names_come_out_sorted_and_once() {
    let mut a: TokenMap<usize> = TokenMap::new();
    let mut b: TokenMap<usize> = TokenMap::new();
    for (i, n) in ["b", "é", "A"].iter().enumerate() {
        a.insert(n.to_string(), i);
    }
    for (i, n) in ["a", "b", "ab"].iter().enumerate() {
        b.insert(n.to_string(), i);
    }
    assert_eq!(sorted_union_names(&a, &b), vec!["A", "a", "ab", "b", "é"]);
}

#[test]
fn string_order_and_equality() {
    assert!(str_lt("a", "b"));
    assert!(str_lt("", "a"));
    assert!(str_lt("ab", "abc"));
    assert!(!str_lt("abc", "ab"));
    assert!(!str_lt("x", "x"));
    assert!(str_lt("Z", "a"));
    assert!(str_lt("z", "é"));
    assert!(str_eq("héllo", "héllo"));
    assert!(!str_eq("hello", "hell"));
}

#[test]
fn decimal_numbers() {
    let mut s = string_of("n=");
    append_decimal(&mut s, 0);
    s.push(' ');
    append_decimal(&mut s, 18446744073709551615);
    s.push(' ');
    append_signed_decimal(&mut s, -2147483648);
    s.push(' ');
    append_signed_decimal(&mut s, 2147483647);
    s.push(' ');
    append_signed_decimal(&mut s, -5);
    assert_eq!(s, "n=0 18446744073709551615 -2147483648 2147483647 -5");
}

#[test]
fn joining() {
    let parts = vec!["a".to_string(), "bc".to_string(), "".to_string()];
    assert_eq!(join_strings(&parts, ", "), "a, bc, ");
    assert_eq!(join_strings(&Vec::new(), ", "), "");
    assert_eq!(join_strings(&vec!["x".to_string()], ", "), "x");
}

#[test]
fn rasterization_order_puts_fills_last() {
    assert_eq!(rasterization_order(&[true, false, true, false]), vec![1, 3, 0, 2]);
    assert_eq!(rasterization_order(&[]), Vec::<usize>::new());
    assert_eq!(rasterization_order(&[false, false]), vec![0, 1]);
}
