use fondoso::point::{canonicalize, is_complete_mode, Point};

fn pack(codes: [u16; 5]) -> u16 {
    codes[0] + codes[1] * 8 + codes[2] * 64 + codes[3] * 512 + codes[4] * 4096
}

#[test]
fn canonicalize_empty_appends_reference_order() {
    assert_eq!(canonicalize(b""), b"rgbxy".to_vec());
}

#[test]
fn canonicalize_keeps_full_permutation() {
    assert_eq!(canonicalize(b"bgrxy"), b"bgrxy".to_vec());
    assert_eq!(canonicalize(b"yxbgr"), b"yxbgr".to_vec());
}

#[test]
fn canonicalize_lowercases_and_appends_missing() {
    assert_eq!(canonicalize(b"YX"), b"yxrgb".to_vec());
    assert_eq!(canonicalize(b"xy"), b"xyrgb".to_vec());
}

#[test]
fn canonicalize_deduplicates_and_drops_unknown_letters() {
    assert_eq!(canonicalize(b"rrggbbxxyy"), b"rgbxy".to_vec());
    assert_eq!(canonicalize(b"zz!r?r"), b"rgbxy".to_vec());
    assert_eq!(canonicalize(b"a-b_c"), b"brgxy".to_vec());
}

#[test]
fn sort_mode_packs_canonical_codes() {
    // x -> 1, y -> 2, r -> 3, g -> 4, b -> 5, first letter least shifted
    assert_eq!(Point::get_sort_mode("rgbxy"), pack([3, 4, 5, 1, 2]));
    assert_eq!(Point::get_sort_mode("xy"), pack([1, 2, 3, 4, 5]));
    // "x" canonicalizes to "xrgby": the missing letters join at the end
    assert_eq!(Point::get_sort_mode("x"), pack([1, 3, 4, 5, 2]));
    assert_eq!(Point::get_sort_mode(""), Point::get_sort_mode("rgbxy"));
}

#[test]
fn sort_mode_is_case_insensitive() {
    assert_eq!(Point::get_sort_mode("XY"), Point::get_sort_mode("xy"));
    assert_eq!(Point::get_sort_mode("RGBXY"), Point::get_sort_mode("rgbxy"));
}

#[test]
fn sort_modes_are_complete() {
    assert!(is_complete_mode(Point::get_sort_mode("")));
    assert!(is_complete_mode(Point::get_sort_mode("bx")));
    assert!(!is_complete_mode(0));
    assert!(!is_complete_mode(3));
}

#[test]
fn get_field_reads_the_coded_attribute() {
    let p = Point { r: 10, g: 20, b: 30, x: 40, y: 50, sort_mode: 0 };
    assert_eq!(p.get_field(1), 40);
    assert_eq!(p.get_field(2), 50);
    assert_eq!(p.get_field(3), 10);
    assert_eq!(p.get_field(4), 20);
    assert_eq!(p.get_field(5), 30);
    assert_eq!(p.get_field(0), 0);
    assert_eq!(p.get_field(6), 0);
    // only the low three bits select the field
    assert_eq!(p.get_field(0b1001), 40);
}

#[test]
fn as_tuple_follows_the_ordering_spec() {
    let m = Point::get_sort_mode("rgbxy");
    let p = Point { r: 10, g: 20, b: 30, x: 40, y: 50, sort_mode: m };
    assert_eq!(p.as_tuple(), (10, 20, 30, 40, 50));
    let m2 = Point::get_sort_mode("xy");
    let q = Point { r: 10, g: 20, b: 30, x: 40, y: 50, sort_mode: m2 };
    assert_eq!(q.as_tuple(), (40, 50, 10, 20, 30));
}

#[test]
fn key_comparison_uses_the_first_letter_first() {
    let m = Point::get_sort_mode("x");
    let a = Point { r: 9, g: 9, b: 9, x: 1, y: 5, sort_mode: m };
    let b = Point { r: 0, g: 0, b: 0, x: 2, y: 0, sort_mode: m };
    assert!(a.lt_by_key(&b));
    assert!(a.le_by_key(&b));
    assert!(!b.le_by_key(&a));
    // equal on x: the tie falls to r, the next canonical letter
    let c = Point { r: 3, g: 0, b: 0, x: 1, y: 0, sort_mode: m };
    let d = Point { r: 4, g: 0, b: 0, x: 1, y: 0, sort_mode: m };
    assert!(c.lt_by_key(&d));
    assert!(!d.le_by_key(&c));
    assert!(c.le_by_key(&c));
    assert!(!c.lt_by_key(&c));
}
