use cinnabar::utils::{Bifunctor, Collapse, Reverse};

#[test]
fn a_pair_is_turned_round() {
    assert_eq!((1, "one").rev(), ("one", 1));
    assert_eq!((3usize, 4usize).rev().rev(), (3, 4));
}

#[test]
fn two_maps_apply_to_the_two_parts() {
    let mapped = (2u32, "ab").bimap(|n| n + 1, |text: &str| text.len());
    assert_eq!(mapped, (3, 2));
}

#[test]
fn collapse_needs_both_parts() {
    assert_eq!((Some(2), Some(5)).collapse(|a: i32, b: i32| a * b), Some(10));
    assert_eq!((None, Some(5)).collapse(|a: i32, b: i32| a * b), None);
    assert_eq!((Some(2), None).collapse(|a: i32, b: i32| a * b), None);
    assert_eq!((None, None).collapse(|a: i32, b: i32| a * b), None);
}
