use rust_tools::common::filename::add_suffix;
use rust_tools::strw::find::find_first_non_blank;

#[test]
fn test_add_suffix_when_condition_holds() {
    let fname = "picture";
    let named = add_suffix(fname, ".jpg", || !fname.contains('.'));
    assert_eq!(named, "picture.jpg");
}

#[test]
fn test_add_suffix_when_condition_fails() {
    let fname = "picture.png";
    let named = add_suffix(fname, ".jpg", || !fname.contains('.'));
    assert_eq!(named, "picture.png");
}

#[test]
fn test_find_first_non_blank() {
    assert_eq!(find_first_non_blank(&["", "", "x", "y"]), Some("x"));
    assert_eq!(find_first_non_blank(&["a", "b"]), Some("a"));
    assert_eq!(find_first_non_blank(&["", ""]), None);
    assert_eq!(find_first_non_blank(&[]), None);
}
