use rust_tools::algow::slice::{bisect_left, bisect_right};

#[test]
fn test_bisect_left_positions() {
    let arr = [1, 2, 2, 3, 5];
    assert_eq!(bisect_left(&arr, &0), 0);
    assert_eq!(bisect_left(&arr, &1), 0);
    assert_eq!(bisect_left(&arr, &2), 1);
    assert_eq!(bisect_left(&arr, &3), 3);
    assert_eq!(bisect_left(&arr, &4), 4);
    assert_eq!(bisect_left(&arr, &6), 5);
    let empty: [i32; 0] = [];
    assert_eq!(bisect_left(&empty, &7), 0);
}

#[test]
fn test_bisect_right_positions() {
    let arr = [1, 2, 2, 3, 5];
    assert_eq!(bisect_right(&arr, &0), 0);
    assert_eq!(bisect_right(&arr, &1), 1);
    assert_eq!(bisect_right(&arr, &2), 3);
    assert_eq!(bisect_right(&arr, &3), 4);
    assert_eq!(bisect_right(&arr, &5), 5);
    let empty: [i32; 0] = [];
    assert_eq!(bisect_right(&empty, &7), 0);
}
