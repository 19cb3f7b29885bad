use fcoreutils::tail::{check_numeric_overflow, count_origin, CountOrigin};

#[test]
fn overflowing_counts() {
    assert!(check_numeric_overflow("99999999999999999999"));
    assert!(check_numeric_overflow("+99999999999999999999"));
    assert!(check_numeric_overflow("-99999999999999999999K"));
    assert!(!check_numeric_overflow("18446744073709551615"));
    assert!(!check_numeric_overflow("10"));
    assert!(!check_numeric_overflow("abc"));
    assert!(!check_numeric_overflow(""));
}

#[test]
fn origins() {
    assert_eq!(count_origin("+5"), (CountOrigin::FromStart, b"5".to_vec()));
    assert_eq!(count_origin("-5"), (CountOrigin::FromEnd, b"5".to_vec()));
    assert_eq!(count_origin("5"), (CountOrigin::FromEnd, b"5".to_vec()));
}
