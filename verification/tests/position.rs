//! Fractional positions.

use wem_kernel::position::{generate_after, generate_before, generate_between, generate_first};

#[test]
fn test_generate_first() {
    assert_eq!(generate_first(), "a0");
}

#[test]
fn test_generate_after_increment() {
    assert_eq!(generate_after("a0"), "a1");
    assert_eq!(generate_after("a5"), "a6");
    assert_eq!(generate_after("b"), "c");
}

#[test]
fn test_generate_after_overflow() {
    assert_eq!(generate_after("a9"), "aA");
    assert_eq!(generate_after("aZ"), "aa");
}

#[test]
fn test_generate_after_max_char() {
    assert_eq!(generate_after("az"), "b");
}

#[test]
fn test_generate_after_all_max() {
    assert_eq!(generate_after("z"), "zU");
}

#[test]
fn test_generate_before_decrement() {
    assert_eq!(generate_before("a1"), "a0");
    assert_eq!(generate_before("b"), "a");
}

#[test]
fn test_generate_before_with_fill() {
    assert_eq!(generate_before("b0"), "az");
    assert_eq!(generate_before("a2"), "a1");
}

#[test]
fn test_generate_before_min() {
    assert_eq!(generate_before("0"), "00");
}

#[test]
fn test_generate_between_midpoint() {
    assert_eq!(generate_between("a0", "a2").unwrap(), "a1");
}

#[test]
fn test_generate_between_adjacent() {
    let result = generate_between("a0", "a1").unwrap();
    assert!("a0" < result.as_str());
    assert!(result.as_str() < "a1");
}

#[test]
fn test_generate_between_prefix() {
    let result = generate_between("a0", "a0U").unwrap();
    assert!("a0" < result.as_str());
    assert!(result.as_str() < "a0U");
}

#[test]
fn test_generate_between_invalid_order() {
    assert!(generate_between("a2", "a0").is_err());
    assert!(generate_between("a1", "a1").is_err());
}

#[test]
fn test_ordering_consistency() {
    let mut positions = vec![generate_first()];

    for _ in 0..10 {
        let last = positions.last().unwrap().clone();
        positions.push(generate_after(&last));
    }

    for i in 0..positions.len() - 1 {
        assert!(positions[i].as_str() < positions[i + 1].as_str(),
            "排序错误: {} >= {}", positions[i], positions[i + 1]);
    }

    let mid = generate_between(&positions[2], &positions[3]).unwrap();
    assert!(positions[2].as_str() < mid.as_str());
    assert!(mid.as_str() < positions[3].as_str());
}
