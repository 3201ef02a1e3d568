use rpack::crt::{goback_crt, goto_crt, verify_crt_operation};

#[test]
fn test_crt_roundtrip() {
    let base = [2, 3, 5];
    let x = 7;
    let crt = goto_crt(x, &base);
    assert_eq!(crt, vec![1, 1, 2]); // 7 % 2 = 1, 7 % 3 = 1, 7 % 5 = 2
    let reconstructed = goback_crt(&crt, &base);
    assert_eq!(reconstructed, x);
}

#[test]
fn test_crt_tampered() {
    let base = [2, 3, 5];
    let x = 7;
    let mut crt = goto_crt(x, &base); // [1, 1, 2]
    crt[0] = 0; // Tamper
    let reconstructed = goback_crt(&crt, &base);
    assert_ne!(reconstructed, x);
}

#[test]
fn test_verify_crt_operation_correct() {
    let original = 7;
    let base = [2, 3, 5];
    let expected_crt = vec![1, 1, 2];
    assert!(verify_crt_operation(original, &base, &expected_crt));
}

#[test]
fn test_verify_crt_operation_incorrect() {
    let original = 7;
    let base = [2, 3, 5];
    let incorrect_crt = vec![0, 1, 2];
    assert!(!verify_crt_operation(original, &base, &incorrect_crt));
}
