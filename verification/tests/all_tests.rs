#[test]
fn basic_test_test() {
    let result = 2 + 2;
    assert_eq!(result, 4);
}
