use graph_search::patterns::{wasm_function, CustomBox};

#[test]
fn doubling() {
    assert_eq!(wasm_function(21), 42);
    assert_eq!(wasm_function(0), 0);
    assert_eq!(wasm_function(-7), -14);
    assert_eq!(wasm_function(i32::MAX / 2), i32::MAX - 1);
    assert_eq!(wasm_function(i32::MIN / 2), i32::MIN);
}

#[test]
fn a_box_takes_any_value() {
    let _number: CustomBox<i32> = CustomBox::new(5);
    let _text: CustomBox<String> = CustomBox::new("boxed".to_string());
    let _nested: CustomBox<Vec<Option<u8>>> = CustomBox::new(vec![None, Some(1)]);
}
