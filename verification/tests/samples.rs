use game2048::samples::{
    get_hello_world, int_to_str, tuple_example, TutorialEnum, TutorialEnumExpression,
    TutorialNode, TutorialTupleStruct,
};
use std::rc::Rc;

#[test]
fn greeting_ignores_its_argument() {
    assert_eq!(get_hello_world(""), "Hello world");
    assert_eq!(get_hello_world("anything"), "Hello world");
}

#[test]
fn small_numbers_are_described() {
    assert_eq!(int_to_str(0), "x is 0");
    assert_eq!(int_to_str(1), "x is 1");
    assert_eq!(int_to_str(2), "x is 2");
    assert_eq!(int_to_str(11), "x is between 10 and 20");
    assert_eq!(int_to_str(15), "x is between 10 and 20");
    assert_eq!(int_to_str(19), "x is between 10 and 20");
    assert_eq!(int_to_str(10), "Not implemented");
    assert_eq!(int_to_str(20), "Not implemented");
    assert_eq!(int_to_str(3), "Not implemented");
    assert_eq!(int_to_str(-1), "Not implemented");
}

#[test]
fn triple_holds_two_numbers_and_a_greeting() {
    assert_eq!(tuple_example(), (32, 42, "Hello World"));
}

#[test]
fn sample_types_hold_their_values() {
    let t = TutorialTupleStruct(17, 42, 1337);
    assert_eq!((t.0, t.1, t.2), (17, 42, 1337));
    assert!(matches!(TutorialEnum::BLUE, TutorialEnum::BLUE));
    assert!(matches!(TutorialEnumExpression::OR(true, false), TutorialEnumExpression::OR(true, false)));
    assert!(matches!(TutorialEnumExpression::ADD(1, 2), TutorialEnumExpression::ADD(1, 2)));
    let root = Rc::new(TutorialNode { parent: None, value: 42 });
    let child = TutorialNode { parent: Some(root.clone()), value: 7 };
    assert!(root.parent.is_none());
    assert_eq!(child.parent.map(|p| p.value), Some(42));
    assert_eq!(child.value, 7);
}
