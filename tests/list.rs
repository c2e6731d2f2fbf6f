use rust_learning::list::List;

#[test]
fn new_list_is_empty() {
    let l = List::new();
    assert_eq!(l.len(), 0);
    assert_eq!(l.stringify(), "End of Linked List");
}

#[test]
fn prepend_puts_value_in_front() {
    let l = List::new().prepend(1).prepend(2).prepend(3);
    assert_eq!(l.len(), 3);
    assert_eq!(l.stringify(), "3, 2, 1, End of Linked List");
}

#[test]
fn prepend_list_reverses_the_slice() {
    let l = List::new().prepend(1).prepend(2).prepend(3);
    let l = l.prepend_list(&[1, 2, 3]);
    assert_eq!(l.len(), 6);
    assert_eq!(l.stringify(), "3, 2, 1, 3, 2, 1, End of Linked List");
}

#[test]
fn prepend_empty_slice_keeps_list() {
    let l = List::new().prepend(42).prepend_list(&[]);
    assert_eq!(l.len(), 1);
    assert_eq!(l.stringify(), "42, End of Linked List");
}

#[test]
fn stringify_writes_decimal() {
    let l = List::new().prepend(4294967295).prepend(0).prepend(1000);
    assert_eq!(l.stringify(), "1000, 0, 4294967295, End of Linked List");
}
