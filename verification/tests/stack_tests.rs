use vec_impl::MyStack;

#[test]
fn stack_is_last_in_first_out() {
    let mut s: MyStack<i32> = MyStack::new();
    assert_eq!(s.top(), None);
    assert_eq!(s.pop(), None);
    s.push(1);
    s.push(2);
    s.push(3);
    assert_eq!(s.top(), Some(&3));
    assert_eq!(s.pop(), Some(3));
    assert_eq!(s.pop(), Some(2));
    s.push(4);
    assert_eq!(s.top(), Some(&4));
    assert_eq!(s.pop(), Some(4));
    assert_eq!(s.pop(), Some(1));
    assert_eq!(s.pop(), None);
}

#[test]
fn stack_pop_undoes_push() {
    let mut s: MyStack<&str> = MyStack::new();
    s.push("a");
    s.push("b");
    assert_eq!(s.pop(), Some("b"));
    assert_eq!(s.top(), Some(&"a"));
}
