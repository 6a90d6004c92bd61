use edsig::containers::{queue, stack, Pop, Push, Queue, Stack};

#[test]
fn stack_is_last_in_first_out() {
    let mut s: Stack<String> = stack();
    let mut popped: Option<String>;
    s = s.push(String::from("0"));
    s = s.push(String::from("1"));
    (popped, s) = s.pop();
    assert_eq!(popped, Some(String::from("1")));
    s = s.push(String::from("n"));
    (popped, s) = s.pop();
    assert_eq!(popped, Some(String::from("n")));
    (popped, s) = s.pop();
    assert_eq!(popped, Some(String::from("0")));
    (popped, s) = s.pop();
    assert_eq!(popped, None);
    s = s.push(String::from("m"));
    (popped, _) = s.pop();
    assert_eq!(popped, Some(String::from("m")));

    let mut s: Stack<i32> = stack();
    s = s.push(123);
    s = s.push(456);
    let (popped, _) = s.pop();
    assert_eq!(popped, Some(456));
}

#[test]
fn queue_is_first_in_first_out() {
    let mut s: Queue<String> = queue();
    let mut popped: Option<String>;
    s = s.push(String::from("0"));
    s = s.push(String::from("1"));
    (popped, s) = s.pop();
    assert_eq!(popped, Some(String::from("0")));
    s = s.push(String::from("n"));
    (popped, s) = s.pop();
    assert_eq!(popped, Some(String::from("1")));
    (popped, s) = s.pop();
    assert_eq!(popped, Some(String::from("n")));
    (popped, s) = s.pop();
    assert_eq!(popped, None);
    s = s.push(String::from("m"));
    (popped, _) = s.pop();
    assert_eq!(popped, Some(String::from("m")));

    let mut s: Queue<i32> = queue();
    s = s.push(123);
    s = s.push(456);
    let (popped, _) = s.pop();
    assert_eq!(popped, Some(123));
}

#[test]
fn empty_containers_pop_nothing() {
    let (p, s) = stack::<u8>().pop();
    assert_eq!(p, None);
    assert!(s.data.is_empty());
    let (p, q) = queue::<u8>().pop();
    assert_eq!(p, None);
    assert!(q.data.is_empty());
}
