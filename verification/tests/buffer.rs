use h2::buffer::{Buffer, Deque};

#[test]
fn take_first_if_extracts_middle_keeps_order() {
    let mut buf = Buffer::new();
    let mut q = Deque::new();
    q.push_back(&mut buf, 1);
    q.push_back(&mut buf, 2);
    q.push_back(&mut buf, 3);
    q.push_back(&mut buf, 4);

    assert_eq!(q.take_first_if(&mut buf, |v| *v == 3), Some(3));
    assert_eq!(q.pop_front(&mut buf), Some(1));
    assert_eq!(q.pop_front(&mut buf), Some(2));
    assert_eq!(q.pop_front(&mut buf), Some(4));
    assert_eq!(q.pop_front(&mut buf), None);
}

#[test]
fn take_first_if_head_and_tail() {
    let mut buf = Buffer::new();
    let mut q = Deque::new();
    q.push_back(&mut buf, 1);
    q.push_back(&mut buf, 2);
    q.push_back(&mut buf, 3);

    assert_eq!(q.take_first_if(&mut buf, |v| *v == 1), Some(1));
    assert_eq!(q.take_first_if(&mut buf, |v| *v == 3), Some(3));
    assert_eq!(q.pop_front(&mut buf), Some(2));
    assert_eq!(q.pop_front(&mut buf), None);
}

#[test]
fn take_first_if_none() {
    let mut buf = Buffer::new();
    let mut q = Deque::new();
    q.push_back(&mut buf, 1);
    assert_eq!(q.take_first_if(&mut buf, |v| *v == 9), None);
    assert_eq!(q.pop_front(&mut buf), Some(1));
}

#[test]
fn new_buffer_and_deque_are_empty() {
    let buf: Buffer<u32> = Buffer::new();
    let q = Deque::new();
    assert!(buf.is_empty());
    assert!(q.is_empty());
}

#[test]
fn push_back_pops_in_order() {
    let mut buf = Buffer::new();
    let mut q = Deque::new();
    for i in 0..5u32 {
        q.push_back(&mut buf, i);
    }
    assert!(!q.is_empty());
    assert!(!buf.is_empty());
    for i in 0..5u32 {
        assert_eq!(q.pop_front(&mut buf), Some(i));
    }
    assert!(q.is_empty());
    assert!(buf.is_empty());
    assert_eq!(q.pop_front(&mut buf), None);
}

#[test]
fn push_front_pops_first() {
    let mut buf = Buffer::new();
    let mut q = Deque::new();
    q.push_back(&mut buf, 2);
    q.push_front(&mut buf, 1);
    q.push_back(&mut buf, 3);
    q.push_front(&mut buf, 0);
    assert_eq!(q.pop_front(&mut buf), Some(0));
    assert_eq!(q.pop_front(&mut buf), Some(1));
    assert_eq!(q.pop_front(&mut buf), Some(2));
    assert_eq!(q.pop_front(&mut buf), Some(3));
    assert_eq!(q.pop_front(&mut buf), None);
}

#[test]
fn push_front_on_empty_deque() {
    let mut buf = Buffer::new();
    let mut q = Deque::new();
    q.push_front(&mut buf, 7);
    assert_eq!(q.pop_front(&mut buf), Some(7));
    assert!(q.is_empty());
}

#[test]
fn deques_sharing_a_buffer_stay_apart() {
    let mut buf = Buffer::new();
    let mut a = Deque::new();
    let mut b = Deque::new();
    a.push_back(&mut buf, 10);
    b.push_back(&mut buf, 20);
    a.push_back(&mut buf, 11);
    b.push_front(&mut buf, 19);
    assert_eq!(b.take_first_if(&mut buf, |v| *v == 20), Some(20));
    assert_eq!(a.pop_front(&mut buf), Some(10));
    assert_eq!(b.pop_front(&mut buf), Some(19));
    assert!(b.is_empty());
    assert!(!buf.is_empty());
    assert_eq!(a.pop_front(&mut buf), Some(11));
    assert!(buf.is_empty());
}

#[test]
fn take_first_if_takes_only_the_first_match() {
    let mut buf = Buffer::new();
    let mut q = Deque::new();
    q.push_back(&mut buf, 5);
    q.push_back(&mut buf, 6);
    q.push_back(&mut buf, 8);
    assert_eq!(q.take_first_if(&mut buf, |v| *v % 2 == 0), Some(6));
    assert_eq!(q.take_first_if(&mut buf, |v| *v % 2 == 0), Some(8));
    assert_eq!(q.take_first_if(&mut buf, |v| *v % 2 == 0), None);
    assert_eq!(q.pop_front(&mut buf), Some(5));
}

#[test]
fn take_first_if_tail_then_push_back() {
    let mut buf = Buffer::new();
    let mut q = Deque::new();
    q.push_back(&mut buf, 1);
    q.push_back(&mut buf, 2);
    assert_eq!(q.take_first_if(&mut buf, |v| *v == 2), Some(2));
    q.push_back(&mut buf, 3);
    assert_eq!(q.pop_front(&mut buf), Some(1));
    assert_eq!(q.pop_front(&mut buf), Some(3));
    assert_eq!(q.pop_front(&mut buf), None);
}

#[test]
fn take_first_if_on_empty_deque() {
    let mut buf: Buffer<u8> = Buffer::new();
    let mut q = Deque::new();
    assert_eq!(q.take_first_if(&mut buf, |_| true), None);
}
