use alarm::singly;
use alarm::{List, NumberedNode, Stack};

type NumberedList = List<NumberedNode>;

#[test]
fn tests_not_empty_after_first_push() {
    let mut list = NumberedList::new();
    assert_eq!(list.head(), None);
    assert_eq!(list.tail(), None);
    assert!(list.is_empty());
    assert_eq!(list.len(), 0);
    list.push_front_node(NumberedNode::new(1));
    assert_eq!(list.is_empty(), false);
    assert_eq!(list.len(), 1);

    let mut singly = singly::List::<NumberedNode>::new();
    assert_eq!(singly.peek(), None);
    assert!(singly.is_empty());
    assert_eq!(singly.len(), 0);
    singly.push_node(NumberedNode::new(1));
    assert_eq!(singly.is_empty(), false);
    assert_eq!(singly.len(), 1);

    let mut stack = Stack::<NumberedNode>::new();
    assert_eq!(stack.peek(), None);
    assert!(stack.is_empty());
    assert_eq!(stack.len(), 0);
    stack.push_node(NumberedNode::new(1));
    assert_eq!(stack.is_empty(), false);
    assert_eq!(stack.len(), 1);
}

#[test]
fn tests_contents_after_first_push() {
    let mut list = NumberedList::new();
    assert_eq!(list.head(), None);
    assert_eq!(list.tail(), None);
    list.push_front_node(NumberedNode::new(555));
    assert_eq!(list.tail().unwrap().number, 555);
    assert_eq!(list.head().unwrap().number, 555);

    let mut singly = singly::List::<NumberedNode>::new();
    assert_eq!(singly.peek(), None);
    singly.push_node(NumberedNode::new(555));
    assert_eq!(singly.peek().unwrap().number, 555);

    let mut stack = Stack::<NumberedNode>::new();
    assert_eq!(stack.peek(), None);
    stack.push_node(NumberedNode::new(555));
    assert_eq!(stack.peek().unwrap().number, 555);
}

#[test]
fn tests_head_tail_equal_after_first_push() {
    let mut list = NumberedList::new();
    assert_eq!(list.head(), list.tail());
    list.push_front_node(NumberedNode::new(444));
    assert_eq!(list.head(), list.tail());
}

#[test]
fn tests_head_tail_not_equal_after_second_push() {
    let mut list = NumberedList::new();
    list.push_front_node(NumberedNode::new(444));
    list.push_front_node(NumberedNode::new(555));
    assert!(list.head().unwrap() != list.tail().unwrap());
}

#[test]
fn tests_head_tail_not_same_second_push() {
    let mut list = NumberedList::new();
    let a = 444;
    let b = 555;
    list.push_front(a);
    list.push_front(b);
    assert!(list.head().unwrap() != list.tail().unwrap());
}

#[test]
fn tests_contents_after_push_nodes() {
    let mut list = NumberedList::new();
    list.push_front_node(NumberedNode::new(0));
    list.push_front_node(NumberedNode::new(1));
    assert_eq!(list.tail().unwrap().number, 0);
    assert_eq!(list.head().unwrap().number, 1);
    list.push_back_node(NumberedNode::new(2));
    assert_eq!(list.tail().unwrap().number, 2);
    assert_eq!(list.head().unwrap().number, 1);
    list.push_back_node(NumberedNode::new(3));
    assert_eq!(list.tail().unwrap().number, 3);
    assert_eq!(list.head().unwrap().number, 1);
    assert!(!list.is_empty());

    let mut singly = singly::List::<NumberedNode>::new();
    singly.push_node(NumberedNode::new(0));
    singly.push_node(NumberedNode::new(1));
    assert_eq!(singly.peek().unwrap().number, 1);
    singly.push_node(NumberedNode::new(2));
    assert_eq!(singly.peek().unwrap().number, 2);
    singly.push_node(NumberedNode::new(3));
    assert_eq!(singly.peek().unwrap().number, 3);
    assert!(!singly.is_empty());

    let mut stack = Stack::<NumberedNode>::new();
    stack.push_node(NumberedNode::new(0));
    stack.push_node(NumberedNode::new(1));
    assert_eq!(stack.peek().unwrap().number, 1);
    stack.push_node(NumberedNode::new(2));
    assert_eq!(stack.peek().unwrap().number, 2);
    stack.push_node(NumberedNode::new(3));
    assert_eq!(stack.peek().unwrap().number, 3);
    assert!(!stack.is_empty());
}

fn five_node_list() -> NumberedList {
    let mut list = NumberedList::new();
    assert_eq!(list.head(), None);
    assert_eq!(list.tail(), None);
    assert!(list.is_empty());
    list.push_front_node(NumberedNode::new(2));
    assert!(!list.is_empty());
    assert_eq!(list.head(), list.tail());
    list.push_front_node(NumberedNode::new(1));
    list.push_front_node(NumberedNode::new(0));
    assert_eq!(list.head().unwrap().number, 0);
    assert_eq!(list.tail().unwrap().number, 2);
    list.push_back_node(NumberedNode::new(3));
    assert_eq!(list.tail().unwrap().number, 3);
    list.push_back_node(NumberedNode::new(4));
    assert_eq!(list.tail().unwrap().number, 4);
    assert!(!list.is_empty());
    list
}

#[test]
fn tests_test_pop_front_node() {
    let mut list = five_node_list();
    assert_eq!(list.pop_front_node().unwrap().number, 0);
    assert_eq!(list.pop_front_node().unwrap().number, 1);
    assert_eq!(list.pop_front_node().unwrap().number, 2);
    assert_eq!(list.pop_front_node().unwrap().number, 3);
    assert_eq!(list.pop_front_node().unwrap().number, 4);
    assert!(list.is_empty());
    assert_eq!(list.pop_front_node(), None);
}

#[test]
fn tests_test_pop_back_node() {
    let mut list = five_node_list();
    assert_eq!(list.pop_back_node().unwrap().number, 4);
    assert_eq!(list.pop_back_node().unwrap().number, 3);
    assert_eq!(list.pop_back_node().unwrap().number, 2);
    assert_eq!(list.pop_back_node().unwrap().number, 1);
    assert_eq!(list.pop_back_node().unwrap().number, 0);
    assert!(list.is_empty());
    assert_eq!(list.pop_back_node(), None);
}

#[test]
fn tests_test_pop_front() {
    let mut list = five_node_list();
    assert_eq!(list.pop_front().unwrap(), 0);
    assert_eq!(list.pop_front().unwrap(), 1);
    assert_eq!(list.pop_front().unwrap(), 2);
    assert_eq!(list.pop_front().unwrap(), 3);
    assert_eq!(list.pop_front().unwrap(), 4);
    assert!(list.is_empty());
    assert_eq!(list.pop_front(), None);

    let mut singly = singly::List::<NumberedNode>::new();
    assert_eq!(singly.peek(), None);
    assert!(singly.is_empty());
    singly.push_node(NumberedNode::new(2));
    assert!(!singly.is_empty());
    singly.push_node(NumberedNode::new(1));
    singly.push_node(NumberedNode::new(0));
    assert_eq!(singly.peek().unwrap().number, 0);
    singly.push_node(NumberedNode::new(3));
    singly.push_node(NumberedNode::new(4));
    assert!(!singly.is_empty());
    assert_eq!(singly.pop().unwrap(), 4);
    assert_eq!(singly.pop().unwrap(), 3);
    assert_eq!(singly.pop().unwrap(), 0);
    assert_eq!(singly.pop().unwrap(), 1);
    assert_eq!(singly.pop().unwrap(), 2);
    assert!(singly.is_empty());
    assert_eq!(singly.pop(), None);

    let mut stack = Stack::<NumberedNode>::new();
    assert_eq!(stack.peek(), None);
    assert!(stack.is_empty());
    stack.push_node(NumberedNode::new(2));
    assert!(!stack.is_empty());
    stack.push_node(NumberedNode::new(1));
    stack.push_node(NumberedNode::new(0));
    assert_eq!(stack.peek().unwrap().number, 0);
    stack.push_node(NumberedNode::new(3));
    stack.push_node(NumberedNode::new(4));
    assert!(!stack.is_empty());
    assert_eq!(stack.pop().unwrap(), 4);
    assert_eq!(stack.pop().unwrap(), 3);
    assert_eq!(stack.pop().unwrap(), 0);
    assert_eq!(stack.pop().unwrap(), 1);
    assert_eq!(stack.pop().unwrap(), 2);
    assert!(stack.is_empty());
    assert_eq!(stack.pop(), None);
}

#[test]
fn tests_test_pop_back() {
    let mut list = five_node_list();
    assert_eq!(list.pop_back().unwrap(), 4);
    assert_eq!(list.pop_back().unwrap(), 3);
    assert_eq!(list.pop_back().unwrap(), 2);
    assert_eq!(list.pop_back().unwrap(), 1);
    assert_eq!(list.pop_back().unwrap(), 0);
    assert!(list.is_empty());
    assert_eq!(list.pop_back(), None);
}

#[test]
fn tests_test_pop_node() {
    let mut stack = Stack::<NumberedNode>::new();
    assert_eq!(stack.peek(), None);
    assert!(stack.is_empty());
    stack.push_node(NumberedNode::new(2));
    assert!(!stack.is_empty());
    stack.push_node(NumberedNode::new(1));
    stack.push_node(NumberedNode::new(0));
    assert_eq!(stack.peek().unwrap().number, 0);
    stack.push_node(NumberedNode::new(3));
    stack.push_node(NumberedNode::new(4));
    assert!(!stack.is_empty());
    assert_eq!(stack.pop_node().unwrap().number, 4);
    assert_eq!(stack.pop_node().unwrap().number, 3);
    assert_eq!(stack.pop_node().unwrap().number, 0);
    assert_eq!(stack.pop_node().unwrap().number, 1);
    assert_eq!(stack.pop_node().unwrap().number, 2);
    assert!(stack.is_empty());
    assert_eq!(stack.pop_node(), None);

    let mut singly = singly::List::<NumberedNode>::new();
    singly.push_node(NumberedNode::new(2));
    singly.push_node(NumberedNode::new(1));
    singly.push_node(NumberedNode::new(0));
    assert_eq!(singly.pop_node().unwrap().number, 0);
    assert_eq!(singly.pop_node().unwrap().number, 1);
    assert_eq!(singly.pop_node().unwrap().number, 2);
    assert_eq!(singly.pop_node(), None);
}

#[test]
fn tests_test_extend() {
    let mut list = NumberedList::new();
    list.push_back(0);
    list.push_back(1);
    assert_eq!(list.tail().unwrap().number, 1);
    assert_eq!(list.head().unwrap().number, 0);
    let ext = vec![3, 4];
    list.extend(ext);
    assert_eq!(list.tail().unwrap().number, 4);
    assert_eq!(list.head().unwrap().number, 0);

    let mut stack = Stack::<NumberedNode>::new();
    stack.push_node(NumberedNode::new(0));
    stack.push_node(NumberedNode::new(1));
    assert_eq!(stack.peek().unwrap().number, 1);
    let ext = vec![NumberedNode::new(3), NumberedNode::new(4)];
    stack.extend(ext);
    assert_eq!(stack.peek().unwrap().number, 4);
}

#[test]
fn tests_test_fromiter() {
    let list_a: Vec<usize> = (0..10).collect();
    let mut nlist = NumberedList::from_iter(list_a);
    for i in 0..10 {
        assert_eq!(nlist.pop_front().unwrap(), i);
    }

    let nodes: Vec<NumberedNode> = (0..10).map(NumberedNode::new).rev().collect();
    let mut stack = Stack::from_iter(nodes);
    for i in 0..10 {
        assert_eq!(stack.pop_node().unwrap().number, i);
    }
}

#[test]
fn mut_ref_not_empty_after_first_push() {
    let a = NumberedNode::new(1);
    let mut list = NumberedList::new();
    assert_eq!(list.head(), None);
    assert_eq!(list.tail(), None);
    assert!(list.is_empty());
    assert_eq!(list.len(), 0);
    list.push_front_node(a);
    assert_eq!(list.is_empty(), false);
    assert_eq!(list.len(), 1);
}

#[test]
fn mut_ref_contents_after_first_push() {
    let a = NumberedNode::new(555);
    let mut list = NumberedList::new();
    assert_eq!(list.head(), None);
    assert_eq!(list.tail(), None);
    list.push_front_node(a);
    assert_eq!(list.tail().unwrap().number, 555);
    assert_eq!(list.head().unwrap().number, 555);
}

#[test]
fn mut_ref_head_tail_equal_after_first_push() {
    let a = NumberedNode::new(444);
    let mut list = NumberedList::new();
    assert_eq!(list.head(), list.tail());
    list.push_front_node(a);
    assert_eq!(list.head(), list.tail());
}

#[test]
fn mut_ref_head_tail_not_equal_after_second_push() {
    let a = NumberedNode::new(444);
    let b = NumberedNode::new(555);
    let mut list = NumberedList::new();
    list.push_front_node(a);
    list.push_front_node(b);
    assert!(list.head().unwrap() != list.tail().unwrap());
}

#[test]
fn mut_ref_contents_after_push_nodes() {
    let mut list = NumberedList::new();
    list.push_front_node(NumberedNode::new(0));
    list.push_front_node(NumberedNode::new(1));
    assert_eq!(list.tail().unwrap().number, 0);
    assert_eq!(list.head().unwrap().number, 1);
    list.push_back_node(NumberedNode::new(2));
    assert_eq!(list.tail().unwrap().number, 2);
    assert_eq!(list.head().unwrap().number, 1);
    list.push_back_node(NumberedNode::new(3));
    assert_eq!(list.tail().unwrap().number, 3);
    assert_eq!(list.head().unwrap().number, 1);
    assert!(!list.is_empty());
}

#[test]
fn stack_and_singly_items() {
    let mut stack = Stack::<NumberedNode>::new();
    assert_eq!(stack.top(), None);
    stack.push(5);
    stack.push(6);
    assert_eq!(stack.top(), Some(&6));
    *stack.top_mut().unwrap() += 1;
    stack.peek_mut().unwrap().number += 1;
    assert_eq!(stack.pop(), Some(8));
    assert_eq!(stack.pop(), Some(5));
    assert_eq!(stack.top_mut(), None);

    let mut singly = singly::List::<NumberedNode>::new();
    assert_eq!(singly.front(), None);
    singly.push(1);
    singly.push(2);
    assert_eq!(singly.front(), Some(&2));
    *singly.head_mut().unwrap() = 20;
    singly.peek_mut().unwrap().number += 1;
    assert_eq!(singly.pop(), Some(21));
    assert_eq!(singly.pop(), Some(1));
    assert_eq!(singly.pop(), None);
    for i in 0..20 {
        singly.push(i);
        if i % 2 == 0 {
            singly.pop();
        }
    }
    assert_eq!(singly.len(), 10);
    assert_eq!(singly.front(), Some(&19));
}
