use alarm::{Link, Links, List, NumberedNode};

fn numbered(xs: &[usize]) -> List<NumberedNode> {
    let mut list = List::new();
    for &x in xs {
        list.push_back_node(NumberedNode::new(x));
    }
    list
}

fn contents(list: &List<NumberedNode>) -> Vec<usize> {
    let mut out = Vec::new();
    let mut cursor = list.cursor();
    while let Some(n) = cursor.get() {
        out.push(n.number);
        cursor.move_forward();
    }
    out
}

#[test]
fn cursor_walks_both_ways() {
    let list = numbered(&[0, 1, 2, 3, 4]);
    let mut cursor = list.cursor();
    assert_eq!(cursor.get().unwrap().number, 0);
    assert_eq!(cursor.peek_back(), None);
    assert_eq!(cursor.next_item().unwrap().number, 1);
    assert_eq!(cursor.peek_next().unwrap().number, 2);
    assert_eq!(cursor.peek_back().unwrap().number, 0);
    cursor.seek_forward(3);
    assert_eq!(cursor.get().unwrap().number, 4);
    assert_eq!(cursor.peek_next(), None);
    cursor.seek_back(2);
    assert_eq!(cursor.get().unwrap().number, 2);
    assert_eq!(cursor.prev_item().unwrap().number, 1);
    cursor.seek_forward(10);
    assert_eq!(cursor.get(), None);
    cursor.move_back();
    assert_eq!(cursor.get(), None);
}

#[test]
fn cursor_moving_back_from_head_leaves_the_list() {
    let list = numbered(&[7, 8]);
    let mut cursor = list.cursor();
    assert_eq!(cursor.prev_item(), None);
    assert_eq!(cursor.next_item(), None);
}

#[test]
fn cursor_on_empty_list() {
    let list: List<NumberedNode> = List::new();
    let mut cursor = list.cursor();
    assert_eq!(cursor.get(), None);
    assert_eq!(cursor.next_item(), None);
    assert_eq!(cursor.peek_back(), None);
}

#[test]
fn cursor_mut_removes_under_cursor() {
    let mut list = numbered(&[0, 1, 2, 3]);
    {
        let mut cursor = list.cursor_mut();
        cursor.move_forward();
        let removed = cursor.remove_node().unwrap();
        assert_eq!(removed.number, 1);
        assert_eq!(cursor.get().unwrap().number, 2);
    }
    assert_eq!(list.len(), 3);
    assert_eq!(contents(&list), vec![0, 2, 3]);
}

#[test]
fn cursor_mut_remove_all_from_front() {
    let xs = [5, 6, 7];
    let mut list = numbered(&xs);
    {
        let mut cursor = list.cursor_mut();
        for x in xs {
            assert_eq!(cursor.remove_node().unwrap().number, x);
        }
        assert!(cursor.remove_node().is_none());
    }
    assert!(list.is_empty());
    assert_eq!(list.head(), None);
    assert_eq!(list.tail(), None);
}

#[test]
fn cursor_mut_inserts_around_cursor() {
    let mut list = numbered(&[1, 3]);
    {
        let mut cursor = list.cursor_mut();
        cursor.insert_node_before(NumberedNode::new(0));
        assert_eq!(cursor.get().unwrap().number, 0);
        cursor.move_forward();
        cursor.insert_node_after(NumberedNode::new(2));
        assert_eq!(cursor.get().unwrap().number, 1);
    }
    assert_eq!(contents(&list), vec![0, 1, 2, 3]);
    assert_eq!(list.head().unwrap().number, 0);
    assert_eq!(list.tail().unwrap().number, 3);
    {
        let mut cursor = list.cursor_mut();
        cursor.move_back();
        assert_eq!(cursor.get(), None);
        cursor.insert_node_before(NumberedNode::new(4));
        cursor.move_forward();
        cursor.insert_node_after(NumberedNode::new(9));
    }
    assert_eq!(contents(&list), vec![9, 0, 1, 2, 3, 4]);
    assert_eq!(list.tail().unwrap().number, 4);
    assert_eq!(list.len(), 6);
}

#[test]
fn cursor_mut_remove_first_node_matching() {
    let mut list = numbered(&[4, 1, 5, 2, 6]);
    {
        let mut cursor = list.cursor_mut();
        let removed = cursor.remove_first_node(|n: &NumberedNode| n.number < 3);
        assert_eq!(removed.unwrap().number, 1);
        assert_eq!(cursor.get().unwrap().number, 5);
        let removed = cursor.remove_first_node(|n: &NumberedNode| n.number > 10);
        assert!(removed.is_none());
        assert_eq!(cursor.get(), None);
    }
    assert_eq!(contents(&list), vec![4, 5, 2, 6]);
}

#[test]
fn list_remove_first_node_matching() {
    let mut list = numbered(&[3, 8, 1, 8]);
    let removed = list.remove_first_node(|n: &NumberedNode| n.number == 8);
    assert_eq!(removed.unwrap().number, 8);
    assert_eq!(contents(&list), vec![3, 1, 8]);
    assert!(list.remove_first_node(|n: &NumberedNode| n.number == 42).is_none());
    assert_eq!(list.len(), 3);
}

#[test]
fn length_matches_forward_traversal() {
    let mut list = numbered(&[1, 2, 3]);
    list.push_front_node(NumberedNode::new(0));
    list.pop_back_node();
    list.push_back(7);
    {
        let mut cursor = list.cursor_mut();
        cursor.move_forward();
        cursor.remove_node();
        cursor.insert_node_after(NumberedNode::new(5));
    }
    list.pop_front();
    let walked = contents(&list);
    assert_eq!(walked.len(), list.len());
    assert_eq!(walked, vec![2, 5, 7]);
    assert_eq!(list.head().unwrap().number, 2);
    assert_eq!(list.tail().unwrap().number, 7);
    let mut back = list.cursor();
    back.seek_forward(2);
    assert_eq!(back.peek_next(), None);
    assert_eq!(list.cursor().peek_back(), None);
}

#[test]
fn items_front_back_and_mutation() {
    let mut list: List<NumberedNode> = List::new();
    assert_eq!(list.front(), None);
    assert_eq!(list.back(), None);
    list.push_back(10);
    list.push_back(20);
    assert_eq!(*list.front().unwrap(), 10);
    assert_eq!(*list.back().unwrap(), 20);
    *list.front_mut().unwrap() = 11;
    *list.back_mut().unwrap() += 1;
    list.head_mut().unwrap().number += 100;
    list.tail_mut().unwrap().number += 100;
    assert_eq!(list.pop_front(), Some(111));
    assert_eq!(list.pop_front(), Some(121));
}

#[test]
fn storage_is_reused_after_pops() {
    let mut list: List<NumberedNode> = List::new();
    for round in 0..50 {
        list.push_back(round);
        list.push_front(round + 1);
        assert_eq!(list.pop_back(), Some(round));
        assert_eq!(list.len(), (round + 1) as usize);
    }
    assert_eq!(list.len(), 50);
}

#[test]
fn links_start_unlinked() {
    let links = Links::new();
    assert!(links.next().is_none());
    assert!(links.prev().is_none());
    assert!(!links.is_linked());
    let mut link = Link::none();
    assert!(link.is_none());
    assert_eq!(link.take(), None);
    let mut other = Link::to_slot(3);
    assert!(other.is_some());
    assert_eq!(other.take(), Some(Link::to_slot(3)));
    assert!(other.is_none());
    let mut links = Links::new();
    *links.next_mut() = Link::to_slot(1);
    *links.prev_mut() = Link::to_slot(2);
    assert!(links.is_linked());
    assert_eq!(links.next(), Link::to_slot(1));
    assert_eq!(links.prev(), Link::to_slot(2));
}

#[test]
fn push_then_pop_front_reverses_quickcheck() {
    fn prop(xs: Vec<usize>) -> bool {
        let mut list: List<NumberedNode> = List::new();
        for &x in &xs {
            list.push_front(x);
        }
        let mut out = Vec::new();
        while let Some(x) = list.pop_front() {
            out.push(x);
        }
        out.reverse();
        out == xs && list.is_empty()
    }
    quickcheck::QuickCheck::new().tests(200).quickcheck(prop as fn(Vec<usize>) -> bool);
}

#[test]
fn cursor_mut_peeks_and_maps_in_place() {
    let mut list = numbered(&[1, 2, 3, 4]);
    {
        let mut cursor = list.cursor_mut();
        assert_eq!(cursor.peek_back(), None);
        assert_eq!(cursor.peek_next().unwrap().number, 2);
        cursor.move_forward();
        assert_eq!(cursor.peek_back().unwrap().number, 1);
        cursor.map_in_place(|x: &usize| x * 10);
        assert_eq!(cursor.get(), None);
    }
    assert_eq!(contents(&list), vec![1, 20, 30, 40]);
}

#[test]
fn cursor_mut_remove_all_nodes_matching() {
    let mut list = numbered(&[9, 1, 7, 2, 8, 3]);
    let removed = {
        let mut cursor = list.cursor_mut();
        cursor.move_forward();
        cursor.remove_all_nodes(|n: &NumberedNode| n.number > 5)
    };
    let removed: Vec<usize> = removed.into_iter().map(|n| n.number).collect();
    assert_eq!(removed, vec![7, 8]);
    assert_eq!(contents(&list), vec![9, 1, 2, 3]);
    assert_eq!(list.len(), 4);
}

#[test]
fn cursor_mut_remove_first_node_quickcheck() {
    fn prop(xs: Vec<usize>, target: usize) -> bool {
        let mut list = numbered(&xs);
        let mut xs = xs;
        let starting_len = list.len();
        let removed_num = xs.iter().position(|&i| i < target).map(|rm_idx| xs.remove(rm_idx));
        let removed_node = list.cursor_mut().remove_first_node(|n: &NumberedNode| n.number < target);
        let same = removed_node.map(|n| n.number) == removed_num;
        let len_ok = removed_num.is_none() || list.len() == starting_len - 1;
        same && len_ok && contents(&list) == xs
    }
    quickcheck::QuickCheck::new().tests(200).quickcheck(prop as fn(Vec<usize>, usize) -> bool);
}

#[test]
fn cursor_mut_remove_all_nodes_quickcheck() {
    fn prop(xs: Vec<usize>, target: usize) -> bool {
        let mut list = numbered(&xs);
        let starting_len = list.len();
        let mut xs = xs;
        let mut removed_xs = vec![];
        xs.retain(|&x| {
            if x > target {
                removed_xs.push(x);
                false
            } else {
                true
            }
        });
        let removed_nodes = list.cursor_mut().remove_all_nodes(|n: &NumberedNode| n.number > target);
        let removed_nodes: Vec<usize> = removed_nodes.into_iter().map(|x| x.number).collect();
        list.len() == starting_len - removed_nodes.len() && contents(&list) == xs && removed_xs == removed_nodes
    }
    quickcheck::QuickCheck::new().tests(200).quickcheck(prop as fn(Vec<usize>, usize) -> bool);
}

#[test]
fn cursor_mut_remove_arbitrary_node_quickcheck() {
    fn prop(xs: Vec<usize>, i: usize) -> bool {
        if xs.is_empty() {
            return true;
        }
        let i = i % xs.len();
        let mut list = numbered(&xs);
        let starting_len = list.len();
        let mut xs = xs;
        let removed_item = xs.remove(i);
        let node = {
            let mut cursor = list.cursor_mut();
            for _ in 0..i {
                cursor.move_forward();
            }
            cursor.remove_node()
        };
        node.map(|n| n.number) == Some(removed_item) && list.len() == starting_len - 1 && contents(&list) == xs
    }
    quickcheck::QuickCheck::new().tests(200).quickcheck(prop as fn(Vec<usize>, usize) -> bool);
}

#[test]
fn cursor_mut_mutable_borrows() {
    let mut list = numbered(&[1, 2, 3]);
    {
        let mut cursor = list.cursor_mut();
        cursor.get_mut().unwrap().number = 10;
        cursor.peek_next_mut().unwrap().number = 20;
        assert!(cursor.peek_back_mut().is_none());
        cursor.next_item_mut().unwrap().number += 1;
        cursor.peek_back_mut().unwrap().number += 1;
        cursor.next_item_mut().unwrap().number = 30;
        assert!(cursor.next_item_mut().is_none());
        assert!(cursor.get_mut().is_none());
        assert!(cursor.prev_item_mut().is_none());
    }
    assert_eq!(contents(&list), vec![11, 21, 30]);
    {
        let mut cursor = list.cursor_mut();
        cursor.move_forward();
        cursor.move_forward();
        cursor.prev_item_mut().unwrap().number = 0;
    }
    assert_eq!(contents(&list), vec![11, 0, 30]);
}
