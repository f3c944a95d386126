use tree_list::TreeList;
use tree_list::node::Node;
use tree_list::helper::{Helper, ListHelper};

fn items<T: Copy>(list: &TreeList<T>) -> Vec<T> {
    let mut out = Vec::new();
    let mut it = list.iter();
    while let Some(&x) = it.next() {
        out.push(x);
    }
    out
}

fn node_items<T: Copy>(root: &Option<Box<Node<T>>>) -> Vec<T> {
    let mut out = Vec::new();
    let mut it = tree_list::iter::Iter::new(root.as_deref());
    while let Some(&x) = it.next() {
        out.push(x);
    }
    out
}

#[test]
fn push() {
    let mut list = TreeList::new();
    for &x in &[6, 5, 4] {
        list.push_front(x);
    }
    for &x in &[7, 8, 9] {
        list.push_back(x);
    }
    for &x in &[3, 2, 1, 0] {
        list.push_front(x);
    }
    let res = items(&list);
    assert_eq!(res.len(), 10);
    for i in 0..10 {
        assert_eq!(res[i], i);
    }
}

#[test]
fn insert() {
    let mut list = TreeList::new();
    list.insert(0, 4);
    list.insert(0, 0);
    list.insert(1, 1);
    list.insert(3, 6);
    list.insert(2, 2);
    list.insert(4, 5);
    list.insert(3, 3);
    assert_eq!(list.len(), 7);
    for (i, x) in items(&list).into_iter().enumerate() {
        assert_eq!(i, x);
    }
}

#[test]
fn insert_sorted_into_odd_numbers() {
    let mut list = TreeList::from_vec(vec![1, 3, 5]);
    list.insert_sorted(2);
    list.insert_sorted(3);
    list.insert_sorted(4);
    assert_eq!(items(&list), vec![1, 2, 3, 3, 4, 5]);
}

#[test]
fn insert_sorted_keeps_ascending_in_any_order() {
    let mut list = TreeList::new();
    let mut v: u64 = 7;
    let mut expected = Vec::new();
    for _ in 0..200 {
        v = (v * 1103515245 + 12345) % 1000;
        list.insert_sorted(v);
        expected.push(v);
    }
    expected.sort();
    assert_eq!(items(&list), expected);
    let mut down = TreeList::new();
    for x in (0..50u32).rev() {
        down.insert_sorted(x);
    }
    assert_eq!(items(&down), (0..50u32).collect::<Vec<_>>());
}

#[test]
fn splice_hello_world() {
    let mut list = TreeList::from_vec("hello, world".chars().collect());
    let removed = list.splice(2, 4, vec!['x']);
    assert_eq!(removed.len(), 2);
    assert_eq!(items(&removed), vec!['l', 'l']);
    assert_eq!(items(&list).into_iter().collect::<String>(), "hexo, world");
}

#[test]
fn splice_with_nothing_and_back() {
    let original: Vec<u32> = (0..20).collect();
    let mut list = TreeList::from_vec(original.clone());
    let removed = list.splice(5, 9, Vec::new());
    assert_eq!(items(&removed), vec![5, 6, 7, 8]);
    let mut rest = original.clone();
    rest.drain(5..9);
    assert_eq!(items(&list), rest);

    let mut list = TreeList::from_vec(original.clone());
    let removed = list.splice(3, 6, vec![100, 101]);
    let back = list.splice(3, 5, items(&removed));
    assert_eq!(items(&back), vec![100, 101]);
    assert_eq!(items(&list), original);
}

#[test]
fn remove_on_empty_is_none() {
    let mut list: TreeList<u32> = TreeList::new();
    assert_eq!(list.remove(0), None);
    assert!(list.is_empty());
}

#[test]
fn remove_in_middle() {
    let mut list = TreeList::from_vec(vec![10, 11, 12, 13, 14]);
    assert_eq!(list.remove(2), Some(12));
    assert_eq!(items(&list), vec![10, 11, 13, 14]);
    assert_eq!(list.remove(9), None);
    assert_eq!(items(&list), vec![10, 11, 13, 14]);
    assert_eq!(list.remove(3), Some(14));
    assert_eq!(list.remove(0), Some(10));
    assert_eq!(items(&list), vec![11, 13]);
}

#[test]
fn split_off_at_len_is_empty() {
    let mut list = TreeList::from_vec(vec![1, 2, 3]);
    let tail = list.split_off(3);
    assert!(tail.is_empty());
    assert_eq!(items(&list), vec![1, 2, 3]);
}

#[test]
fn split_off_and_append_lengths() {
    let mut a = TreeList::from_vec((0..13).collect::<Vec<u32>>());
    let mut b = a.split_off(5);
    assert_eq!(a.len(), 5);
    assert_eq!(b.len(), 8);
    assert_eq!(items(&b), (5..13).collect::<Vec<u32>>());
    let mut c = TreeList::from_vec(vec![100, 200]);
    b.append(&mut c);
    assert_eq!(b.len(), 10);
    assert!(c.is_empty());
    a.append(&mut b);
    assert_eq!(a.len(), 15);
    let mut expected: Vec<u32> = (0..13).collect();
    expected.push(100);
    expected.push(200);
    assert_eq!(items(&a), expected);
}

#[test]
fn iteration_matches_indexing() {
    let mut list = TreeList::new();
    for i in 0..64u32 {
        if i % 3 == 0 {
            list.push_front(i);
        } else {
            list.insert(list.len() / 2, i);
        }
    }
    let seen = items(&list);
    assert_eq!(seen.len(), 64);
    for i in 0..64 {
        assert_eq!(*list.get(i), seen[i]);
    }
}

#[test]
fn pop_both_ends() {
    let mut list = TreeList::from_vec(vec![1, 2, 3]);
    assert_eq!(list.pop_front(), Some(1));
    assert_eq!(list.pop_back(), Some(3));
    assert_eq!(list.pop_back(), Some(2));
    assert_eq!(list.pop_back(), None);
    assert_eq!(list.pop_front(), None);
}

#[test]
fn reverse_and_clear() {
    let mut list = TreeList::from_vec((0..10).collect::<Vec<u32>>());
    list.reverse();
    assert_eq!(items(&list), (0..10).rev().collect::<Vec<u32>>());
    assert_eq!(*list.get(0), 9);
    list.clear();
    assert_eq!(list.len(), 0);
    assert!(items(&list).is_empty());
}

#[test]
fn leftmost_and_rightmost() {
    let list = TreeList::from_vec(vec![1, 3, 5, 7, 9, 11]);
    assert_eq!(list.leftmost(|&x| x >= 6), Some(3));
    assert_eq!(list.leftmost(|&x| x >= 1), Some(0));
    assert_eq!(list.leftmost(|&x| x >= 20), None);
    assert_eq!(list.rightmost(|&x| x <= 6), Some(2));
    assert_eq!(list.rightmost(|&x| x <= 11), Some(5));
    assert_eq!(list.rightmost(|&x| x <= 0), None);
    let empty: TreeList<u32> = TreeList::new();
    assert_eq!(empty.leftmost(|_| true), None);
}

#[test]
fn node_split_then_merge() {
    let values: Vec<u32> = (0..25).collect();
    for k in 0..=25usize {
        let root = Node::from_iter(values.clone()).unwrap();
        assert_eq!(root.len(), 25);
        let (a, b) = root.split_at(k);
        assert_eq!(node_items(&a), values[..k].to_vec());
        assert_eq!(node_items(&b), values[k..].to_vec());
        let joined = Node::merge(a, b);
        assert_eq!(node_items(&joined), values);
    }
}

#[test]
fn node_lookup_and_shape() {
    let root = Node::from_iter((0..31u32).collect()).unwrap();
    for i in 0..31usize {
        assert_eq!(*root.at(i).data(), i as u32);
    }
    assert!(root.height <= root.len());
    let left = root.child(false).map(|c| c.len()).unwrap_or(0);
    let right = root.child(true).map(|c| c.len()).unwrap_or(0);
    assert_eq!(left + right + 1, 31);
    let mut leaf = Node::new(5u32);
    *leaf.data_mut() = 6;
    leaf.update();
    assert_eq!(leaf.len(), 1);
    assert_eq!(leaf.into_data(), 6);
}

#[test]
fn node_rotate_and_balance_keep_order() {
    let root = Node::from_iter((0..7u32).collect()).unwrap();
    let list = TreeList::raw(Some(root));
    assert_eq!(items(&list), (0..7u32).collect::<Vec<_>>());
    let root = Node::from_iter((0..7u32).collect()).unwrap();
    let rotated = root.rotate(false);
    assert_eq!(node_items(&Some(rotated)), (0..7u32).collect::<Vec<_>>());
    let root = Node::from_iter((0..7u32).collect()).unwrap();
    let rotated = root.rotate(true).balance();
    assert_eq!(node_items(&Some(rotated)), (0..7u32).collect::<Vec<_>>());
    let mirrored = Node::from_iter((0..7u32).collect()).unwrap().mirror();
    assert_eq!(node_items(&Some(mirrored)), (0..7u32).rev().collect::<Vec<_>>());
}

#[test]
fn list_helper_leaves_node_alone() {
    let mut node = Node::new(3u8);
    ListHelper::<u8>::update(&mut node);
    ListHelper::<u8>::push(&mut node);
    assert_eq!(*node.data(), 3);
    assert_eq!(node.len(), 1);
}

#[test]
fn write_through_index() {
    let mut list = TreeList::from_vec(vec![1u32, 2, 3, 4, 5]);
    *list.get_mut(3) = 40;
    assert_eq!(items(&list), vec![1, 2, 3, 40, 5]);
    assert_eq!(list.len(), 5);
    let mut root = Node::from_iter(vec![7u32, 8, 9]).unwrap();
    *root.at_mut(0) = 70;
    *root.at_mut(2) = 90;
    assert_eq!(node_items(&Some(root)), vec![70, 8, 90]);
}
