use leaderboard::entry::Entry;
use leaderboard::order::Ranked;
use leaderboard::tree::Tree;

#[test]
fn test_simple() {
    let mut tree: Tree<u32> = Tree::new();

    assert!(tree.is_empty());
    assert!(!tree.contains(&10));
    assert_eq!(tree.len(), 0);

    assert!(tree.insert(10));
    assert!(!tree.insert(10));
    assert!(tree.contains(&10));
    assert!(!tree.is_empty());
    assert_eq!(tree.len(), 1);

    assert!(tree.remove(&10).is_some());
    assert!(!tree.remove(&10).is_some());
    assert!(!tree.contains(&10));
    assert!(tree.is_empty());
}

#[test]
fn test_100() {
    let mut tree: Tree<u32> = Tree::new();

    for i in 0..100 {
        assert!(tree.insert(i));
    }

    assert!(tree.validate());
    assert_eq!(tree.len(), 100);
    assert!(tree.contains(&72));
    assert!(!tree.contains(&100));

    for i in 0..100 {
        assert!(tree.index_of(&i).0 == (99 - i as usize));
        assert!(tree.at_index((99 - i) as usize).is_some_and(|v| *v == i))
    }

    let mut cursor = tree.cursor();

    for i in 0..100 {
        cursor.move_next();
        assert!(!cursor.is_at_end());
        assert!(cursor.get_value().unwrap() == &i);
        assert!(cursor.get_index().unwrap() == (99 - i as usize));
    }
    cursor.move_next();
    assert!(cursor.is_at_end());

    for i in 0..100 {
        cursor.move_prev();
        assert!(!cursor.is_at_end());
        assert!(cursor.get_value().unwrap() == &(99 - i));
        assert!(cursor.get_index().unwrap() == (i as usize));
    }
    cursor.move_prev();
    assert!(cursor.is_at_end());

    for i in 0..25 {
        assert!(tree.remove(&i).is_some());
    }

    let mut cursor_mut = tree.seek_val_mut(&50).unwrap();
    for i in 0..25 {
        assert!(cursor_mut.delete_prev() == Some(49 - i));
    }

    assert!(cursor_mut.get_tree().validate());
    assert_eq!(cursor_mut.get_tree().len(), 50);
    assert!(!cursor_mut.get_tree().contains(&32));
    assert!(cursor_mut.get_tree().contains(&72));

    assert_eq!(cursor_mut.replace(49), Some(50));

    assert!(tree.validate());
    assert!(tree.contains(&49));
    assert!(!tree.contains(&50));

    tree.remove(&52);

    cursor_mut = tree.seek_val_mut(&49).unwrap();
    cursor_mut.replace(52);

    assert!(tree.validate());
    assert!(!tree.contains(&49));
    assert!(tree.contains(&52));

    tree.remove(&4);

    cursor_mut = tree.seek_val_mut(&52).unwrap();
    cursor_mut.replace(4);

    assert!(tree.validate());
    assert!(!tree.contains(&52));
    assert!(tree.contains(&4));

    tree.clear();
    assert!(tree.is_empty());
}

#[test]
fn entry_order_points_then_time_then_key() {
    let low = Entry::new(1, 5, 100);
    let high = Entry::new(2, 6, 100);
    assert!(low.is_below(&high));
    assert!(!high.is_below(&low));

    // equal points: the earlier timestamp outranks the later one
    let early = Entry::new(1, 5, 100);
    let late = Entry::new(2, 5, 200);
    assert!(late.is_below(&early));
    assert!(!early.is_below(&late));

    // equal points and timestamp: the larger key outranks the smaller one
    let small = Entry::new(1, 5, 100);
    let large = Entry::new(2, 5, 100);
    assert!(small.is_below(&large));
    assert!(!large.is_below(&small));

    assert!(small.is_same(&Entry::new(1, 5, 100)));
    assert!(!small.is_same(&large));
    assert!(!small.is_below(&small));
}

#[test]
fn tree_heights_stay_logarithmic() {
    let mut tree: Tree<u64> = Tree::new();
    assert_eq!(tree.height(), 0);
    for i in 0..1023u64 {
        assert!(tree.insert(i));
        assert!(tree.validate());
    }
    assert_eq!(tree.len(), 1023);
    assert_eq!(tree.height(), 10);
    for i in 0..1000u64 {
        assert_eq!(tree.remove(&i), Some(i));
        assert!(tree.validate());
    }
    assert_eq!(tree.len(), 23);
    assert!(tree.height() <= 6);
}

#[test]
fn tree_replace_moves_or_refuses() {
    let mut tree: Tree<u32> = Tree::new();
    for i in [10u32, 20, 30, 40] {
        tree.insert(i);
    }
    // absent old value
    assert_eq!(tree.replace(&15, 16), None);
    // new value present as another entry
    assert_eq!(tree.replace(&10, 20), None);
    assert_eq!(tree.len(), 4);
    // new value equal to the old one
    assert_eq!(tree.replace(&10, 10), Some(10));
    // a real move
    assert_eq!(tree.replace(&10, 35), Some(10));
    assert_eq!(tree.at_index(0), Some(&40));
    assert_eq!(tree.at_index(1), Some(&35));
    assert_eq!(tree.at_index(2), Some(&30));
    assert_eq!(tree.at_index(3), Some(&20));
    assert_eq!(tree.at_index(4), None);
    assert_eq!(tree.index_of(&35), (1, true));
    assert_eq!(tree.index_of(&25), (3, false));
    assert!(tree.validate());
}

#[test]
fn tree_pops_at_both_ends() {
    let mut tree: Tree<i64> = Tree::new();
    assert_eq!(tree.pop_lowest(), None);
    assert_eq!(tree.pop_highest(), None);
    for i in [3i64, -1, 7, 5] {
        tree.insert(i);
    }
    assert_eq!(tree.pop_lowest(), Some(-1));
    assert_eq!(tree.pop_highest(), Some(7));
    assert_eq!(tree.len(), 2);
    assert!(tree.validate());
}

#[test]
fn tree_copy_is_independent() {
    let mut tree: Tree<u32> = Tree::new();
    for i in 0..10 {
        tree.insert(i);
    }
    let copy = Tree::from_tree(&tree);
    tree.remove(&3);
    assert_eq!(copy.len(), 10);
    assert!(copy.contains(&3));
    assert!(copy.validate());
    assert_eq!(tree.len(), 9);
}

#[test]
fn cursor_structural_moves() {
    let mut tree: Tree<u32> = Tree::new();
    for i in [2u32, 1, 3] {
        tree.insert(i);
    }
    // 2 stands at the top, 3 to its right, 1 to its left
    let mut cursor = tree.cursor();
    assert!(cursor.has_right());
    assert!(!cursor.has_left());
    assert_eq!(cursor.get_height(), None);
    assert_eq!(cursor.move_right(), Some(&2));
    assert!(cursor.is_root());
    assert_eq!(cursor.get_index(), Some(1));
    assert_eq!(cursor.get_height(), Some(2));
    assert_eq!(cursor.move_right(), Some(&3));
    assert_eq!(cursor.get_index(), Some(0));
    assert!(!cursor.is_root());
    assert_eq!(cursor.move_parent(), Some(&2));
    assert_eq!(cursor.move_left(), Some(&1));
    assert_eq!(cursor.get_index(), Some(2));
    assert_eq!(cursor.move_left(), None);
    assert!(cursor.is_at_end());
    let mut root = tree.seek_index(1).unwrap();
    assert_eq!(root.move_parent(), None);
    assert!(tree.seek_index(3).is_none());
    assert!(tree.seek_val(&9).is_none());
    assert_eq!(tree.seek_val(&1).unwrap().get_index(), Some(2));
}

#[test]
fn cursor_mut_delete_next_follows_rank() {
    let mut tree: Tree<u32> = Tree::new();
    for i in 0..10 {
        tree.insert(i);
    }
    let mut cursor = tree.seek_val_mut(&5).unwrap();
    assert_eq!(cursor.get_index(), Some(4));
    assert_eq!(cursor.delete_next(), Some(6));
    assert_eq!(cursor.get_index(), Some(3));
    assert_eq!(cursor.get_value(), Some(5));
    assert_eq!(cursor.move_next(), Some(7));
    let mut end = tree.cursor_mut();
    assert_eq!(end.delete_next(), Some(0));
    assert_eq!(end.delete_prev(), Some(9));
    assert!(end.is_at_end());
    assert_eq!(tree.len(), 7);
    let mut first = tree.seek_index_mut(0).unwrap();
    assert_eq!(first.get_value(), Some(8));
    assert_eq!(first.delete_next(), None);
    assert!(tree.validate());
}

#[test]
fn tree_stretches_of_the_ranking() {
    let mut tree: Tree<u32> = Tree::new();
    assert!(tree.empty());
    assert_eq!(tree.size(), 0);
    for i in [10u32, 20, 30, 40, 50] {
        tree.insert(i);
    }
    assert!(!tree.empty());
    assert_eq!(tree.size(), 5);
    assert_eq!(tree.get_rank(&50), 1);
    assert_eq!(tree.get_rank(&10), 5);
    assert_eq!(tree.get_rank(&35), 3);
    assert_eq!(tree.get_top(2), vec![50, 40]);
    assert_eq!(tree.get_top(9), vec![50, 40, 30, 20, 10]);
    assert_eq!(tree.get_bottom(2), vec![10, 20]);
    assert_eq!(tree.get_bottom(0), Vec::<u32>::new());
    assert_eq!(tree.get_after(30, 5), vec![20, 10]);
    assert_eq!(tree.get_after(35, 1), vec![30]);
    assert_eq!(tree.get_after(10, 3), Vec::<u32>::new());
    assert_eq!(tree.get_before(30, 1), vec![40]);
    assert_eq!(tree.get_before(35, 5), vec![40, 50]);
    assert_eq!(tree.get_before(50, 5), Vec::<u32>::new());
}

fn shape_of(tree: &Tree<u32>) -> Vec<(u32, usize, usize)> {
    fn walk(link: &Option<Box<leaderboard::node::Node<u32>>>, depth: usize, out: &mut Vec<(u32, usize, usize)>) {
        if let Some(node) = link {
            walk(&node.left, depth + 1, out);
            out.push((0, depth, node.count));
            walk(&node.right, depth + 1, out);
        }
    }
    let mut out = Vec::new();
    walk(tree.root_link(), 0, &mut out);
    out
}

#[test]
fn tree_replace_over_short_and_long_distances() {
    let mut tree: Tree<u32> = Tree::new();
    for i in 0..1000u32 {
        tree.insert(2 * i);
    }
    assert_eq!(tree.height(), 10);
    let shape = shape_of(&tree);
    // in place
    assert_eq!(tree.replace(&1000, 1001), Some(1000));
    assert_eq!(tree.index_of(&1001), (499, true));
    assert_eq!(shape_of(&tree), shape);
    // past one neighbour, and back past two
    assert_eq!(tree.replace(&1001, 1003), Some(1001));
    assert_eq!(tree.index_of(&1003), (498, true));
    assert_eq!(tree.index_of(&1002), (499, true));
    assert_eq!(shape_of(&tree), shape);
    assert_eq!(tree.replace(&1003, 999), Some(1003));
    assert_eq!(tree.index_of(&999), (499, true));
    assert_eq!(tree.index_of(&1002), (498, true));
    assert_eq!(tree.index_of(&1000), (499, false));
    assert_eq!(shape_of(&tree), shape);
    assert!(tree.validate());
    // far away
    assert_eq!(tree.replace(&999, 1), Some(999));
    assert_eq!(tree.index_of(&1), (998, true));
    assert_eq!(tree.len(), 1000);
    assert!(tree.validate());
    let mut expected: Vec<u32> = (0..1000u32).map(|i| 2 * i).filter(|v| *v != 1000).collect();
    expected.push(1);
    expected.sort();
    expected.reverse();
    assert_eq!(tree.get_top(1000), expected);
    // direct writes and shifts
    assert_eq!(tree.put_at(0, 5000), 1998);
    assert_eq!(tree.shift(0, 2, 1993), 5000);
    assert_eq!(tree.get_top(4), vec![1996, 1994, 1993, 1992]);
    assert!(tree.validate());
}
