use persistent_tree::errors::Errors;
use persistent_tree::node::Node;

#[test]
fn it_works() {
}

#[test]
fn new_node() {
    let node = Node::new((1, 'a'));
    assert!(node.value() == 'a' && node.key() == 1);
}

#[test]
fn add_bigger_child() {
    let node = Node::new((1, 'a'));
    let new_tree = node.add((2, 'b')).unwrap();
    assert!(new_tree.right().unwrap().value() == 'b');
}

#[test]
fn add_smaller_bigger() {
    let node = Node::new((4, 'a')).add((2, 'b')).unwrap().add((3, 'c')).unwrap();
    assert!(node.left().unwrap().right().unwrap().value() == 'c');
}

#[test]
fn add_bigger_smaller() {
    let node = Node::new((4, 'a')).add((9, 'b')).unwrap().add((7, 'c')).unwrap();
    assert!(node.right().unwrap().left().unwrap().value() == 'c');
}

#[test]
fn add_smaller_child() {
    let node = Node::new((2, 'a')).add((1, 'b')).unwrap();
    assert!(node.left().unwrap().value() == 'b');
}

#[test]
fn get_value() {
    let node = Node::new((2, 'a')).add((1, 'b')).unwrap();
    println!("{:?}", &node);
    assert!(node.get(1).unwrap() == 'b');
    assert!(node.get(12).is_err());
}

#[test]
fn remove_leaf() {
    let node = Node::new((2, 'a')).add((1, 'b')).unwrap().remove(1).unwrap();
    assert!(node.unwrap().get(1).is_err());
}

#[test]
fn remove_one_child_branch() {
    let node = Node::new((2, 'a')).add((1, 'b')).unwrap().add((0, 'c')).unwrap().remove(1).unwrap().unwrap();
    assert!(node.get(1).is_err());
    assert!(node.get(0).is_ok());
    assert!(node.left().unwrap().value() == 'c');
    assert!(node.add((1, 'b')).unwrap().remove(0).unwrap().unwrap().left().unwrap().value() == 'b');
}

#[test]
fn remove_two_child_branch() {
    let node = Node::new((2, 'a')).add((6, 'b')).unwrap().add((5, 'c')).unwrap().add((9, 'd')).unwrap();
    assert!(node.remove(6).unwrap().unwrap().right().unwrap().value() == 'd');
    assert!(node.add((8, 'e')).unwrap().remove(6).unwrap().unwrap().right().unwrap().value() == 'e');
}

#[test]
fn new_node_is_a_leaf() {
    let node = Node::new((7, 'x'));
    assert!(node.left().is_none());
    assert!(node.right().is_none());
    assert_eq!(node.get(7), Ok('x'));
    assert_eq!(node.get(6), Err(Errors::NoKeyFound));
}

#[test]
fn add_refuses_a_key_that_is_bound() {
    let node = Node::new((4, 'a')).add((2, 'b')).unwrap().add((9, 'c')).unwrap();
    assert_eq!(node.add((4, 'z')).err(), Some(Errors::DuplicateKey));
    assert_eq!(node.add((2, 'z')).err(), Some(Errors::DuplicateKey));
    assert_eq!(node.add((9, 'z')).err(), Some(Errors::DuplicateKey));
    assert_eq!(node.get(4), Ok('a'));
    assert_eq!(node.get(2), Ok('b'));
    assert_eq!(node.get(9), Ok('c'));
}

#[test]
fn add_then_get_finds_the_value() {
    let node = Node::new((10, 'a'));
    let keys = [5, 15, 3, 7, 12, 20, i32::MIN, i32::MAX, 0, -1];
    let mut tree = node;
    let mut letter = b'b';
    for key in keys {
        tree = tree.add((key, letter as char)).unwrap();
        assert_eq!(tree.get(key), Ok(letter as char));
        letter += 1;
    }
    assert_eq!(tree.get(10), Ok('a'));
    assert_eq!(tree.get(5), Ok('b'));
    assert_eq!(tree.get(i32::MIN), Ok('h'));
    assert_eq!(tree.get(i32::MAX), Ok('i'));
    assert_eq!(tree.get(1), Err(Errors::NoKeyFound));
}

#[test]
fn add_leaves_the_old_version_as_it_was() {
    let old = Node::new((4, 'a')).add((2, 'b')).unwrap().add((9, 'c')).unwrap();
    let newer = old.add((7, 'd')).unwrap();
    assert_eq!(old.get(7), Err(Errors::NoKeyFound));
    assert_eq!(old.get(4), Ok('a'));
    assert_eq!(old.get(2), Ok('b'));
    assert_eq!(old.get(9), Ok('c'));
    assert!(old.right().unwrap().left().is_none());
    assert_eq!(newer.get(7), Ok('d'));
    assert_eq!(newer.get(4), Ok('a'));
    assert_eq!(newer.get(2), Ok('b'));
    assert_eq!(newer.get(9), Ok('c'));
}

#[test]
fn add_shares_the_subtree_off_the_path() {
    let old = Node::new((4, 'a')).add((2, 'b')).unwrap().add((9, 'c')).unwrap();
    let newer = old.add((7, 'd')).unwrap();
    assert!(std::rc::Rc::ptr_eq(old.left().unwrap(), newer.left().unwrap()));
    assert!(!std::rc::Rc::ptr_eq(old.right().unwrap(), newer.right().unwrap()));
    assert_eq!(std::rc::Rc::strong_count(old.left().unwrap()), 2);
    assert_eq!(std::rc::Rc::strong_count(old.right().unwrap()), 1);
}

#[test]
fn get_smallest_child_is_the_leftmost_node() {
    let node = Node::new((6, 'a')).add((9, 'b')).unwrap().add((3, 'c')).unwrap().add((4, 'd')).unwrap();
    assert_eq!(node.get_smallest_child().key(), 3);
    assert_eq!(node.get_smallest_child().value(), 'c');
    assert_eq!(node.right().unwrap().get_smallest_child().key(), 9);
    let more = node.add((1, 'e')).unwrap();
    assert_eq!(more.get_smallest_child().key(), 1);
    assert_eq!(more.get_smallest_child().value(), 'e');
}

#[test]
fn remove_refuses_a_key_that_is_not_bound() {
    let node = Node::new((4, 'a')).add((2, 'b')).unwrap().add((9, 'c')).unwrap();
    assert_eq!(node.remove(1).err(), Some(Errors::NoKeyFound));
    assert_eq!(node.remove(3).err(), Some(Errors::NoKeyFound));
    assert_eq!(node.remove(5).err(), Some(Errors::NoKeyFound));
    assert_eq!(node.remove(10).err(), Some(Errors::NoKeyFound));
    assert_eq!(Node::new((4, 'a')).remove(5).err(), Some(Errors::NoKeyFound));
}

#[test]
fn remove_the_only_key_leaves_nothing() {
    let node = Node::new((1, 'x'));
    assert!(node.remove(1).unwrap().is_none());
    assert_eq!(node.get(1), Ok('x'));
}

#[test]
fn remove_root_with_one_child_leaves_the_child() {
    let node = Node::new((4, 'a')).add((2, 'b')).unwrap().add((1, 'c')).unwrap().add((3, 'd')).unwrap();
    let rest = node.remove(4).unwrap().unwrap();
    assert_eq!((rest.key(), rest.value()), (2, 'b'));
    assert!(std::rc::Rc::ptr_eq(rest.left().unwrap(), node.left().unwrap().left().unwrap()));
    assert!(std::rc::Rc::ptr_eq(rest.right().unwrap(), node.left().unwrap().right().unwrap()));
    assert_eq!(rest.get(4), Err(Errors::NoKeyFound));
    assert_eq!(rest.get(1), Ok('c'));
    assert_eq!(rest.get(3), Ok('d'));
    let other = Node::new((4, 'a')).add((6, 'b')).unwrap().remove(4).unwrap().unwrap();
    assert_eq!((other.key(), other.value()), (6, 'b'));
    assert!(other.left().is_none() && other.right().is_none());
}

#[test]
fn remove_root_with_two_children_takes_the_successor() {
    let node = Node::new((4, 'a')).add((2, 'b')).unwrap().add((8, 'c')).unwrap().add((6, 'd')).unwrap()
        .add((7, 'e')).unwrap();
    let rest = node.remove(4).unwrap().unwrap();
    assert_eq!((rest.key(), rest.value()), (6, 'd'));
    assert_eq!(rest.left().unwrap().key(), 2);
    assert_eq!(rest.right().unwrap().key(), 8);
    assert_eq!(rest.right().unwrap().left().unwrap().key(), 7);
    assert!(std::rc::Rc::ptr_eq(rest.left().unwrap(), node.left().unwrap()));
    assert_eq!(rest.get(4), Err(Errors::NoKeyFound));
    for (key, value) in [(2, 'b'), (8, 'c'), (6, 'd'), (7, 'e')] {
        assert_eq!(rest.get(key), Ok(value));
    }
}

#[test]
fn remove_never_reports_a_missed_step() {
    let node = Node::new((4, 'a')).add((2, 'b')).unwrap().add((6, 'c')).unwrap().add((5, 'd')).unwrap();
    for key in 0..9 {
        let bound = node.get(key).is_ok();
        match node.remove(key) {
            Ok(_) => assert!(bound),
            Err(e) => {
                assert_eq!(e, Errors::NoKeyFound);
                assert!(!bound);
            },
        }
    }
}

#[test]
fn remove_keeps_every_other_binding() {
    let keys = [50, 30, 70, 20, 40, 60, 80, 35, 45, 65];
    let mut tree = Node::new((keys[0], 'a'));
    for (i, key) in keys.iter().enumerate().skip(1) {
        tree = tree.add((*key, (b'a' + i as u8) as char)).unwrap();
    }
    for gone in keys.iter().skip(1) {
        let rest = tree.remove(*gone).unwrap().unwrap();
        assert_eq!(rest.get(*gone), Err(Errors::NoKeyFound));
        for (i, key) in keys.iter().enumerate() {
            if key != gone {
                assert_eq!(rest.get(*key), Ok((b'a' + i as u8) as char));
            }
            assert_eq!(tree.get(*key), Ok((b'a' + i as u8) as char));
        }
    }
}

#[test]
fn remove_two_children_takes_the_successor() {
    let node = Node::new((2, 'a')).add((6, 'b')).unwrap().add((5, 'c')).unwrap().add((9, 'd')).unwrap()
        .add((8, 'e')).unwrap();
    let rest = node.remove(6).unwrap().unwrap();
    let top = rest.right().unwrap();
    assert_eq!((top.key(), top.value()), (8, 'e'));
    assert_eq!((top.left().unwrap().key(), top.left().unwrap().value()), (5, 'c'));
    assert_eq!((top.right().unwrap().key(), top.right().unwrap().value()), (9, 'd'));
    assert!(top.right().unwrap().left().is_none());
    assert!(std::rc::Rc::ptr_eq(top.left().unwrap(), node.right().unwrap().left().unwrap()));
}

#[test]
fn remove_two_children_keeps_what_hangs_right_of_the_successor() {
    let node = Node::new((2, 'a')).add((6, 'b')).unwrap().add((5, 'c')).unwrap().add((9, 'd')).unwrap()
        .add((10, 'e')).unwrap();
    let rest = node.remove(6).unwrap().unwrap();
    let top = rest.right().unwrap();
    assert_eq!((top.key(), top.value()), (9, 'd'));
    assert_eq!(top.left().unwrap().key(), 5);
    assert_eq!((top.right().unwrap().key(), top.right().unwrap().value()), (10, 'e'));
    assert_eq!(rest.get(10), Ok('e'));
    assert_eq!(rest.get(6), Err(Errors::NoKeyFound));
    assert!(std::rc::Rc::ptr_eq(top.right().unwrap(), node.right().unwrap().right().unwrap().right().unwrap()));
}

#[test]
fn remove_successor_with_a_right_child_of_its_own() {
    let mut node = Node::new((1, 'a'));
    for (key, value) in [(10, 'b'), (5, 'c'), (20, 'd'), (15, 'e'), (17, 'f'), (25, 'g')] {
        node = node.add((key, value)).unwrap();
    }
    let rest = node.remove(10).unwrap().unwrap();
    let top = rest.right().unwrap();
    assert_eq!((top.key(), top.value()), (15, 'e'));
    assert_eq!(top.left().unwrap().key(), 5);
    assert_eq!(top.right().unwrap().key(), 20);
    assert_eq!(top.right().unwrap().left().unwrap().key(), 17);
    assert_eq!(top.right().unwrap().right().unwrap().key(), 25);
    for (key, value) in [(1, 'a'), (5, 'c'), (20, 'd'), (15, 'e'), (17, 'f'), (25, 'g')] {
        assert_eq!(rest.get(key), Ok(value));
    }
}

#[test]
fn remove_one_child_puts_the_child_in_the_slot() {
    let node = Node::new((2, 'a')).add((1, 'b')).unwrap().add((0, 'c')).unwrap();
    let rest = node.remove(1).unwrap().unwrap();
    assert_eq!((rest.left().unwrap().key(), rest.left().unwrap().value()), (0, 'c'));
    assert!(std::rc::Rc::ptr_eq(rest.left().unwrap(), node.left().unwrap().left().unwrap()));
    assert_eq!(node.get(1), Ok('b'));
}
