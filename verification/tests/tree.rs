use pfds::Path;
use std::cell::Cell;
use std::ops::Sub;

fn next_rand(seed: &mut i64) -> i32 {
    *seed = seed.wrapping_mul(1664525).wrapping_add(1013904223);
    (*seed >> 24) as i32
}

#[test]
fn add_roots() {
    let mut tree = Path::new(0);
    for i in 0..128 {
        let t = tree.add_node(i);
        tree = t.parent();
    }

    let mut s = std::collections::HashSet::new();
    for r in tree.children() {
        s.insert(*r.data());
    }

    for i in 0..128 {
        assert!(s.contains(&i));
    }
}

#[test]
fn add_children() {
    let mut seed: i64 = 777;
    let mut tree = Path::new(0);
    let mut cs = std::collections::HashSet::new();
    for i in 0..128 {
        let node = tree.add_node(i);
        let ch1 = next_rand(&mut seed);
        let ch2 = next_rand(&mut seed);
        cs.insert((i, ch1));
        cs.insert((i, ch2));
        let node1 = node.add_node(ch1);
        let node2 = node1.parent().add_node(ch2);
        tree = node2.root();
    }

    let mut s = std::collections::HashSet::new();
    for r in tree.children() {
        let d = *r.data();
        s.insert(d);
        assert_eq!(r.children().len(), 2);
    }

    for i in 0..128 {
        assert!(s.contains(&i));
    }

    for r in tree.children() {
        for ch in r.children() {
            assert!(cs.contains(&(*r.data(), *ch.data())));
        }
    }
}

#[test]
fn remove_roots() {
    let mut tree = Path::new(0);
    for i in 0..128 {
        let t = tree.add_node(i);
        tree = t.root();
    }

    let mut s = std::collections::HashSet::new();
    for r in tree.root().children() {
        s.insert(*r.data());
    }

    for i in 0..128 {
        assert!(s.contains(&i));
    }

    let mut r = std::collections::HashSet::new();

    while let Some(n) = tree.root().children().iter().next() {
        r.insert(*n.data());
        let t = n.remove_node();
        tree = t;
        for c in tree.root().children() {
            assert!(!r.contains(c.data()))
        }

        let isub = s.sub(&r);
        for c in tree.root().children() {
            assert!(isub.contains(c.data()))
        }
    }
}

#[test]
fn remove_roots_and_nodes() {
    let mut seed: i64 = 777;
    let mut tree = Path::new(0);
    let mut cs = std::collections::HashSet::new();
    for i in 0..128 {
        let node = tree.add_node(i);
        let ch1 = next_rand(&mut seed);
        let ch2 = next_rand(&mut seed);
        cs.insert((i, ch1));
        cs.insert((i, ch2));
        let node1 = node.add_node(ch1);
        let node2 = node1.parent().add_node(ch2);
        tree = node2.root();
    }

    let mut s = std::collections::HashSet::new();
    for r in tree.root().children() {
        assert_eq!(r.children().len(), 2);
        let d = *r.data();
        s.insert(d);
        for cc in r.children() {
            s.insert(*cc.data());
        }
    }

    for i in 0..128 {
        assert!(s.contains(&i));
    }

    let mut r = std::collections::HashSet::new();

    // The tree is reassigned inside the loop, so the children list and
    // their order change between rounds; the walk restarts each time.
    let mut checked_root: std::collections::HashSet<i32> = std::collections::HashSet::new();
    let mut i: usize = 0;
    let mut children = tree.root().children();
    let mut iter = children.iter();
    while let Some(n) = iter.next() {
        if i >= 128 {
            break;
        }

        let d = *n.data();
        if checked_root.contains(&d) {
            continue;
        }

        i += 1;
        checked_root.insert(*n.data());
        assert_eq!(n.children().len(), 2);
        let children1 = n.children();
        let child = children1.last().unwrap();
        r.insert(*child.data());
        let t = child.remove_node();
        tree = t.root();
        for c in tree.root().children() {
            assert!(!r.contains(c.data()));
            for cc in c.children() {
                assert!(!r.contains(cc.data()));
            }
        }

        let isub = s.sub(&r);
        for c in tree.root().children() {
            assert!(isub.contains(c.data()));
            for cc in c.children() {
                assert!(isub.contains(cc.data()))
            }
        }
        children = tree.root().children();
        iter = children.iter();
    }
}

#[test]
fn apply_roots() {
    let mut tree = Path::new(0);
    for i in 0..128 {
        let t = tree.add_node(i);
        tree = t.parent();
    }

    let mut s = std::collections::HashSet::new();
    for r in tree.children() {
        s.insert(*r.data());
    }

    for i in 0..128 {
        assert!(s.contains(&i));
    }

    for c in tree.children() {
        let new_c = c.apply(|x| Some(*x * 2));
        assert_eq!(*c.data() * 2, *new_c.data());
    }
}

#[test]
fn apply_recursive_on_roots() {
    let mut tree = Path::new(0);
    for i in 0..128 {
        let t = tree.add_node(i);
        tree = t.parent();
    }

    let mut s = std::collections::HashSet::new();
    for r in tree.children() {
        s.insert(*r.data());
    }

    for i in 0..128 {
        assert!(s.contains(&i));
    }

    for c in tree.children() {
        let new_c = c.apply_recursive(|x: &i32| Some(*x * 2));
        assert_eq!(*c.data() * 2, *new_c.data());
    }
}

#[test]
fn apply_recursive_children() {
    let mut seed: i64 = 777;
    let mut tree = Path::new(0);
    let mut cs = std::collections::HashSet::new();
    for i in 0..128 {
        let node = tree.add_node(i);
        let ch1 = next_rand(&mut seed) & 0xFFFF;
        let ch2 = next_rand(&mut seed) & 0xFFFF;
        cs.insert((i, ch1));
        cs.insert((i, ch2));
        let node1 = node.add_node(ch1);
        let node2 = node1.parent().add_node(ch2);
        tree = node2.root();
    }

    let mut s = std::collections::HashSet::new();
    for r in tree.children() {
        let d = *r.data();
        s.insert(d);
        assert_eq!(r.children().len(), 2);
    }

    for i in 0..128 {
        assert!(s.contains(&i));
    }

    for r in tree.children() {
        for ch in r.children() {
            assert!(cs.contains(&(*r.data(), *ch.data())));
        }
    }

    let n = Cell::new(0);
    let tree_double = tree.apply_recursive(|x: &i32| {
        n.set(3);
        Some(*x * 2)
    });
    assert_eq!(n.get(), 3);

    for r in tree_double.children() {
        for ch in r.children() {
            assert!(cs.contains(&(*r.data() / 2, *ch.data() / 2)));
        }
    }
}

#[test]
fn test_remove_all_children() {
    let mut tree = Path::new(0);
    for i in 1..10 {
        tree = tree.add_node(i)
    }

    let n9 = tree.parent();
    assert_eq!(*n9.data(), 8);

    let n8 = n9.parent();
    assert_eq!(*n8.data(), 7);

    assert_eq!(n8.children().len(), 1);
    assert_eq!(n8.remove_all_children().children().len(), 0);
}

#[test]
fn test_map_data() {
    let mut tree = Path::new(0);
    for i in 1..10 {
        tree = tree.add_node(i)
    }

    let n9 = tree.parent();
    assert_eq!(*n9.data(), 8);

    let n8 = n9.parent();
    assert_eq!(*n8.data(), 7);

    assert_eq!(n8.children().len(), 1);

    let nn8 = n8.map_data(|_: &i32| None);
    assert!(nn8 == n8);
}
