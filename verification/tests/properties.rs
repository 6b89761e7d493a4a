use pfds::{EquatableAndCloneable, HashMap, HashSet, Hashable, List, OrderedMap, OrderedSet, Path, Queue};

#[test]
fn list_push_pop_reverse() {
    let l = List::empty().push(1).push(2).push(3);
    assert_eq!(l.len(), 3);
    assert_eq!(*l.top(), 3);
    assert_eq!(l.to_vec(), vec![3, 2, 1]);
    assert_eq!(l.rev().to_vec(), vec![1, 2, 3]);
    assert_eq!(l.rev().rev().to_vec(), vec![3, 2, 1]);
    // push then pop gives back the original contents
    assert_eq!(l.push(4).pop().to_vec(), l.to_vec());
    // the original list is not changed by any of the above
    assert_eq!(l.len(), 3);
    assert_eq!(l.to_vec(), vec![3, 2, 1]);
}

#[test]
fn queue_fifo_scenario() {
    let q = Queue::empty().enqueue(1).enqueue(2).enqueue(3);
    let (first, q1) = q.dequeue();
    assert_eq!(first, 1);
    let (second, q2) = q1.dequeue();
    assert_eq!(second, 2);
    assert_eq!(q2.to_vec(), vec![3]);
    assert_eq!(q2.enqueue(4).to_vec(), vec![3, 4]);
    // the original queue observes its original contents
    assert_eq!(q.len(), 3);
    assert_eq!(q.to_vec(), vec![1, 2, 3]);
}

#[test]
fn ordered_map_scenario() {
    let pairs = [5, 10, 3, 120, 4, 9, 27, 1, 45];
    let sorted = [1, 3, 4, 5, 9, 10, 27, 45, 120];
    let mut m = OrderedMap::empty();
    for p in pairs {
        m = m.insert(p, p);
    }
    let v = m.to_vec();
    assert_eq!(v.len(), sorted.len());
    for i in 0..sorted.len() {
        assert_eq!(v[i], (sorted[i], sorted[i]));
    }
    assert_eq!(m.find(10), Some(&10));
    assert_eq!(m.find(11), None);
    assert!(m.height() <= 5);
}

#[test]
fn ordered_map_size_bookkeeping() {
    let m = OrderedMap::empty().insert(1, 10).insert(2, 20);
    assert_eq!(m.len(), 2);
    // overwriting does not grow the map
    let m2 = m.insert(1, 11);
    assert_eq!(m2.len(), 2);
    assert_eq!(m2.find(1), Some(&11));
    // removing an absent key does not shrink the map
    let m3 = m2.remove(7);
    assert_eq!(m3.len(), 2);
    // the older versions observe their original values
    assert_eq!(m.find(1), Some(&10));
    assert_eq!(m.len(), 2);
}

#[test]
fn ordered_map_height_stays_logarithmic() {
    // sequential inserts are the worst case for an unbalanced tree
    let mut m = OrderedMap::empty();
    for i in 0..1024 {
        m = m.insert(i, i);
    }
    assert_eq!(m.len(), 1024);
    // 2 * log2(1024 + 2) is a little over 20
    assert!(m.height() <= 21);
    let mut s = OrderedSet::empty();
    for i in 0..1024 {
        s = s.insert(1024 - i);
    }
    assert!(s.height() <= 21);
}

#[test]
fn hash_map_upsert_and_idempotence() {
    let m = HashMap::empty().insert(7usize, 1usize);
    let m2 = m.insert(7, 2);
    assert_eq!(m2.len(), 1);
    assert_eq!(m2.find(&7), Some(&2));
    assert_eq!(m.find(&7), Some(&1));
    let s = HashSet::empty().insert(7usize);
    let s2 = s.insert(7);
    assert_eq!(s2.len(), 1);
    assert!(s2.exist(7));
    assert!(!s.is_empty());
    assert!(!s.is_true());
}

/// A key whose hash deliberately ignores half of the value, so that
/// two distinct keys can share one full 64-bit hash.
struct CollidingKey {
    bucket: u64,
    tag: u64,
}

impl EquatableAndCloneable for CollidingKey {
    fn eq_val(&self, other: &Self) -> bool {
        self.bucket == other.bucket && self.tag == other.tag
    }

    fn dup(&self) -> Self {
        CollidingKey { bucket: self.bucket, tag: self.tag }
    }
}

impl Hashable for CollidingKey {
    fn hash_spec(self) -> u64 {
        self.bucket
    }

    fn hash(&self) -> u64 {
        self.bucket
    }
}

#[test]
fn hash_map_collision_path() {
    let a = CollidingKey { bucket: 42, tag: 1 };
    let b = CollidingKey { bucket: 42, tag: 2 };
    let m = HashMap::empty().insert(a.dup(), 10usize).insert(b.dup(), 20usize);
    assert_eq!(m.len(), 2);
    assert_eq!(m.find(&a), Some(&10));
    assert_eq!(m.find(&b), Some(&20));
    let m2 = m.remove(a.dup());
    assert_eq!(m2.len(), 1);
    assert!(!m2.exist(&a));
    assert_eq!(m2.find(&b), Some(&20));
    // the version before the removal still holds both keys
    assert_eq!(m.len(), 2);
    assert!(m.exist(&a));
}

#[test]
fn tree_persistence_scenario() {
    let mut t0 = Path::new(0);
    for i in 1..129 {
        t0 = t0.add_node(i).parent();
    }
    assert_eq!(t0.children().len(), 128);

    let mut expected = std::collections::HashSet::new();
    let mut t1 = t0.clone();
    for n in 1..129 {
        // walk to the child whose data is n, then hang two leaves on it
        let kids = t1.children();
        let mut found = None;
        for c in kids {
            if *c.data() == n {
                found = Some(c);
                break;
            }
        }
        let c = found.unwrap();
        let a = 1000 + n;
        let b = 2000 + n;
        expected.insert(a);
        expected.insert(b);
        t1 = c.add_node(a).parent().add_node(b).root();
    }

    // the snapshot still has 128 children and no grandchildren
    assert_eq!(t0.children().len(), 128);
    for c in t0.children() {
        assert_eq!(c.children().len(), 0);
    }

    // the new version has two grandchildren under every child
    let mut depth2 = std::collections::HashSet::new();
    assert_eq!(t1.children().len(), 128);
    for c in t1.children() {
        assert_eq!(c.children().len(), 2);
        for g in c.children() {
            depth2.insert(*g.data());
        }
    }
    assert_eq!(depth2, expected);
}

#[test]
fn tree_no_change_pass_keeps_path() {
    let mut tree = Path::new(0);
    for i in 1..6 {
        tree = tree.add_node(i).parent();
    }
    let unchanged = tree.apply_recursive(|_: &i32| None);
    assert!(unchanged == tree);
    let filtered = tree.filter_recursive(|_: &i32| true);
    assert!(filtered.unwrap() == tree);
    let gone = tree.filter_recursive(|x: &i32| *x > 100);
    assert!(gone.is_none());
}

#[test]
fn tree_set_data_keeps_children() {
    let root = Path::new(1).add_node(2).parent().add_node(3).parent();
    let renamed = root.set_data(9);
    assert_eq!(*renamed.data(), 9);
    assert_eq!(renamed.children().len(), 2);
    // the old version keeps its data
    assert_eq!(*root.data(), 1);
}

#[test]
fn tree_accumulating_walks() {
    let tree = Path::new(1).add_node(2).add_node(3).root();
    // depths seen by the visitor: the accumulator tracks the spine
    let depths = std::cell::RefCell::new(Vec::new());
    let mut acc: Vec<i32> = Vec::new();
    tree.iter_acc_recursive(&mut acc, &|a: &Vec<i32>, _p: &Path<i32>| {
        depths.borrow_mut().push(a.len());
    });
    assert_eq!(depths.into_inner(), vec![1, 2, 3]);
    assert_eq!(acc.len(), 0);

    let mut acc2: Vec<i32> = Vec::new();
    let doubled = tree.apply_acc_recursive(&mut acc2, |_a: &Vec<i32>, x: &i32| Some(*x * 2));
    assert_eq!(*doubled.data(), 2);
    assert_eq!(*doubled.children()[0].data(), 4);

    let all = tree.flatten();
    assert_eq!(all.len(), 3);
    assert!(all[0] == tree);

    let seen = std::cell::RefCell::new(Vec::new());
    tree.iter_recursive(&|p: &Path<i32>| {
        seen.borrow_mut().push(*p.data());
    });
    assert_eq!(seen.into_inner(), vec![1, 2, 3]);
}
