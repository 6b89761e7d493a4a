use pfds::OrderedSet;

fn next_rand(seed: &mut i64) -> i32 {
    *seed = seed.wrapping_mul(1664525).wrapping_add(1013904223);
    (*seed >> 24) as i32
}

#[test]
fn set_insert() {
    let numbers = [5, 10, 3, 120, 4, 9, 27, 1, 45];
    let sorted = [1, 3, 4, 5, 9, 10, 27, 45, 120];
    let mut n = OrderedSet::empty();
    for i in numbers {
        n = n.insert(i);
    }

    let v = n.to_vec();

    assert_eq!(v.len(), sorted.len());

    for i in 0..v.len() {
        assert_eq!(v[i], sorted[i]);
    }
}

#[test]
fn set_find() {
    let numbers = [5, 10, 3, 120, 4, 9, 27, 1, 45];
    let mut n = OrderedSet::empty();
    for i in numbers {
        n = n.insert(i);
    }

    assert_eq!(n.exist(10), true);
    assert_eq!(n.exist(11), false);
}

#[test]
fn set_remove() {
    let numbers = [5, 10, 3, 120, 4, 9, 27, 1, 45];
    let sorted = [1, 3, 4, 9, 10, 27, 45, 120];
    let mut n = OrderedSet::empty();
    for i in numbers {
        n = n.insert(i);
    }

    let v = n.to_vec();

    assert_eq!(v.len(), numbers.len());

    n = n.remove(5);

    let v = n.to_vec();

    for i in 0..v.len() {
        assert_eq!(v[i], sorted[i]);
    }
}

#[test]
fn set_remove_one_from_one() {
    let mut n = OrderedSet::empty();
    n = n.insert(10);

    assert_eq!(n.exist(5), false);
    n = n.remove(5);

    assert_eq!(n.exist(10), true);
    n = n.remove(10);
    assert_eq!(n.exist(10), false);

    let v = n.to_vec();
    assert_eq!(v.len(), 0);
}

#[test]
fn set_iter() {
    let numbers = [5, 10, 3, 120, 4, 9, 27, 1, 45];
    let sorted = [1, 3, 4, 5, 9, 10, 27, 45, 120];
    let mut n = OrderedSet::empty();
    for i in numbers {
        n = n.insert(i);
    }

    // The iterator yields elements in increasing order.
    let mut count: usize = 0;
    let mut it = n.iter();
    while let Some(elem) = it.next() {
        assert_eq!(elem, sorted[count]);
        count += 1;
    }
    assert_eq!(count, sorted.len());

    // Iterating again works: the structure is persistent.
    let mut collected: Vec<i32> = Vec::new();
    let mut it2 = n.iter();
    while let Some(elem) = it2.next() {
        collected.push(elem);
    }
    assert_eq!(collected, sorted);
}

#[test]
fn set_insert_10000_random() {
    let mut seed: i64 = 777;
    let mut hs = std::collections::hash_set::HashSet::new();
    let mut numbers = Vec::new();
    for _ in 0..10000 {
        hs.insert(next_rand(&mut seed));
    }

    for i in hs.iter() {
        numbers.push(i);
    }

    let mut sorted = numbers.clone();
    sorted.sort();
    let mut n = OrderedSet::empty();
    for i in numbers {
        n = n.insert(*i);
    }

    let v = n.to_vec();

    assert_eq!(v.len(), sorted.len());

    for i in 0..v.len() {
        assert_eq!(v[i], *sorted[i]);
    }
}

#[test]
fn set_remove_5000_from_10000_random() {
    let mut seed: i64 = 777;
    let mut hs = std::collections::hash_set::HashSet::new();
    let mut numbers = Vec::new();
    for _ in 0..10000 {
        hs.insert(next_rand(&mut seed) % 10000);
    }

    for i in hs.iter() {
        numbers.push(*i);
    }

    let mut n = OrderedSet::empty();
    for i in numbers.iter() {
        n = n.insert(*i);
    }

    assert_eq!(n.len(), hs.len());

    let mut hs = hs.clone();

    for i in 0..hs.len() / 2 {
        hs.remove(&numbers[i]);
        n = n.remove(numbers[i]);
    }

    assert_eq!(n.len(), hs.len());

    let mut sorted = Vec::new();
    for i in hs.iter() {
        sorted.push(*i);
    }
    sorted.sort();

    let v = n.to_vec();

    assert_eq!(v.len(), sorted.len());

    for i in 0..v.len() {
        assert_eq!(v[i], sorted[i]);
    }

    assert_eq!(n.exist(numbers[0]), false);
    assert_eq!(n.to_vec().len(), hs.len());
}
