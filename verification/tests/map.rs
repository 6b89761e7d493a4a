use pfds::OrderedMap;

fn next_rand(seed: &mut i64) -> i32 {
    *seed = seed.wrapping_mul(1664525).wrapping_add(1013904223);
    (*seed >> 24) as i32
}

#[test]
fn map_insert() {
    let numbers = [5, 10, 3, 120, 4, 9, 27, 1, 45];
    let sorted = [1, 3, 4, 5, 9, 10, 27, 45, 120];
    let mut n = OrderedMap::empty();
    for i in numbers {
        n = n.insert(i, i);
    }

    let v = n.to_vec();

    assert_eq!(v.len(), sorted.len());

    for i in 0..v.len() {
        assert_eq!(v[i].0, sorted[i]);
        assert_eq!(v[i].1, sorted[i]);
    }
}

#[test]
fn map_find() {
    let numbers = [5, 10, 3, 120, 4, 9, 27, 1, 45];
    let mut n = OrderedMap::empty();
    for i in numbers {
        n = n.insert(i, i);
    }

    assert_eq!(n.find(10).is_some(), true);
    assert_eq!(n.find(11).is_none(), true);
}

#[test]
fn map_remove() {
    let numbers = [5, 10, 3, 120, 4, 9, 27, 1, 45];
    let sorted = [1, 3, 4, 9, 10, 27, 45, 120];
    let mut n = OrderedMap::empty();
    for i in numbers {
        n = n.insert(i, i);
    }

    let v = n.to_vec();

    assert_eq!(v.len(), numbers.len());

    n = n.remove(5);

    let v = n.to_vec();

    for i in 0..v.len() {
        assert_eq!(v[i].0, sorted[i]);
        assert_eq!(v[i].1, sorted[i]);
    }
}

#[test]
fn map_remove_one_from_one() {
    let mut n = OrderedMap::empty();
    n = n.insert(10, 10);

    assert_eq!(n.find(5).is_none(), true);
    n = n.remove(5);

    assert_eq!(n.find(10).is_some(), true);
    n = n.remove(10);
    assert_eq!(n.find(10).is_none(), true);

    let v = n.to_vec();
    assert_eq!(v.len(), 0);
}

#[test]
fn map_insert_10000_random() {
    let mut seed: i64 = 777;
    let mut hs = std::collections::hash_set::HashSet::new();
    let mut numbers = Vec::new();
    for _ in 0..10000 {
        hs.insert(next_rand(&mut seed));
    }

    for i in hs.iter() {
        numbers.push(i);
    }

    let mut sorted = numbers.clone();
    sorted.sort();
    let mut n = OrderedMap::empty();
    for i in numbers {
        n = n.insert(*i, *i);
    }

    let v = n.to_vec();

    assert_eq!(v.len(), sorted.len());

    for i in 0..v.len() {
        assert_eq!(v[i].0, *sorted[i]);
        assert_eq!(v[i].1, *sorted[i]);
    }
}

#[test]
fn map_iter() {
    let numbers = [5, 10, 3, 120, 4, 9, 27, 1, 45];
    let sorted = [1, 3, 4, 5, 9, 10, 27, 45, 120];
    let mut n = OrderedMap::empty();
    for i in numbers {
        n = n.insert(i, i * 2); // pair each key with a distinct value
    }

    // The iterator yields entries in increasing key order.
    let mut count: usize = 0;
    let mut it = n.iter();
    while let Some((k, v)) = it.next() {
        assert_eq!(k, sorted[count]);
        assert_eq!(v, sorted[count] * 2);
        count += 1;
    }
    assert_eq!(count, sorted.len());

    // Iterating again works: the structure is persistent.
    let mut collected: Vec<(i32, i32)> = Vec::new();
    let mut it2 = n.iter();
    while let Some(p) = it2.next() {
        collected.push(p);
    }
    assert_eq!(collected.len(), sorted.len());
    for i in 0..collected.len() {
        assert_eq!(collected[i].0, sorted[i]);
        assert_eq!(collected[i].1, sorted[i] * 2);
    }
}

#[test]
fn map_remove_5000_from_10000_random() {
    let mut seed: i64 = 777;
    let mut hs = std::collections::hash_set::HashSet::new();
    let mut numbers = Vec::new();
    for _ in 0..10000 {
        hs.insert(next_rand(&mut seed) % 10000);
    }

    for i in hs.iter() {
        numbers.push(*i);
    }

    let mut n = OrderedMap::empty();
    for i in numbers.iter() {
        n = n.insert(*i, *i);
    }

    assert_eq!(n.len(), hs.len());

    let mut hs = hs.clone();

    for i in 0..hs.len() / 2 {
        hs.remove(&numbers[i]);
        n = n.remove(numbers[i]);
    }

    assert_eq!(n.len(), hs.len());

    let mut sorted = Vec::new();
    for i in hs.iter() {
        sorted.push(*i);
    }
    sorted.sort();

    let v = n.to_vec();

    assert_eq!(v.len(), sorted.len());

    for i in 0..v.len() {
        assert_eq!(v[i].0, sorted[i]);
        assert_eq!(v[i].1, sorted[i]);
    }

    assert_eq!(n.find(numbers[0]).is_none(), true);
    assert_eq!(n.to_vec().len(), hs.len());
}
