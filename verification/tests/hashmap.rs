use pfds::HashMap;

fn next_rand(seed: &mut usize) -> usize {
    *seed = seed.wrapping_mul(1664525).wrapping_add(1013904223);
    (*seed >> 24) as i32 as usize
}

#[test]
fn hashmap_insert() {
    let numbers = [3, 3, 0x13, 120, 4, 9, 27, 1, 45];
    let mut n = HashMap::empty();
    for i in numbers {
        n = n.insert(i, i * i);
    }

    assert_eq!(n.len(), 8);

    for i in 0..numbers.len() {
        assert_eq!(n.exist(&numbers[i]), true);
    }
}

#[test]
fn insert_redundant_key_different_values() {
    let numbers = [3, 3, 0x13, 120, 4, 9, 27, 1, 45];
    let mut n = HashMap::empty();
    for i in numbers {
        n = n.insert(i, i * i);
    }

    for i in numbers {
        n = n.insert(i, 2 * i * i);
    }

    assert_eq!(n.len(), 8);

    for i in 0..numbers.len() {
        let num = numbers[i];
        assert!(n.exist(&num));
        assert_eq!(*n.find(&num).unwrap(), 2 * num * num);
    }
}

#[test]
fn hashmap_remove() {
    let numbers = [3, 3, 0x13, 120, 4, 9, 27, 1, 45];
    let mut n = HashMap::empty();
    for i in numbers {
        n = n.insert(i, i * i);
    }

    assert_eq!(n.len(), 8);

    for i in 0..numbers.len() {
        assert_eq!(n.exist(&numbers[i]), true);
    }

    for i in numbers {
        n = n.remove(i);
        assert_eq!(n.exist(&i), false);
    }
}

#[test]
fn hashmap_insert_1000000() {
    let mut seed: usize = 777;
    let mut numbers = Vec::new();
    let mut n = HashMap::empty();
    for _ in 0..1000000 {
        let r = next_rand(&mut seed) % 100000;
        n = n.insert(r, r * r);
        numbers.push(r);
    }

    let mut sorted = numbers.clone();
    sorted.sort();
    sorted.dedup();

    assert_eq!(n.len(), sorted.len());

    for i in 0..numbers.len() {
        assert_eq!(n.exist(&numbers[i]), true);
        let k = numbers[i];

        assert_eq!(n.find(&k).is_some(), true);
        assert_eq!(*n.find(&k).unwrap(), k * k);
    }

    let mut v = n.to_vec();
    v.sort();
    assert_eq!(v.len(), sorted.len());
    for i in 0..sorted.len() {
        assert_eq!(sorted[i], v[i].0);
    }
}

#[test]
fn hashmap_remove_1000000() {
    let mut seed: usize = 777;
    let mut numbers = Vec::new();
    let mut n = HashMap::empty();
    for _ in 0..1000000 {
        let r = next_rand(&mut seed) % 100000;
        n = n.insert(r, r * r);
        numbers.push(r);
    }

    let mut sorted = numbers.clone();
    sorted.sort();
    sorted.dedup();

    assert_eq!(n.len(), sorted.len());

    for i in 0..numbers.len() {
        assert_eq!(n.exist(&numbers[i]), true);
    }

    let mut v = n.to_vec();
    v.sort();
    assert_eq!(v.len(), sorted.len());
    for i in sorted {
        n = n.remove(i);
        assert_eq!(n.exist(&i), false);
    }

    assert_eq!(n.len(), 0);
}

#[test]
fn hashmap_iter_1000000() {
    let mut seed: usize = 777;
    let mut numbers = Vec::new();
    let mut n = HashMap::empty();
    for _ in 0..1000000 {
        let r = next_rand(&mut seed) % 100000;
        n = n.insert(r, r * r);
        numbers.push(r);
    }

    let mut sorted = numbers.clone();
    sorted.sort();
    sorted.dedup();

    assert_eq!(n.len(), sorted.len());

    for i in 0..numbers.len() {
        assert_eq!(n.exist(&numbers[i]), true);
        let k = numbers[i];

        assert_eq!(n.find(&k).is_some(), true);
        assert_eq!(*n.find(&k).unwrap(), k * k);
    }

    let mut v: Vec<(usize, usize)> = Vec::new();
    let mut it = n.iter();
    while let Some(p) = it.next() {
        v.push(p);
    }
    v.sort();
    assert_eq!(v.len(), sorted.len());
    for i in 0..sorted.len() {
        assert_eq!(sorted[i], v[i].0);
    }
}

#[test]
fn hashmap_iter_1() {
    let mut n = HashMap::empty();
    n = n.insert(1, 1);
    let mut it = n.iter();
    while let Some((k, v)) = it.next() {
        assert_eq!(k, 1);
        assert_eq!(v, 1);
    }
}
