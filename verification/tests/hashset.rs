use pfds::HashSet;

fn next_rand(seed: &mut usize) -> usize {
    *seed = seed.wrapping_mul(1664525).wrapping_add(1013904223);
    (*seed >> 24) as i32 as usize
}

#[test]
fn hashset_insert() {
    let numbers = [3, 3, 0x13, 120, 4, 9, 27, 1, 45];
    let mut n = HashSet::empty();
    for i in numbers {
        n = n.insert(i);
    }

    assert_eq!(n.len(), 8);

    for i in 0..numbers.len() {
        assert_eq!(n.exist(numbers[i]), true);
    }
}

#[test]
fn hashset_remove() {
    let numbers = [3, 3, 0x13, 120, 4, 9, 27, 1, 45];
    let mut n = HashSet::empty();
    for i in numbers {
        n = n.insert(i);
    }

    assert_eq!(n.len(), 8);

    for i in 0..numbers.len() {
        assert_eq!(n.exist(numbers[i]), true);
    }

    for i in numbers {
        n = n.remove(i);
        assert_eq!(n.exist(i), false);
    }
}

#[test]
fn hashset_insert_1000000() {
    let mut seed: usize = 777;
    let mut numbers = Vec::new();
    let mut n = HashSet::empty();
    for _ in 0..1000000 {
        let r = next_rand(&mut seed) % 100000;
        n = n.insert(r);
        numbers.push(r);
    }

    let mut sorted = numbers.clone();
    sorted.sort();
    sorted.dedup();

    assert_eq!(n.len(), sorted.len());

    for i in 0..numbers.len() {
        assert_eq!(n.exist(numbers[i]), true);
    }

    let mut v = n.to_vec();
    v.sort();
    assert_eq!(v.len(), sorted.len());
    for i in 0..sorted.len() {
        assert_eq!(sorted[i], v[i]);
    }
}

#[test]
fn hashset_remove_1000000() {
    let mut seed: usize = 777;
    let mut numbers = Vec::new();
    let mut n = HashSet::empty();
    for _ in 0..1000000 {
        let r = next_rand(&mut seed) % 100000;
        n = n.insert(r);
        numbers.push(r);
    }

    let mut sorted = numbers.clone();
    sorted.sort();
    sorted.dedup();

    assert_eq!(n.len(), sorted.len());

    for i in 0..numbers.len() {
        assert_eq!(n.exist(numbers[i]), true);
    }

    let mut v = n.to_vec();
    v.sort();
    assert_eq!(v.len(), sorted.len());
    for i in sorted {
        n = n.remove(i);
        assert_eq!(n.exist(i), false);
    }

    assert_eq!(n.len(), 0);
}

#[test]
fn hashset_iter_1000000() {
    let mut seed: usize = 777;
    let mut numbers = Vec::new();
    let mut n = HashSet::empty();
    for _ in 0..1000000 {
        let r = next_rand(&mut seed) % 100000;
        n = n.insert(r);
        numbers.push(r);
    }

    let mut sorted = numbers.clone();
    sorted.sort();
    sorted.dedup();

    assert_eq!(n.len(), sorted.len());

    for i in 0..numbers.len() {
        assert_eq!(n.exist(numbers[i]), true);
    }

    let mut v: Vec<usize> = Vec::new();
    let mut it = n.iter();
    while let Some(e) = it.next() {
        v.push(e);
    }
    v.sort();
    assert_eq!(v.len(), sorted.len());
    for i in 0..sorted.len() {
        assert_eq!(sorted[i], v[i]);
    }
}

#[test]
fn hashset_iter_1() {
    let mut n = HashSet::empty();
    n = n.insert(1);
    let mut it = n.iter();
    while let Some(c) = it.next() {
        assert_eq!(c, 1);
    }
}
