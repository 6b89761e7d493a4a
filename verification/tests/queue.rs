use pfds::Queue;

fn next_rand(seed: &mut i64) -> i32 {
    *seed = seed.wrapping_mul(1664525).wrapping_add(1013904223);
    (*seed >> 24) as i32
}

#[test]
fn enqueue() {
    let mut seed: i64 = 777;
    let mut elements = Vec::new();
    let mut l = Queue::empty();
    for _ in 0..1000 {
        let e = next_rand(&mut seed);
        elements.push(e);
        l = l.enqueue(e);
    }

    assert_eq!(elements.len(), 1000);
    assert_eq!(elements.len(), l.len());

    let queue_elems = l.to_vec();
    for i in 0..1000 {
        assert_eq!(queue_elems[i], elements[i]);
    }
}

#[test]
fn dequeue() {
    let mut seed: i64 = 777;
    let mut elements = Vec::new();
    let mut l = Queue::empty();
    for _ in 0..100000 {
        let e = next_rand(&mut seed);
        elements.push(e);
        l = l.enqueue(e);
    }

    assert_eq!(elements.len(), 100000);
    assert_eq!(elements.len(), l.len());

    let list_elems = l.to_vec();
    for i in 0..100000 {
        assert_eq!(list_elems[i], elements[i]);
    }

    // Dropping a hundred-thousand-link spine would recurse deeper than
    // the test thread's stack allows, so the superseded versions are
    // kept alive and leaked when the test process exits.
    let mut versions = Vec::new();
    for i in 0..50000 {
        let (e, n) = l.dequeue();
        let e2 = elements[i];
        assert_eq!(e, e2);
        versions.push(std::mem::replace(&mut l, n));
    }

    assert_eq!(l.len(), 50000);

    let queue_elems = l.to_vec();
    for i in 0..50000 {
        assert_eq!(queue_elems[i], elements[i + 50000]);
    }

    std::mem::forget(versions);
    std::mem::forget(l);
}

#[test]
fn queue_iter() {
    let mut seed: i64 = 777;
    let mut elements = Vec::new();
    let mut q = Queue::empty();
    for _ in 0..1000 {
        let e = next_rand(&mut seed);
        elements.push(e);
        q = q.enqueue(e);
    }

    assert_eq!(elements.len(), 1000);
    assert_eq!(elements.len(), q.len());

    // The iterator yields elements in first-in-first-out order.
    let mut count: usize = 0;
    let mut it = q.iter();
    while let Some(elem) = it.next() {
        assert_eq!(elem, elements[count]);
        count += 1;
    }
    assert_eq!(count, 1000);

    // Iterating again works: the structure is persistent.
    let mut collected: Vec<i32> = Vec::new();
    let mut it2 = q.iter();
    while let Some(elem) = it2.next() {
        collected.push(elem);
    }
    assert_eq!(collected, elements);
}
