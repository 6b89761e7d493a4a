use pfds::List;

fn next_rand(seed: &mut i64) -> i32 {
    *seed = seed.wrapping_mul(1664525).wrapping_add(1013904223);
    (*seed >> 24) as i32
}

#[test]
fn push() {
    let mut seed: i64 = 777;
    let mut elements = Vec::new();
    let mut l = List::empty();
    for _ in 0..1000 {
        let e = next_rand(&mut seed);
        elements.push(e);
        l = l.push(e);
    }

    assert_eq!(elements.len(), 1000);
    assert_eq!(elements.len(), l.len());

    let list_elems = l.to_vec();
    for i in 0..1000 {
        assert_eq!(list_elems[l.len() - 1 - i], elements[i]);
    }
}

#[test]
fn pop() {
    let mut seed: i64 = 777;
    let mut elements = Vec::new();
    let mut l = List::empty();
    for _ in 0..100000 {
        let e = next_rand(&mut seed);
        elements.push(e);
        l = l.push(e);
    }

    assert_eq!(elements.len(), 100000);
    assert_eq!(elements.len(), l.len());

    let list_elems = l.to_vec();
    for i in 0..100000 {
        assert_eq!(list_elems[l.len() - 1 - i], elements[i]);
    }

    let orig_len = l.len();
    for i in 0..50000 {
        let e = l.top();
        let e2 = elements[orig_len - 1 - i];
        assert_eq!(*e, e2);
        l = l.pop();
    }

    assert_eq!(l.len(), 50000);

    let list_elems = l.to_vec();
    for i in 0..50000 {
        assert_eq!(list_elems[l.len() - 1 - i], elements[i]);
    }
}

#[test]
fn list_iter() {
    let mut seed: i64 = 777;
    let mut elements = Vec::new();
    let mut l = List::empty();
    for _ in 0..1000 {
        let e = next_rand(&mut seed);
        elements.push(e);
        l = l.push(e);
    }

    assert_eq!(elements.len(), 1000);
    assert_eq!(elements.len(), l.len());

    let mut count: usize = 0;
    let mut it = l.iter();
    while let Some(i) = it.next() {
        assert_eq!(i, elements[elements.len() - count - 1]);
        count += 1;
    }
    assert_eq!(count, 1000);
}
