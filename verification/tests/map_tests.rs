use immutable_map::TreeMap;

fn collect(m: &TreeMap<u64, char>) -> Vec<(u64, char)> {
    let mut it = m.iter();
    let mut res: Vec<(u64, char)> = Vec::new();
    loop {
        match it.next() {
            None => break,
            Some(p) => res.push((p.0, p.1)),
        }
    }
    res
}

fn collect_rev(m: &TreeMap<u64, char>) -> Vec<(u64, char)> {
    let mut it = m.rev_iter();
    let mut res: Vec<(u64, char)> = Vec::new();
    loop {
        match it.next() {
            None => break,
            Some(p) => res.push((p.0, p.1)),
        }
    }
    res
}

#[test]
fn map_test_insert() {
    let r0: TreeMap<u64, char> = TreeMap::new();
    let r1 = r0.insert(4, 'd');
    let r2 = r1.insert(7, 'g');
    let r3 = r2.insert(12, 'l');
    let r4 = r3.insert(15, 'o');
    let r5 = r4.insert(3, 'c');
    let r6 = r5.insert(5, 'e');
    let r7 = r6.insert(14, 'n');
    let r8 = r7.insert(18, 'r');
    let r9 = r8.insert(16, 'p');
    let r10 = r9.insert(17, 'q');

    let expected = vec![
        (3, 'c'),
        (4, 'd'),
        (5, 'e'),
        (7, 'g'),
        (12, 'l'),
        (14, 'n'),
        (15, 'o'),
        (16, 'p'),
        (17, 'q'),
        (18, 'r'),
    ];

    let res = collect(&r10);

    assert_eq!(expected, res);
    assert_eq!(10, r10.len());
    assert!(r10.balanced());
    assert!(r10.contains_key(&12));
}

#[test]
fn map_test_delete_min() {
    let r0: TreeMap<u64, char> = TreeMap::new();
    let r1 = r0.insert(4, 'd');
    let r2 = r1.insert(7, 'g');
    let r3 = r2.insert(12, 'l');
    let r4 = r3.insert(15, 'o');
    let r5 = r4.insert(3, 'c');
    let r6 = r5.insert(5, 'e');
    let (r7, v) = r6.delete_min().unwrap();

    let expected = vec![(4, 'd'), (5, 'e'), (7, 'g'), (12, 'l'), (15, 'o')];
    let res = collect(&r7);

    assert_eq!(expected, res);
    assert_eq!((3, 'c'), (v.0, v.1));
}

#[test]
fn map_test_delete_max() {
    let r0: TreeMap<u64, char> = TreeMap::new();
    let r1 = r0.insert(4, 'd');
    let r2 = r1.insert(7, 'g');
    let r3 = r2.insert(12, 'l');
    let r4 = r3.insert(15, 'o');
    let r5 = r4.insert(3, 'c');
    let r6 = r5.insert(5, 'e');
    let (r7, v) = r6.delete_max().unwrap();

    let expected = vec![(3, 'c'), (4, 'd'), (5, 'e'), (7, 'g'), (12, 'l')];
    let res = collect(&r7);

    assert_eq!(expected, res);
    assert_eq!((15, 'o'), (v.0, v.1));
}

#[test]
fn map_test_remove() {
    let r0: TreeMap<u64, char> = TreeMap::new();
    let r1 = r0.insert(4, 'd');
    let r2 = r1.insert(7, 'g');
    let r3 = r2.insert(12, 'l');
    let r4 = r3.insert(15, 'o');
    let r5 = r4.insert(3, 'c');
    let r6 = r5.insert(5, 'e');
    let (r7, v) = r6.remove(&7).unwrap();

    let expected = vec![(3, 'c'), (4, 'd'), (5, 'e'), (12, 'l'), (15, 'o')];
    let res = collect(&r7);

    assert_eq!(expected, res);
    assert_eq!('g', v.1);
}

#[test]
fn map_test_iter() {
    let r0: TreeMap<u64, char> = TreeMap::new();
    let r1 = r0.insert(4, 'd');
    let r2 = r1.insert(7, 'g');
    let r3 = r2.insert(12, 'l');
    let r4 = r3.insert(15, 'o');
    let r5 = r4.insert(3, 'c');
    let r6 = r5.insert(5, 'e');
    let r7 = r6.insert(14, 'n');
    let r8 = r7.insert(18, 'r');
    let r9 = r8.insert(16, 'p');
    let r10 = r9.insert(17, 'q');

    let expected = vec![
        (3, 'c'),
        (4, 'd'),
        (5, 'e'),
        (7, 'g'),
        (12, 'l'),
        (14, 'n'),
        (15, 'o'),
        (16, 'p'),
        (17, 'q'),
        (18, 'r'),
    ];

    let res = collect(&r10);

    assert_eq!(expected, res);

    assert_eq!((10, Some(10)), r10.iter().size_hint());
}

#[test]
fn map_test_rev_iter() {
    let r0: TreeMap<u64, char> = TreeMap::new();
    let r1 = r0.insert(4, 'd');
    let r2 = r1.insert(7, 'g');
    let r3 = r2.insert(12, 'l');
    let r4 = r3.insert(15, 'o');
    let r5 = r4.insert(3, 'c');
    let r6 = r5.insert(5, 'e');
    let r7 = r6.insert(14, 'n');
    let r8 = r7.insert(18, 'r');
    let r9 = r8.insert(16, 'p');
    let r10 = r9.insert(17, 'q');

    let expected = vec![
        (18, 'r'),
        (17, 'q'),
        (16, 'p'),
        (15, 'o'),
        (14, 'n'),
        (12, 'l'),
        (7, 'g'),
        (5, 'e'),
        (4, 'd'),
        (3, 'c'),
    ];

    let res = collect_rev(&r10);

    assert_eq!(expected, res);

    assert_eq!((10, Some(10)), r10.rev_iter().size_hint());
}

#[test]
fn map_test_is_empty() {
    let r0: TreeMap<u64, char> = TreeMap::new();
    let r1 = r0.insert(4, 'd');
    let r2 = r1.insert(7, 'g');

    assert!(r0.is_empty());
    assert!(!r1.is_empty());
    assert!(!r2.is_empty());
}

#[test]
fn map_test_persistence() {
    let r0: TreeMap<u64, char> = TreeMap::new();
    let r1 = r0.insert(2, 'b').insert(1, 'a').insert(3, 'c');
    let before = collect(&r1);
    let r2 = r1.insert(4, 'd');
    let r3 = r1.remove(&2).unwrap().0;
    assert_eq!(before, collect(&r1));
    assert_eq!(4, r2.len());
    assert_eq!(2, r3.len());
    assert_eq!(3, r1.len());
}

#[test]
fn map_test_overwrite() {
    let m: TreeMap<u64, char> = TreeMap::new().insert(1, 'a').insert(1, 'z');
    assert_eq!(Some(&'z'), m.get(&1));
    assert_eq!(1, m.len());
}

#[test]
fn map_test_get_absent() {
    let m: TreeMap<u64, char> = TreeMap::new().insert(1, 'a');
    assert_eq!(Some(&'a'), m.get(&1));
    assert_eq!(None, m.get(&2));
    assert_eq!(None, m.remove(&9).map(|p| p.1 .1));
    assert!(m.delete_min().is_some());
    assert!(TreeMap::<u64, char>::new().delete_min().is_none());
    assert!(TreeMap::<u64, char>::new().delete_max().is_none());
}

#[test]
fn map_test_insert_if_absent() {
    let m: TreeMap<u64, i64> = TreeMap::new().insert(2, 20).insert(3, 30);
    assert!(m.insert_if_absent(2, 99).is_none());
    let m1 = m.insert_if_absent(1, 10).unwrap();
    assert_eq!(Some(&10), m1.get(&1));
}

#[test]
fn map_test_update() {
    let m: TreeMap<u64, i64> = TreeMap::new().insert(2, 2).insert(3, 3);
    assert!(m.update(1, |v| v + 1).is_none());
    let m1 = m.update(2, |v| v + 10).unwrap();
    assert_eq!(Some(&12), m1.get(&2));
}

#[test]
fn map_test_insert_or_update() {
    let m: TreeMap<u64, i64> = TreeMap::new().insert(1, 1).insert(3, 3);
    let m1 = m.insert_or_update(2, 2, |v| v + 10);
    assert_eq!(Some(&2), m1.get(&2));
    let m2 = m1.insert_or_update(2, 2, |v| v + 10);
    assert_eq!(Some(&12), m2.get(&2));
}

#[test]
fn map_test_many_inserts_stay_balanced() {
    let mut m: TreeMap<u64, char> = TreeMap::new();
    let mut k: u64 = 0;
    while k < 200 {
        m = m.insert((k * 37) % 199, 'x');
        assert!(m.balanced());
        k += 1;
    }
    assert_eq!(199, m.len());
    let mut n: u64 = 0;
    while n < 199 {
        let (next, _) = m.delete_min().unwrap();
        m = next;
        assert!(m.balanced());
        n += 1;
    }
    assert!(m.is_empty());
}
