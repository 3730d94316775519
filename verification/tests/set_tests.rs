use immutable_map::TreeSet;

fn collect(s: &TreeSet<usize>) -> Vec<usize> {
    let mut it = s.iter();
    let mut res: Vec<usize> = Vec::new();
    loop {
        match it.next() {
            None => break,
            Some(p) => res.push(p.0),
        }
    }
    res
}

fn collect_rev(s: &TreeSet<usize>) -> Vec<usize> {
    let mut it = s.rev_iter();
    let mut res: Vec<usize> = Vec::new();
    loop {
        match it.next() {
            None => break,
            Some(p) => res.push(p.0),
        }
    }
    res
}

#[test]
fn set_test_insert() {
    let r0: TreeSet<(usize, char)> = TreeSet::new();
    let r1 = r0.insert((4, 'd'));
    let r2 = r1.insert((7, 'g'));
    let r3 = r2.insert((12, 'l'));
    let r4 = r3.insert((15, 'o'));
    let r5 = r4.insert((3, 'c'));
    let r6 = r5.insert((5, 'e'));
    let r7 = r6.insert((14, 'n'));
    let r8 = r7.insert((18, 'r'));
    let r9 = r8.insert((16, 'p'));
    let r10 = r9.insert((17, 'q'));

    let expected = vec![
        (3, 'c'),
        (4, 'd'),
        (5, 'e'),
        (7, 'g'),
        (12, 'l'),
        (14, 'n'),
        (15, 'o'),
        (16, 'p'),
        (17, 'q'),
        (18, 'r'),
    ];

    let mut it = r10.iter();
    let mut res: Vec<(usize, char)> = Vec::new();
    loop {
        match it.next() {
            None => break,
            Some(p) => res.push(p.0),
        }
    }

    assert_eq!(expected, res);
    assert_eq!(10, r10.len());
    assert!(r10.balanced());
    assert!(r10.contains(&(12, 'l')));
}

#[test]
fn set_test_delete_min() {
    let r0: TreeSet<usize> = TreeSet::new();
    let r1 = r0.insert(4);
    let r2 = r1.insert(7);
    let r3 = r2.insert(12);
    let r4 = r3.insert(15);
    let r5 = r4.insert(3);
    let r6 = r5.insert(5);
    let (r7, v) = r6.delete_min().unwrap();

    let expected = vec![4, 5, 7, 12, 15];

    let res = collect(&r7);

    assert_eq!(expected, res);
    assert_eq!(3, v.0);
}

#[test]
fn set_test_delete_max() {
    let r0: TreeSet<usize> = TreeSet::new();
    let r1 = r0.insert(4);
    let r2 = r1.insert(7);
    let r3 = r2.insert(12);
    let r4 = r3.insert(15);
    let r5 = r4.insert(3);
    let r6 = r5.insert(5);
    let (r7, v) = r6.delete_max().unwrap();

    let expected = vec![3, 4, 5, 7, 12];
    let res = collect(&r7);

    assert_eq!(expected, res);
    assert_eq!(15, v.0);
}

#[test]
fn set_test_remove() {
    let r0: TreeSet<usize> = TreeSet::new();
    let r1 = r0.insert(4);
    let r2 = r1.insert(7);
    let r3 = r2.insert(12);
    let r4 = r3.insert(15);
    let r5 = r4.insert(3);
    let r6 = r5.insert(5);
    let (r7, v) = r6.remove(&7).unwrap();

    let expected = vec![3, 4, 5, 12, 15];
    let res = collect(&r7);

    assert_eq!(expected, res);
    assert_eq!(7, v.0);
}

#[test]
fn set_test_iter() {
    let r0: TreeSet<usize> = TreeSet::new();
    let r1 = r0.insert(4);
    let r2 = r1.insert(7);
    let r3 = r2.insert(12);
    let r4 = r3.insert(15);
    let r5 = r4.insert(3);
    let r6 = r5.insert(5);
    let r7 = r6.insert(14);
    let r8 = r7.insert(18);
    let r9 = r8.insert(16);
    let r10 = r9.insert(17);

    let expected = vec![3, 4, 5, 7, 12, 14, 15, 16, 17, 18];
    let res = collect(&r10);

    assert_eq!(expected, res);

    assert_eq!((10, Some(10)), r10.iter().size_hint());
}

#[test]
fn set_test_rev_iter() {
    let r0: TreeSet<usize> = TreeSet::new();
    let r1 = r0.insert(4);
    let r2 = r1.insert(7);
    let r3 = r2.insert(12);
    let r4 = r3.insert(15);
    let r5 = r4.insert(3);
    let r6 = r5.insert(5);
    let r7 = r6.insert(14);
    let r8 = r7.insert(18);
    let r9 = r8.insert(16);
    let r10 = r9.insert(17);

    let expected = vec![18, 17, 16, 15, 14, 12, 7, 5, 4, 3];
    let res = collect_rev(&r10);

    assert_eq!(expected, res);

    assert_eq!((10, Some(10)), r10.rev_iter().size_hint());
}

#[test]
fn set_test_is_empty() {
    let r0: TreeSet<usize> = TreeSet::new();
    let r1 = r0.insert(4);
    let r2 = r1.insert(7);

    assert!(r0.is_empty());
    assert!(!r1.is_empty());
    assert!(!r2.is_empty());
}

#[test]
fn set_test_get() {
    let s: TreeSet<i64> = TreeSet::new().insert(-3).insert(9);
    assert_eq!(Some(&-3), s.get(&-3));
    assert_eq!(None, s.get(&4));
    assert!(s.contains(&9));
    assert!(!s.contains(&10));
}

#[test]
fn set_test_persistence() {
    let s1: TreeSet<usize> = TreeSet::new().insert(2).insert(1).insert(3);
    let before = collect(&s1);
    let s2 = s1.insert(4);
    let s3 = s1.remove(&2).unwrap().0;
    assert_eq!(before, collect(&s1));
    assert_eq!(4, s2.len());
    assert_eq!(2, s3.len());
}
