use pointset::{cantor_pairing, cantor_unpairing, denaturalize, naturalize, PointSet};

#[test]
fn test_naturalize() {
    for (n, expected) in [(0, 0), (-1, 1), (1, 2), (-2, 3), (2, 4), (-3, 5), (3, 6)] {
        assert_eq!(naturalize(n), expected);
        assert_eq!(denaturalize(expected), n);
    }
}

#[test]
fn test_pairing() {
    for ((x, y), expected) in [
        ((0, 0), 0),
        ((0, 1), 5),
        ((0, 0), 0),
        ((-1, 0), 1),
        ((0, -1), 2),
        ((1, 0), 3),
        ((-1, -1), 4),
        ((0, 1), 5),
        ((-2, 0), 6),
        ((1, -1), 7),
        ((-1, 1), 8),
        ((0, -2), 9),
        ((2, 0), 10),
        ((-2, -1), 11),
        ((1, 1), 12),
        ((-1, -2), 13),
        ((0, 2), 14),
        ((-3, 0), 15),
        ((2, -1), 16),
        ((-2, 1), 17),
        ((1, -2), 18),
        ((-1, 2), 19),
        ((0, -3), 20),
    ] {
        assert_eq!(expected, cantor_pairing(x, y));
        assert_eq!(cantor_unpairing(expected), (x, y));
    }
}

#[test]
fn test_set() {
    let x_range = -100..=100;
    let y_range = -200..=200;
    let mut points = vec![];
    for x in x_range.clone() {
        for y in y_range.clone() {
            points.push((x, y));
        }
    }

    println!("Created {} points", points.len());

    let mut point_set = PointSet::default();
    assert_eq!(point_set.len(), 0);
    for (x, y) in points.iter() {
        point_set.insert(*x, *y);
    }

    println!("Inserted points");

    assert_eq!(points.len(), point_set.len() as usize);

    for (x, y) in points.iter() {
        assert!(point_set.contains(*x, *y));
    }

    println!("Checked affirmative points");

    for x in -1000..=1000 {
        for y in -2000..=2000 {
            assert_eq!(
                point_set.contains(x, y),
                x_range.contains(&x) && y_range.contains(&y)
            );
        }
    }

    println!("Checked broader points");
}

#[test]
fn test_index_round_trip() {
    for z in 0..5000u64 {
        let (x, y) = cantor_unpairing(z);
        assert_eq!(cantor_pairing(x, y), z);
    }
}

#[test]
fn test_zigzag_extremes() {
    assert_eq!(naturalize(i64::MIN), u64::MAX);
    assert_eq!(denaturalize(u64::MAX), i64::MIN);
    assert_eq!(naturalize(i64::MAX), u64::MAX - 1);
    assert_eq!(denaturalize(u64::MAX - 1), i64::MAX);
}

#[test]
fn test_empty_set() {
    let empty = PointSet::new();
    assert_eq!(empty.len(), 0);
    for (x, y) in [(0, 0), (1, -1), (-50, 3), (1000, 2000), (-1000, -2000)] {
        assert!(!empty.contains(x, y));
    }
    assert!(empty.iter().is_empty());
}

#[test]
fn test_insert_idempotent() {
    let mut set = PointSet::new();
    set.insert(7, -3);
    assert_eq!(set.len(), 1);
    assert!(set.contains(7, -3));
    set.insert(7, -3);
    assert_eq!(set.len(), 1);
    assert!(set.contains(7, -3));
    assert_eq!(set.iter(), vec![(7, -3)]);
}

#[test]
fn test_distinct_insert_count() {
    let mut set = PointSet::new();
    let mut expected: u64 = 0;
    for x in -7..=7 {
        for y in -9..=9 {
            set.insert(x, y);
            expected += 1;
            assert_eq!(set.len(), expected);
        }
    }
}

#[test]
fn test_union() {
    let mut a = PointSet::new();
    let mut b = PointSet::new();
    for x in 0..10 {
        a.insert(x, x + 1);
    }
    for x in 5..15 {
        b.insert(x, x + 1);
    }
    let u = a.union(&b);
    for x in -5..20 {
        for y in -5..20 {
            assert_eq!(u.contains(x, y), a.contains(x, y) || b.contains(x, y));
        }
    }
    assert_eq!(u.len(), 15);
    assert_eq!(a.len(), 10);
    assert_eq!(b.len(), 10);
}

#[test]
fn test_iter_matches_members() {
    let inserted = [(0, 0), (3, -4), (-2, 9), (100, -200), (-1, -1)];
    let mut set = PointSet::new();
    for (x, y) in inserted {
        set.insert(x, y);
    }
    let listed = set.iter();
    assert_eq!(listed.len() as u64, set.len());
    let mut sorted: Vec<(i64, i64)> = inserted.to_vec();
    sorted.sort_by_key(|&(x, y)| cantor_pairing(x, y));
    assert_eq!(listed, sorted);
    for window in listed.windows(2) {
        let here = cantor_pairing(window[0].0, window[0].1);
        let there = cantor_pairing(window[1].0, window[1].1);
        assert!(here < there);
    }
}
