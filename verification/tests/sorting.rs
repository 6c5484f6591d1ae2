use tilegame::utils::order_sort;
use tilegame::utils::sort;

/// Order-preserving integer key of a world Y coordinate, as the renderer
/// builds it from an entity's floating-point position.
fn depth_key(y: f32) -> i64 {
    let bits = y.to_bits();
    if bits & 0x8000_0000 != 0 {
        -((bits & 0x7fff_ffff) as i64)
    } else {
        bits as i64
    }
}

#[test]
fn order_sort_draws_back_to_front() {
    // entities at Y = [5.0, -3.0, 5.0, 100.0]: -3.0 paints first and 100.0
    // last, and the Y sequence along the order never decreases
    let ys_f = vec![5.0f32, -3.0, 5.0, 100.0];
    let ys: Vec<i64> = ys_f.iter().map(|y| depth_key(*y)).collect();
    let order = order_sort(&ys);
    assert_eq!(order.len(), 4);
    assert_eq!(order[0].1, 1);
    assert_eq!(order[3].1, 3);
    for i in 0..order.len() - 1 {
        assert!(ys_f[order[i].1] <= ys_f[order[i + 1].1]);
    }
    // the indices are a permutation of the entity list
    let mut seen = vec![false; 4];
    for entry in order.iter() {
        assert_eq!(entry.0, 0);
        assert_eq!(entry.2, ys[entry.1]);
        assert!(!seen[entry.1]);
        seen[entry.1] = true;
    }
}

#[test]
fn order_sort_handles_degenerate_lists() {
    let empty: Vec<i64> = Vec::new();
    let order = order_sort(&empty);
    assert_eq!(order.len(), 0);

    let one = vec![depth_key(7.25f32)];
    let order = order_sort(&one);
    assert_eq!(order.len(), 1);
    assert_eq!(order[0], (0, 0, depth_key(7.25f32)));
}

#[test]
fn order_sort_keeps_ties_stable() {
    let ys = vec![4i64, 4, 4, 1];
    let order = order_sort(&ys);
    assert_eq!(order[0].1, 3);
    assert_eq!(order[1].1, 0);
    assert_eq!(order[2].1, 1);
    assert_eq!(order[3].1, 2);
}

#[test]
fn sort_orders_entries_in_place() {
    let mut list = vec![
        (0usize, 0usize, 9i64),
        (0usize, 1usize, -2i64),
        (0usize, 2usize, 9i64),
        (0usize, 3usize, 0i64),
    ];
    sort(&mut list);
    assert_eq!(
        list,
        vec![
            (0usize, 1usize, -2i64),
            (0usize, 3usize, 0i64),
            (0usize, 0usize, 9i64),
            (0usize, 2usize, 9i64),
        ]
    );
}

#[test]
fn sort_handles_empty_and_single() {
    let mut empty: Vec<(usize, usize, i64)> = Vec::new();
    sort(&mut empty);
    assert_eq!(empty.len(), 0);

    let mut one = vec![(0usize, 0usize, 42i64)];
    sort(&mut one);
    assert_eq!(one, vec![(0usize, 0usize, 42i64)]);
}

#[test]
fn depth_keys_preserve_float_order() {
    let samples = vec![-100.0f32, -3.5, -0.0, 0.0, 0.25, 5.0, 99.75, 100.0];
    for i in 0..samples.len() - 1 {
        assert!(depth_key(samples[i]) <= depth_key(samples[i + 1]));
    }
}
