use onebrc::{Stats, StatsTable};

fn stats(min: i64, max: i64, sum: i128, count: u64) -> Stats {
    Stats { min, max, sum, count }
}

#[test]
fn test_line_parser_from_buffer() {
    let buff_input = String::from("Ranst;-13.7");
    let mut my_map = StatsTable::new();

    my_map.process_block(buff_input.as_bytes()).unwrap();

    assert_eq!(my_map.num_keys(), 1);
    assert_eq!(my_map.get(b"Ranst").unwrap(), Stats::new(-137));

    let buff_input = String::from("Ranst;2.7");

    my_map.process_block(buff_input.as_bytes()).unwrap();

    assert_eq!(my_map.num_keys(), 1);

    let buff_input = String::from("Longhua;-5.3");

    my_map.process_block(buff_input.as_bytes()).unwrap();

    assert_eq!(my_map.num_keys(), 2);

    assert_eq!(my_map.get(b"Longhua").unwrap(), Stats::new(-53));

    let stats = Stats { min: -137, max: 27, sum: -110, count: 2 };
    assert_eq!(my_map.get(b"Ranst").unwrap(), stats);
}

#[test]
fn accumulator_tracks_min_max_sum_count() {
    let mut st = Stats::new(50);
    st.fold(-30);
    st.fold(120);
    st.fold(0);
    assert_eq!(st, stats(-30, 120, 140, 4));
}

#[test]
fn fold_order_does_not_change_stats() {
    let values = [7i64, -3, 42, 0, -3, 19];
    let mut a = Stats::new(values[0]);
    for v in &values[1..] {
        a.fold(*v);
    }
    let mut rev: Vec<i64> = values.to_vec();
    rev.reverse();
    let mut b = Stats::new(rev[0]);
    for v in &rev[1..] {
        b.fold(*v);
    }
    assert_eq!(a, b);
}

#[test]
fn combine_two_worker_accumulators() {
    // A key seen by two workers: one saw -13.7 and 2.7, the other -5.3.
    let a = stats(-137, 27, -110, 2);
    let b = stats(-53, -53, -53, 1);
    let merged = a.combine(&b);
    assert_eq!(merged, stats(-137, 27, -163, 3));
    // Combining in the other order gives the identical accumulator.
    assert_eq!(b.combine(&a), merged);
}

#[test]
fn combine_is_associative() {
    let a = stats(-10, 5, -3, 2);
    let b = stats(0, 80, 95, 3);
    let c = stats(-99, -12, -140, 4);
    assert_eq!(a.combine(&b).combine(&c), a.combine(&b.combine(&c)));
}

#[test]
fn merge_tables_combines_shared_keys() {
    let mut a = StatsTable::new();
    a.process_block(b"Ranst;-13.7\nRanst;2.7\n").unwrap();
    let mut b = StatsTable::new();
    b.process_block(b"Ranst;-5.3\nLonghua;-5.3\n").unwrap();

    a.merge_from(&b);
    assert_eq!(a.num_keys(), 2);
    assert_eq!(a.get(b"Ranst").unwrap(), stats(-137, 27, -163, 3));
    assert_eq!(a.get(b"Longhua").unwrap(), Stats::new(-53));
    assert_eq!(a.total(), 4);
}

#[test]
fn merge_order_does_not_change_result() {
    let blocks: [&[u8]; 3] = [
        b"x;1.0\ny;2.0\n",
        b"y;-4.5\nz;0.0\n",
        b"x;3.3\nz;9.9\nx;-1.1\n",
    ];
    // One worker processes everything.
    let mut alone = StatsTable::new();
    for b in &blocks {
        alone.process_block(b).unwrap();
    }
    // Three workers process one block each; merge in two orders.
    let mut parts: Vec<StatsTable> = Vec::new();
    for b in &blocks {
        let mut t = StatsTable::new();
        t.process_block(b).unwrap();
        parts.push(t);
    }
    let mut fwd = StatsTable::new();
    for p in &parts {
        fwd.merge_from(p);
    }
    let mut bwd = StatsTable::new();
    for p in parts.iter().rev() {
        bwd.merge_from(p);
    }
    for key in [b"x".as_slice(), b"y".as_slice(), b"z".as_slice()] {
        assert_eq!(fwd.get(key), alone.get(key));
        assert_eq!(bwd.get(key), alone.get(key));
    }
    assert_eq!(fwd.num_keys(), 3);
    assert_eq!(bwd.num_keys(), 3);
    assert_eq!(fwd.total(), alone.total());
}

#[test]
fn get_of_unknown_key_is_none() {
    let t = StatsTable::new();
    assert_eq!(t.get(b"nothing"), None);
    assert_eq!(t.num_keys(), 0);
    assert_eq!(t.total(), 0);
}
