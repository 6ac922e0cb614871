use radix_spline::{Builder, Estimate, RadixSpline};

fn fitted(min: u32, max: u32, err: usize, data: &[u32]) -> RadixSpline {
    let mut b = Builder::new(min, max);
    b.with_error(err);
    for &v in data {
        b.push(v);
    }
    b.build()
}

fn no_greater(a: &Estimate, b: &Estimate) -> bool {
    let left = (a.whole as u128 * a.den as u128 + a.rem as u128) * b.den as u128;
    let right = (b.whole as u128 * b.den as u128 + b.rem as u128) * a.den as u128;
    left <= right
}

fn bumpy() -> Vec<u32> {
    let mut data: Vec<u32> = Vec::new();
    let mut x: u32 = 17;
    let mut step: u32 = 1;
    for i in 0..3000u32 {
        data.push(x);
        if i % 5 == 0 {
            data.push(x);
        }
        step = step.wrapping_mul(75).wrapping_add(74) % 65537;
        x += 1 + step % 977;
    }
    data
}

#[test]
fn ends_are_pinned() {
    let data = [100u32, 150, 160, 900];
    let rs = fitted(100, 900, 2, &data);
    for k in [0u32, 50, 99, 100] {
        let est = rs.get_estimated_position(&k);
        assert_eq!((est.whole, est.rem, est.den), (0, 0, 1));
    }
    for k in [900u32, 901, 5000, u32::MAX] {
        let est = rs.get_estimated_position(&k);
        assert_eq!((est.whole, est.rem, est.den), (3, 0, 1));
    }
    assert_eq!(rs.search_bound(&0), (0, 4));
    assert_eq!(rs.search_bound(&u32::MAX), (1, 4));
}

#[test]
fn keys_outside_the_knots() {
    // the range is wider than the data on both sides
    let data = [1000u32, 1010, 1020, 1030];
    let rs = fitted(0, 1_000_000, 1, &data);
    let est = rs.get_estimated_position(&500);
    assert_eq!((est.whole, est.rem, est.den), (0, 0, 1));
    let est = rs.get_estimated_position(&1000);
    assert_eq!((est.whole, est.rem, est.den), (0, 0, 1));
    let est = rs.get_estimated_position(&1030);
    assert_eq!((est.whole, est.rem, est.den), (3, 0, 30));
    let est = rs.get_estimated_position(&1031);
    assert_eq!((est.whole, est.rem, est.den), (3, 0, 1));
    let est = rs.get_estimated_position(&999_999);
    assert_eq!((est.whole, est.rem, est.den), (3, 0, 1));
    assert_eq!(rs.search_bound(&999_999), (2, 4));
    assert_eq!(rs.search_bound(&500), (0, 3));
}

#[test]
fn estimates_never_decrease() {
    let data = bumpy();
    let rs = fitted(0, *data.last().unwrap() + 1000, 5, &data);
    let mut before = rs.get_estimated_position(&0);
    let top = *data.last().unwrap() + 2000;
    let mut k: u32 = 0;
    while k < top {
        let now = rs.get_estimated_position(&k);
        assert!(now.rem < now.den);
        assert!(no_greater(&before, &now), "key {}", k);
        before = now;
        k += 1 + k % 3;
    }
}

#[test]
fn estimate_stays_within_the_error() {
    let data: Vec<u32> = bumpy();
    for err in [0usize, 1, 5, 32] {
        // the last key of this data occurs once
        let rs = fitted(data[0], *data.last().unwrap(), err, &data);
        for (rank, &key) in data.iter().enumerate() {
            if rank > 0 && data[rank - 1] == key {
                continue;
            }
            let est = rs.get_estimated_position(&key);
            let num = est.whole as i128 * est.den as i128 + est.rem as i128;
            let off = num - rank as i128 * est.den as i128;
            assert!(off.abs() <= err as i128 * est.den as i128, "key {} error {}", key, err);
            let (s, e) = rs.search_bound(&key);
            assert!(s <= rank && rank < e);
            assert!(e - s <= 2 * err + 2);
        }
    }
}

#[test]
fn range_tells_presence() {
    let data = bumpy();
    let rs = fitted(data[0], *data.last().unwrap(), 3, &data);
    let top = *data.last().unwrap() + 50;
    for k in 0..top {
        let (s, e) = rs.search_bound(&k);
        assert!(s <= e && e <= data.len());
        assert_eq!(data[s..e].contains(&k), data.binary_search(&k).is_ok(), "key {}", k);
    }
}

#[test]
fn large_buckets_are_bisected() {
    // all keys share the prefix 0, and with no error every key is a knot
    let data: Vec<u32> = (0..200u32).map(|i| i * i).collect();
    let rs = fitted(0, u32::MAX, 0, &data);
    assert_eq!(rs.spline_points().len(), 200);
    let table = rs.radix_table();
    assert_eq!(table.len(), 1025);
    assert_eq!(table[0], 0);
    for p in 1..1025 {
        assert_eq!(table[p], 200);
    }
    for (rank, &key) in data.iter().enumerate() {
        let est = rs.get_estimated_position(&key);
        if rank == 0 {
            assert_eq!((est.whole, est.rem), (0, 0));
        } else {
            assert_eq!((est.whole, est.rem, est.den), (rank, 0, (2 * rank - 1) as u32));
        }
        assert_eq!(rs.search_bound(&key), (rank, (rank + 2).min(200)));
    }
    let est = rs.get_estimated_position(&5);
    assert_eq!((est.whole, est.rem, est.den), (2, 1, 5));
    let est = rs.get_estimated_position(&39_000);
    assert_eq!((est.whole, est.rem, est.den), (197, 191, 395));
    let est = rs.get_estimated_position(&40_000);
    assert_eq!((est.whole, est.rem, est.den), (199, 0, 1));
}

#[test]
fn small_buckets_are_scanned() {
    // prefixes of 22 bits less: a few knots in each bucket
    let data: Vec<u32> = (0..4000u32).map(|i| i * 1_000_000 + (i * i) % 999_983).collect();
    let rs = fitted(0, u32::MAX, 0, &data);
    let table = rs.radix_table();
    assert_eq!(table.len(), 1025);
    assert_eq!(table[0], 0);
    assert_eq!(table[1024], rs.spline_points().len());
    for p in 1..table.len() {
        assert!(table[p - 1] <= table[p]);
        assert!(table[p] - table[p - 1] < 32);
    }
    let knots = rs.spline_points();
    for p in 0..1024usize {
        for i in table[p]..table[p + 1] {
            assert_eq!((knots[i].x >> 22) as usize, p);
        }
    }
    for (rank, &key) in data.iter().enumerate() {
        let (s, e) = rs.search_bound(&key);
        assert!(s <= rank && rank < e, "key {}", key);
        assert!(e - s <= 2);
    }
}
