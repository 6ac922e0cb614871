use radix_spline::{Builder, RadixSpline};

fn index_over(data: &[u32], err: Option<usize>) -> RadixSpline {
    let mut b = Builder::new(data[0], data[data.len() - 1]);
    if let Some(e) = err {
        b.with_error(e);
    }
    for &v in data {
        b.push(v);
    }
    b.build()
}

fn scattered() -> Vec<u32> {
    let mut vs: Vec<u32> = (0..10000)
        .map(|v| ((v as f32 * 377.98).fract().sin() + 1.) * 4500.)
        .map(|v| v as u32)
        .collect();
    vs.push(8128);
    vs.sort_unstable();
    vs
}

fn range_holds(data: &[u32], rs: &RadixSpline, key: u32) -> bool {
    let (start, end) = rs.search_bound(&key);
    data[start..end].contains(&key)
}

#[test]
fn evenly_spaced_keys() {
    let data = [0u32, 10, 20, 30, 40];
    let rs = index_over(&data, Some(1));
    let (s, e) = rs.search_bound(&20);
    assert!(data[s..e].contains(&20));
    assert!(e - s <= 5);
    assert_eq!((s, e), (1, 5));
}

#[test]
fn one_key_many_times() {
    let data = [5u32, 5, 5, 5, 5];
    let rs = index_over(&data, None);
    assert_eq!(rs.num_points(), 5);
    let (s, e) = rs.search_bound(&5);
    assert_eq!((s, e), (0, 5));
    for i in 0..5 {
        assert!(s <= i && i < e);
    }
    // the smallest key of the range has the estimate 0, also where it is the greatest
    let est = rs.get_estimated_position(&5);
    assert_eq!((est.whole, est.rem, est.den), (0, 0, 1));
    let above = rs.get_estimated_position(&6);
    assert_eq!((above.whole, above.rem, above.den), (4, 0, 1));
    let below = rs.get_estimated_position(&4);
    assert_eq!((below.whole, below.rem, below.den), (0, 0, 1));
}

#[test]
fn two_keys_far_apart() {
    let data = [0u32, 1_000_000];
    let rs = index_over(&data, None);
    let est = rs.get_estimated_position(&500_000);
    assert_eq!((est.whole, est.rem, est.den), (0, 500_000, 1_000_000));
    let value = est.whole as f64 + est.rem as f64 / est.den as f64;
    assert!((value - 0.5).abs() <= 32.0);
    assert_eq!(value, 0.5);
    let (s, e) = rs.search_bound(&500_000);
    assert_eq!((s, e), (0, 2));
    assert!(!data[s..e].contains(&500_000));
    assert!(e - s <= 2 * 32 + 2);
}

#[test]
fn scattered_keys_find_8128() {
    let data = scattered();
    assert_eq!(data.len(), 10001);
    let rs = index_over(&data, None);
    let (s, e) = rs.search_bound(&8128);
    assert!(data[s..e].contains(&8128));
}

#[test]
fn query_any() {
    let data = scattered();
    let rs = index_over(&data, None);
    let mut a: u32 = 0;
    for _ in 0..3000 {
        assert_eq!(range_holds(&data, &rs, a), data.contains(&a), "key {}", a);
        a = a.wrapping_mul(1_664_525).wrapping_add(1_013_904_223);
    }
    for a in 4400u32..8400 {
        assert_eq!(range_holds(&data, &rs, a), data.contains(&a), "key {}", a);
    }
}

#[test]
fn query_in() {
    let data = scattered();
    let rs = index_over(&data, None);
    let mut a: u32 = 1;
    for _ in 0..3000 {
        let idx = (data.len() as f32) * (1. + (a as f32).sin()) / 2.;
        let key = data[(idx as usize).min(data.len() - 1)];
        assert_eq!(range_holds(&data, &rs, key), data.contains(&key), "key {}", key);
        a = a.wrapping_mul(1_664_525).wrapping_add(1_013_904_223);
    }
    for &key in &data {
        assert!(range_holds(&data, &rs, key), "key {}", key);
    }
}

#[test]
fn multiples_of_seven() {
    let data: Vec<u32> = (0..1000).map(|i| i * 7).collect();
    let rs = index_over(&data, Some(4));
    let mut k: u32 = 12345;
    for _ in 0..100 {
        let probe = k % 7100;
        assert_eq!(range_holds(&data, &rs, probe), data.contains(&probe), "key {}", probe);
        let (s, e) = rs.search_bound(&probe);
        assert!(s <= e && e <= data.len());
        assert!(e - s <= 2 * 4 + 2);
        k = k.wrapping_mul(1_103_515_245).wrapping_add(12345);
    }
}

#[test]
fn every_key_twice() {
    let mut data: Vec<u32> = Vec::new();
    for k in 0..100u32 {
        data.push(k);
        data.push(k);
    }
    let rs = index_over(&data, None);
    for k in 0..100u32 {
        let (s, e) = rs.search_bound(&k);
        let first = 2 * k as usize;
        assert!(s <= first && first + 1 < e, "key {}", k);
        assert_eq!(data[first], k);
        assert_eq!(data[first + 1], k);
    }
}
