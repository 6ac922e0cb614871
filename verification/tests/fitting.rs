use radix_spline::{orient, shift_bits, Builder, Coordinate, Orientation, RadixSpline};

fn fitted(min: u32, max: u32, err: usize, data: &[u32]) -> RadixSpline {
    let mut b = Builder::new(min, max);
    b.with_error(err);
    for &v in data {
        b.push(v);
    }
    b.build()
}

fn knots_of(rs: &RadixSpline) -> Vec<(u32, usize)> {
    rs.spline_points().iter().map(|c: &Coordinate| (c.x, c.y)).collect()
}

#[test]
fn shift_keeps_ten_bits() {
    assert_eq!(shift_bits(0, 10), 0);
    assert_eq!(shift_bits(1, 10), 0);
    assert_eq!(shift_bits(1023, 10), 0);
    assert_eq!(shift_bits(1024, 10), 1);
    assert_eq!(shift_bits(1_000_000, 10), 10);
    assert_eq!(shift_bits(1 << 20, 10), 11);
    assert_eq!(shift_bits(u32::MAX, 10), 22);
}

#[test]
fn shift_for_other_widths() {
    assert_eq!(shift_bits(u32::MAX, 0), 32);
    assert_eq!(shift_bits(u32::MAX, 32), 0);
    assert_eq!(shift_bits(u32::MAX, 40), 0);
    assert_eq!(shift_bits(0x8000, 4), 12);
    assert_eq!(shift_bits(0x8000, 16), 0);
}

#[test]
fn shifted_width_fits_the_radix_bits() {
    let widths = [0u32, 1, 2, 1023, 1024, 1025, 65_535, 65_536, 1 << 22, (1 << 31) - 1, 1 << 31, u32::MAX];
    for bits in 1..32u32 {
        for &diff in &widths {
            let shift = shift_bits(diff, bits);
            assert!(shift < 32);
            assert!((diff >> shift) < (1u32 << bits), "width {} bits {}", diff, bits);
        }
    }
}

#[test]
fn orientation_by_signed_area() {
    // slope 1 against slope 1/2, and back
    assert_eq!(orient(2, 2, 2, 1), Orientation::Clockwise);
    assert_eq!(orient(2, 1, 2, 2), Orientation::Counterclockwise);
    assert_eq!(orient(1, 2, 3, 6), Orientation::Linear);
    assert_eq!(orient(10, 0, 5, -1), Orientation::Clockwise);
    assert_eq!(orient(0, 0, 7, 9), Orientation::Linear);
    let wide: i128 = 0xffff_ffff;
    let high: i128 = 0x1_ffff_ffff_ffff_fffe;
    assert_eq!(orient(wide, high, wide, high - 1), Orientation::Clockwise);
    assert_eq!(orient(wide, high - 1, wide, high), Orientation::Counterclockwise);
}

#[test]
fn straight_data_needs_two_knots() {
    let rs = fitted(0, 40, 1, &[0, 10, 20, 30, 40]);
    assert_eq!(knots_of(&rs), vec![(0, 0), (40, 4)]);
    assert_eq!(rs.num_points(), 5);
    assert_eq!(rs.max_error(), 1);
    let est = rs.get_estimated_position(&20);
    assert_eq!((est.whole, est.rem, est.den), (2, 0, 40));
    let est = rs.get_estimated_position(&15);
    assert_eq!((est.whole, est.rem, est.den), (1, 20, 40));
    assert_eq!(rs.search_bound(&15), (0, 4));
    assert_eq!(rs.search_bound(&40), (3, 5));
    assert_eq!(rs.search_bound(&0), (0, 3));
}

#[test]
fn a_bend_becomes_a_knot() {
    let data = [0u32, 1, 2, 3, 4, 100, 200, 300];
    let rs = fitted(0, 300, 1, &data);
    assert_eq!(knots_of(&rs), vec![(0, 0), (4, 4), (300, 7)]);
    let est = rs.get_estimated_position(&100);
    assert_eq!((est.whole, est.rem, est.den), (4, 288, 296));
    assert_eq!(rs.search_bound(&100), (3, 7));
    let est = rs.get_estimated_position(&2);
    assert_eq!((est.whole, est.rem, est.den), (2, 0, 4));
    // a key at a knot gets the rank of the knot
    let est = rs.get_estimated_position(&4);
    assert_eq!((est.whole, est.rem, est.den), (4, 0, 4));
    let table = rs.radix_table();
    assert_eq!(table.len(), 302);
    assert_eq!(table[0], 0);
    for p in 1..=4 {
        assert_eq!(table[p], 1);
    }
    for p in 5..=300 {
        assert_eq!(table[p], 2);
    }
    assert_eq!(table[301], 3);
}

#[test]
fn default_error_is_32() {
    let data: Vec<u32> = (0..200u32).map(|i| i * i).collect();
    let mut b = Builder::new(0, 199 * 199);
    for &v in &data {
        b.push(v);
    }
    let rs = b.build();
    assert_eq!(rs.max_error(), 32);
    let same = fitted(0, 199 * 199, 32, &data);
    assert_eq!(knots_of(&rs), knots_of(&same));
    let tight = fitted(0, 199 * 199, 0, &data);
    assert_eq!(tight.spline_points().len(), 200);
    assert!(rs.spline_points().len() < 200);
    let loose = fitted(0, 199 * 199, 1000, &data);
    assert_eq!(knots_of(&loose), vec![(0, 0), (199 * 199, 199)]);
}

#[test]
fn bounds_change_places() {
    let data = [0u32, 1, 2, 3, 4, 100, 200, 300];
    let straight = fitted(0, 300, 1, &data);
    let swapped = fitted(300, 0, 1, &data);
    assert_eq!(knots_of(&straight), knots_of(&swapped));
    assert_eq!(straight.radix_table(), swapped.radix_table());
    assert_eq!(swapped.search_bound(&0), (0, 3));
    assert_eq!(swapped.search_bound(&300), (6, 8));
}

#[test]
fn repeated_keys_are_counted_not_fitted() {
    let rs = fitted(0, 9, 1, &[0, 0, 0, 3, 3, 6, 9]);
    assert_eq!(rs.num_points(), 7);
    // ranks of the first occurrences: 0, 3, 5, 6; the key 9 lies on the
    // lower ray of the cone, not inside it, so 6 becomes a knot
    assert_eq!(knots_of(&rs), vec![(0, 0), (6, 5), (9, 6)]);
    let est = rs.get_estimated_position(&3);
    assert_eq!((est.whole, est.rem, est.den), (2, 3, 6));
    let est = rs.get_estimated_position(&6);
    assert_eq!((est.whole, est.rem, est.den), (5, 0, 6));
    let est = rs.get_estimated_position(&8);
    assert_eq!((est.whole, est.rem, est.den), (5, 2, 3));
}

#[test]
fn closing_knot_takes_the_last_rank() {
    let mut data = vec![0u32, 10];
    for _ in 0..1000 {
        data.push(20);
    }
    let rs = fitted(0, 20, 1, &data);
    assert_eq!(rs.num_points(), 1002);
    assert_eq!(knots_of(&rs), vec![(0, 0), (20, 1001)]);
    let est = rs.get_estimated_position(&10);
    assert_eq!((est.whole, est.rem, est.den), (500, 10, 20));
    assert_eq!(rs.search_bound(&10), (499, 503));
    assert_eq!(rs.search_bound(&20), (1000, 1002));
    assert_eq!(rs.search_bound(&0), (0, 3));
}

#[test]
fn building_twice_gives_the_same_index() {
    let data: Vec<u32> = (0..500u32).map(|i| i * i % 1000 + i * 1000).collect();
    let a = fitted(0, 600_000, 3, &data);
    let b = fitted(0, 600_000, 3, &data);
    assert_eq!(knots_of(&a), knots_of(&b));
    assert_eq!(a.radix_table(), b.radix_table());
    assert_eq!(a.num_points(), b.num_points());
    assert_eq!(a.max_error(), b.max_error());
    for k in (0..600_000u32).step_by(997) {
        assert_eq!(a.search_bound(&k), b.search_bound(&k));
    }
}

#[test]
fn without_keys_the_index_is_empty() {
    let rs = Builder::new(3, 900).build();
    assert_eq!(rs.num_points(), 0);
    assert_eq!(rs.max_error(), 0);
    assert_eq!(rs.spline_points().len(), 0);
    assert_eq!(rs.radix_table().len(), 0);
    for k in [0u32, 3, 500, 900, u32::MAX] {
        assert_eq!(rs.search_bound(&k), (0, 0));
        let est = rs.get_estimated_position(&k);
        assert_eq!((est.whole, est.rem, est.den), (0, 0, 1));
    }
    let rs = RadixSpline::default();
    assert_eq!(rs.num_points(), 0);
    assert_eq!(rs.search_bound(&7), (0, 0));
}

#[test]
fn last_key_twice_costs_less_than_one() {
    let data = [0u32, 9, 10, 10];
    let rs = fitted(0, 10, 1, &data);
    // fitted up to (10, 2), closed at (10, 3)
    assert_eq!(knots_of(&rs), vec![(0, 0), (10, 3)]);
    let est = rs.get_estimated_position(&9);
    assert_eq!((est.whole, est.rem, est.den), (2, 7, 10));
    let (s, e) = rs.search_bound(&9);
    assert_eq!((s, e), (1, 4));
    assert!(data[s..e].contains(&9));
}

#[test]
fn last_key_thrice_may_hide_a_key() {
    let data = [0u32, 9, 10, 10, 10];
    let rs = fitted(0, 10, 1, &data);
    // fitted up to (10, 2), closed at (10, 4): two ranks of drift
    assert_eq!(knots_of(&rs), vec![(0, 0), (10, 4)]);
    let est = rs.get_estimated_position(&9);
    assert_eq!((est.whole, est.rem, est.den), (3, 6, 10));
    // 3.6 lies within 1 + 2 * (1 - 1/10) of the rank 1
    assert!((est.whole * 10 + est.rem as usize) - 10 <= 10 + 2 * 9);
    let (s, e) = rs.search_bound(&9);
    assert_eq!((s, e), (2, 5));
    assert!(!data[s..e].contains(&9));
    // the last key itself is found
    let (s, e) = rs.search_bound(&10);
    assert_eq!((s, e), (3, 5));
}
