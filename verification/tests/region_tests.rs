use ftg::region::Region;

#[test]
fn region_len_is_last_minus_begin_plus_one() {
    let r = Region::ii(3, 7);
    assert_eq!(r.len(), 5);
    let unit = Region::unit(4);
    assert_eq!(unit.len(), 1);
    assert_eq!(unit.begin(), 4);
    assert_eq!(unit.last(), 4);
}

#[test]
fn try_ii_rejects_inverted_ranges() {
    assert!(Region::try_ii(5, 3).is_none());
    let r = Region::try_ii(3, 5).unwrap();
    assert_eq!(r.begin(), 3);
    assert_eq!(r.last(), 5);
    assert!(!r.reversed());
}

#[test]
fn try_ie_is_end_exclusive() {
    let r = Region::try_ie(2, 5).unwrap();
    assert_eq!(r.begin(), 2);
    assert_eq!(r.last(), 4);
    assert!(Region::try_ie(5, 5).is_none());
    assert!(Region::try_ie(5, 2).is_none());
    // an empty range is empty at offset zero too
    assert!(Region::try_ie(0, 0).is_none());
}

#[test]
fn end_exclusive_is_one_past_last() {
    let r = Region::ii(2, 9);
    assert_eq!(r.end_exclusive(), 10);
}

#[test]
fn intersect_of_overlapping_regions() {
    let a = Region::ii(2, 6);
    let b = Region::ii(4, 9);
    let i = a.intersect(&b).unwrap();
    assert_eq!(i.begin(), 4);
    assert_eq!(i.last(), 6);
}

#[test]
fn intersect_of_disjoint_regions_is_empty() {
    let a = Region::ii(2, 3);
    let b = Region::ii(5, 9);
    assert!(a.intersect(&b).is_none());
}

#[test]
fn translate_round_trip_is_identity() {
    let r = Region::ii(5, 8);
    let back = r.translate_by(3).translate_by(-3);
    assert_eq!(back.begin(), 5);
    assert_eq!(back.last(), 8);
}

#[test]
fn translate_saturates_at_zero() {
    let r = Region::ii(1, 4);
    let moved = r.translate_by(-3);
    assert_eq!(moved.begin(), 0);
    assert_eq!(moved.last(), 1);
    // saturation at zero loses the distance, so the round trip does not
    // restore the original begin
    let back = moved.translate_by(3);
    assert_eq!(back.begin(), 3);
    assert_eq!(back.last(), 4);
}

#[test]
fn try_with_begin_keeps_last() {
    let r = Region::ii(2, 8);
    let s = r.try_with_begin(5).unwrap();
    assert_eq!(s.begin(), 5);
    assert_eq!(s.last(), 8);
    assert!(r.try_with_begin(9).is_none());
}
