use ftg::region::Region;
use ftg::selection::Selection;

fn begins_lasts(sel: &Selection) -> Vec<(usize, usize)> {
    sel.iter().iter().map(|r| (r.begin, r.last)).collect()
}

fn no_two_touch(sel: &Selection) {
    let rs = sel.iter();
    for i in 0..rs.len() {
        for j in (i + 1)..rs.len() {
            // separated by at least one offset: neither touching nor
            // overlapping
            assert!(rs[i].last + 1 < rs[j].begin);
        }
    }
}

#[test]
fn disjoint_regions_stay_separate() {
    let mut sel = Selection::new();
    sel.insert(Region::ii(0, 2));
    sel.insert(Region::ii(10, 12));
    sel.insert(Region::ii(5, 6));
    assert_eq!(begins_lasts(&sel), vec![(0, 2), (5, 6), (10, 12)]);
    no_two_touch(&sel);
}

#[test]
fn overlapping_regions_merge() {
    let mut sel = Selection::new();
    sel.insert(Region::ii(0, 5));
    sel.insert(Region::ii(3, 9));
    assert_eq!(begins_lasts(&sel), vec![(0, 9)]);
    no_two_touch(&sel);
}

#[test]
fn touching_regions_merge() {
    let mut sel = Selection::new();
    sel.insert(Region::ii(0, 4));
    sel.insert(Region::ii(5, 8));
    assert_eq!(begins_lasts(&sel), vec![(0, 8)]);
    no_two_touch(&sel);
}

#[test]
fn bridging_region_merges_both_sides() {
    let mut sel = Selection::new();
    sel.insert(Region::ii(0, 2));
    sel.insert(Region::ii(8, 10));
    sel.insert(Region::ii(3, 7));
    assert_eq!(begins_lasts(&sel), vec![(0, 10)]);
    no_two_touch(&sel);
}

#[test]
fn repeated_inserts_never_touch() {
    let mut sel = Selection::new();
    for begin in [14usize, 0, 7, 15, 2, 6, 30, 13].iter() {
        sel.insert(Region::ii(*begin, begin + 2));
        no_two_touch(&sel);
    }
}

#[test]
fn untouched_regions_keep_their_flag() {
    let mut sel = Selection::new();
    sel.insert(Region { begin: 0, last: 2, reversed: true });
    sel.insert(Region::ii(10, 12));
    let rs = sel.iter();
    assert!(rs[0].reversed);
    assert!(!rs[1].reversed);
}
