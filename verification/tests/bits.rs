use kernelkit::regex::bits::Bits;

#[test]
fn iterates_area_over_zeroes_positive() {
    let bits = Bits::new();
    let mut iterator = bits.area(false);

    assert_eq!(iterator.next(), None);
}

#[test]
fn iterates_area_over_zeroes_negative() {
    let bits = Bits::new();
    let mut iterator = bits.area(true);

    assert_eq!(iterator.next(), Some((1, 255)));
    assert_eq!(iterator.next(), None);
}

#[test]
fn iterates_area_over_single_bit_positive() {
    let mut bits = Bits::new();
    bits.set(17);

    let mut iterator = bits.area(false);

    assert_eq!(iterator.next(), Some((17, 17)));
    assert_eq!(iterator.next(), None);
}

#[test]
fn iterates_area_over_single_bit_negative() {
    let mut bits = Bits::new();
    bits.set(17);

    let mut iterator = bits.area(true);

    assert_eq!(iterator.next(), Some((1, 16)));
    assert_eq!(iterator.next(), Some((18, 255)));
    assert_eq!(iterator.next(), None);
}

#[test]
fn iterates_area_over_adjacent_bits_positive() {
    let mut bits = Bits::new();

    bits.set(17);
    bits.set(18);

    let mut iterator = bits.area(false);

    assert_eq!(iterator.next(), Some((17, 18)));
    assert_eq!(iterator.next(), None);
}

#[test]
fn iterates_area_over_adjacent_bits_negative() {
    let mut bits = Bits::new();

    bits.set(17);
    bits.set(18);

    let mut iterator = bits.area(true);

    assert_eq!(iterator.next(), Some((1, 16)));
    assert_eq!(iterator.next(), Some((19, 255)));
    assert_eq!(iterator.next(), None);
}

#[test]
fn iterates_area_over_disconnected_bits_positive() {
    let mut bits = Bits::new();

    bits.set(17);
    bits.set(27);

    let mut iterator = bits.area(false);

    assert_eq!(iterator.next(), Some((17, 17)));
    assert_eq!(iterator.next(), Some((27, 27)));
    assert_eq!(iterator.next(), None);
}

#[test]
fn iterates_area_over_disconnected_bits_negative() {
    let mut bits = Bits::new();

    bits.set(17);
    bits.set(27);

    let mut iterator = bits.area(true);

    assert_eq!(iterator.next(), Some((1, 16)));
    assert_eq!(iterator.next(), Some((18, 26)));
    assert_eq!(iterator.next(), Some((28, 255)));
    assert_eq!(iterator.next(), None);
}

#[test]
fn iterates_edge_over_zeroes() {
    let bits = Bits::new();
    let mut iterator = bits.edge();

    assert_eq!(iterator.next(), None);
}

#[test]
fn iterates_edge_over_single_region() {
    let mut bits = Bits::new();

    bits.set(20);
    bits.set(41);

    let mut iterator = bits.edge();

    assert_eq!(iterator.next(), Some((20, 40)));
    assert_eq!(iterator.next(), None);
}

#[test]
fn iterates_edge_over_single_region_everything() {
    let mut bits = Bits::new();

    bits.set(1);
    bits.set(255);

    let mut iterator = bits.edge();

    assert_eq!(iterator.next(), Some((1, 255)));
    assert_eq!(iterator.next(), None);
}

#[test]
fn iterates_edge_over_two_regions() {
    let mut bits = Bits::new();

    bits.set(20);
    bits.set(41);
    bits.set(60);
    bits.set(81);

    let mut iterator = bits.edge();

    assert_eq!(iterator.next(), Some((20, 40)));
    assert_eq!(iterator.next(), Some((41, 59)));
    assert_eq!(iterator.next(), Some((60, 80)));
    assert_eq!(iterator.next(), None);
}

#[test]
fn iterates_edge_over_two_regions_overlapping() {
    let mut bits = Bits::new();

    bits.set(20);
    bits.set(61);
    bits.set(40);
    bits.set(81);

    let mut iterator = bits.edge();

    assert_eq!(iterator.next(), Some((20, 39)));
    assert_eq!(iterator.next(), Some((40, 60)));
    assert_eq!(iterator.next(), Some((61, 80)));
    assert_eq!(iterator.next(), None);
}

#[test]
fn iterates_area_over_runs_touching_both_ends() {
    let mut bits = Bits::new();

    for idx in 1..=3u8 {
        bits.set(idx);
    }
    bits.set(100);
    for idx in 250..=255u8 {
        bits.set(idx);
    }

    let mut iterator = bits.area(false);

    assert_eq!(iterator.next(), Some((1, 3)));
    assert_eq!(iterator.next(), Some((100, 100)));
    assert_eq!(iterator.next(), Some((250, 255)));
    assert_eq!(iterator.next(), None);

    let mut iterator = bits.area(true);

    assert_eq!(iterator.next(), Some((4, 99)));
    assert_eq!(iterator.next(), Some((101, 249)));
    assert_eq!(iterator.next(), None);
}

#[test]
fn iterates_edge_over_one_value() {
    let mut bits = Bits::new();

    bits.set(40);

    let mut iterator = bits.edge();

    assert_eq!(iterator.next(), None);
}

#[test]
fn iterates_edge_ending_at_the_last_value() {
    let mut bits = Bits::new();

    bits.set(7);
    bits.set(9);
    bits.set(255);

    let mut iterator = bits.edge();

    assert_eq!(iterator.next(), Some((7, 8)));
    assert_eq!(iterator.next(), Some((9, 255)));
    assert_eq!(iterator.next(), None);
}
