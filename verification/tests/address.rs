use arthouse::address::DmxAddress;

#[test]
fn addresses() {
    // Notice the extra 9th bit, here -------v
    assert_eq!(DmxAddress::new(2, 3).0, 0b10_000000011);
    assert_eq!(DmxAddress::new(2, 3).universe(), 2);
    assert_eq!(DmxAddress::new(2, 3).channel(), 3);
    assert_eq!(<(usize, usize)>::from(DmxAddress::default()), (0, 0));
    assert_eq!(<(usize, usize)>::from(DmxAddress::new(16, 510) + 3), (17, 1));
}

#[test]
fn carry() {
    assert_eq!(DmxAddress::new(0, 511) + 1, DmxAddress::new(1, 0));
    assert_eq!(DmxAddress::new(0, 512), DmxAddress::new(0, 0));
    assert_eq!(DmxAddress::new(1, 2) + 1025, DmxAddress::new(3, 3));
}

#[test]
fn value_is_the_linear_position() {
    assert_eq!(DmxAddress::new(0, 0).value(), 0);
    assert_eq!(DmxAddress::new(3, 7).value(), 3 * 512 + 7);
    assert_eq!(DmxAddress::new(1, 511).value(), 1023);
    assert_eq!(DmxAddress::from(1023usize).universe(), 1);
    assert_eq!(DmxAddress::from(1023usize).channel(), 511);
}

#[test]
fn channels_from_256_up_keep_their_universe() {
    for channel in [255usize, 256, 257, 300, 511] {
        let address = DmxAddress::new(5, channel);
        assert_eq!(address.universe(), 5);
        assert_eq!(address.channel(), channel);
    }
}

#[test]
fn new_truncates_an_oversized_channel() {
    assert_eq!(DmxAddress::new(0, 512), DmxAddress::new(0, 0));
    assert_eq!(DmxAddress::new(1, 512), DmxAddress::new(1, 0));
    assert_eq!(DmxAddress::new(2, 512 + 5), DmxAddress::new(2, 5));
    assert_eq!(DmxAddress::new(7, 1023), DmxAddress::new(7, 511));
    assert_eq!(DmxAddress::new(3, usize::MAX), DmxAddress::new(3, 511));
    for channel in [512usize, 513, 1024, 4096 + 17, usize::MAX - 1] {
        let address = DmxAddress::new(9, channel);
        assert_eq!(address.universe(), 9);
        assert_eq!(address.channel(), channel % 512);
    }
    assert_eq!(DmxAddress::from((4usize, 600usize)), DmxAddress::new(4, 88));
}

#[test]
fn new_cuts_a_universe_without_positions() {
    let last = usize::MAX / 512;
    assert_eq!(DmxAddress::new(last, 511).value(), usize::MAX);
    assert_eq!(DmxAddress::new(last + 1, 3), DmxAddress::new(0, 3));
    assert_eq!(DmxAddress::new(last + 6, 3).channel(), 3);
}

#[test]
fn default_is_the_zero_address() {
    assert_eq!(DmxAddress::default(), DmxAddress::new(0, 0));
    assert_eq!(DmxAddress::default().value(), 0);
}

#[test]
fn conversions() {
    assert_eq!(DmxAddress::from(515usize), DmxAddress::new(1, 3));
    assert_eq!(DmxAddress::from((4usize, 9usize)), DmxAddress::new(4, 9));
    assert_eq!(<(usize, usize)>::from(DmxAddress::new(4, 9)), (4, 9));
}

#[test]
fn add_matches_the_linear_sum() {
    for (universe, channel, n) in [(0usize, 0usize, 0usize), (0, 511, 1), (7, 100, 2000), (3, 3, 509)] {
        let sum = DmxAddress::new(universe, channel) + n;
        let linear = universe * 512 + channel + n;
        assert_eq!(sum.value(), linear);
        assert_eq!(sum.universe(), linear / 512);
        assert_eq!(sum.channel(), linear % 512);
    }
}

#[test]
fn sub_borrows_across_universes() {
    assert_eq!(DmxAddress::new(1, 0) - 1, DmxAddress::new(0, 511));
    assert_eq!(DmxAddress::new(3, 3) - 1025, DmxAddress::new(1, 2));
    assert_eq!(DmxAddress::new(3, 3) - DmxAddress::new(1, 2), DmxAddress::from(1025usize));
    assert_eq!((DmxAddress::new(3, 3) - DmxAddress::new(1, 2)).value(), 1025);
}

#[test]
fn add_of_two_addresses() {
    assert_eq!(DmxAddress::new(1, 2) + DmxAddress::new(2, 1), DmxAddress::new(3, 3));
    assert_eq!(DmxAddress::new(0, 511) + DmxAddress::new(0, 1), DmxAddress::new(1, 0));
}

#[test]
fn assigning_operators() {
    let mut address = DmxAddress::new(0, 510);
    address += 3;
    assert_eq!(address, DmxAddress::new(1, 1));
    address -= 2;
    assert_eq!(address, DmxAddress::new(0, 511));
    address += DmxAddress::new(1, 1);
    assert_eq!(address, DmxAddress::new(2, 0));
    address -= DmxAddress::new(0, 1);
    assert_eq!(address, DmxAddress::new(1, 511));
}

#[test]
fn ordered_by_linear_value() {
    assert!(DmxAddress::new(0, 511) < DmxAddress::new(1, 0));
    assert!(DmxAddress::new(2, 0) > DmxAddress::new(1, 511));
    assert!(DmxAddress::new(1, 5) <= DmxAddress::new(1, 5));
    assert_eq!(DmxAddress::new(1, 5).cmp(&DmxAddress::new(1, 6)), std::cmp::Ordering::Less);
    assert_eq!(
        DmxAddress::new(1, 5).partial_cmp(&DmxAddress::new(1, 6)),
        Some(DmxAddress::new(1, 5).cmp(&DmxAddress::new(1, 6)))
    );
    assert_eq!(
        DmxAddress::new(9, 0).partial_cmp(&DmxAddress::new(1, 6)),
        Some(DmxAddress::new(9, 0).cmp(&DmxAddress::new(1, 6)))
    );
    assert_eq!(DmxAddress::new(1, 6).max(DmxAddress::new(1, 5)), DmxAddress::new(1, 6));
}
