use platform_drivers::aia::vector::ImsicVectorLayout;

#[test]
fn per_hart_identities_expand_to_unique_hwirqs() {
    let layout = ImsicVectorLayout::new(2, 63).unwrap();
    assert_eq!(layout.capacity(), 126);
    assert_eq!(layout.ordinal(0), Some((0, 1, 1, 1)));
    assert_eq!(layout.ordinal(1), Some((1, 1, 65, 65)));
    assert_eq!(layout.ordinal(2), Some((0, 2, 2, 2)));
    assert_eq!(layout.decode(65), Some((1, 1, 65)));
    assert_eq!(layout.decode(64), None);
}

#[test]
fn namespace_bounds_are_checked_before_allocation() {
    assert!(ImsicVectorLayout::new(0, 63).is_none());
    assert!(ImsicVectorLayout::new(1, 0).is_none());
    assert!(ImsicVectorLayout::new(usize::MAX, 2047).is_none());
}
