use platform_drivers::pci::topology::{
    PciBridgeApertureTracker, PciBridgeWindowError, PciBusNumberAllocator, PciResourceEnvelope,
    PciResourceRange, PciResourceSpace, encode_bridge_io_window, encode_bridge_memory_window,
    encode_bridge_prefetch_window,
};

#[test]
fn bus_allocator_stays_inside_firmware_bus_range() {
    let mut buses = PciBusNumberAllocator::new(0x20, 0x22);
    assert_eq!(buses.allocate(), Some(0x21));
    assert_eq!(buses.allocate(), Some(0x22));
    assert_eq!(buses.last_allocated(0x20), 0x22);
    assert_eq!(buses.allocate(), None);
}

#[test]
fn bridge_windows_round_outward_and_encode_inclusive_limits() {
    let io =
        encode_bridge_io_window(PciResourceRange::new(0x4120, 0x20).unwrap(), true).unwrap();
    assert_eq!(
        io.forwarded,
        PciResourceRange {
            start: 0x4000,
            end: 0x5000
        }
    );
    assert_eq!((io.base_low, io.limit_low), (0x41, 0x41));

    let memory =
        encode_bridge_memory_window(PciResourceRange::new(0x4012_0000, 0x2000).unwrap())
            .unwrap();
    assert_eq!(
        memory.forwarded,
        PciResourceRange {
            start: 0x4010_0000,
            end: 0x4020_0000,
        }
    );
    assert_eq!((memory.base, memory.limit), (0x4010, 0x4010));
}

#[test]
fn prefetch_window_uses_upper_registers_for_64bit_resources() {
    let window = encode_bridge_prefetch_window(
        PciResourceRange::new(0x1_2000_0000, 0x20_0000).unwrap(),
        true,
    )
    .unwrap();
    assert_eq!(window.base & 0xf, 1);
    assert_eq!(window.limit & 0xf, 1);
    assert_eq!(window.base_upper, 1);
    assert_eq!(window.limit_upper, 1);
    assert_eq!(
        encode_bridge_prefetch_window(
            PciResourceRange::new(0x1_2000_0000, 0x20_0000).unwrap(),
            false,
        ),
        Err(PciBridgeWindowError::PrefetchableWidth)
    );
}

#[test]
fn sibling_bridge_apertures_fail_closed_on_granularity_overlap() {
    let left = encode_bridge_memory_window(PciResourceRange::new(0x4000_0000, 0x1000).unwrap())
        .unwrap();
    let right =
        encode_bridge_memory_window(PciResourceRange::new(0x4008_0000, 0x1000).unwrap())
            .unwrap();
    let mut tracker = PciBridgeApertureTracker::new();
    assert!(tracker.reserve(PciResourceSpace::Memory, left.forwarded));
    assert!(!tracker.reserve(PciResourceSpace::Memory, right.forwarded));
}

#[test]
fn resource_envelope_covers_nested_descendants() {
    let mut child = PciResourceEnvelope::default();
    assert!(child.include_resource(PciResourceSpace::Memory, 0x5000_0000, 0x1000));
    assert!(child.include_resource(PciResourceSpace::Memory, 0x5010_0000, 0x2000));
    assert_eq!(
        child.range(PciResourceSpace::Memory),
        Some(PciResourceRange {
            start: 0x5000_0000,
            end: 0x5010_2000,
        })
    );
}
