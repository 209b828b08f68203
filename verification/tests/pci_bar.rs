use platform_drivers::pci::bar::{
    PciBarAddressWidth, PciBarKind, PciBarRuntimeWindow, PciBarWindowAllocator, PciBarWindowSpace,
    probed_20bit_memory_bar_size,
};

#[test]
fn legacy_20bit_bar_size_preserves_the_one_mib_boundary() {
    assert_eq!(probed_20bit_memory_bar_size(0x000f_f000), 0x1000);
    assert_eq!(probed_20bit_memory_bar_size(0x0000_0000), 0x10_0000);
    assert_eq!(probed_20bit_memory_bar_size(0x000f_fff0), 0x10);
}

#[test]
fn io_window_preserves_pci_and_cpu_addresses() {
    let window =
        PciBarRuntimeWindow::new(PciBarWindowSpace::Io, 0x4000, 0x1800_4000, 0xc000).unwrap();
    assert_eq!(window.cpu_address(0x4100, 0x20), Some(0x1800_4100));
    assert_eq!(window.cpu_address(0xffff, 2), None);
}

#[test]
fn allocator_assigns_io_and_memory_without_crossing_spaces() {
    let windows = [
        PciBarRuntimeWindow::new(PciBarWindowSpace::Io, 0x4000, 0x1800_4000, 0xc000).unwrap(),
        PciBarRuntimeWindow::new(PciBarWindowSpace::Memory, 0x4000_0000, 0x9000_0000, 0x10000)
            .unwrap(),
    ];
    let mut allocator = PciBarWindowAllocator::new(&windows);

    let io = allocator
        .allocate(PciBarKind::Io, PciBarAddressWidth::Bits32, 0x20, 0x20)
        .unwrap();
    assert_eq!(io.pci_address, 0x4000);
    assert_eq!(io.cpu_address, 0x1800_4000);

    let memory = allocator
        .allocate(
            PciBarKind::Memory {
                prefetchable: false,
            },
            PciBarAddressWidth::Bits32,
            0x1000,
            0x1000,
        )
        .unwrap();
    assert_eq!(memory.pci_address, 0x4000_0000);
    assert_eq!(memory.cpu_address, 0x9000_0000);
}

#[test]
fn shared_window_cursor_prevents_32_and_64_bit_overlap() {
    let windows = [PciBarRuntimeWindow::new(
        PciBarWindowSpace::Memory,
        0x4000_0000,
        0x4000_0000,
        0x10000,
    )
    .unwrap()];
    let mut allocator = PciBarWindowAllocator::new(&windows);
    let low = allocator
        .allocate(
            PciBarKind::Memory {
                prefetchable: false,
            },
            PciBarAddressWidth::Bits32,
            0x1000,
            0x1000,
        )
        .unwrap();
    let wide = allocator
        .allocate(
            PciBarKind::Memory {
                prefetchable: false,
            },
            PciBarAddressWidth::Bits64,
            0x4000,
            0x4000,
        )
        .unwrap();
    assert_eq!(low.pci_address, 0x4000_0000);
    assert_eq!(wide.pci_address, 0x4000_4000);
}

#[test]
fn non_prefetchable_bar_does_not_use_prefetch_only_window() {
    let windows = [PciBarRuntimeWindow::new(
        PciBarWindowSpace::PrefetchableMemory,
        0x1_0000_0000,
        0x8000_0000,
        0x10000,
    )
    .unwrap()];
    let mut allocator = PciBarWindowAllocator::new(&windows);
    assert!(
        allocator
            .allocate(
                PciBarKind::Memory {
                    prefetchable: false,
                },
                PciBarAddressWidth::Bits64,
                0x1000,
                0x1000,
            )
            .is_none()
    );
    assert!(
        allocator
            .allocate(
                PciBarKind::Memory { prefetchable: true },
                PciBarAddressWidth::Bits64,
                0x1000,
                0x1000,
            )
            .is_some()
    );
}

#[test]
fn allocator_preserves_firmware_bar_and_uses_remaining_holes() {
    let windows = [PciBarRuntimeWindow::new(
        PciBarWindowSpace::Memory,
        0x4000_0000,
        0x8000_0000,
        0x10_0000,
    )
    .unwrap()];
    let mut allocator = PciBarWindowAllocator::new(&windows);
    let firmware = allocator
        .reserve(
            PciBarKind::Memory {
                prefetchable: false,
            },
            PciBarAddressWidth::Bits32,
            0x4000_4000,
            0x4000,
            0x4000,
        )
        .unwrap();
    assert_eq!(firmware.cpu_address, 0x8000_4000);

    let before = allocator
        .allocate(
            PciBarKind::Memory {
                prefetchable: false,
            },
            PciBarAddressWidth::Bits32,
            0x2000,
            0x2000,
        )
        .unwrap();
    let after = allocator
        .allocate(
            PciBarKind::Memory {
                prefetchable: false,
            },
            PciBarAddressWidth::Bits32,
            0x4000,
            0x4000,
        )
        .unwrap();
    assert_eq!(before.pci_address, 0x4000_0000);
    assert_eq!(after.pci_address, 0x4000_8000);
}

#[test]
fn reserve_rejects_overlap_misalignment_and_wrong_address_width() {
    let windows =
        [PciBarRuntimeWindow::new(PciBarWindowSpace::Memory, 0, 0, 0x2_0000_0000).unwrap()];
    let mut allocator = PciBarWindowAllocator::new(&windows);
    assert!(
        allocator
            .reserve(
                PciBarKind::Memory {
                    prefetchable: false,
                },
                PciBarAddressWidth::Bits32,
                0x2000,
                0x1000,
                0x1000,
            )
            .is_some()
    );
    assert!(
        allocator
            .reserve(
                PciBarKind::Memory {
                    prefetchable: false,
                },
                PciBarAddressWidth::Bits32,
                0x2800,
                0x1000,
                0x1000,
            )
            .is_none()
    );
    assert!(
        allocator
            .reserve(
                PciBarKind::Memory {
                    prefetchable: false,
                },
                PciBarAddressWidth::Bits32,
                0x1_0000_0000,
                0x1000,
                0x1000,
            )
            .is_none()
    );
    assert!(
        allocator
            .reserve(
                PciBarKind::Memory {
                    prefetchable: false,
                },
                PciBarAddressWidth::Bits20,
                0x10_0000,
                0x1000,
                0x1000,
            )
            .is_none()
    );
}

#[test]
fn bridge_groups_skip_local_resources_and_end_on_aperture_boundary() {
    let windows = [PciBarRuntimeWindow::new(
        PciBarWindowSpace::Memory,
        0x4000_0000,
        0x4000_0000,
        0x40_0000,
    )
    .unwrap()];
    let mut allocator = PciBarWindowAllocator::new(&windows);
    allocator
        .reserve(
            PciBarKind::Memory {
                prefetchable: false,
            },
            PciBarAddressWidth::Bits32,
            0x4000_0000,
            0x1000,
            0x1000,
        )
        .unwrap();

    allocator.begin_bridge_group();
    let child = allocator
        .allocate(
            PciBarKind::Memory {
                prefetchable: false,
            },
            PciBarAddressWidth::Bits32,
            0x1000,
            0x1000,
        )
        .unwrap();
    assert_eq!(child.pci_address, 0x4010_0000);
    allocator.end_bridge_group();

    let sibling = allocator
        .allocate(
            PciBarKind::Memory {
                prefetchable: false,
            },
            PciBarAddressWidth::Bits32,
            0x1000,
            0x1000,
        )
        .unwrap();
    assert_eq!(sibling.pci_address, 0x4020_0000);
}

#[test]
fn granted_ranges_never_overlap() {
    let windows = [
        PciBarRuntimeWindow::new(PciBarWindowSpace::Memory, 0x4000_0000, 0x4000_0000, 0x40_0000)
            .unwrap(),
        PciBarRuntimeWindow::new(
            PciBarWindowSpace::PrefetchableMemory,
            0x4040_0000,
            0x5000_0000,
            0x20_0000,
        )
        .unwrap(),
    ];
    let mut allocator = PciBarWindowAllocator::new(&windows);
    let mut granted = Vec::new();
    for (i, prefetchable) in [true, false, true, true, false].into_iter().enumerate() {
        let kind = PciBarKind::Memory { prefetchable };
        let width = PciBarAddressWidth::Bits32;
        if i == 1 {
            allocator.begin_bridge_group();
        }
        let size = 0x8_0000u64 << (i % 3);
        if let Some(grant) = allocator.allocate(kind, width, size, size) {
            granted.push((grant.pci_address, grant.pci_address + size));
        }
        if i == 3 {
            allocator.end_bridge_group();
        }
        let address = 0x4010_0000 + 0x8_0000 * i as u64;
        if let Some(grant) = allocator.reserve(kind, width, address, 0x8_0000, 0x8_0000) {
            granted.push((grant.pci_address, grant.pci_address + 0x8_0000));
        }
    }
    assert!(granted.len() >= 5);
    for (i, left) in granted.iter().enumerate() {
        for right in &granted[i + 1..] {
            assert!(left.1 <= right.0 || right.1 <= left.0);
        }
    }
}
