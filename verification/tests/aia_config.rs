use platform_drivers::aia::config::{
    AiaConfigError, ImsicInterruptContext, aplic_service_hart_index, parse_aplic_hart_indexes,
    parse_num_ids, select_supervisor_contexts,
};
use platform_drivers::aia::layout::{
    APLIC_IDC_BASE, APLIC_IDC_CLAIMI, APLIC_IDC_IDELIVERY, APLIC_IDC_SIZE, APLIC_TARGET_HART_SHIFT,
    AplicDirectLayout, AplicLayout, AplicSourceMode, ImsicLayout, MmioRange, aplic_source_mode,
};

fn be(value: u32) -> [u8; 4] {
    value.to_be_bytes()
}

#[test]
fn qemu_two_hart_layout_encodes_aplic_targets() {
    let layout = ImsicLayout::new(
        &[MmioRange {
            phys: 0x2800_0000,
            size: 0x2000,
        }],
        2,
        None,
        None,
        None,
        None,
    )
    .unwrap();
    assert_eq!(layout.interrupt_files, [0x2800_0000, 0x2800_1000]);
    assert_eq!(layout.scheme.base_addr, 0x2800_0000);
    assert_eq!(layout.scheme.hart_index_bits, 1);
    assert_eq!(layout.scheme.encode_aplic_target(0x2800_0000, 17), Some(17));
    assert_eq!(
        layout.scheme.encode_aplic_target(0x2800_1000, 18),
        Some((1 << APLIC_TARGET_HART_SHIFT) | 18)
    );
}

#[test]
fn qemu_direct_aplic_layout_covers_idcs_and_claims() {
    let layout = AplicDirectLayout::new(&[0, 1], Some(1), 0x8000, 0xd000_000).unwrap();
    assert_eq!(layout.service_hart_index(), Some(1));
    assert_eq!(layout.target(), Some((1 << APLIC_TARGET_HART_SHIFT) | 1));
    assert_eq!(
        layout.service_idc_offset(APLIC_IDC_IDELIVERY),
        Some(APLIC_IDC_BASE + APLIC_IDC_SIZE)
    );
    assert_eq!(
        layout.service_idc_offset(APLIC_IDC_CLAIMI),
        Some(APLIC_IDC_BASE + APLIC_IDC_SIZE + APLIC_IDC_CLAIMI)
    );
    assert_eq!(AplicDirectLayout::claimed_source(0x002a_0001), Some(42));
    assert_eq!(AplicDirectLayout::claimed_source(0), None);
}

#[test]
fn direct_aplic_rejects_truncated_idc_window() {
    assert_eq!(
        AplicDirectLayout::new(
            &[0, 1],
            Some(0),
            APLIC_IDC_BASE + APLIC_IDC_SIZE,
            0xd000_000,
        ),
        Err(AiaConfigError::MmioWindowTooSmall)
    );
}

#[test]
fn non_contiguous_aplic_hart_indexes_drive_target_and_idc_layout() {
    let raw = [0, 0, 0, 3, 0, 0, 0, 17];
    let indexes = parse_aplic_hart_indexes(Some(&raw), 2).unwrap();
    assert_eq!(indexes, [3, 17]);
    let size = APLIC_IDC_BASE + 18 * APLIC_IDC_SIZE;
    let layout = AplicDirectLayout::new(&indexes, Some(17), size, 0xd000_000).unwrap();
    assert_eq!(layout.target(), Some((17 << APLIC_TARGET_HART_SHIFT) | 1));
    assert_eq!(
        layout.service_idc_offset(APLIC_IDC_CLAIMI),
        Some(APLIC_IDC_BASE + 17 * APLIC_IDC_SIZE + APLIC_IDC_CLAIMI)
    );
    assert_eq!(
        AplicDirectLayout::new(&indexes, Some(17), size - 1, 0xd000_000),
        Err(AiaConfigError::MmioWindowTooSmall)
    );
}

#[test]
fn direct_domain_without_boot_hart_uses_its_first_supervisor_context() {
    let supervisor = [9];
    let contexts = select_supervisor_contexts(
        &[
            ImsicInterruptContext {
                controller: Some(0x10),
                cells: &supervisor,
            },
            ImsicInterruptContext {
                controller: Some(0x20),
                cells: &supervisor,
            },
        ],
        |controller| Some(u64::from(controller)),
        |controller| Some((controller >> 4) as usize),
    )
    .unwrap();
    let indexes = parse_aplic_hart_indexes(None, contexts.len()).unwrap();
    assert_eq!(
        aplic_service_hart_index(&contexts, &indexes, 0),
        Ok(Some(0))
    );
    let layout = AplicDirectLayout::new(&indexes, Some(0), 0x8000, 0xd000_000).unwrap();
    assert_eq!(layout.target(), Some(1));
    assert_eq!(layout.service_idc_offset(APLIC_IDC_CLAIMI), Some(0x401c));
}

#[test]
fn guest_pages_are_skipped_between_supervisor_files() {
    let layout = ImsicLayout::new(
        &[MmioRange {
            phys: 0x2800_0000,
            size: 0x8000,
        }],
        2,
        Some(2),
        Some(1),
        None,
        None,
    )
    .unwrap();
    assert_eq!(layout.interrupt_files, [0x2800_0000, 0x2800_4000]);
    assert_eq!(
        layout.scheme.encode_aplic_target(0x2800_4000, 7),
        Some((1 << APLIC_TARGET_HART_SHIFT) | 7)
    );
}

#[test]
fn supervisor_context_selection_uses_cpu_intc_identity() {
    let supervisor = [9];
    let contexts = [
        ImsicInterruptContext {
            controller: Some(0x10),
            cells: &supervisor,
        },
        ImsicInterruptContext {
            controller: Some(0x20),
            cells: &supervisor,
        },
    ];
    let selected = select_supervisor_contexts(
        &contexts,
        |controller| match controller {
            0x10 => Some(7),
            0x20 => Some(42),
            _ => None,
        },
        |controller| match controller {
            0x10 => Some(0),
            0x20 => Some(1),
            _ => None,
        },
    )
    .unwrap();
    assert_eq!(selected.len(), 2);
    assert_eq!(selected[0].hart_id, 7);
    assert_eq!(selected[1].logical_cpu, 1);
    assert_eq!(selected[1].file_index, 1);
}

#[test]
fn machine_only_imsic_is_not_a_supervisor_controller() {
    let machine = [11];
    assert_eq!(
        select_supervisor_contexts(
            &[ImsicInterruptContext {
                controller: Some(1),
                cells: &machine,
            }],
            |_| Some(0),
            |_| Some(0),
        ),
        Err(AiaConfigError::UnsupportedInterruptContext)
    );
}

#[test]
fn mixed_privilege_interrupt_files_are_rejected() {
    let machine = [11];
    let supervisor = [9];
    assert_eq!(
        select_supervisor_contexts(
            &[
                ImsicInterruptContext {
                    controller: Some(1),
                    cells: &supervisor,
                },
                ImsicInterruptContext {
                    controller: Some(2),
                    cells: &machine,
                },
            ],
            |controller| Some(u64::from(controller - 1)),
            |controller| Some((controller - 1) as usize),
        ),
        Err(AiaConfigError::UnsupportedInterruptContext)
    );
}

#[test]
fn standard_num_id_constraints_are_enforced() {
    assert_eq!(parse_num_ids(Some(&be(255))), Ok(255));
    assert_eq!(
        parse_num_ids(Some(&be(64))),
        Err(AiaConfigError::InvalidNumIds)
    );
    assert_eq!(
        parse_num_ids(Some(&[0, 1])),
        Err(AiaConfigError::MalformedNumIds)
    );
}

#[test]
fn aplic_layout_and_irq_type_are_strict() {
    let layout = AplicLayout::new(96, 0x0d00_0000, 0x8000, 0xffff_0000).unwrap();
    assert_eq!(layout.sourcecfg_offset(1), Some(4));
    assert_eq!(layout.target_offset(96), Some(0x3180));
    assert_eq!(aplic_source_mode(4), Ok(AplicSourceMode::LevelHigh));
    assert_eq!(
        aplic_source_mode(3),
        Err(AiaConfigError::UnsupportedIrqType)
    );
    assert_eq!(
        AplicLayout::new(1024, 0x0d00_0000, 0x8000, 0xffff_0000),
        Err(AiaConfigError::InvalidNumSources)
    );
}

#[test]
fn mmio_holes_and_full_binding_widths_are_supported() {
    let layout = ImsicLayout::new(
        &[
            MmioRange {
                phys: 0x2800_0000,
                size: 0x1800,
            },
            MmioRange {
                phys: 0x2900_0000,
                size: 0x1000,
            },
        ],
        2,
        Some(1),
        Some(15),
        Some(1),
        Some(24),
    )
    .unwrap();
    assert_eq!(layout.interrupt_files, [0x2800_0000, 0x2900_0000]);
    assert_eq!(layout.scheme.guest_index_bits, 1);
    assert_eq!(layout.scheme.hart_index_bits, 15);
    assert_eq!(layout.scheme.group_index_bits, 1);
    assert!(
        layout
            .scheme
            .encode_aplic_target(layout.interrupt_files[1], 1)
            .is_none()
    );

    let guest_width = ImsicLayout::new(
        &[MmioRange {
            phys: 0x3000_0000,
            size: 0x8_0000,
        }],
        1,
        Some(7),
        Some(0),
        None,
        None,
    )
    .unwrap();
    assert_eq!(guest_width.interrupt_files, [0x3000_0000]);
}

#[test]
fn truncated_layout_and_duplicate_files_fail_closed() {
    assert_eq!(
        ImsicLayout::new(
            &[MmioRange {
                phys: 0x2800_0000,
                size: 0x1000,
            }],
            2,
            None,
            None,
            None,
            None,
        ),
        Err(AiaConfigError::MmioWindowTooSmall)
    );
    assert_eq!(
        ImsicLayout::new(
            &[
                MmioRange {
                    phys: 0x2800_0000,
                    size: 0x1000,
                },
                MmioRange {
                    phys: 0x2800_0000,
                    size: 0x1000,
                },
            ],
            2,
            None,
            None,
            None,
            None,
        ),
        Err(AiaConfigError::DuplicateInterruptFile)
    );
}
