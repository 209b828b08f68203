use platform_drivers::plic::config::{
    PlicConfigError, PlicInterruptContext, PlicLayout, PlicSupervisorContext, parse_ndev,
    select_supervisor_contexts,
};

#[test]
fn sparse_hart_ids_use_provider_identity_and_tuple_index() {
    let machine = [11];
    let supervisor = [9];
    let contexts = [
        PlicInterruptContext {
            controller: Some(0x10),
            cells: &machine,
        },
        PlicInterruptContext {
            controller: Some(0x10),
            cells: &supervisor,
        },
        PlicInterruptContext {
            controller: Some(0x20),
            cells: &machine,
        },
        PlicInterruptContext {
            controller: Some(0x20),
            cells: &supervisor,
        },
    ];

    let contexts = select_supervisor_contexts(
        &contexts,
        42,
        |controller| match controller {
            0x10 => Some(7),
            0x20 => Some(42),
            _ => None,
        },
        |controller| match controller {
            0x10 => Some(4),
            0x20 => Some(1),
            _ => None,
        },
    )
    .unwrap();
    assert_eq!(
        contexts,
        [
            PlicSupervisorContext {
                logical_cpu: 1,
                hart_id: 42,
                context: 3,
            },
            PlicSupervisorContext {
                logical_cpu: 4,
                hart_id: 7,
                context: 1,
            },
        ]
    );
}

#[test]
fn context_selection_rejects_malformed_and_duplicate_cpu_entries() {
    let supervisor = [9];
    assert_eq!(
        select_supervisor_contexts(
            &[PlicInterruptContext {
                controller: None,
                cells: &supervisor,
            }],
            0,
            |_| Some(0),
            |_| Some(0),
        ),
        Err(PlicConfigError::MalformedInterruptContext)
    );
    let duplicate = [
        PlicInterruptContext {
            controller: Some(1),
            cells: &supervisor,
        },
        PlicInterruptContext {
            controller: Some(2),
            cells: &supervisor,
        },
    ];
    assert_eq!(
        select_supervisor_contexts(&duplicate, 7, |_| Some(7), |_| Some(0)),
        Err(PlicConfigError::DuplicateSupervisorContext)
    );
}

#[test]
fn context_selection_requires_known_cpu_and_boot_hart() {
    let supervisor = [9];
    let context = [PlicInterruptContext {
        controller: Some(1),
        cells: &supervisor,
    }];
    assert_eq!(
        select_supervisor_contexts(&context, 0, |_| None, |_| Some(0)),
        Err(PlicConfigError::UnknownSupervisorContextCpu)
    );
    assert_eq!(
        select_supervisor_contexts(&context, 0, |_| Some(7), |_| Some(0)),
        Err(PlicConfigError::MissingBootSupervisorContext)
    );
}

#[test]
fn ndev_is_required_single_cell_and_bounded_by_enable_stride() {
    assert_eq!(parse_ndev(None), Err(PlicConfigError::MissingNdev));
    assert_eq!(
        parse_ndev(Some(&[0, 1])),
        Err(PlicConfigError::MalformedNdev)
    );
    assert_eq!(
        parse_ndev(Some(&0u32.to_be_bytes())),
        Err(PlicConfigError::InvalidNdev)
    );
    assert_eq!(parse_ndev(Some(&95u32.to_be_bytes())), Ok(95));
    assert_eq!(
        parse_ndev(Some(&1024u32.to_be_bytes())),
        Err(PlicConfigError::InvalidNdev)
    );
}

#[test]
fn mmio_window_covers_priority_pending_enable_and_context_registers() {
    let layout = PlicLayout::new(95, 3).unwrap();
    assert_eq!(layout.priority_offset(95), Some(0x17c));
    assert_eq!(layout.enable_offset(95), Some((0x2188, 31)));
    assert_eq!(layout.threshold_offset(), 0x203000);
    assert_eq!(layout.claim_offset(), 0x203004);
    assert_eq!(
        layout.validate_window(0x0c00_0000, 0x203008, 0x4000_0000),
        Ok(())
    );
    assert_eq!(
        layout.validate_window(0x0c00_0000, 0x203007, 0x4000_0000),
        Err(PlicConfigError::MmioWindowTooSmall)
    );
}
