use platform_drivers::pci::routing::{
    PciIntxBridgeRoute, PciIntxRouteKey, PciIntxRouting, PciMsiMapRoute, PciMsiParentRoute,
    PciMsiRoutingMode, PciMsiTarget, allocate_first_available,
};

#[test]
fn intx_routing_rejects_invalid_pin_bdf_and_unknown_bus() {
    let routing = PciIntxRouting::new(0, Vec::new()).unwrap();
    assert_eq!(routing.resolve(0, 1, 0, 0), None);
    assert_eq!(routing.resolve(0, 1, 0, 5), None);
    assert_eq!(routing.resolve(0, 32, 0, 1), None);
    assert_eq!(routing.resolve(0, 1, 8, 1), None);
    assert_eq!(routing.resolve(1, 1, 0, 1), None);
}

#[test]
fn intx_routing_swizzles_multilevel_bridges_to_root_child() {
    let routing = PciIntxRouting::new(
        0,
        vec![
            PciIntxBridgeRoute::new(1, 2, 1, 0).unwrap(),
            PciIntxBridgeRoute::new(2, 2, 1, 3).unwrap(),
            PciIntxBridgeRoute::new(3, 2, 1, 1).unwrap(),
        ],
    )
    .unwrap();

    assert_eq!(
        routing.resolve(0, 31, 7, 4),
        Some(PciIntxRouteKey {
            bus: 0,
            device: 31,
            function: 7,
            pin: 4,
        })
    );
    assert_eq!(
        routing.resolve(1, 3, 0, 1),
        Some(PciIntxRouteKey {
            bus: 0,
            device: 2,
            function: 1,
            pin: 4,
        })
    );
    assert_eq!(
        routing.resolve(3, 5, 4, 2),
        Some(PciIntxRouteKey {
            bus: 0,
            device: 2,
            function: 1,
            pin: 4,
        })
    );
}

#[test]
fn zero_cell_map_matches_masked_rid_but_forwards_raw_rid() {
    let mode = PciMsiRoutingMode::MsiMap {
        mask: 0xff,
        routes: vec![PciMsiMapRoute::new(0x20, 7, &[], 0x10).unwrap()],
    };
    assert_eq!(
        mode.allocation_targets(0x123),
        vec![PciMsiTarget {
            controller: 7,
            device_id: 0x123,
        }]
    );
}

#[test]
fn one_cell_map_adds_masked_rid_offset_to_output_base() {
    let mode = PciMsiRoutingMode::MsiMap {
        mask: 0xff,
        routes: vec![PciMsiMapRoute::new(0x20, 8, &[0x400], 0x10).unwrap()],
    };
    assert_eq!(
        mode.allocation_targets(0x123),
        vec![PciMsiTarget {
            controller: 8,
            device_id: 0x403,
        }]
    );
}

#[test]
fn map_miss_has_no_parent_fallback_targets() {
    let mode = PciMsiRoutingMode::MsiMap {
        mask: u32::MAX,
        routes: vec![PciMsiMapRoute::new(0x100, 1, &[], 8).unwrap()],
    };
    assert!(mode.allocation_targets(0x200).is_empty());
}

#[test]
fn zero_cell_parents_preserve_retry_order_and_raw_rid() {
    let mode = PciMsiRoutingMode::Parents(vec![
        PciMsiParentRoute::new(9, &[]).unwrap(),
        PciMsiParentRoute::new(3, &[]).unwrap(),
    ]);
    let targets = mode.allocation_targets(0x321);
    assert_eq!(
        targets,
        vec![
            PciMsiTarget {
                controller: 9,
                device_id: 0x321,
            },
            PciMsiTarget {
                controller: 3,
                device_id: 0x321,
            },
        ]
    );
    let mut attempted = Vec::new();
    let selected = allocate_first_available(&targets, |target| {
        attempted.push(target.controller);
        if target.controller == 3 {
            Ok(target)
        } else {
            Err(())
        }
    });
    assert_eq!(attempted, vec![9, 3]);
    assert_eq!(selected.map(|target| target.controller), Some(3));
}

#[test]
fn nonzero_parent_and_multicell_map_fail_closed() {
    assert!(PciMsiParentRoute::new(1, &[0]).is_none());
    assert!(PciMsiMapRoute::new(0, 1, &[0, 1], 1).is_none());
    assert!(PciMsiMapRoute::new(0, 1, &[], 0).is_none());
}

#[test]
fn nothing_is_tried_after_the_first_success() {
    let targets: Vec<PciMsiTarget> = [4, 9, 3]
        .iter()
        .map(|&controller| PciMsiTarget {
            controller,
            device_id: 1,
        })
        .collect();
    let mut attempted = Vec::new();
    let selected = allocate_first_available(&targets, |target| {
        attempted.push(target.controller);
        if target.controller == 4 {
            Err(())
        } else {
            Ok(target.controller)
        }
    });
    assert_eq!(selected, Some(9));
    assert_eq!(attempted, vec![4, 9]);
    let mut attempted = Vec::new();
    let selected: Option<u32> = allocate_first_available(&targets, |target| {
        attempted.push(target.controller);
        Err(())
    });
    assert_eq!(selected, None);
    assert_eq!(attempted, vec![4, 9, 3]);
}
