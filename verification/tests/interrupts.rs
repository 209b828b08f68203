use std::cell::RefCell;
use std::collections::{HashMap, VecDeque};

use platform_drivers::aia::aplic;
use platform_drivers::aia::aplic::{
    AplicDelivery, IrqPolarity, IrqTrigger, LineRequest, RouteEvent, RouteStage,
};
use platform_drivers::aia::config::ImsicInterruptContext;
use platform_drivers::aia::imsic::{Imsic, ImsicAccess, ImsicCpuFile, ImsicPort};
use platform_drivers::aia::imsic::IrqStatus as ImsicStatus;
use platform_drivers::aia::layout::{AplicSourceMode, ImsicAddressScheme, MmioRange};
use platform_drivers::aia::probe::{
    AplicProperties, AplicStep, BindEvent, ImsicProperties, ImsicSchemes, ImsicStep,
    advance_aplic_binding, advance_imsic_binding, build_aplic, is_cascaded, plan_aplic,
    plan_imsic, start_imsic_binding,
};
use platform_drivers::plic::binding;
use platform_drivers::plic::binding::PlicStep;
use platform_drivers::plic::config::PlicSupervisorContext;
use platform_drivers::plic::controller::{IrqStatus, build_plic};
use platform_drivers::platform::{PnpError, PnpResourceKind};
use platform_drivers::port::{Access, Port};

struct Lines {
    words: RefCell<HashMap<usize, u32>>,
    claims: RefCell<VecDeque<u32>>,
    events: RefCell<Vec<Access>>,
}

impl Lines {
    fn new(claims: &[u32]) -> Self {
        Lines {
            words: RefCell::new(HashMap::new()),
            claims: RefCell::new(claims.iter().copied().collect()),
            events: RefCell::new(Vec::new()),
        }
    }

    fn perform(&self, access: Access) -> u64 {
        match access {
            Access::Read32(0x20_1004) => {
                u64::from(self.claims.borrow_mut().pop_front().unwrap_or(0))
            }
            Access::Read32(at) => u64::from(self.words.borrow().get(&at).copied().unwrap_or(0)),
            Access::Write32(0x20_1004, _) | Access::Notify(_) => {
                self.events.borrow_mut().push(access);
                0
            }
            Access::Write32(at, value) => {
                self.words.borrow_mut().insert(at, value);
                0
            }
            _ => 0,
        }
    }

    fn get(&self, at: usize) -> u32 {
        self.words.borrow().get(&at).copied().unwrap_or(0)
    }
}

#[test]
fn claimed_sources_are_delivered_and_completed() {
    let lines = Lines::new(&[5, 33]);
    let mut port = Port::new(|access: Access| lines.perform(access));
    let contexts = vec![PlicSupervisorContext {
        logical_cpu: 0,
        hart_id: 0,
        context: 1,
    }];
    let mut plic = build_plic(40, &contexts, 0x0c00_0000, 0x40_0000, 0x0c00_0000)
        .ok()
        .unwrap();
    plic.initialize(&mut port);
    assert!(plic.set_line_enabled(&mut port, 33, true));
    assert_eq!(lines.get(33 * 4), 1);
    assert_eq!(lines.get(0x2080 + 4), 2);
    assert_eq!(plic.dispatch_pending(&mut port, 0), IrqStatus::Handled);
    assert_eq!(
        lines.events.borrow().as_slice(),
        [
            Access::Notify(5),
            Access::Write32(0x20_1004, 5),
            Access::Notify(33),
            Access::Write32(0x20_1004, 33),
        ]
    );
    assert_eq!(plic.dispatch_pending(&mut port, 0), IrqStatus::Unhandled);
    assert!(!plic.set_line_enabled(&mut port, 41, true));
    assert!(plic.set_line_enabled(&mut port, 33, false));
    assert_eq!(lines.get(0x2080 + 4), 0);
    plic.quiesce(&mut port);
    assert!(plic.quiesced);
}

fn files() -> Vec<ImsicCpuFile> {
    (0..2)
        .map(|cpu| ImsicCpuFile {
            logical_cpu: cpu,
            hart_id: cpu as u64,
            msi_address: 0x2800_0000 + 0x1000 * cpu as u64,
        })
        .collect()
}

#[test]
fn identities_are_handed_out_once() {
    let mut imsic = Imsic::new(1, 63, files()).ok().unwrap();
    let mut seen = Vec::new();
    while let Some(vector) = imsic.allocate_vector() {
        assert!(!seen.contains(&(vector.address, vector.data)));
        seen.push((vector.address, vector.data));
    }
    assert_eq!(seen.len(), 126);
    assert_eq!(seen[0], (0x2800_0000, 1));
    assert_eq!(seen[1], (0x2800_1000, 1));
    let mut port = ImsicPort::new(|_access: ImsicAccess| 1);
    imsic.free_vector(&mut port, 65);
    let again = imsic.allocate_vector().unwrap();
    assert_eq!((again.hwirq, again.address, again.data), (65, 0x2800_1000, 1));
    assert_eq!(
        Imsic::new(1, 0, files()).err(),
        Some(PnpError::Malformed(
            PnpResourceKind::Msi,
            "imsic vector namespace exceeds generic hwirq width"
        ))
    );
}

#[test]
fn claimed_identities_are_delivered_under_their_numbers() {
    let mut imsic = Imsic::new(1, 63, files()).ok().unwrap();
    while imsic.allocate_vector().is_some() {}
    let claims = RefCell::new(VecDeque::from([3u64, 7]));
    let delivered = RefCell::new(Vec::new());
    let mut port = ImsicPort::new(|access: ImsicAccess| match access {
        ImsicAccess::Claim => claims.borrow_mut().pop_front().unwrap_or(0),
        ImsicAccess::Dispatch(hwirq) => {
            delivered.borrow_mut().push(hwirq);
            1
        }
        _ => 1,
    });
    assert_eq!(imsic.dispatch_pending(&mut port, 1), ImsicStatus::Handled);
    assert_eq!(delivered.borrow().as_slice(), [67, 71]);
}

fn bytes(value: u32) -> [u8; 4] {
    value.to_be_bytes()
}

fn two_cpus(cells: &[u32]) -> [ImsicInterruptContext<'_>; 2] {
    [
        ImsicInterruptContext {
            controller: Some(0x10),
            cells,
        },
        ImsicInterruptContext {
            controller: Some(0x20),
            cells,
        },
    ]
}

#[test]
fn planned_controller_has_a_file_for_each_cpu() {
    let ids = bytes(255);
    let properties = ImsicProperties {
        num_ids: Some(&ids),
        guest_index_bits: None,
        hart_index_bits: None,
        group_index_bits: None,
        group_index_shift: None,
    };
    let ranges = [MmioRange {
        phys: 0x2800_0000,
        size: 0x2000,
    }];
    let contexts = two_cpus(&[9]);
    let plan = plan_imsic(
        Some(7),
        properties,
        &contexts,
        &ranges,
        8,
        |controller| Some(u64::from(controller)),
        |controller| Some((controller >> 4) as usize - 1),
    )
    .ok()
    .unwrap();
    assert_eq!((plan.controller, plan.num_ids), (7, 255));
    assert_eq!(plan.cpu_mask, 3);
    assert_eq!(plan.files[1].msi_address, 0x2800_1000);
    assert_eq!(plan.files[1].hart_id, 0x20);
    let refused = plan_imsic(
        Some(7),
        properties,
        &contexts,
        &ranges,
        1,
        |controller| Some(u64::from(controller)),
        |controller| Some((controller >> 4) as usize - 1),
    );
    assert_eq!(
        refused.err(),
        Some(PnpError::Malformed(
            PnpResourceKind::Irq,
            "imsic logical CPU exceeds CSR bridge mask"
        ))
    );
}

#[test]
fn wired_source_goes_to_its_target() {
    let sources = bytes(32);
    let properties = AplicProperties {
        num_sources: Some(&sources),
        msi_parent: None,
        hart_indexes: None,
    };
    let plan = plan_aplic(
        Some(3),
        properties,
        Some((0x0d00_0000, 0x8000)),
        0x0d00_0000,
        &two_cpus(&[9]),
        &ImsicSchemes::new(),
        0x10,
        |controller| Some(u64::from(controller)),
        |controller| Some((controller >> 4) as usize - 1),
    )
    .ok()
    .unwrap();
    assert_eq!(plan.num_sources, 32);
    assert!(matches!(plan.delivery, AplicDelivery::Direct(_)));
    assert!(is_cascaded(&plan));
    let words = RefCell::new(HashMap::new());
    let mut port = Port::new(|access: Access| match access {
        Access::Write32(at, value) => {
            words.borrow_mut().insert(at, value);
            0
        }
        Access::Read32(at) => u64::from(words.borrow().get(&at).copied().unwrap_or(0u32)),
        _ => 0,
    });
    let mut aplic = build_aplic(&plan);
    assert_eq!(aplic.sources.len(), plan.num_sources as usize + 1);
    assert!(aplic.sources.iter().all(|source| source.mode == AplicSourceMode::Inactive));
    assert_eq!(aplic.sources[0].target, 0);
    assert!(aplic.sources[1..].iter().all(|source| source.target == aplic.sources[1].target));
    aplic.initialize(&mut port);
    assert!(aplic.bring_up(&mut port).is_ok());
    assert!(aplic.configure_source(&mut port, 5, AplicSourceMode::LevelHigh, |_| None));
    assert_eq!(words.borrow().get(&(4 * 5)).copied(), Some(6));
    assert!(aplic.set_source_enabled(&mut port, 5, true));
    assert!(!aplic.set_source_enabled(&mut port, 33, true));
    assert!(aplic.configure_line(
        &mut port,
        6,
        Some(IrqTrigger::Edge),
        Some(IrqPolarity::Low),
        |_| None
    ));
    assert_eq!(words.borrow().get(&(4 * 6)).copied(), Some(5));
    assert!(!aplic.configure_line(&mut port, 6, Some(IrqTrigger::Edge), None, |_| None));
    assert!(aplic.configure_line(&mut port, 6, None, None, |_| None));
    aplic.quiesce(&mut port);
    assert_eq!(words.borrow().get(&0).copied(), Some(0));
}

#[test]
fn refused_binding_is_undone() {
    let mut step = start_imsic_binding();
    for _ in 0..2 {
        step = advance_imsic_binding(step, BindEvent::Done);
    }
    assert_eq!(step, ImsicStep::OwnInstalled);
    step = advance_imsic_binding(step, BindEvent::Refused(PnpError::OutOfMemory));
    assert_eq!(step, ImsicStep::Uninstall(PnpError::OutOfMemory));
    assert_eq!(
        advance_imsic_binding(step, BindEvent::Done),
        ImsicStep::Finished(Err(PnpError::OutOfMemory))
    );
    assert_eq!(
        advance_aplic_binding(
            AplicStep::RegisterDomain,
            BindEvent::Refused(PnpError::InvalidState),
            false
        ),
        AplicStep::Quiesce(PnpError::InvalidState)
    );
    assert_eq!(
        advance_aplic_binding(AplicStep::Initialize, BindEvent::Done, true),
        AplicStep::RegisterCascade
    );
}

#[test]
fn claimed_wired_sources_are_delivered_in_turn() {
    let sources = bytes(8);
    let properties = AplicProperties {
        num_sources: Some(&sources),
        msi_parent: None,
        hart_indexes: None,
    };
    let plan = plan_aplic(
        Some(3),
        properties,
        Some((0x0d00_0000, 0x8000)),
        0x0d00_0000,
        &two_cpus(&[9]),
        &ImsicSchemes::new(),
        0x10,
        |controller| Some(u64::from(controller)),
        |controller| Some((controller >> 4) as usize - 1),
    )
    .ok()
    .unwrap();
    let claims = RefCell::new(VecDeque::from([5u64 << 16 | 1, 3 << 16 | 1]));
    let told = RefCell::new(Vec::new());
    let mut port = Port::new(|access: Access| match access {
        Access::Read32(0x401c) => claims.borrow_mut().pop_front().unwrap_or(0),
        Access::Notify(source) => {
            told.borrow_mut().push(source);
            0
        }
        _ => 0,
    });
    let mut aplic = build_aplic(&plan);
    aplic.initialize(&mut port);
    aplic.handle_direct(&mut port);
    assert_eq!(told.borrow().as_slice(), [5, 3]);
    aplic.quiesce(&mut port);
    claims.borrow_mut().push_back(4 << 16 | 1);
    aplic.handle_direct(&mut port);
    aplic.handle_parent(&mut port, 4);
    assert_eq!(told.borrow().len(), 2);
}

#[test]
fn lines_need_both_halves_of_a_mode() {
    assert_eq!(aplic::line_request(None, None), LineRequest::Nothing);
    assert_eq!(
        aplic::line_request(Some(IrqTrigger::Level), Some(IrqPolarity::Low)),
        LineRequest::Mode(AplicSourceMode::LevelLow)
    );
    assert_eq!(
        aplic::line_request(None, Some(IrqPolarity::High)),
        LineRequest::Incomplete
    );
}

fn flat_scheme() -> ImsicAddressScheme {
    ImsicAddressScheme {
        base_addr: 0x2800_0000,
        guest_index_bits: 0,
        hart_index_bits: 1,
        group_index_bits: 0,
        group_index_shift: 24,
    }
}

#[test]
fn vector_is_kept_only_with_its_handler() {
    let scheme = flat_scheme();
    let vector = RouteEvent::Vector {
        address: 0x2800_1000,
        data: 9,
    };
    let stage = aplic::advance_route(scheme, RouteStage::Reserving, RouteEvent::Succeeded);
    assert_eq!(stage, RouteStage::Allocating);
    let stage = aplic::advance_route(scheme, stage, vector);
    assert_eq!(stage, RouteStage::Registering { target: 0x4_0009 });
    let owning = aplic::advance_route(scheme, stage, RouteEvent::Succeeded);
    assert_eq!(
        aplic::advance_route(scheme, owning, RouteEvent::Succeeded),
        RouteStage::Finished(Some(0x4_0009))
    );
    assert_eq!(
        aplic::advance_route(scheme, stage, RouteEvent::Failed),
        RouteStage::Freeing
    );
    let removing = aplic::advance_route(scheme, owning, RouteEvent::Failed);
    assert_eq!(removing, RouteStage::Unregistering);
    assert_eq!(
        aplic::advance_route(scheme, removing, RouteEvent::Failed),
        RouteStage::Finished(None)
    );
    let stray = RouteEvent::Vector {
        address: 0x3000_0000,
        data: 9,
    };
    assert_eq!(
        aplic::advance_route(scheme, RouteStage::Allocating, stray),
        RouteStage::Freeing
    );
}

#[test]
fn identity_is_switched_where_its_file_is() {
    let mut imsic = Imsic::new(1, 63, files()).ok().unwrap();
    while imsic.allocate_vector().is_some() {}
    let switched = RefCell::new(Vec::new());
    let mut port = ImsicPort::new(|access: ImsicAccess| {
        switched.borrow_mut().push(access);
        1
    });
    assert!(imsic.set_identity_enabled(&mut port, 67, true));
    assert!(!imsic.set_identity_enabled(&mut port, 0x1000, true));
    assert!(!switched.borrow().is_empty());
    assert_eq!(imsic.claimed_hwirq(1, 3), Some(67));
    assert_eq!(imsic.claimed_hwirq(0, 3), Some(3));
    assert_eq!(imsic.claimed_hwirq(0, 64), None);
}

#[test]
fn lines_are_offered_once_they_are_served() {
    let mut step = PlicStep::Initialize;
    let mut taken = Vec::new();
    while !matches!(step, PlicStep::Finished(_)) {
        taken.push(step);
        step = binding::advance_binding(step, None);
    }
    assert_eq!(step, PlicStep::Finished(Ok(())));
    assert_eq!(
        taken,
        [
            PlicStep::Initialize,
            PlicStep::Reserve,
            PlicStep::RegisterCascade,
            PlicStep::OwnCascade,
            PlicStep::RegisterDomain,
            PlicStep::OwnDomain,
        ]
    );
    let error = Some(PnpError::OutOfMemory);
    let step = binding::advance_binding(PlicStep::OwnCascade, error);
    assert_eq!(step, PlicStep::WithdrawCascade(PnpError::OutOfMemory));
    assert_eq!(
        binding::advance_binding(step, None),
        PlicStep::Finished(Err(PnpError::OutOfMemory))
    );
    assert_eq!(
        binding::advance_binding(PlicStep::RegisterDomain, error),
        PlicStep::Finished(Err(PnpError::InvalidState))
    );
}

#[test]
fn only_direct_delivery_is_cascaded() {
    let sources = bytes(32);
    let parent = bytes(7);
    let properties = AplicProperties {
        num_sources: Some(&sources),
        msi_parent: Some(&parent),
        hart_indexes: None,
    };
    let mut schemes = ImsicSchemes::new();
    assert!(schemes.publish(7, flat_scheme()).is_ok());
    let plan = plan_aplic(
        Some(3),
        properties,
        Some((0x0d00_0000, 0x8000)),
        0x0d00_0000,
        &[],
        &schemes,
        0x10,
        |_| None,
        |_| None,
    )
    .ok()
    .unwrap();
    assert!(matches!(plan.delivery, AplicDelivery::Msi(_)));
    assert!(!is_cascaded(&plan));
    assert_eq!(plan.owned_resources, 33);
}
