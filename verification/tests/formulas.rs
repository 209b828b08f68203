use platform_drivers::align;
use platform_drivers::bytes;
use platform_drivers::gmac::driver as gmac;
use platform_drivers::gmac::driver::{BindEvent, BindStep, IrqRegistrationError, PoolKind};
use platform_drivers::i2c;
use platform_drivers::net::turn::{TurnStatus, local_turn_status};
use platform_drivers::pci::bar::PciBarAddressWidth;
use platform_drivers::pci::host_runtime::pci_child_interrupt_key;
use platform_drivers::pci::probe;
use platform_drivers::platform::{PnpError, PnpResourceKind};
use platform_drivers::spi::driver::flash_name;
use platform_drivers::tsensor;

#[test]
fn numbers_go_through_bytes_unchanged() {
    let mut out = vec![9u8];
    bytes::push_be16(&mut out, 0x1234);
    bytes::push_be32(&mut out, 0xdead_beef);
    assert_eq!(out, [9, 0x12, 0x34, 0xde, 0xad, 0xbe, 0xef]);
    assert_eq!(bytes::be16(&out, 1), 0x1234);
    assert_eq!(bytes::be32(&out, 3), 0xdead_beef);
    assert_eq!(bytes::le16(&out, 1), 0x3412);
    assert_eq!(bytes::array4(&out, 3), [0xde, 0xad, 0xbe, 0xef]);
    assert_eq!(bytes::array6(&out, 1)[5], 0xef);
    assert_eq!(bytes::padded4(&out, 3)[..5], [0xde, 0xad, 0xbe, 0xef, 0]);
}

#[test]
fn addresses_are_rounded_up_to_their_alignment() {
    assert_eq!(align::align_up(0x1001, 0x1000), Some(0x2000));
    assert_eq!(align::align_up(0x1000, 0x1000), Some(0x1000));
    assert_eq!(align::align_up(u64::MAX, 2), None);
    assert!(align::is_power_of_two(1 << 63));
    assert!(!align::is_power_of_two(0));
    assert!(!align::is_power_of_two(24));
}

#[test]
fn register_sizes_are_what_their_fixed_bits_say() {
    assert_eq!(
        probe::io_bar_size(0xffff_ffe1, 0xe001),
        Some((0x20, 0xe000))
    );
    assert_eq!(probe::io_bar_size(1, 0xe001), None);
    let wide = PciBarAddressWidth::Bits64;
    let narrow = PciBarAddressWidth::Bits32;
    assert_eq!(probe::memory_bar_size(narrow, 0xfff0_0000, 0), 0x10_0000);
    assert_eq!(probe::memory_bar_size(narrow, 8, 0), 0);
    assert_eq!(
        probe::memory_bar_size(wide, 0x0000_000c, 0xffff_fffe),
        0x2_0000_0000
    );
    assert_eq!(
        probe::memory_bar_size(PciBarAddressWidth::Bits20, 0x000f_8002, 0),
        0x8000
    );
    assert_eq!(
        probe::memory_bar_address(wide, 0x8000_000c, Some(3)),
        0x3_8000_0000
    );
    assert_eq!(
        probe::memory_bar_address(narrow, 0x8000_0008, None),
        0x8000_0000
    );
}

#[test]
fn pins_are_asked_for_by_their_place() {
    assert_eq!(
        pci_child_interrupt_key(2, 3, 1, 4, 3, 1),
        Some(vec![0x2_1900, 0, 0, 4])
    );
    assert_eq!(pci_child_interrupt_key(2, 3, 1, 4, 0, 1), None);
    assert_eq!(pci_child_interrupt_key(2, 3, 1, 4, 3, 0), None);
}

#[test]
fn turn_that_does_not_run_is_busy_or_invalid() {
    assert_eq!(
        local_turn_status(1, 2, true, true, true, Some(true)),
        (TurnStatus::Done, true)
    );
    assert_eq!(
        local_turn_status(1, 2, true, false, true, None),
        (TurnStatus::Busy, false)
    );
    assert_eq!(
        local_turn_status(2, 2, true, true, true, Some(true)),
        (TurnStatus::Invalid, false)
    );
    assert_eq!(
        local_turn_status(1, 2, true, true, true, Some(false)),
        (TurnStatus::Invalid, false)
    );
}

#[test]
fn flash_is_named_by_its_identity() {
    let name: String = flash_name(0xef, 0x4a).into_iter().collect();
    assert_eq!(name, "spi-nor_ef4a");
}

#[test]
fn devices_are_numbered() {
    let text = |name: Vec<char>| name.into_iter().collect::<String>();
    assert_eq!(text(gmac::device_name(0)), "eth0");
    assert_eq!(text(gmac::device_name(u32::MAX)), "eth4294967295");
    assert_eq!(text(i2c::function_name(Some(10))), "i2c-10");
    assert_eq!(text(i2c::function_name(None)), "i2c-0");
    assert_eq!(text(tsensor::function_name(Some(7))), "tsensor-7");
}

#[test]
fn network_device_is_registered_last() {
    let mut step = BindStep::RegisterInterrupt;
    let mut taken = Vec::new();
    while !matches!(step, BindStep::Finished(_)) {
        taken.push(step);
        step = gmac::advance_binding(step, BindEvent::Done);
    }
    assert_eq!(step, BindStep::Finished(Ok(())));
    assert_eq!(taken.len(), 6);
    assert_eq!(taken[5], BindStep::RegisterDevice);
    assert_eq!(
        gmac::advance_binding(
            BindStep::RegisterInterrupt,
            BindEvent::InterruptRefused(IrqRegistrationError::NoResource)
        ),
        BindStep::Finished(Err(PnpError::Missing(
            PnpResourceKind::Irq,
            "gmac macirq missing"
        )))
    );
    assert_eq!(
        gmac::advance_binding(BindStep::MakePool(PoolKind::SendHeaders), BindEvent::Refused),
        BindStep::Finished(Err(PnpError::OutOfMemory))
    );
    assert_eq!(
        gmac::advance_binding(BindStep::RegisterDevice, BindEvent::Refused),
        BindStep::Finished(Err(PnpError::HardwareFailure(
            "gmac net device registration failed"
        )))
    );
    assert_eq!(gmac::pool_request(PoolKind::SendFromSockets, 4).count, 256);
    assert_eq!(
        gmac::pool_request(PoolKind::SendFromSockets, usize::MAX).count,
        usize::MAX
    );
    assert_eq!(gmac::pool_request(PoolKind::Receive, 4).size, 1536);
}
