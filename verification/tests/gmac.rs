use std::cell::RefCell;
use std::collections::HashMap;

use platform_drivers::gmac::driver::{hash_mac_suffix, mac_address, map_irq_error};
use platform_drivers::gmac::driver::{IrqRegistrationError, check_window};
use platform_drivers::gmac::irq::GmacQueueIrq;
use platform_drivers::gmac::mac::{GmacMac, speed_duplex_bits};
use platform_drivers::gmac::phy;
use platform_drivers::gmac::phy::link_mode;
use platform_drivers::gmac::queue::{
    GmacQueue, QueueFatalError, RxBudget, RxLease, TxPacket,
};
use platform_drivers::platform::{PnpError, PnpResourceKind};
use platform_drivers::port::{Access, Port};

struct Memory {
    words: RefCell<HashMap<usize, u64>>,
}

impl Memory {
    fn new() -> Self {
        Memory {
            words: RefCell::new(HashMap::new()),
        }
    }

    fn get(&self, at: usize) -> u64 {
        self.words.borrow().get(&at).copied().unwrap_or(0)
    }

    fn set(&self, at: usize, value: u64) {
        self.words.borrow_mut().insert(at, value);
    }

    fn perform(&self, access: Access) -> u64 {
        match access {
            Access::Load32(at) => self.get(at),
            Access::Store32(at, value) => {
                self.set(at, u64::from(value));
                0
            }
            Access::Store8(at, value) => {
                self.set(at, u64::from(value));
                0
            }
            _ => 0,
        }
    }
}

fn queue() -> GmacQueue {
    GmacQueue::new(GmacMac {
        rx_ring: 0x1000,
        tx_ring: 0x2000,
        tx_buffers: 0x10000,
    })
}

fn lease(vaddr: usize) -> RxLease {
    RxLease {
        vaddr,
        len: 1536,
        syncs: true,
        dma: Some(vaddr as u64),
    }
}

#[test]
fn address_is_local_and_follows_the_path() {
    let path = b"/soc/ethernet@40040000";
    assert_eq!(hash_mac_suffix(path), HASH.to_be_bytes());
    let address = mac_address(path, 0x107);
    assert_eq!(address[0], 2);
    assert_eq!(address[1..5], HASH.to_be_bytes());
    assert_eq!(address[5], 7);
    assert_ne!(mac_address(b"/soc/ethernet@40050000", 0x107), address);
}

const HASH: u32 = 0x7e09d87;

#[test]
fn received_frame_comes_with_its_memory() {
    let memory = Memory::new();
    let mut port = Port::new(|access: Access| memory.perform(access));
    let mut queue = queue();
    let mut irq = GmacQueueIrq::new();
    let mut batch = vec![Some(lease(0x8000)), Some(lease(0x9000))];
    let refill = queue.refill_rx_batch(&mut port, &mut irq, &mut batch);
    assert_eq!(refill.posted, 2);
    assert!(batch.iter().all(|item| item.is_none()));
    assert_eq!(memory.get(0x1000), 0x8000_0000);
    assert_eq!(memory.get(0x1008), 0x8000);
    memory.set(0x1000, 60 << 16 | 0x300);
    let mut out = Vec::new();
    let budget = RxBudget {
        packets: 8,
        bytes: 10_000,
    };
    let polled = queue.poll_rx_batch(&mut port, budget, &mut out, 8);
    assert_eq!((polled.packets, polled.bytes), (1, 60));
    assert_eq!(out[0].frame_len, 60);
    assert_eq!(out[0].lease.vaddr, 0x8000);
}

#[test]
fn damaged_frame_is_dropped() {
    let memory = Memory::new();
    let mut port = Port::new(|access: Access| memory.perform(access));
    let mut queue = queue();
    let mut irq = GmacQueueIrq::new();
    let mut batch = vec![Some(lease(0x8000)), Some(lease(0x9000))];
    queue.refill_rx_batch(&mut port, &mut irq, &mut batch);
    memory.set(0x1000, 60 << 16 | 0x8300);
    memory.set(0x1010, 2000 << 16 | 0x300);
    let mut out = Vec::new();
    let budget = RxBudget {
        packets: 8,
        bytes: 10_000,
    };
    let polled = queue.poll_rx_batch(&mut port, budget, &mut out, 8);
    assert_eq!(polled.packets, 0);
    assert!(out.is_empty());
}

#[test]
fn sent_packet_is_copied_and_completed() {
    let memory = Memory::new();
    let mut port = Port::new(|access: Access| memory.perform(access));
    let mut queue = queue();
    let mut batch = vec![Some(TxPacket {
        total: 3,
        checksum_ok: true,
        readable: true,
        fragments: vec![vec![7], vec![8, 9]],
        completion: 42,
    })];
    let sent = queue.submit_tx_batch(&mut port, &mut batch);
    assert_eq!((sent.packets, sent.bytes), (1, 3));
    assert_eq!(
        [memory.get(0x10000), memory.get(0x10001), memory.get(0x10002)],
        [7, 8, 9]
    );
    assert_eq!(memory.get(0x2000), 0x8000_0000);
    assert_eq!(memory.get(0x2004), 0xe000_0003);
    memory.set(0x2000, 0);
    let mut done = Vec::new();
    let reclaimed = queue.reclaim_tx_batch(&mut port, &mut done, 8);
    assert_eq!(reclaimed.completions, 1);
    assert_eq!(done, [42]);
}

#[test]
fn the_two_rings_do_not_touch_each_other() {
    let memory = Memory::new();
    let mut port = Port::new(|access: Access| memory.perform(access));
    let mut queue = queue();
    let mut irq = GmacQueueIrq::new();
    let mut packets = vec![Some(TxPacket {
        total: 1,
        checksum_ok: true,
        readable: true,
        fragments: vec![vec![7]],
        completion: 42,
    })];
    assert_eq!(queue.submit_tx_batch(&mut port, &mut packets).packets, 1);
    assert!(queue.rx_pending.iter().all(|item| item.is_none()));
    assert_eq!((queue.rx_refill_index, queue.rx_poll_index), (0, 0));
    let mut leases = vec![Some(lease(0x8000))];
    assert_eq!(queue.refill_rx_batch(&mut port, &mut irq, &mut leases).posted, 1);
    assert_eq!(queue.tx_pending[0], Some(42));
    assert_eq!((queue.tx_submit_index, queue.tx_reclaim_index), (1, 0));
    assert_eq!((queue.rx_refill_index, queue.rx_poll_index), (1, 0));
    assert!(!queue.quiesced);
    queue.quiesce(&mut port);
    assert!(queue.quiesced);
    assert!(queue.tx_pending.iter().all(|item| item.is_none()));
    assert!(queue.rx_pending.iter().all(|item| item.is_none()));
    assert_eq!((queue.tx_submit_index, queue.tx_reclaim_index), (1, 0));
    assert_eq!((queue.rx_refill_index, queue.rx_poll_index), (1, 0));
}

#[test]
fn packet_whose_parts_do_not_add_up_is_fatal() {
    let memory = Memory::new();
    let mut port = Port::new(|access: Access| memory.perform(access));
    let mut queue = queue();
    let packet = |readable: bool| {
        Some(TxPacket {
            total: 3,
            checksum_ok: true,
            readable,
            fragments: vec![vec![7]],
            completion: 1,
        })
    };
    let sent = queue.submit_tx_batch(&mut port, &mut vec![packet(true)]);
    assert_eq!(sent.fatal, Some(QueueFatalError::RingCorrupt));
    let sent = queue.submit_tx_batch(&mut port, &mut vec![packet(false)]);
    assert_eq!(sent.fatal, Some(QueueFatalError::DmaFault));
}

#[test]
fn best_mode_of_the_partner_is_taken() {
    assert_eq!(link_mode(0x0800, 0), (1000, true));
    assert_eq!(link_mode(0x0400, 0x01e0), (100, true));
    assert_eq!(link_mode(0, 0x01e0), (100, true));
    assert_eq!(link_mode(0, 0x00e0), (100, false));
    assert_eq!(link_mode(0, 0x0060), (10, true));
    assert_eq!(link_mode(0, 0x0020), (10, false));
    assert_eq!(link_mode(0, 0), (1000, true));
    assert_ne!(speed_duplex_bits(100, true), speed_duplex_bits(100, false));
    assert_ne!(speed_duplex_bits(100, true), speed_duplex_bits(10, true));
}

#[test]
fn controller_faults_are_told_apart() {
    assert!(matches!(
        map_irq_error(IrqRegistrationError::NoResource),
        PnpError::Missing(PnpResourceKind::Irq, "gmac macirq missing")
    ));
    assert!(check_window(None).is_err());
}

#[test]
fn worker_is_woken_once_until_it_looks() {
    let status = RefCell::new(0x1_0040u64);
    let log = RefCell::new(Vec::new());
    let mut port = Port::new(|access: Access| {
        log.borrow_mut().push(access);
        match access {
            Access::Read32(0x1014) => *status.borrow(),
            _ => 0,
        }
    });
    let mut irq = GmacQueueIrq::new();
    assert!(irq.set_waker());
    assert!(!irq.set_waker());
    assert!(irq.handle_irq(&mut port));
    assert!(irq.handle_irq(&mut port));
    let woken = |log: &RefCell<Vec<Access>>| {
        log.borrow()
            .iter()
            .filter(|access| matches!(access, Access::Notify(1)))
            .count()
    };
    assert_eq!(woken(&log), 1);
    assert!(log.borrow().contains(&Access::Write32(0x1014, 0x1_0040)));
    assert!(irq.masked && irq.pending);
    *status.borrow_mut() = 0;
    assert!(irq.ack_and_mask(&mut port));
    assert!(!irq.ack_and_mask(&mut port));
    irq.unmask(&mut port);
    assert_eq!(log.borrow().last(), Some(&Access::Write32(0x101c, 0x1_a061)));
    assert!(!irq.handle_irq(&mut port));
    assert_eq!(irq.stats(), (2, 4, 1));
    *status.borrow_mut() = 0x80a4;
    assert!(irq.handle_irq(&mut port));
    assert!(log.borrow().contains(&Access::Write32(0x1004, 0)));
    assert!(irq.take_rx_need_kick());
    assert!(!irq.take_rx_need_kick());
    irq.clear_waker();
    assert!(irq.set_waker());
}

#[test]
fn transceiver_registers_are_read_and_written() {
    let data = RefCell::new(0x7849u64);
    let asked = RefCell::new(Vec::new());
    let mut port = Port::new(|access: Access| match access {
        Access::Read32(0x14) => *data.borrow(),
        Access::Write32(0x10, value) => {
            asked.borrow_mut().push(value);
            0
        }
        Access::Write32(0x14, value) => {
            *data.borrow_mut() |= u64::from(value) << 16;
            0
        }
        _ => 0,
    });
    assert_eq!(phy::mdio_read(&mut port, 1, 2), Ok(0x7849));
    assert_eq!(phy::mdio_write(&mut port, 1, 2, 0x1200), Ok(()));
    assert_eq!(*data.borrow() >> 16, 0x1200);
    let words = asked.borrow();
    assert_eq!(words[0] >> 6 & 0x3ff, 1 << 5 | 2);
    assert_eq!(words[0] ^ words[1], 2);
    let mut stuck = Port::new(|_access: Access| 1);
    assert_eq!(
        phy::mdio_read(&mut stuck, 1, 2),
        Err("GMAC MDIO busy timeout")
    );
}

#[test]
fn link_without_partner_is_down() {
    let status = RefCell::new(0u64);
    let mut port = Port::new(|access: Access| match access {
        Access::Read32(0x14) => *status.borrow(),
        _ => 0,
    });
    assert_eq!(phy::check_link(&mut port), None);
    *status.borrow_mut() = 0x0804;
    assert_eq!(phy::check_link(&mut port), Some((1000, true)));
}

#[test]
fn last_descriptors_close_their_rings() {
    let memory = Memory::new();
    let mut port = Port::new(|access: Access| memory.perform(access));
    let mut queue = queue();
    let mut irq = GmacQueueIrq::new();
    for first in [0usize, 32] {
        let mut batch: Vec<_> = (first..first + 32)
            .map(|i| Some(lease(0x10_0000 + 0x1000 * i)))
            .collect();
        assert_eq!(queue.refill_rx_batch(&mut port, &mut irq, &mut batch).posted, 32);
        let mut packets: Vec<_> = (first..first + 32)
            .map(|i| {
                Some(TxPacket {
                    total: 1,
                    checksum_ok: true,
                    readable: true,
                    fragments: vec![vec![7]],
                    completion: i as u64,
                })
            })
            .collect();
        assert_eq!(queue.submit_tx_batch(&mut port, &mut packets).packets, 32);
    }
    for slot in 0..63 {
        assert_eq!(memory.get(0x1000 + 16 * slot + 4), 1536);
        assert_eq!(memory.get(0x2000 + 16 * slot + 4), 0xe000_0001);
    }
    assert_eq!(memory.get(0x1000 + 16 * 63 + 4), 0x200_0000 + 1536);
    assert_eq!(memory.get(0x1000 + 16 * 63), 0x8000_0000);
    assert_eq!(memory.get(0x2000 + 16 * 63 + 4), 0xe200_0001);
}
