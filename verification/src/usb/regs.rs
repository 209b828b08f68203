//! Registers, descriptors in shared memory, and the standard requests.

use vstd::prelude::*;

verus! {

pub const EHCI_HCSPARAMS: usize = 4;

pub const EHCI_USBCMD: usize = 0;

pub const EHCI_USBSTS: usize = 4;

pub const EHCI_USBINTR: usize = 8;

pub const EHCI_CTRLDSSEGMENT: usize = 0x10;

pub const EHCI_PERIODICLISTBASE: usize = 0x14;

pub const EHCI_ASYNCLISTADDR: usize = 0x18;

pub const EHCI_CONFIGFLAG: usize = 0x40;

pub const EHCI_PORTSC: usize = 0x44;

pub const EHCI_CMD_RUN: u32 = 1;

pub const EHCI_CMD_HCRESET: u32 = 2;

pub const EHCI_CMD_PSE: u32 = 0x10;

pub const EHCI_CMD_ASE: u32 = 0x20;

pub const EHCI_CMD_IAAD: u32 = 0x40;

pub const EHCI_CMD_LRESET: u32 = 0x80;

pub const EHCI_STS_USBINT: u32 = 1;

pub const EHCI_STS_ERRINT: u32 = 2;

pub const EHCI_STS_PORTCHANGE: u32 = 4;

pub const EHCI_STS_FLR: u32 = 8;

pub const EHCI_STS_FATAL: u32 = 0x10;

pub const EHCI_STS_IAA: u32 = 0x20;

pub const EHCI_STS_HCHALTED: u32 = 0x1000;

pub const EHCI_STS_ASS: u32 = 0x8000;

pub const EHCI_STS_W1C_MASK: u32 = 0x3f;

pub const EHCI_PORTSC_CCS: u32 = 1;

pub const EHCI_PORTSC_CSC: u32 = 2;

pub const EHCI_PORTSC_PED: u32 = 4;

pub const EHCI_PORTSC_PEC: u32 = 8;

pub const EHCI_PORTSC_OCC: u32 = 0x20;

pub const EHCI_PORTSC_PR: u32 = 0x100;

pub const EHCI_PORTSC_PP: u32 = 0x1000;

pub const EHCI_PORTSC_PORT_OWNER: u32 = 0x2000;

pub const EHCI_PORTSC_WKCNNT_E: u32 = 0x100000;

pub const EHCI_PORTSC_CHANGE_MASK: u32 = 0x2a;

pub const QH_HEAD: u32 = 0x8000;

pub const QH_TOGGLE_CTL: u32 = 0x4000;

pub const QH_HIGH_SPEED: u32 = 0x2000;

pub const QH_NEXT_TERMINATE: u32 = 1;

pub const QH_NEXT_TYPE_QH: u32 = 2;

pub const QH_NEXT_TYPE_MASK: u32 = 6;

pub const QH_NEXT_POINTER_MASK: u32 = 0xffffffe0;

pub const QTD_TOGGLE: u32 = 0x80000000;

pub const QTD_IOC: u32 = 0x8000;

pub const QTD_CERR_SHIFT: u32 = 0xa;

pub const QTD_PID_SHIFT: u32 = 8;

pub const QTD_PID_OUT: u32 = 0;

pub const QTD_PID_IN: u32 = 1;

pub const QTD_PID_SETUP: u32 = 2;

pub const QTD_STS_ACTIVE: u32 = 0x80;

pub const QTD_STS_HALT: u32 = 0x40;

pub const QTD_LENGTH_SHIFT: u32 = 0x10;

pub const QTD_TERMINATE: u32 = 1;

pub const EHCI_TUNE_CERR: u32 = 3;

pub const EHCI_TUNE_RL_HS: u32 = 8;

pub const OHCI_HC_CONTROL: usize = 4;

pub const OHCI_HC_COMMAND_STATUS: usize = 8;

pub const OHCI_HC_INTERRUPT_STATUS: usize = 0xc;

pub const OHCI_HC_HCCA: usize = 0x18;

pub const OHCI_HC_FM_INTERVAL: usize = 0x34;

pub const OHCI_HC_RH_STATUS: usize = 0x50;

pub const OHCI_HC_RH_PORT_STATUS: usize = 0x54;

pub const OHCI_CTRL_CBSR: u32 = 0;

pub const OHCI_CTRL_HCFS_OPERATIONAL: u32 = 0x80;

pub const OHCI_CTRL_RWE: u32 = 0x400;

pub const OHCI_CTRL_CLE: u32 = 0x10;

pub const OHCI_CTRL_BLE: u32 = 0x20;

pub const OHCI_CMDSTAT_HCR: u32 = 1;

pub const OHCI_CMDSTAT_CLF: u32 = 2;

pub const OHCI_CMDSTAT_BLF: u32 = 4;

pub const OHCI_INTR_WDH: u32 = 1;

pub const OHCI_RHSTATUS_LPSC: u32 = 1;

pub const OHCI_PORT_CCS: u32 = 1;

pub const OHCI_PORT_LSDA: u32 = 0x200;

pub const OHCI_PORT_PRS: u32 = 0x10;

pub const OHCI_PORT_PRSC: u32 = 0x100000;

pub const ED_FUNC_ADDR_SHIFT: u32 = 0;

pub const ED_EN_SHIFT: u32 = 7;

pub const ED_DIR_SHIFT: u32 = 0xb;

pub const ED_SPEED_SHIFT: u32 = 0xd;

pub const ED_MAXPACKET_SHIFT: u32 = 0x10;

pub const ED_H: u32 = 0x40000000;

pub const TD_ROUNDING: u32 = 0x40000;

pub const TD_TOGGLE: u32 = 0x1000000;

pub const TD_DP_SHIFT: u32 = 0x19;

pub const TD_DP_SETUP: u32 = 0;

pub const TD_DP_IN: u32 = 2;

pub const TD_DP_OUT: u32 = 3;

pub const TD_CC_NOERROR: u32 = 0;

pub const DWC2_OTGCTL: usize = 0;

pub const DWC2_GAHBCFG: usize = 8;

pub const DWC2_GUSBCFG: usize = 0xc;

pub const DWC2_GRSTCTL: usize = 0x10;

pub const DWC2_GINTMSK: usize = 0x18;

pub const DWC2_GRXFSIZ: usize = 0x24;

pub const DWC2_GNPTXFSIZ: usize = 0x28;

pub const DWC2_HPTXFSIZ: usize = 0x100;

pub const DWC2_HPRT: usize = 0x440;

pub const DWC2_HCCHAR0: usize = 0x500;

pub const DWC2_HC_CHAN_STRIDE: usize = 0x20;

pub const DWC2_OTGCTL_HSTEN: u32 = 2;

pub const DWC2_GAHBCFG_GLBL_INTR_EN: u32 = 1;

pub const DWC2_GAHBCFG_DMA_EN: u32 = 0x20;

pub const DWC2_GUSBCFG_FORCEHSTMODE: u32 = 0x20000000;

pub const DWC2_GUSBCFG_HNPCAP: u32 = 0x200;

pub const DWC2_GUSBCFG_SRPCAP: u32 = 0x100;

pub const DWC2_GUSBCFG_ULPI_UTMI_SEL: u32 = 0x10;

pub const DWC2_GRSTCTL_CSFTRST: u32 = 1;

pub const DWC2_HPRT_PRTENA: u32 = 2;

pub const DWC2_HPRT_PRTCONNDET: u32 = 8;

pub const DWC2_HPRT_PRTENCHNG: u32 = 0x10;

pub const DWC2_HPRT_PRTOVRCURRCHNG: u32 = 0x40;

pub const DWC2_HPRT_PRTRST: u32 = 0x100;

pub const DWC2_HPRT_PRTPWR: u32 = 0x1000;

pub const DWC2_HPRT_PRTCONNSTS: u32 = 0x10000;

pub const DWC2_HPRT_PRTSPD_MASK: u32 = 0x60000;

pub const DWC2_HCCHAR_EPDIR: u32 = 0x800;

pub const DWC2_HCCHAR_EPTYPE_CONTROL: u32 = 0;

pub const DWC2_HCCHAR_EPTYPE_BULK: u32 = 0x80000;

pub const DWC2_HCCHAR_EPTYPE_INTERRUPT: u32 = 0xc0000;

pub const DWC2_HCCHAR_MPS_MASK: u32 = 0x7ff;

pub const DWC2_HCCHAR_EPNUM_SHIFT: u32 = 0xb;

pub const DWC2_HCCHAR_DEVADDR_SHIFT: u32 = 0x16;

pub const DWC2_HCCHAR_CHENA: u32 = 0x80000000;

pub const DWC2_HCINT_XFERCOMP: u32 = 1;

pub const DWC2_HCINT_CHHLTD: u32 = 2;

pub const DWC2_HCINT_STALL: u32 = 4;

pub const DWC2_HCINT_XACTERR: u32 = 0x40;

pub const DWC2_HCINT_BBLERR: u32 = 0x80;

pub const DWC2_HCINT_ALL: u32 = 0x3ff;

pub const DWC2_HCTSIZ_XFERSIZE_SHIFT: u32 = 0;

pub const DWC2_HCTSIZ_PKTCNT_SHIFT: u32 = 0x13;

pub const DWC2_HCTSIZ_PID_DATA1: u32 = 0x20000000;

pub const DWC2_HCTSIZ_PID_SETUP: u32 = 0x40000000;

pub const USB_DT_DEVICE: u8 = 1;

pub const USB_DT_CONFIG: u8 = 2;

pub const USB_DT_INTERFACE: u8 = 4;

pub const USB_DT_ENDPOINT: u8 = 5;

pub const USB_REQ_GET_DESCRIPTOR: u8 = 6;

pub const USB_REQ_SET_ADDRESS: u8 = 5;

pub const USB_REQ_SET_CONFIGURATION: u8 = 9;

pub const USB_DIR_IN: u8 = 0x80;

pub const USB_DIR_OUT: u8 = 0;

pub const USB_TYPE_STANDARD: u8 = 0;

pub const USB_RECIP_DEVICE: u8 = 0;

pub const USB_SPEED_HIGH: u8 = 0;

pub const USB_SPEED_FULL: u8 = 1;

pub const USB_SPEED_LOW: u8 = 2;

/// The head of a queue of transfers, as the controller reads it.
#[derive(Clone, Copy, PartialEq, Eq, Structural, Debug)]
pub struct EhciQhHw {
    pub next: u32,
    pub info1: u32,
    pub info2: u32,
    pub current: u32,
    pub qtd_next: u32,
    pub qtd_alt_next: u32,
    pub token: u32,
    pub buf0: u32,
    pub buf1: u32,
    pub buf2: u32,
    pub buf3: u32,
    pub buf4: u32,
}

impl EhciQhHw {
    /// A head with every word zero.
    pub open spec fn zero() -> EhciQhHw {
        EhciQhHw {
            next: 0,
            info1: 0,
            info2: 0,
            current: 0,
            qtd_next: 0,
            qtd_alt_next: 0,
            token: 0,
            buf0: 0,
            buf1: 0,
            buf2: 0,
            buf3: 0,
            buf4: 0,
        }
    }

    /// The words in the order in which they are in memory.
    pub open spec fn words(self) -> Seq<u32> {
        seq![
            self.next,
            self.info1,
            self.info2,
            self.current,
            self.qtd_next,
            self.qtd_alt_next,
            self.token,
            self.buf0,
            self.buf1,
            self.buf2,
            self.buf3,
            self.buf4,
        ]
    }
}

impl Default for EhciQhHw {
    fn default() -> (head: Self)
        ensures
            head == EhciQhHw::zero(),
    {
        EhciQhHw {
            next: 0,
            info1: 0,
            info2: 0,
            current: 0,
            qtd_next: 0,
            qtd_alt_next: 0,
            token: 0,
            buf0: 0,
            buf1: 0,
            buf2: 0,
            buf3: 0,
            buf4: 0,
        }
    }
}

/// The pointer part of a link; its low bits say what it links to.
pub open spec fn link_pointer(link: u32) -> u32 {
    (link / 32 * 32) as u32
}

/// The link to the head of a queue.
pub fn qh_next(dma: u32) -> (link: u32)
    ensures
        link == link_pointer(dma) + QH_NEXT_TYPE_QH,
{
    dma / 32 * 32 + QH_NEXT_TYPE_QH
}

/// The address that a link points to.
pub fn qh_next_pointer(link: u32) -> (dma: u32)
    ensures
        dma == link_pointer(link),
{
    link / 32 * 32
}

/// The address of a head comes back from the link to it.
pub proof fn link_round_trip(dma: u32)
    requires
        dma % 32 == 0,
    ensures
        link_pointer((link_pointer(dma) + QH_NEXT_TYPE_QH) as u32) == dma,
{
}

/// A transfer of a queue, as the controller reads it.
#[derive(Clone, Copy, PartialEq, Eq, Structural, Debug)]
pub struct EhciQtdHw {
    pub next: u32,
    pub alt_next: u32,
    pub token: u32,
    pub buf0: u32,
    pub buf1: u32,
    pub buf2: u32,
    pub buf3: u32,
    pub buf4: u32,
}

impl EhciQtdHw {
    /// The words in the order in which they are in memory.
    pub open spec fn words(self) -> Seq<u32> {
        seq![
            self.next,
            self.alt_next,
            self.token,
            self.buf0,
            self.buf1,
            self.buf2,
            self.buf3,
            self.buf4,
        ]
    }
}

impl Default for EhciQtdHw {
    fn default() -> (qtd: Self)
        ensures
            qtd == (EhciQtdHw {
                next: 0,
                alt_next: 0,
                token: 0,
                buf0: 0,
                buf1: 0,
                buf2: 0,
                buf3: 0,
                buf4: 0,
            }),
    {
        EhciQtdHw {
            next: 0,
            alt_next: 0,
            token: 0,
            buf0: 0,
            buf1: 0,
            buf2: 0,
            buf3: 0,
            buf4: 0,
        }
    }
}

/// An endpoint, as the full-speed controller reads it.
#[derive(Clone, Copy, PartialEq, Eq, Structural, Debug)]
pub struct OhciEd {
    pub word0: u32,
    pub word1: u32,
    pub tail: u32,
    pub head: u32,
}

impl OhciEd {
    pub open spec fn words(self) -> Seq<u32> {
        seq![self.word0, self.word1, self.tail, self.head]
    }
}

impl Default for OhciEd {
    fn default() -> (ed: Self)
        ensures
            ed == (OhciEd { word0: 0, word1: 0, tail: 0, head: 0 }),
    {
        OhciEd { word0: 0, word1: 0, tail: 0, head: 0 }
    }
}

/// A transfer, as the full-speed controller reads it.
#[derive(Clone, Copy, PartialEq, Eq, Structural, Debug)]
pub struct OhciTd {
    pub word0: u32,
    pub word1: u32,
    pub cbp: u32,
    pub be: u32,
}

impl OhciTd {
    pub open spec fn words(self) -> Seq<u32> {
        seq![self.word0, self.word1, self.cbp, self.be]
    }
}

impl Default for OhciTd {
    fn default() -> (td: Self)
        ensures
            td == (OhciTd { word0: 0, word1: 0, cbp: 0, be: 0 }),
    {
        OhciTd { word0: 0, word1: 0, cbp: 0, be: 0 }
    }
}

/// A control request.
#[derive(Clone, Copy, PartialEq, Eq, Structural, Debug)]
pub struct UsbSetup {
    pub request_type: u8,
    pub request: u8,
    pub value: u16,
    pub index: u16,
    pub length: u16,
}

impl Default for UsbSetup {
    fn default() -> (setup: Self)
        ensures
            setup == (UsbSetup { request_type: 0, request: 0, value: 0, index: 0, length: 0 }),
    {
        UsbSetup { request_type: 0, request: 0, value: 0, index: 0, length: 0 }
    }
}

impl UsbSetup {
    /// The request as it goes over the bus.
    pub open spec fn bytes(self) -> Seq<u8> {
        seq![
            self.request_type,
            self.request,
            (self.value % 256) as u8,
            (self.value / 256) as u8,
            (self.index % 256) as u8,
            (self.index / 256) as u8,
            (self.length % 256) as u8,
            (self.length / 256) as u8,
        ]
    }

    pub fn to_bytes(self) -> (bytes: Vec<u8>)
        ensures
            bytes@ == self.bytes(),
    {
        let mut bytes: Vec<u8> = Vec::new();
        bytes.push(self.request_type);
        bytes.push(self.request);
        bytes.push((self.value % 256) as u8);
        bytes.push((self.value / 256) as u8);
        bytes.push((self.index % 256) as u8);
        bytes.push((self.index / 256) as u8);
        bytes.push((self.length % 256) as u8);
        bytes.push((self.length / 256) as u8);
        assert(bytes@ =~= self.bytes());
        bytes
    }
}

/// The description of an interface.
#[derive(Clone, Copy, PartialEq, Eq, Structural, Debug)]
pub struct UsbInterfaceDesc {
    pub length: u8,
    pub descriptor_type: u8,
    pub interface_number: u8,
    pub alternate_setting: u8,
    pub num_endpoints: u8,
    pub interface_class: u8,
    pub interface_subclass: u8,
    pub interface_protocol: u8,
    pub interface_string: u8,
}

impl UsbInterfaceDesc {
    /// The description at a position.
    pub open spec fn at(config: Seq<u8>, position: int) -> UsbInterfaceDesc {
        UsbInterfaceDesc {
            length: config[position],
            descriptor_type: config[position + 1],
            interface_number: config[position + 2],
            alternate_setting: config[position + 3],
            num_endpoints: config[position + 4],
            interface_class: config[position + 5],
            interface_subclass: config[position + 6],
            interface_protocol: config[position + 7],
            interface_string: config[position + 8],
        }
    }

    pub fn read(config: &Vec<u8>, position: usize) -> (desc: Self)
        requires
            position + 9 <= config.len(),
        ensures
            desc == Self::at(config@, position as int),
    {
        UsbInterfaceDesc {
            length: config[position],
            descriptor_type: config[position + 1],
            interface_number: config[position + 2],
            alternate_setting: config[position + 3],
            num_endpoints: config[position + 4],
            interface_class: config[position + 5],
            interface_subclass: config[position + 6],
            interface_protocol: config[position + 7],
            interface_string: config[position + 8],
        }
    }
}

} // verus!
