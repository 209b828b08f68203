//! Registers and descriptors.

use vstd::prelude::*;

verus! {

pub const GMAC_CONTROL: usize = 0x0;

pub const GMAC_FRAME_FILTER: usize = 0x4;

pub const GMAC_MII_ADDR: usize = 0x10;

pub const GMAC_MII_DATA: usize = 0x14;

pub const GMAC_DEBUG: usize = 0x24;

pub const GMAC_INT_MASK: usize = 0x3c;

pub const GMAC_ADDR0_HIGH: usize = 0x300;

pub const GMAC_ADDR0_LOW: usize = 0x304;

pub const GMAC_CONTROL_2K: u32 = 0x8000000;

pub const GMAC_CONTROL_JD: u32 = 0x400000;

pub const GMAC_CONTROL_BE: u32 = 0x200000;

pub const GMAC_CONTROL_JE: u32 = 0x100000;

pub const GMAC_CONTROL_PS: u32 = 0x8000;

pub const GMAC_CONTROL_FES: u32 = 0x4000;

pub const GMAC_CONTROL_LM: u32 = 0x1000;

pub const GMAC_CONTROL_DM: u32 = 0x800;

pub const GMAC_CONTROL_IPC: u32 = 0x400;

pub const GMAC_CONTROL_TE: u32 = 0x8;

pub const GMAC_CONTROL_RE: u32 = 0x4;

pub const GMAC_CORE_INIT: u32 = 0x608000;

pub const GMAC_FRAME_FILTER_PR: u32 = 0x1;

pub const GMAC_FRAME_FILTER_PM: u32 = 0x10;

pub const MII_ADDR_GBUSY: u32 = 0x1;

pub const MII_ADDR_GWRITE: u32 = 0x2;

pub const MII_CR_SHIFT: u32 = 0x2;

pub const MII_CR_100_150M: u32 = 0x1;

pub const MII_RDA_SHIFT: u32 = 0x6;

pub const MII_PA_SHIFT: u32 = 0xb;

pub const DMA_BUS_MODE: usize = 0x1000;

pub const DMA_XMT_POLL_DEMAND: usize = 0x1004;

pub const DMA_RCV_POLL_DEMAND: usize = 0x1008;

pub const DMA_RCV_BASE_ADDR: usize = 0x100c;

pub const DMA_TX_BASE_ADDR: usize = 0x1010;

pub const DMA_STATUS: usize = 0x1014;

pub const DMA_CONTROL: usize = 0x1018;

pub const DMA_INTR_ENA: usize = 0x101c;

pub const DMA_BUS_MODE_SFT_RESET: u32 = 0x1;

pub const DMA_BUS_MODE_PBL_SHIFT: u32 = 0x8;

pub const DMA_BUS_MODE_RPBL_SHIFT: u32 = 0x11;

pub const DMA_BUS_MODE_FB: u32 = 0x10000;

pub const DMA_BUS_MODE_USP: u32 = 0x800000;

pub const DMA_BUS_MODE_MAXPBL: u32 = 0x1000000;

pub const DMA_STATUS_NIS: u32 = 0x10000;

pub const DMA_STATUS_AIS: u32 = 0x8000;

pub const DMA_STATUS_ERI: u32 = 0x4000;

pub const DMA_STATUS_FBI: u32 = 0x2000;

pub const DMA_STATUS_RPS: u32 = 0x100;

pub const DMA_STATUS_RU: u32 = 0x80;

pub const DMA_STATUS_RI: u32 = 0x40;

pub const DMA_STATUS_UNF: u32 = 0x20;

pub const DMA_STATUS_OVF: u32 = 0x10;

pub const DMA_STATUS_TU: u32 = 0x4;

pub const DMA_STATUS_TPS: u32 = 0x2;

pub const DMA_STATUS_TI: u32 = 0x1;

pub const DMA_STATUS_INTR_BITS: u32 = 0x1e1f7;

pub const DMA_CONTROL_TSF: u32 = 0x200000;

pub const DMA_CONTROL_RSF: u32 = 0x2000000;

pub const DMA_CONTROL_ST: u32 = 0x2000;

pub const DMA_CONTROL_SR: u32 = 0x2;

pub const DMA_INTR_ENA_NIE: u32 = 0x10000;

pub const DMA_INTR_ENA_AIE: u32 = 0x8000;

pub const DMA_INTR_ENA_FBE: u32 = 0x2000;

pub const DMA_INTR_ENA_RIE: u32 = 0x40;

pub const DMA_INTR_ENA_UNE: u32 = 0x20;

pub const DMA_INTR_ENA_TIE: u32 = 0x1;

pub const DMA_INTR_NORMAL: u32 = 0x10041;

pub const DMA_INTR_ABNORMAL: u32 = 0xa020;

pub const DMA_INTR_DEFAULT_MASK: u32 = 0x1a061;

pub const TDES0_OWN: u32 = 0x80000000;

pub const TDES0_ERROR_SUMMARY: u32 = 0x8000;

pub const TDES1_BUFFER1_SIZE_MASK: u32 = 0x7ff;

pub const TDES1_END_RING: u32 = 0x2000000;

pub const TDES1_FIRST_SEGMENT: u32 = 0x20000000;

pub const TDES1_LAST_SEGMENT: u32 = 0x40000000;

pub const TDES1_INTERRUPT: u32 = 0x80000000;

pub const RDES0_OWN: u32 = 0x80000000;

pub const RDES0_FRAME_LEN_SHIFT: u32 = 0x10;

pub const RDES0_FRAME_LEN_MASK: u32 = 0x3fff0000;

pub const RDES0_ERROR_SUMMARY: u32 = 0x8000;

pub const RDES0_LAST_DESCRIPTOR: u32 = 0x100;

pub const RDES1_BUFFER1_SIZE_MASK: u32 = 0x7ff;

pub const RDES1_END_RING: u32 = 0x2000000;

pub const RDES1_DISABLE_IC: u32 = 0x80000000;

pub const MII_BMCR: u16 = 0x0;

pub const MII_BMSR: u16 = 0x1;

pub const MII_PHYIDR1: u16 = 0x2;

pub const MII_PHYIDR2: u16 = 0x3;

pub const MII_ADVERTISE: u16 = 0x4;

pub const MII_LPA: u16 = 0x5;

pub const MII_CTRL1000: u16 = 0x9;

pub const MII_STAT1000: u16 = 0xa;

pub const BMCR_RESET: u16 = 0x8000;

pub const BMCR_ANENABLE: u16 = 0x1000;

pub const BMCR_ANRESTART: u16 = 0x200;

pub const BMSR_ANEGCOMPLETE: u16 = 0x20;

pub const BMSR_LINKSTATUS: u16 = 0x4;

pub const ADVERTISE_ALL: u16 = 0x1e1;

pub const CTRL1000_1000FULL: u16 = 0x200;

pub const STAT1000_1000FULL: u16 = 0x800;

pub const LPA_100FD: u16 = 0x100;

pub const LPA_100HD: u16 = 0x80;

pub const LPA_10FD: u16 = 0x40;

pub const LPA_10HD: u16 = 0x20;

/// A descriptor of a ring.
#[derive(Clone, Copy, PartialEq, Eq, Structural, Debug)]
pub struct DmaDesc {
    pub des0: u32,
    pub des1: u32,
    pub des2: u32,
    pub des3: u32,
}

impl DmaDesc {
    /// The words in the order in which they are in memory.
    pub open spec fn words(self) -> Seq<u32> {
        seq![self.des0, self.des1, self.des2, self.des3]
    }
}

impl Default for DmaDesc {
    fn default() -> (desc: Self)
        ensures
            desc == (DmaDesc { des0: 0, des1: 0, des2: 0, des3: 0 }),
    {
        DmaDesc { des0: 0, des1: 0, des2: 0, des3: 0 }
    }
}

} // verus!
