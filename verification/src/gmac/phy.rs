//! The transceiver behind the controller.

use vstd::prelude::*;
use crate::gmac::regs;
use crate::port;
use crate::port::{Access, Exchange, Poll, PollTest, Port};

verus! {

pub const PHY_ADDR: u8 = 0;

pub const MDIO_TIMEOUT_LOOPS: u32 = 10_000;

pub const AN_TIMEOUT_NS: u64 = 3_000_000_000;

pub const AN_POLL_INTERVAL_NS: u64 = 20_000_000;

/// The poll that the management bus is idle.
pub open spec fn idle_poll() -> Poll {
    Poll {
        offset: regs::GMAC_MII_ADDR,
        wide: false,
        test: PollTest { mask: regs::MII_ADDR_GBUSY as u64, expected: 0, equal: true },
        tries: MDIO_TIMEOUT_LOOPS,
        pause_ns: Some(1_000),
    }
}

/// How a register of the transceiver was accessed.
pub ghost struct MdioRun {
    pub first: Seq<Exchange>,
    pub first_ended: Option<u64>,
    pub second: Seq<Exchange>,
    pub second_ended: Option<u64>,
    pub data: u32,
}

/// The word that begins an access.
pub open spec fn mii_word(phy: u8, reg: u16, write: bool) -> u32 {
    let word = ((phy * 0x800) as u32) | ((reg * 0x40) as u32) | 4u32;
    if write {
        word | regs::MII_ADDR_GWRITE | regs::MII_ADDR_GBUSY
    } else {
        word | regs::MII_ADDR_GBUSY
    }
}

/// Whether a register of the transceiver was accessed so.
pub open spec fn mdio_done(
    w: MdioRun,
    phy: u8,
    reg: u16,
    write: Option<u16>,
    trace: Seq<Exchange>,
    result: Result<u16, &'static str>,
) -> bool {
    let asked = w.first + seq![
        port::w32(
            regs::GMAC_MII_DATA,
            if write is Some {
                write->0 as u32
            } else {
                0
            },
        ),
        port::w32(regs::GMAC_MII_ADDR, mii_word(phy, reg, write is Some)),
    ] + w.second;
    &&& idle_poll().done(w.first, w.first_ended)
    &&& if w.first_ended is None {
        trace == w.first && result == Err::<u16, &'static str>("GMAC MDIO busy timeout")
    } else {
        &&& idle_poll().done(w.second, w.second_ended)
        &&& if w.second_ended is None {
            trace == asked && result == Err::<u16, &'static str>("GMAC MDIO busy timeout")
        } else if write is Some {
            trace == asked && result == Ok::<u16, &'static str>(0)
        } else {
            &&& trace == asked.push(port::r32(regs::GMAC_MII_DATA, w.data))
            &&& result == Ok::<u16, &'static str>((w.data % 0x10000) as u16)
        }
    }
}

/// Accesses a register of the transceiver.
fn mdio<F: FnMut(Access) -> u64>(port: &mut Port<F>, phy: u8, reg: u16, write: Option<u16>) -> (result:
    Result<u16, &'static str>)
    requires
        old(port).wf(),
    ensures
        final(port).wf(),
        final(port).performs() == old(port).performs(),
        port::grown(final(port).log(), old(port).log()),
        exists|w: MdioRun| #[trigger]
            mdio_done(
                w,
                phy,
                reg,
                write,
                port::since(final(port).log(), old(port).log()),
                result,
            ),
{
    let ghost start = port.log();
    let ghost mut w: MdioRun = arbitrary();
    let idle = Poll {
        offset: regs::GMAC_MII_ADDR,
        wide: false,
        test: PollTest::clear(regs::MII_ADDR_GBUSY as u64),
        tries: MDIO_TIMEOUT_LOOPS,
        pause_ns: Some(1_000),
    };
    assert(idle == idle_poll());
    let first_ended = port.poll(idle);
    let ghost first = port::since(port.log(), start);
    proof {
        w = MdioRun { first, first_ended, ..w };
    }
    if first_ended.is_none() {
        assert(mdio_done(w, phy, reg, write, first, Err("GMAC MDIO busy timeout")));
        return Err("GMAC MDIO busy timeout");
    }
    let mut word: u32 = ((phy as u32) * 0x800) | ((reg as u32) * 0x40) | 4u32;
    let mut data: u32 = 0;
    if let Some(value) = write {
        data = value as u32;
        word = word | regs::MII_ADDR_GWRITE;
    }
    word = word | regs::MII_ADDR_GBUSY;
    port.write32(regs::GMAC_MII_DATA, data);
    port.write32(regs::GMAC_MII_ADDR, word);
    let ghost middle = port.log();
    let second_ended = port.poll(idle);
    let ghost second = port::since(port.log(), middle);
    let ghost asked = first + seq![
        port::w32(regs::GMAC_MII_DATA, data),
        port::w32(regs::GMAC_MII_ADDR, word),
    ] + second;
    proof {
        w = MdioRun { second, second_ended, ..w };
        assert(port.log() =~= start + asked);
        port::lemma_grown(start, asked);
    }
    if second_ended.is_none() {
        assert(mdio_done(w, phy, reg, write, asked, Err("GMAC MDIO busy timeout")));
        return Err("GMAC MDIO busy timeout");
    }
    if write.is_some() {
        assert(mdio_done(w, phy, reg, write, asked, Ok(0)));
        return Ok(0);
    }
    let value: u32 = port.read32(regs::GMAC_MII_DATA);
    let result: u16 = (value % 0x10000) as u16;
    proof {
        w = MdioRun { data: value, ..w };
        let trace = asked.push(port::r32(regs::GMAC_MII_DATA, value));
        assert(port.log() =~= start + trace);
        port::lemma_grown(start, trace);
        assert(mdio_done(w, phy, reg, write, trace, Ok(result)));
    }
    Ok(result)
}

/// Reads a register of the transceiver.
pub fn mdio_read<F: FnMut(Access) -> u64>(port: &mut Port<F>, phy_addr: u8, reg: u16) -> (result:
    Result<u16, &'static str>)
    requires
        old(port).wf(),
    ensures
        final(port).wf(),
        final(port).performs() == old(port).performs(),
        port::grown(final(port).log(), old(port).log()),
        exists|w: MdioRun| #[trigger]
            mdio_done(
                w,
                phy_addr,
                reg,
                None,
                port::since(final(port).log(), old(port).log()),
                result,
            ),
{
    mdio(port, phy_addr, reg, None)
}

/// The result of a write, which gives no value.
pub open spec fn written(result: Result<(), &'static str>) -> Result<u16, &'static str> {
    match result {
        Ok(_) => Ok(0),
        Err(error) => Err(error),
    }
}

/// Writes a register of the transceiver.
pub fn mdio_write<F: FnMut(Access) -> u64>(
    port: &mut Port<F>,
    phy_addr: u8,
    reg: u16,
    value: u16,
) -> (result: Result<(), &'static str>)
    requires
        old(port).wf(),
    ensures
        final(port).wf(),
        final(port).performs() == old(port).performs(),
        port::grown(final(port).log(), old(port).log()),
        exists|w: MdioRun| #[trigger]
            mdio_done(
                w,
                phy_addr,
                reg,
                Some(value),
                port::since(final(port).log(), old(port).log()),
                written(result),
            ),
{
    let ghost start = port.log();
    let full = mdio(port, phy_addr, reg, Some(value));
    let ghost w = choose|w: MdioRun| #[trigger]
        mdio_done(w, phy_addr, reg, Some(value), port::since(port.log(), start), full);
    let result: Result<(), &'static str> = match full {
        Ok(_) => Ok(()),
        Err(error) => Err(error),
    };
    assert(mdio_done(
        w,
        phy_addr,
        reg,
        Some(value),
        port::since(port.log(), start),
        written(result),
    ));
    result
}

/// A step of a conversation with the transceiver.
#[derive(Clone, Copy, PartialEq, Eq, Structural, Debug)]
pub enum PhyStep {
    Fetch(u16),
    Put(u16, u16),
    Pause(u64),
}

/// How a step went.
pub ghost struct StepRun {
    pub run: MdioRun,
    pub trace: Seq<Exchange>,
    pub value: Result<u16, &'static str>,
}

/// Whether a step went so.
pub open spec fn step_done(w: StepRun, step: PhyStep) -> bool {
    match step {
        PhyStep::Fetch(reg) => mdio_done(w.run, PHY_ADDR, reg, None, w.trace, w.value),
        PhyStep::Put(reg, value) => mdio_done(
            w.run,
            PHY_ADDR,
            reg,
            Some(value),
            w.trace,
            w.value,
        ),
        PhyStep::Pause(ns) => w.trace == seq![port::wait(ns)] && w.value == Ok::<
            u16,
            &'static str,
        >(0),
    }
}

/// The accesses of steps one after the other.
pub open spec fn steps_trace(runs: Seq<StepRun>) -> Seq<Exchange>
    decreases runs.len(),
{
    if runs.len() == 0 {
        Seq::empty()
    } else {
        steps_trace(runs.drop_last()) + runs.last().trace
    }
}

/// Whether the first steps went so, each with a value.
pub open spec fn steps_went(runs: Seq<StepRun>, steps: Seq<PhyStep>, values: Seq<u16>) -> bool {
    &&& runs.len() == values.len()
    &&& runs.len() <= steps.len()
    &&& forall|i: int|
        0 <= i < runs.len() ==> step_done(#[trigger] runs[i], steps[i]) && runs[i].value == Ok::<
            u16,
            &'static str,
        >(values[i])
}

/// Whether a conversation went so. The first step that fails ends it.
pub open spec fn conversed(
    runs: Seq<StepRun>,
    steps: Seq<PhyStep>,
    trace: Seq<Exchange>,
    result: Result<Seq<u16>, &'static str>,
) -> bool {
    &&& trace == steps_trace(runs)
    &&& match result {
        Ok(values) => runs.len() == steps.len() && steps_went(runs, steps, values),
        Err(error) => {
            &&& 0 < runs.len() <= steps.len()
            &&& exists|values: Seq<u16>| #[trigger] steps_went(runs.drop_last(), steps, values)
            &&& step_done(runs.last(), steps[runs.len() - 1])
            &&& runs.last().value == Err::<u16, &'static str>(error)
        },
    }
}

/// What a conversation gave.
pub open spec fn heard(result: Result<Vec<u16>, &'static str>) -> Result<Seq<u16>, &'static str> {
    match result {
        Ok(values) => Ok(values@),
        Err(error) => Err(error),
    }
}

/// Talks to the transceiver.
pub fn converse<F: FnMut(Access) -> u64>(port: &mut Port<F>, steps: &Vec<PhyStep>) -> (result: Result<
    Vec<u16>,
    &'static str,
>)
    requires
        old(port).wf(),
    ensures
        final(port).wf(),
        final(port).performs() == old(port).performs(),
        port::grown(final(port).log(), old(port).log()),
        exists|runs: Seq<StepRun>| #[trigger]
            conversed(
                runs,
                steps@,
                port::since(final(port).log(), old(port).log()),
                heard(result),
            ),
        result matches Ok(values) ==> values@.len() == steps@.len(),
{
    let ghost start = port.log();
    let ghost mut runs: Seq<StepRun> = Seq::empty();
    let mut values: Vec<u16> = Vec::new();
    let mut i: usize = 0;
    assert(start + steps_trace(runs) =~= start);
    while i < steps.len()
        invariant
            i <= steps@.len(),
            port.wf(),
            port.performs() == old(port).performs(),
            start == old(port).log(),
            runs.len() == i,
            steps_went(runs, steps@, values@),
            port.log() == start + steps_trace(runs),
        decreases steps@.len() - i,
    {
        let ghost before = port.log();
        let ghost earlier = runs;
        let ghost mut run: MdioRun = arbitrary();
        let value: Result<u16, &'static str> = match steps[i] {
            PhyStep::Fetch(reg) => {
                let value = mdio(port, PHY_ADDR, reg, None);
                proof {
                    run = choose|run: MdioRun| #[trigger]
                        mdio_done(
                            run,
                            PHY_ADDR,
                            reg,
                            None,
                            port::since(port.log(), before),
                            value,
                        );
                }
                value
            },
            PhyStep::Put(reg, data) => {
                let value = mdio(port, PHY_ADDR, reg, Some(data));
                proof {
                    run = choose|run: MdioRun| #[trigger]
                        mdio_done(
                            run,
                            PHY_ADDR,
                            reg,
                            Some(data),
                            port::since(port.log(), before),
                            value,
                        );
                }
                value
            },
            PhyStep::Pause(ns) => {
                port.delay(ns);
                proof {
                    assert(port.log() =~= before + seq![port::wait(ns)]);
                    port::lemma_grown(before, seq![port::wait(ns)]);
                }
                Ok(0)
            },
        };
        proof {
            let trace = port::since(port.log(), before);
            runs = runs.push(StepRun { run, trace, value });
            assert(runs.drop_last() =~= earlier);
            assert(step_done(runs.last(), steps@[i as int]));
            assert(port.log() =~= start + steps_trace(runs));
            port::lemma_grown(start, steps_trace(runs));
        }
        match value {
            Ok(value) => {
                let ghost kept = values@;
                values.push(value);
                assert forall|k: int| 0 <= k < runs.len() implies step_done(
                    #[trigger] runs[k],
                    steps@[k],
                ) && runs[k].value == Ok::<u16, &'static str>(values@[k]) by {
                    if k < i {
                        assert(runs[k] == earlier[k]);
                        assert(values@[k] == kept[k]);
                    }
                }
            },
            Err(error) => {
                let result: Result<Vec<u16>, &'static str> = Err(error);
                assert(steps_went(runs.drop_last(), steps@, values@));
                assert(conversed(runs, steps@, steps_trace(runs), heard(result)));
                return result;
            },
        }
        i += 1;
    }
    proof {
        port::lemma_grown(start, steps_trace(runs));
    }
    let result: Result<Vec<u16>, &'static str> = Ok(values);
    assert(conversed(runs, steps@, steps_trace(runs), heard(result)));
    result
}

/// The speed and the duplex mode that were agreed on.
pub open spec fn agreed_link(stat1000: u16, lpa: u16) -> (u32, bool) {
    if stat1000 / regs::STAT1000_1000FULL % 2 == 1 {
        (1000, true)
    } else if lpa / regs::LPA_100FD % 2 == 1 {
        (100, true)
    } else if lpa / regs::LPA_100HD % 2 == 1 {
        (100, false)
    } else if lpa / regs::LPA_10FD % 2 == 1 {
        (10, true)
    } else if lpa / regs::LPA_10HD % 2 == 1 {
        (10, false)
    } else {
        (1000, true)
    }
}

/// Finds the speed and the duplex mode that were agreed on.
pub fn link_mode(stat1000: u16, lpa: u16) -> (mode: (u32, bool))
    ensures
        mode == agreed_link(stat1000, lpa),
{
    if stat1000 / regs::STAT1000_1000FULL % 2 == 1 {
        (1000, true)
    } else if lpa / regs::LPA_100FD % 2 == 1 {
        (100, true)
    } else if lpa / regs::LPA_100HD % 2 == 1 {
        (100, false)
    } else if lpa / regs::LPA_10FD % 2 == 1 {
        (10, true)
    } else if lpa / regs::LPA_10HD % 2 == 1 {
        (10, false)
    } else {
        (1000, true)
    }
}

/// The steps that reset the transceiver and begin the negotiation.
pub open spec fn setup_steps() -> Seq<PhyStep> {
    seq![
        PhyStep::Put(regs::MII_BMCR, regs::BMCR_RESET),
        PhyStep::Pause(20_000_000),
        PhyStep::Fetch(regs::MII_PHYIDR1),
        PhyStep::Fetch(regs::MII_PHYIDR2),
        PhyStep::Put(regs::MII_CTRL1000, regs::CTRL1000_1000FULL),
        PhyStep::Put(regs::MII_ADVERTISE, regs::ADVERTISE_ALL),
        PhyStep::Put(regs::MII_BMCR, 0x1200),
    ]
}

/// The steps that look at the partner's abilities.
pub open spec fn result_steps() -> Seq<PhyStep> {
    seq![PhyStep::Fetch(regs::MII_STAT1000), PhyStep::Fetch(regs::MII_LPA)]
}

/// Whether the negotiation is over and the link is up.
pub open spec fn negotiated(bmsr: u16) -> bool {
    bmsr / regs::BMSR_ANEGCOMPLETE % 2 == 1 && bmsr / regs::BMSR_LINKSTATUS % 2 == 1
}

/// The accesses of looks at a negotiation that is not over.
pub open spec fn waiting_trace(runs: Seq<StepRun>, times: Seq<u64>) -> Seq<Exchange>
    decreases runs.len(),
{
    if runs.len() == 0 {
        Seq::empty()
    } else {
        waiting_trace(runs.drop_last(), times.drop_last()) + runs.last().trace + seq![
            port::clock(times.last()),
            port::wait(AN_POLL_INTERVAL_NS),
        ]
    }
}

/// Whether a look found the negotiation not over.
pub open spec fn look_missed(run: StepRun) -> bool {
    &&& step_done(run, PhyStep::Fetch(regs::MII_BMSR))
    &&& run.value is Ok
    &&& !negotiated(run.value->Ok_0)
}

/// How a negotiation was awaited.
pub ghost struct WaitRun {
    pub began: u64,
    pub missed: Seq<StepRun>,
    pub times: Seq<u64>,
    pub last: StepRun,
    pub now: u64,
}

/// When a negotiation is waited for no longer.
pub open spec fn give_up_at(began: u64) -> u64 {
    if began + AN_TIMEOUT_NS > u64::MAX {
        u64::MAX
    } else {
        (began + AN_TIMEOUT_NS) as u64
    }
}

/// Whether a negotiation was awaited so. It is waited for until it is over, until
/// its time is, or for `u64::MAX` looks; only a failed access is an error.
pub open spec fn waited(w: WaitRun, trace: Seq<Exchange>, result: Result<(), &'static str>) -> bool {
    let seen = seq![port::clock(w.began)] + waiting_trace(w.missed, w.times) + w.last.trace;
    &&& w.missed.len() == w.times.len()
    &&& w.missed.len() <= u64::MAX
    &&& forall|i: int| 0 <= i < w.missed.len() ==> look_missed(#[trigger] w.missed[i])
    &&& forall|i: int| 0 <= i < w.times.len() ==> (#[trigger] w.times[i]) < give_up_at(w.began)
    &&& step_done(w.last, PhyStep::Fetch(regs::MII_BMSR))
    &&& match w.last.value {
        Err(error) => trace == seen && result == Err::<(), &'static str>(error),
        Ok(bmsr) => {
            &&& result == Ok::<(), &'static str>(())
            &&& if negotiated(bmsr) {
                trace == seen
            } else {
                &&& w.now >= give_up_at(w.began) || w.missed.len() == u64::MAX
                &&& trace == seen.push(port::clock(w.now))
            }
        },
    }
}

/// Waits for the negotiation.
fn wait_negotiation<F: FnMut(Access) -> u64>(port: &mut Port<F>) -> (result: Result<
    (),
    &'static str,
>)
    requires
        old(port).wf(),
    ensures
        final(port).wf(),
        final(port).performs() == old(port).performs(),
        port::grown(final(port).log(), old(port).log()),
        exists|w: WaitRun| #[trigger]
            waited(w, port::since(final(port).log(), old(port).log()), result),
{
    let ghost start = port.log();
    let began: u64 = port.now();
    let deadline: u64 = began.saturating_add(AN_TIMEOUT_NS);
    let ghost head = seq![port::clock(began)];
    let ghost mut missed: Seq<StepRun> = Seq::empty();
    let ghost mut times: Seq<u64> = Seq::empty();
    let mut round: u64 = 0;
    assert(port.log() =~= start + (head + waiting_trace(missed, times)));
    loop
        invariant
            port.wf(),
            port.performs() == old(port).performs(),
            start == old(port).log(),
            head == seq![port::clock(began)],
            deadline == give_up_at(began),
            missed.len() == round,
            times.len() == round,
            forall|i: int| 0 <= i < missed.len() ==> look_missed(#[trigger] missed[i]),
            forall|i: int| 0 <= i < times.len() ==> (#[trigger] times[i]) < deadline,
            port.log() == start + (head + waiting_trace(missed, times)),
        decreases u64::MAX - round,
    {
        let ghost before = port.log();
        let value = mdio(port, PHY_ADDR, regs::MII_BMSR, None);
        let ghost trace = port::since(port.log(), before);
        let ghost run = choose|run: MdioRun| #[trigger]
            mdio_done(run, PHY_ADDR, regs::MII_BMSR, None, trace, value);
        let ghost last = StepRun { run, trace, value };
        let ghost seen = head + waiting_trace(missed, times) + trace;
        proof {
            assert(step_done(last, PhyStep::Fetch(regs::MII_BMSR)));
            assert(port.log() =~= start + seen);
            port::lemma_grown(start, seen);
        }
        let bmsr: u16 = match value {
            Ok(bmsr) => bmsr,
            Err(error) => {
                assert(waited(
                    WaitRun { began, missed, times, last, now: 0 },
                    seen,
                    Err(error),
                ));
                return Err(error);
            },
        };
        if bmsr / regs::BMSR_ANEGCOMPLETE % 2 == 1 && bmsr / regs::BMSR_LINKSTATUS % 2 == 1 {
            assert(waited(WaitRun { began, missed, times, last, now: 0 }, seen, Ok(())));
            return Ok(());
        }
        let now: u64 = port.now();
        if now >= deadline || round == u64::MAX {
            proof {
                let whole = seen.push(port::clock(now));
                assert(port.log() =~= start + whole);
                port::lemma_grown(start, whole);
                assert(waited(WaitRun { began, missed, times, last, now }, whole, Ok(())));
            }
            return Ok(());
        }
        port.delay(AN_POLL_INTERVAL_NS);
        proof {
            let earlier = missed;
            let earlier_times = times;
            missed = missed.push(last);
            times = times.push(now);
            assert(missed.drop_last() =~= earlier);
            assert(times.drop_last() =~= earlier_times);
            assert(port.log() =~= start + (head + waiting_trace(missed, times)));
        }
        round += 1;
    }
}

/// How the transceiver was brought up.
pub ghost struct BringupRun {
    pub setup: Seq<StepRun>,
    pub setup_trace: Seq<Exchange>,
    pub setup_result: Result<Seq<u16>, &'static str>,
    pub wait: WaitRun,
    pub wait_trace: Seq<Exchange>,
    pub wait_result: Result<(), &'static str>,
    pub ask: Seq<StepRun>,
    pub ask_trace: Seq<Exchange>,
    pub ask_result: Result<Seq<u16>, &'static str>,
}

/// Whether the transceiver was brought up so: it is reset, the negotiation is
/// awaited, and the link is what both sides can do.
pub open spec fn brought_up(
    w: BringupRun,
    trace: Seq<Exchange>,
    result: Result<(u32, bool), &'static str>,
) -> bool {
    &&& conversed(w.setup, setup_steps(), w.setup_trace, w.setup_result)
    &&& if w.setup_result is Err {
        &&& trace == w.setup_trace
        &&& result == Err::<(u32, bool), &'static str>(w.setup_result->Err_0)
    } else {
        &&& waited(w.wait, w.wait_trace, w.wait_result)
        &&& if w.wait_result is Err {
            &&& trace == w.setup_trace + w.wait_trace
            &&& result == Err::<(u32, bool), &'static str>(w.wait_result->Err_0)
        } else {
            &&& conversed(w.ask, result_steps(), w.ask_trace, w.ask_result)
            &&& trace == w.setup_trace + w.wait_trace + w.ask_trace
            &&& result == match w.ask_result {
                Ok(values) => Ok::<(u32, bool), &'static str>(agreed_link(values[0], values[1])),
                Err(error) => Err(error),
            }
        }
    }
}

/// Resets the transceiver and negotiates the link.
pub fn phy_bringup<F: FnMut(Access) -> u64>(port: &mut Port<F>) -> (result: Result<
    (u32, bool),
    &'static str,
>)
    requires
        old(port).wf(),
    ensures
        final(port).wf(),
        final(port).performs() == old(port).performs(),
        port::grown(final(port).log(), old(port).log()),
        exists|w: BringupRun| #[trigger]
            brought_up(w, port::since(final(port).log(), old(port).log()), result),
{
    let ghost start = port.log();
    let ghost mut w: BringupRun = arbitrary();
    let mut steps: Vec<PhyStep> = Vec::new();
    steps.push(PhyStep::Put(regs::MII_BMCR, regs::BMCR_RESET));
    steps.push(PhyStep::Pause(20_000_000));
    steps.push(PhyStep::Fetch(regs::MII_PHYIDR1));
    steps.push(PhyStep::Fetch(regs::MII_PHYIDR2));
    steps.push(PhyStep::Put(regs::MII_CTRL1000, regs::CTRL1000_1000FULL));
    steps.push(PhyStep::Put(regs::MII_ADVERTISE, regs::ADVERTISE_ALL));
    steps.push(PhyStep::Put(regs::MII_BMCR, 0x1200));
    assert(steps@ =~= setup_steps());
    let setup_result = converse(port, &steps);
    let ghost setup_trace = port::since(port.log(), start);
    proof {
        let setup = choose|runs: Seq<StepRun>| #[trigger]
            conversed(runs, setup_steps(), setup_trace, heard(setup_result));
        w = BringupRun { setup, setup_trace, setup_result: heard(setup_result), ..w };
    }
    if let Err(error) = setup_result {
        assert(brought_up(w, setup_trace, Err(error)));
        return Err(error);
    }
    let ghost middle = port.log();
    let wait_result = wait_negotiation(port);
    let ghost wait_trace = port::since(port.log(), middle);
    proof {
        let wait = choose|wait: WaitRun| #[trigger] waited(wait, wait_trace, wait_result);
        w = BringupRun { wait, wait_trace, wait_result, ..w };
        assert(port.log() =~= start + (setup_trace + wait_trace));
        port::lemma_grown(start, setup_trace + wait_trace);
    }
    if let Err(error) = wait_result {
        assert(brought_up(w, setup_trace + wait_trace, Err(error)));
        return Err(error);
    }
    let ghost late = port.log();
    let mut last_steps: Vec<PhyStep> = Vec::new();
    last_steps.push(PhyStep::Fetch(regs::MII_STAT1000));
    last_steps.push(PhyStep::Fetch(regs::MII_LPA));
    assert(last_steps@ =~= result_steps());
    let ask_result = converse(port, &last_steps);
    proof {
        let ask_trace = port::since(port.log(), late);
        let ask = choose|runs: Seq<StepRun>| #[trigger]
            conversed(runs, result_steps(), ask_trace, heard(ask_result));
        w = BringupRun { ask, ask_trace, ask_result: heard(ask_result), ..w };
        let trace = setup_trace + wait_trace + ask_trace;
        assert(port.log() =~= start + trace);
        port::lemma_grown(start, trace);
    }
    let result: Result<(u32, bool), &'static str> = match ask_result {
        Ok(values) => Ok(link_mode(values[0], values[1])),
        Err(error) => Err(error),
    };
    assert(brought_up(w, setup_trace + wait_trace + w.ask_trace, result));
    result
}

/// How the link was looked at.
pub ghost struct LinkRun {
    pub bmsr: StepRun,
    pub stat: StepRun,
    pub lpa: StepRun,
}

/// The value that was read, or zero.
pub open spec fn or_zero(value: Result<u16, &'static str>) -> u16 {
    match value {
        Ok(value) => value,
        Err(_) => 0,
    }
}

/// Whether the link was looked at so.
pub open spec fn link_checked(
    w: LinkRun,
    trace: Seq<Exchange>,
    result: Option<(u32, bool)>,
) -> bool {
    &&& step_done(w.bmsr, PhyStep::Fetch(regs::MII_BMSR))
    &&& if w.bmsr.value is Ok && w.bmsr.value->Ok_0 / regs::BMSR_LINKSTATUS % 2 == 1 {
        &&& step_done(w.stat, PhyStep::Fetch(regs::MII_STAT1000))
        &&& step_done(w.lpa, PhyStep::Fetch(regs::MII_LPA))
        &&& trace == w.bmsr.trace + w.stat.trace + w.lpa.trace
        &&& result == Some(agreed_link(or_zero(w.stat.value), or_zero(w.lpa.value)))
    } else {
        trace == w.bmsr.trace && result == None::<(u32, bool)>
    }
}

/// Reads a register of the transceiver as a step.
fn fetch<F: FnMut(Access) -> u64>(port: &mut Port<F>, reg: u16) -> (result: (
    Result<u16, &'static str>,
    Ghost<StepRun>,
))
    requires
        old(port).wf(),
    ensures
        final(port).wf(),
        final(port).performs() == old(port).performs(),
        final(port).log() == old(port).log() + result.1@.trace,
        result.1@.value == result.0,
        step_done(result.1@, PhyStep::Fetch(reg)),
{
    let ghost start = port.log();
    let value = mdio(port, PHY_ADDR, reg, None);
    let ghost trace = port::since(port.log(), start);
    let ghost run = choose|run: MdioRun| #[trigger]
        mdio_done(run, PHY_ADDR, reg, None, trace, value);
    (value, Ghost(StepRun { run, trace, value }))
}

/// Looks at the link without waiting.
pub fn check_link<F: FnMut(Access) -> u64>(port: &mut Port<F>) -> (result: Option<(u32, bool)>)
    requires
        old(port).wf(),
    ensures
        final(port).wf(),
        final(port).performs() == old(port).performs(),
        port::grown(final(port).log(), old(port).log()),
        exists|w: LinkRun| #[trigger]
            link_checked(w, port::since(final(port).log(), old(port).log()), result),
{
    let ghost start = port.log();
    let ghost mut w: LinkRun = arbitrary();
    let (status, seen) = fetch(port, regs::MII_BMSR);
    proof {
        w = LinkRun { bmsr: seen@, ..w };
        port::lemma_grown(start, seen@.trace);
    }
    let up: bool = match status {
        Ok(bmsr) => bmsr / regs::BMSR_LINKSTATUS % 2 == 1,
        Err(_) => false,
    };
    if !up {
        assert(link_checked(w, seen@.trace, None));
        return None;
    }
    let (stat, stat_run) = fetch(port, regs::MII_STAT1000);
    let (lpa, lpa_run) = fetch(port, regs::MII_LPA);
    let stat_value: u16 = match stat {
        Ok(value) => value,
        Err(_) => 0,
    };
    let lpa_value: u16 = match lpa {
        Ok(value) => value,
        Err(_) => 0,
    };
    let mode = link_mode(stat_value, lpa_value);
    proof {
        w = LinkRun { stat: stat_run@, lpa: lpa_run@, ..w };
        let trace = seen@.trace + stat_run@.trace + lpa_run@.trace;
        assert(port.log() =~= start + trace);
        port::lemma_grown(start, trace);
        assert(link_checked(w, trace, Some(mode)));
    }
    Some(mode)
}

} // verus!
