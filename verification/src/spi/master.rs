//! The bus: its clock, its selects, and bytes sent against bytes received.

use vstd::prelude::*;
use crate::port;
use crate::port::{Access, BytePoll, Exchange, Port};

verus! {

pub const SPCR_REG: usize = 0;

pub const SPSR_REG: usize = 1;

pub const FIFO_REG: usize = 2;

pub const SPER_REG: usize = 3;

pub const SFCS_REG: usize = 5;

pub const SPCR_SPE: u8 = 0x40;

pub const SPSR_RFEMPTY: u8 = 1;

pub const SPSR_WCOL: u8 = 0x40;

pub const SPSR_SPIF: u8 = 0x80;

pub const XFER_TIMEOUT_LOOPS: u32 = 10_000;

/// The speed that a bus starts with.
pub const INITIAL_HZ: u32 = 30_000_000;

/// How many binary digits a number has.
pub open spec fn bit_length(n: int) -> int
    decreases n,
{
    if n <= 0 {
        0
    } else {
        1 + bit_length(n / 2)
    }
}

/// The code of a power of two by which the clock can be divided.
pub open spec fn divider_code(index: int) -> u8 {
    if index == 1 {
        1
    } else if index == 2 {
        4
    } else if index == 3 {
        2
    } else if index == 4 {
        3
    } else if 5 <= index <= 11 {
        index as u8
    } else {
        0
    }
}

/// By how much the clock is divided for a speed: rounded up, from 2 to 4096.
pub open spec fn divider(clk_rate: int, hz: int) -> int {
    let div = (clk_rate + hz - 1) / hz;
    if div < 2 {
        2
    } else if div > 4096 {
        4096
    } else {
        div
    }
}

/// The code for a speed: that of the least power of two not below the divider.
pub open spec fn clock_code(clk_rate: int, hz: int) -> u8 {
    divider_code(bit_length(divider(clk_rate, hz) - 1))
}

/// The accesses that set a speed.
pub open spec fn clock_set(spcr: u8, sper: u8, code: u8) -> Seq<Exchange> {
    seq![
        port::r8(SPCR_REG, spcr),
        port::w8(SPCR_REG, (spcr & 0xfc) | (code % 4)),
        port::r8(SPER_REG, sper),
        port::w8(SPER_REG, (sper & 0xfc) | (code / 4 % 4)),
    ]
}

/// Whether a speed was set so: without a known clock, or for no speed, nothing is
/// done.
pub open spec fn speed_set(
    spcr: u8,
    sper: u8,
    clk_rate: u64,
    hz: u32,
    trace: Seq<Exchange>,
) -> bool {
    trace == if clk_rate == 0 || hz == 0 {
        Seq::<Exchange>::empty()
    } else {
        clock_set(spcr, sper, clock_code(clk_rate as int, hz as int))
    }
}

/// How a bus was set up.
pub ghost struct Setup {
    pub first: u8,
    pub second: u8,
    pub spcr: u8,
    pub sper: u8,
    pub speed: Seq<Exchange>,
}

/// Whether a bus was set up so.
pub open spec fn set_up(w: Setup, clk_rate: u64, trace: Seq<Exchange>) -> bool {
    &&& speed_set(w.spcr, w.sper, clk_rate, INITIAL_HZ, w.speed)
    &&& trace == seq![
        port::r8(SPCR_REG, w.first),
        port::w8(SPCR_REG, w.first & 0xbf),
        port::w8(SPSR_REG, 0xc0),
        port::r8(SPCR_REG, w.second),
        port::w8(SPCR_REG, w.second | SPCR_SPE),
    ] + w.speed
}

/// The accesses that select a device.
pub open spec fn selecting(cs: u8, value: u8) -> Seq<Exchange> {
    let mask = 0x11u8 << cs;
    seq![port::r8(SFCS_REG, value), port::w8(SFCS_REG, (value & !mask) | mask)]
}

/// The accesses that release a device.
pub open spec fn releasing(cs: u8, value: u8) -> Seq<Exchange> {
    let mask = 0x11u8 << cs;
    seq![port::r8(SFCS_REG, value), port::w8(SFCS_REG, (value & !mask) | (1u8 << cs))]
}

/// How a byte went over the bus.
pub ghost struct ByteRun {
    pub poll: Seq<Exchange>,
    pub ended: Option<u8>,
    pub input: u8,
}

/// The poll that a byte has come in.
pub open spec fn byte_poll() -> BytePoll {
    BytePoll {
        offset: SPSR_REG,
        mask: SPSR_RFEMPTY,
        set: false,
        tries: XFER_TIMEOUT_LOOPS,
        pause_ns: 100,
    }
}

/// The accesses of a byte.
pub open spec fn byte_trace(run: ByteRun, byte: u8) -> Seq<Exchange> {
    seq![port::w8(FIFO_REG, byte)] + run.poll + if run.ended is Some {
        seq![port::r8(FIFO_REG, run.input)]
    } else {
        Seq::empty()
    }
}

/// The accesses of bytes one after the other.
pub open spec fn bytes_trace(runs: Seq<ByteRun>, bytes: Seq<u8>) -> Seq<Exchange>
    decreases runs.len(),
{
    if runs.len() == 0 {
        Seq::empty()
    } else {
        bytes_trace(runs.drop_last(), bytes) + byte_trace(runs.last(), bytes[runs.len() - 1])
    }
}

/// The bytes that came in.
pub open spec fn inputs(runs: Seq<ByteRun>, count: int) -> Seq<u8> {
    Seq::new(count as nat, |i: int| runs[i].input)
}

/// Whether bytes went over the bus so: each until the first against which nothing
/// came in.
pub open spec fn clocked(runs: Seq<ByteRun>, bytes: Seq<u8>, received: Seq<u8>, ok: bool) -> bool {
    &&& runs.len() <= bytes.len()
    &&& forall|i: int|
        0 <= i < runs.len() ==> byte_poll().done((#[trigger] runs[i]).poll, runs[i].ended)
    &&& forall|i: int| 0 <= i < runs.len() - 1 ==> (#[trigger] runs[i]).ended is Some
    &&& if ok {
        &&& runs.len() == bytes.len()
        &&& runs.len() > 0 ==> runs.last().ended is Some
        &&& received == inputs(runs, runs.len() as int)
    } else {
        &&& runs.len() > 0
        &&& runs.last().ended is None
        &&& received == inputs(runs, runs.len() - 1)
    }
}

/// Bytes, and zeros up to a length.
pub open spec fn padded(bytes: Seq<u8>, count: int) -> Seq<u8> {
    Seq::new(
        count as nat,
        |i: int|
            if i < bytes.len() {
                bytes[i]
            } else {
                0
            },
    )
}

/// Data whose first bytes are replaced, as far as it reaches.
pub open spec fn filled(data: Seq<u8>, received: Seq<u8>) -> Seq<u8> {
    Seq::new(
        data.len(),
        |i: int|
            if i < received.len() {
                received[i]
            } else {
                data[i]
            },
    )
}

/// The larger of two lengths.
pub open spec fn longer(a: int, b: int) -> int {
    if a < b {
        b
    } else {
        a
    }
}

/// Whether a transfer went so.
pub open spec fn transferred(
    runs: Seq<ByteRun>,
    received: Seq<u8>,
    tx: Seq<u8>,
    rx: Seq<u8>,
    rx_after: Seq<u8>,
    trace: Seq<Exchange>,
    result: Result<(), &'static str>,
) -> bool {
    let bytes = padded(tx, longer(tx.len() as int, rx.len() as int));
    &&& clocked(runs, bytes, received, result is Ok)
    &&& trace == bytes_trace(runs, bytes)
    &&& rx_after == filled(rx, received)
    &&& result is Err ==> result == Err::<(), &'static str>("LS2K SPI transfer timeout")
}

/// What came of bytes on the bus.
pub struct Clocked {
    pub received: Vec<u8>,
    pub ok: bool,
    pub runs: Ghost<Seq<ByteRun>>,
}

/// Sends bytes and receives one for each.
pub fn clock_bytes<F: FnMut(Access) -> u64>(port: &mut Port<F>, bytes: &Vec<u8>) -> (out: Clocked)
    requires
        old(port).wf(),
    ensures
        final(port).wf(),
        final(port).performs() == old(port).performs(),
        clocked(out.runs@, bytes@, out.received@, out.ok),
        final(port).log() == old(port).log() + bytes_trace(out.runs@, bytes@),
{
    let ghost start = port.log();
    let ghost mut runs: Seq<ByteRun> = Seq::empty();
    let mut received: Vec<u8> = Vec::new();
    let mut i: usize = 0;
    assert(start + bytes_trace(runs, bytes@) =~= start);
    while i < bytes.len()
        invariant
            i <= bytes@.len(),
            port.wf(),
            port.performs() == old(port).performs(),
            runs.len() == i,
            forall|k: int|
                0 <= k < runs.len() ==> byte_poll().done((#[trigger] runs[k]).poll, runs[k].ended),
            forall|k: int| 0 <= k < runs.len() ==> (#[trigger] runs[k]).ended is Some,
            received@ == inputs(runs, i as int),
            port.log() == start + bytes_trace(runs, bytes@),
            start == old(port).log(),
        decreases bytes@.len() - i,
    {
        let ghost earlier = runs;
        let ghost before = port.log();
        port.write8(FIFO_REG, bytes[i]);
        let ghost middle = port.log();
        let ended = port.poll8(
            BytePoll {
                offset: SPSR_REG,
                mask: SPSR_RFEMPTY,
                set: false,
                tries: XFER_TIMEOUT_LOOPS,
                pause_ns: 100,
            },
        );
        let ghost poll = port::since(port.log(), middle);
        if ended.is_none() {
            let ghost run = ByteRun { poll, ended, input: 0 };
            proof {
                runs = runs.push(run);
                assert(runs.drop_last() =~= earlier);
                assert(port.log() =~= before + byte_trace(run, bytes@[i as int]));
                assert(port.log() =~= start + bytes_trace(runs, bytes@));
                assert(received@ =~= inputs(runs, i as int));
                assert forall|k: int| 0 <= k < runs.len() implies byte_poll().done(
                    (#[trigger] runs[k]).poll,
                    runs[k].ended,
                ) by {
                    if k < i {
                        assert(runs[k] == earlier[k]);
                    }
                }
                assert forall|k: int| 0 <= k < runs.len() - 1 implies (#[trigger] runs[k]).ended
                    is Some by {
                    assert(runs[k] == earlier[k]);
                }
            }
            return Clocked { received, ok: false, runs: Ghost(runs) };
        }
        let input: u8 = port.read8(FIFO_REG);
        received.push(input);
        proof {
            let run = ByteRun { poll, ended, input };
            runs = runs.push(run);
            assert(runs.drop_last() =~= earlier);
            assert(port.log() =~= before + byte_trace(run, bytes@[i as int]));
            assert(port.log() =~= start + bytes_trace(runs, bytes@));
            assert(received@ =~= inputs(runs, i + 1));
            assert forall|k: int| 0 <= k < runs.len() implies byte_poll().done(
                (#[trigger] runs[k]).poll,
                runs[k].ended,
            ) by {
                if k < i {
                    assert(runs[k] == earlier[k]);
                }
            }
            assert forall|k: int| 0 <= k < runs.len() implies (#[trigger] runs[k]).ended
                is Some by {
                if k < i {
                    assert(runs[k] == earlier[k]);
                }
            }
        }
        i += 1;
    }
    Clocked { received, ok: true, runs: Ghost(runs) }
}

/// A copy of `tx`, with zeros up to `count`.
pub fn pad(tx: &Vec<u8>, count: usize) -> (bytes: Vec<u8>)
    ensures
        bytes@ == padded(tx@, count as int),
{
    let mut bytes: Vec<u8> = Vec::new();
    let mut i: usize = 0;
    while i < count
        invariant
            i <= count,
            bytes@ == padded(tx@, i as int),
        decreases count - i,
    {
        if i < tx.len() {
            bytes.push(tx[i]);
        } else {
            bytes.push(0);
        }
        i += 1;
        assert(bytes@ =~= padded(tx@, i as int));
    }
    bytes
}

/// Puts what was received from `from` on into `data`.
pub fn fill(data: &mut Vec<u8>, received: &Vec<u8>, from: usize)
    requires
        from <= received@.len(),
    ensures
        final(data)@ == filled(old(data)@, received@.skip(from as int)),
{
    let ghost before = data@;
    let ghost source = received@.skip(from as int);
    let mut i: usize = 0;
    assert(data@ =~= filled(before, source.take(0)));
    while i < data.len() && i < received.len() - from
        invariant
            from <= received@.len(),
            source == received@.skip(from as int),
            i <= data@.len(),
            i <= received@.len() - from,
            data@.len() == before.len(),
            data@ == filled(before, source.take(i as int)),
        decreases data@.len() - i,
    {
        data.set(i, received[from + i]);
        i += 1;
        assert(data@ =~= filled(before, source.take(i as int)));
    }
    assert(data@ =~= filled(before, source));
}

/// A bus: where its registers lie, and its clock.
#[derive(Clone, Copy, PartialEq, Eq, Structural, Debug)]
pub struct SpiMaster {
    pub base: usize,
    pub clk_rate: u64,
}

impl SpiMaster {
    pub fn new(base: usize, clk_rate: u64) -> (master: Self)
        ensures
            master == (SpiMaster { base, clk_rate }),
    {
        SpiMaster { base, clk_rate }
    }

    /// Sets the bus up.
    pub fn reginit<F: FnMut(Access) -> u64>(&self, port: &mut Port<F>)
        requires
            old(port).wf(),
            self.clk_rate + INITIAL_HZ - 1 <= u64::MAX,
        ensures
            final(port).wf(),
            final(port).performs() == old(port).performs(),
            port::grown(final(port).log(), old(port).log()),
            exists|w: Setup| #[trigger]
                set_up(w, self.clk_rate, port::since(final(port).log(), old(port).log())),
    {
        let ghost start = port.log();
        let first: u8 = port.read8(SPCR_REG);
        port.write8(SPCR_REG, first & 0xbf);
        port.write8(SPSR_REG, 0xc0);
        let second: u8 = port.read8(SPCR_REG);
        port.write8(SPCR_REG, second | SPCR_SPE);
        let ghost middle = port.log();
        self.set_clk(port, INITIAL_HZ);
        proof {
            let speed = port::since(port.log(), middle);
            let (spcr, sper) = choose|spcr: u8, sper: u8| #[trigger]
                speed_set(spcr, sper, self.clk_rate, INITIAL_HZ, speed);
            let w = Setup { first, second, spcr, sper, speed };
            let trace = seq![
                port::r8(SPCR_REG, first),
                port::w8(SPCR_REG, first & 0xbf),
                port::w8(SPSR_REG, 0xc0),
                port::r8(SPCR_REG, second),
                port::w8(SPCR_REG, second | SPCR_SPE),
            ] + speed;
            assert(port.log() =~= start + trace);
            port::lemma_grown(start, trace);
            assert(set_up(w, self.clk_rate, trace));
        }
    }

    /// Sets the speed.
    pub fn set_clk<F: FnMut(Access) -> u64>(&self, port: &mut Port<F>, hz: u32)
        requires
            old(port).wf(),
            self.clk_rate + hz - 1 <= u64::MAX,
        ensures
            final(port).wf(),
            final(port).performs() == old(port).performs(),
            port::grown(final(port).log(), old(port).log()),
            exists|spcr: u8, sper: u8| #[trigger]
                speed_set(
                    spcr,
                    sper,
                    self.clk_rate,
                    hz,
                    port::since(final(port).log(), old(port).log()),
                ),
    {
        let ghost start = port.log();
        if self.clk_rate == 0 || hz == 0 {
            proof {
                assert(port.log() =~= start + Seq::<Exchange>::empty());
                port::lemma_grown(start, Seq::empty());
                assert(speed_set(0, 0, self.clk_rate, hz, Seq::empty()));
            }
            return ;
        }
        let code = clock_code_for(self.clk_rate, hz);
        let spcr: u8 = port.read8(SPCR_REG);
        port.write8(SPCR_REG, (spcr & 0xfc) | (code % 4));
        let sper: u8 = port.read8(SPER_REG);
        port.write8(SPER_REG, (sper & 0xfc) | (code / 4 % 4));
        proof {
            let trace = clock_set(spcr, sper, code);
            assert(port.log() =~= start + trace);
            port::lemma_grown(start, trace);
            assert(speed_set(spcr, sper, self.clk_rate, hz, trace));
        }
    }

    /// Selects a device.
    pub fn cs_assert<F: FnMut(Access) -> u64>(&self, port: &mut Port<F>, cs: u8)
        requires
            old(port).wf(),
            cs < 8,
        ensures
            final(port).wf(),
            final(port).performs() == old(port).performs(),
            exists|value: u8|
                final(port).log() == old(port).log() + #[trigger] selecting(cs, value),
    {
        let ghost start = port.log();
        let mask: u8 = 0x11u8 << cs;
        let value: u8 = port.read8(SFCS_REG);
        port.write8(SFCS_REG, (value & !mask) | mask);
        assert(port.log() =~= start + selecting(cs, value));
    }

    /// Releases a device.
    pub fn cs_deassert<F: FnMut(Access) -> u64>(&self, port: &mut Port<F>, cs: u8)
        requires
            old(port).wf(),
            cs < 8,
        ensures
            final(port).wf(),
            final(port).performs() == old(port).performs(),
            exists|value: u8|
                final(port).log() == old(port).log() + #[trigger] releasing(cs, value),
    {
        let ghost start = port.log();
        let mask: u8 = 0x11u8 << cs;
        let value: u8 = port.read8(SFCS_REG);
        port.write8(SFCS_REG, (value & !mask) | (1u8 << cs));
        assert(port.log() =~= start + releasing(cs, value));
    }

    /// Sends and receives bytes at once, as many as the longer of the two has.
    pub fn transfer<F: FnMut(Access) -> u64>(
        &self,
        port: &mut Port<F>,
        tx: &Vec<u8>,
        rx: &mut Vec<u8>,
    ) -> (result: Result<(), &'static str>)
        requires
            old(port).wf(),
        ensures
            final(port).wf(),
            final(port).performs() == old(port).performs(),
            port::grown(final(port).log(), old(port).log()),
            exists|runs: Seq<ByteRun>, received: Seq<u8>| #[trigger]
                transferred(
                    runs,
                    received,
                    tx@,
                    old(rx)@,
                    final(rx)@,
                    port::since(final(port).log(), old(port).log()),
                    result,
                ),
    {
        let ghost start = port.log();
        let ghost given = rx@;
        let count: usize = if tx.len() < rx.len() {
            rx.len()
        } else {
            tx.len()
        };
        let bytes = pad(tx, count);
        let out = clock_bytes(port, &bytes);
        fill(rx, &out.received, 0);
        let result: Result<(), &'static str> = if out.ok {
            Ok(())
        } else {
            Err("LS2K SPI transfer timeout")
        };
        proof {
            assert(out.received@.skip(0) =~= out.received@);
            port::lemma_grown(start, bytes_trace(out.runs@, bytes@));
            assert(transferred(
                out.runs@,
                out.received@,
                tx@,
                given,
                rx@,
                bytes_trace(out.runs@, bytes@),
                result,
            ));
        }
        result
    }
}

/// The code for a speed.
pub fn clock_code_for(clk_rate: u64, hz: u32) -> (code: u8)
    requires
        hz > 0,
        clk_rate + hz - 1 <= u64::MAX,
    ensures
        code == clock_code(clk_rate as int, hz as int),
        code <= 11,
{
    let exact: u64 = (clk_rate + (hz as u64 - 1)) / (hz as u64);
    let div: u64 = if exact < 2 {
        2
    } else if exact > 4096 {
        4096
    } else {
        exact
    };
    assert(div == divider(clk_rate as int, hz as int));
    let ghost whole = div - 1;
    assert(bit_length(whole) <= 12) by {
        reveal_with_fuel(bit_length, 14);
    }
    let mut rest: u64 = div - 1;
    let mut index: u8 = 0;
    while rest > 0
        invariant
            bit_length(whole) == index + bit_length(rest as int),
            bit_length(whole) <= 12,
        decreases rest,
    {
        assert(bit_length(rest as int) == 1 + bit_length(rest as int / 2));
        proof {
            lemma_bit_length(rest as int / 2);
        }
        rest = rest / 2;
        index += 1;
    }
    if index == 1 {
        1
    } else if index == 2 {
        4
    } else if index == 3 {
        2
    } else if index == 4 {
        3
    } else if 5 <= index && index <= 11 {
        index
    } else {
        0
    }
}

proof fn lemma_bit_length(n: int)
    ensures
        bit_length(n) >= 0,
    decreases n,
{
    if n > 0 {
        lemma_bit_length(n / 2);
    }
}

/// The buses that are known, each by the path of its controller.
pub struct SpiMasterRegistry {
    pub masters: Vec<(String, SpiMaster)>,
}

/// The buses with other paths.
pub open spec fn others(masters: Seq<(String, SpiMaster)>, path: Seq<char>) -> Seq<
    (Seq<char>, SpiMaster),
>
    decreases masters.len(),
{
    if masters.len() == 0 {
        Seq::empty()
    } else {
        let before = others(masters.drop_last(), path);
        let last = masters.last();
        if last.0@ == path {
            before
        } else {
            before.push((last.0@, last.1))
        }
    }
}

/// The buses as paths and buses.
pub open spec fn entries(masters: Seq<(String, SpiMaster)>) -> Seq<(Seq<char>, SpiMaster)> {
    Seq::new(masters.len(), |i: int| (masters[i].0@, masters[i].1))
}

/// The first bus with a path.
pub open spec fn known(masters: Seq<(Seq<char>, SpiMaster)>, path: Seq<char>) -> Option<SpiMaster>
    decreases masters.len(),
{
    if masters.len() == 0 {
        None
    } else {
        match known(masters.drop_last(), path) {
            Some(master) => Some(master),
            None => if masters.last().0 == path {
                Some(masters.last().1)
            } else {
                None
            },
        }
    }
}

impl SpiMasterRegistry {
    pub fn new() -> (registry: Self)
        ensures
            registry.masters@.len() == 0,
    {
        SpiMasterRegistry { masters: Vec::new() }
    }

    /// Makes a bus known by its path. One known by that path before is forgotten.
    pub fn register_master(&mut self, path: &str, master: SpiMaster)
        ensures
            entries(final(self).masters@) == others(old(self).masters@, path@).push(
                (path@, master),
            ),
    {
        let ghost given = self.masters@;
        let name = path.to_owned();
        let mut i: usize = 0;
        let ghost mut seen: int = 0;
        assert(given.take(0) =~= Seq::<(String, SpiMaster)>::empty());
        while i < self.masters.len()
            invariant
                name@ == path@,
                i <= self.masters@.len(),
                0 <= seen <= given.len(),
                self.masters@.skip(i as int) == given.skip(seen),
                entries(self.masters@.take(i as int)) == others(given.take(seen), path@),
            decreases self.masters@.len() - i,
        {
            let ghost now = self.masters@;
            assert(now.skip(i as int).len() == now.len() - i);
            assert(given.skip(seen).len() == given.len() - seen);
            assert(now[i as int] == now.skip(i as int)[0]);
            assert(given[seen] == given.skip(seen)[0]);
            assert(given.take(seen + 1).drop_last() =~= given.take(seen));
            if self.masters[i].0 == name {
                self.masters.remove(i);
                assert(self.masters@.skip(i as int) =~= now.skip(i as int).skip(1));
                assert(self.masters@.take(i as int) =~= now.take(i as int));
            } else {
                i += 1;
                assert(self.masters@.skip(i as int) =~= now.skip(i - 1).skip(1));
                assert(entries(now.take(i as int)) =~= entries(now.take(i - 1)).push(
                    (now[i - 1].0@, now[i - 1].1),
                ));
            }
            proof {
                assert(given.skip(seen + 1) =~= given.skip(seen).skip(1));
                seen = seen + 1;
            }
        }
        assert(self.masters@.skip(i as int).len() == 0);
        assert(given.skip(seen).len() == 0);
        assert(given.take(seen) =~= given);
        assert(self.masters@.take(i as int) =~= self.masters@);
        let ghost kept = self.masters@;
        self.masters.push((name, master));
        assert(entries(self.masters@) =~= entries(kept).push((path@, master)));
    }

    /// The bus with a path, if one is known.
    pub fn lookup_master(&self, path: Option<&str>) -> (found: Option<SpiMaster>)
        ensures
            found == match path {
                Some(path) => known(entries(self.masters@), path@),
                None => None,
            },
    {
        match path {
            None => None,
            Some(wanted) => {
                let name = wanted.to_owned();
                let ghost all = entries(self.masters@);
                let mut i: usize = 0;
                assert(all.take(0) =~= Seq::<(Seq<char>, SpiMaster)>::empty());
                while i < self.masters.len()
                    invariant
                        i <= self.masters@.len(),
                        name@ == wanted@,
                        path == Some(wanted),
                        all == entries(self.masters@),
                        known(all.take(i as int), wanted@) is None,
                    decreases self.masters@.len() - i,
                {
                    assert(all.take(i + 1).drop_last() =~= all.take(i as int));
                    assert(all.take(i + 1).last() == all[i as int]);
                    if self.masters[i].0 == name {
                        proof {
                            lemma_known(all, wanted@, i + 1);
                        }
                        return Some(self.masters[i].1);
                    }
                    i += 1;
                }
                assert(all.take(i as int) =~= all);
                None
            },
        }
    }
}

proof fn lemma_known(all: Seq<(Seq<char>, SpiMaster)>, path: Seq<char>, n: int)
    requires
        0 <= n <= all.len(),
        known(all.take(n), path) is Some,
    ensures
        known(all, path) == known(all.take(n), path),
    decreases all.len() - n,
{
    if n < all.len() {
        assert(all.take(n + 1).drop_last() =~= all.take(n));
        lemma_known(all, path, n + 1);
    } else {
        assert(all.take(n) =~= all);
    }
}

proof fn lemma_others(masters: Seq<(String, SpiMaster)>, path: Seq<char>, asked: Seq<char>)
    ensures
        known(others(masters, path), asked) == if asked == path {
            None
        } else {
            known(entries(masters), asked)
        },
    decreases masters.len(),
{
    if masters.len() > 0 {
        let before = masters.drop_last();
        lemma_others(before, path, asked);
        let last = masters.last();
        let kept = others(before, path);
        assert(entries(masters).drop_last() =~= entries(before));
        assert(entries(masters).last() == (last.0@, last.1));
        if last.0@ != path {
            let grown = kept.push((last.0@, last.1));
            assert(grown.drop_last() =~= kept);
            assert(grown.last() == (last.0@, last.1));
        }
    }
}

/// A bus that was made known is found by its path, and every other path leads where
/// it led before.
pub proof fn registered_is_found(
    masters: Seq<(String, SpiMaster)>,
    path: Seq<char>,
    master: SpiMaster,
    asked: Seq<char>,
)
    ensures
        known(others(masters, path).push((path, master)), asked) == if asked == path {
            Some(master)
        } else {
            known(entries(masters), asked)
        },
{
    let kept = others(masters, path);
    let after = kept.push((path, master));
    assert(after.drop_last() =~= kept);
    assert(after.last() == (path, master));
    lemma_others(masters, path, asked);
}

} // verus!
