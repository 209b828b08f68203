//! A serial flash: commands on the bus, and reads, writes and erasures made of them.

use vstd::prelude::*;
use crate::port;
use crate::port::{Access, Exchange, Port};
use crate::spi::master;
use crate::spi::master::{ByteRun, SpiMaster, XFER_TIMEOUT_LOOPS, clock_bytes, fill};

verus! {

pub const CMD_READ: u8 = 0x03;

pub const CMD_READ_ID: u8 = 0x9f;

pub const CMD_WRITE_ENABLE: u8 = 0x06;

pub const CMD_PAGE_PROGRAM: u8 = 0x02;

pub const CMD_SECTOR_ERASE: u8 = 0x20;

pub const CMD_READ_STATUS: u8 = 0x05;

pub const STATUS_WIP: u8 = 0x01;

pub const SECTOR_SIZE: usize = 4096;

pub const PAGE_SIZE: usize = 256;

#[derive(Clone, Copy, PartialEq, Eq, Structural, Debug)]
pub enum FlashError {
    OutOfRange,
    Invalid,
}

#[derive(Clone, Copy, PartialEq, Eq, Structural, Debug)]
pub enum FlashIoError {
    OutOfRange,
    Invalid,
    Busy,
    Io,
}

#[derive(Clone, Copy, PartialEq, Eq, Structural, Debug)]
pub struct FlashCapabilities {
    pub readable: bool,
    pub writable: bool,
    pub erasable: bool,
}

#[derive(Clone, Copy, PartialEq, Eq, Structural, Debug)]
pub struct FlashEraseRegion {
    pub offset: usize,
    pub block_size: usize,
    pub block_count: u64,
}

/// How bytes went to a flash that was selected for them.
pub ghost struct Frame {
    pub before: u8,
    pub runs: Seq<ByteRun>,
    pub after: u8,
    pub received: Seq<u8>,
    pub ok: bool,
}

pub open spec fn frame_done(w: Frame, bytes: Seq<u8>) -> bool {
    master::clocked(w.runs, bytes, w.received, w.ok)
}

/// The accesses of a frame.
pub open spec fn frame_trace(w: Frame, bytes: Seq<u8>) -> Seq<Exchange> {
    master::selecting(0, w.before) + master::bytes_trace(w.runs, bytes) + master::releasing(
        0,
        w.after,
    )
}

/// What is left of received bytes after those that answer the command itself.
pub open spec fn payload(received: Seq<u8>, head: int) -> Seq<u8> {
    if received.len() > head {
        received.skip(head)
    } else {
        Seq::empty()
    }
}

/// A command, and as many zeros as bytes are wanted.
pub open spec fn asking(command: Seq<u8>, wanted: int) -> Seq<u8> {
    master::padded(command, command.len() + wanted)
}

/// A command with an address of three bytes.
pub open spec fn addressed(command: u8, offset: int) -> Seq<u8> {
    seq![
        command,
        (offset / 0x10000 % 256) as u8,
        (offset / 0x100 % 256) as u8,
        (offset % 256) as u8,
    ]
}

/// The state that a frame brought, or zero if it failed.
pub open spec fn status_of(w: Frame) -> u8 {
    if w.ok {
        w.received[1]
    } else {
        0
    }
}

/// Whether a state says that the flash works.
pub open spec fn busy(w: Frame) -> bool {
    status_of(w) & STATUS_WIP != 0
}

/// Whether a flash was waited for so.
pub open spec fn waited(frames: Seq<Frame>, result: Result<(), FlashIoError>) -> bool {
    &&& forall|i: int|
        0 <= i < frames.len() ==> frame_done(#[trigger] frames[i], asking(seq![CMD_READ_STATUS], 1))
    &&& forall|i: int| 0 <= i < frames.len() - 1 ==> busy(#[trigger] frames[i])
    &&& match result {
        Ok(_) => 0 < frames.len() <= XFER_TIMEOUT_LOOPS && !busy(frames.last()),
        Err(error) => error == FlashIoError::Busy && frames.len() == XFER_TIMEOUT_LOOPS && busy(
            frames.last(),
        ),
    }
}

/// The accesses of a wait.
pub open spec fn wait_trace(frames: Seq<Frame>) -> Seq<Exchange>
    decreases frames.len(),
{
    if frames.len() == 0 {
        Seq::empty()
    } else {
        wait_trace(frames.drop_last()) + frame_trace(frames.last(), asking(seq![CMD_READ_STATUS], 1))
            + if busy(frames.last()) {
            seq![port::wait(100_000)]
        } else {
            Seq::empty()
        }
    }
}

/// How a command that changes the flash went.
pub ghost struct CommandRun {
    pub enable: Frame,
    pub body: Frame,
    pub frames: Seq<Frame>,
    pub trace: Seq<Exchange>,
    pub result: Result<(), FlashIoError>,
}

/// Whether a command that changes the flash went so: writing is enabled, the command
/// is sent, and the flash is waited for.
pub open spec fn command_done(w: CommandRun, bytes: Seq<u8>) -> bool {
    let enabling = frame_trace(w.enable, seq![CMD_WRITE_ENABLE]);
    &&& frame_done(w.enable, seq![CMD_WRITE_ENABLE])
    &&& if !w.enable.ok {
        w.trace == enabling && w.result == Err::<(), FlashIoError>(FlashIoError::Io)
    } else {
        &&& frame_done(w.body, bytes)
        &&& if !w.body.ok {
            w.trace == enabling + frame_trace(w.body, bytes) && w.result == Err::<(), FlashIoError>(
                FlashIoError::Io,
            )
        } else {
            &&& waited(w.frames, w.result)
            &&& w.trace == enabling + frame_trace(w.body, bytes) + wait_trace(w.frames)
        }
    }
}

/// The accesses of commands one after the other.
pub open spec fn commands_trace(runs: Seq<CommandRun>) -> Seq<Exchange>
    decreases runs.len(),
{
    if runs.len() == 0 {
        Seq::empty()
    } else {
        commands_trace(runs.drop_last()) + runs.last().trace
    }
}

/// Whether commands went so: each until the first that failed.
pub open spec fn commands_went(
    runs: Seq<CommandRun>,
    commands: Seq<Seq<u8>>,
    trace: Seq<Exchange>,
    result: Result<(), FlashIoError>,
) -> bool {
    &&& runs.len() <= commands.len()
    &&& forall|i: int| 0 <= i < runs.len() ==> command_done(#[trigger] runs[i], commands[i])
    &&& forall|i: int| 0 <= i < runs.len() - 1 ==> (#[trigger] runs[i]).result is Ok
    &&& trace == commands_trace(runs)
    &&& match result {
        Ok(_) => runs.len() == commands.len() && (runs.len() > 0 ==> runs.last().result is Ok),
        Err(error) => runs.len() > 0 && runs.last().result == Err::<(), FlashIoError>(error),
    }
}

/// Where the part of a write on the `i`-th page begins.
pub open spec fn chunk_start(offset: int, i: int) -> int {
    if i == 0 {
        offset
    } else {
        (offset / 256 + i) * 256
    }
}

/// Where the part of a write on the `i`-th page ends.
pub open spec fn chunk_end(offset: int, len: int, i: int) -> int {
    let page_end = (offset / 256 + i + 1) * 256;
    if page_end < offset + len {
        page_end
    } else {
        offset + len
    }
}

/// How many pages a write touches.
pub open spec fn chunk_count(offset: int, len: int) -> int {
    if len <= 0 {
        0
    } else {
        (offset + len - 1) / 256 - offset / 256 + 1
    }
}

/// The commands of a write: one for each page that it touches.
pub open spec fn write_commands(offset: int, data: Seq<u8>) -> Seq<Seq<u8>> {
    Seq::new(
        chunk_count(offset, data.len() as int) as nat,
        |i: int|
            addressed(CMD_PAGE_PROGRAM, chunk_start(offset, i)) + data.subrange(
                chunk_start(offset, i) - offset,
                chunk_end(offset, data.len() as int, i) - offset,
            ),
    )
}

/// The commands of an erasure: one for each sector.
pub open spec fn erase_commands(offset: int, len: int) -> Seq<Seq<u8>> {
    Seq::new(
        (len / 4096) as nat,
        |i: int| addressed(CMD_SECTOR_ERASE, offset + i * 4096),
    )
}

/// The parts of a write lie one behind the other from its first byte to its last, and
/// none of them crosses from one page into another.
pub proof fn parts_keep_to_pages(offset: int, len: int, i: int)
    requires
        0 <= offset,
        0 <= i < chunk_count(offset, len),
    ensures
        chunk_start(offset, 0) == offset,
        chunk_end(offset, len, chunk_count(offset, len) - 1) == offset + len,
        i + 1 < chunk_count(offset, len) ==> chunk_end(offset, len, i) == chunk_start(
            offset,
            i + 1,
        ),
        offset <= chunk_start(offset, i) < chunk_end(offset, len, i) <= offset + len,
        chunk_start(offset, i) / 256 == (chunk_end(offset, len, i) - 1) / 256,
{
    let first = offset / 256;
    let last = (offset + len - 1) / 256;
    assert(first * 256 <= offset < (first + 1) * 256);
    assert(last * 256 <= offset + len - 1 < (last + 1) * 256);
    let page = first + i;
    assert(first <= page <= last);
    assert(page * 256 / 256 == page);
    assert((page * 256 + 255) / 256 == page);
    assert(page * 256 <= chunk_start(offset, i));
    assert(chunk_end(offset, len, i) - 1 <= page * 256 + 255);
    assert(chunk_start(offset, i) < chunk_end(offset, len, i));
}

/// Sends bytes to the flash, selected for them.
fn frame<F: FnMut(Access) -> u64>(
    bus: &SpiMaster,
    port: &mut Port<F>,
    bytes: &Vec<u8>,
) -> (result: (Vec<u8>, bool, Ghost<Frame>))
    requires
        old(port).wf(),
    ensures
        final(port).wf(),
        final(port).performs() == old(port).performs(),
        frame_done(result.2@, bytes@),
        result.2@.received == result.0@,
        result.2@.ok == result.1,
        final(port).log() == old(port).log() + frame_trace(result.2@, bytes@),
{
    let ghost start = port.log();
    bus.cs_assert(port, 0);
    let ghost before = choose|value: u8|
        port.log() == start + #[trigger] master::selecting(0, value);
    let out = clock_bytes(port, bytes);
    let ghost middle = port.log();
    bus.cs_deassert(port, 0);
    let ghost after = choose|value: u8|
        port.log() == middle + #[trigger] master::releasing(0, value);
    let ghost w = Frame {
        before,
        runs: out.runs@,
        after,
        received: out.received@,
        ok: out.ok,
    };
    assert(port.log() =~= start + frame_trace(w, bytes@));
    (out.received, out.ok, Ghost(w))
}

/// A command with an address.
fn address_command(command: u8, offset: usize) -> (bytes: Vec<u8>)
    ensures
        bytes@ == addressed(command, offset as int),
{
    let mut bytes: Vec<u8> = Vec::new();
    bytes.push(command);
    bytes.push((offset / 0x10000 % 256) as u8);
    bytes.push((offset / 0x100 % 256) as u8);
    bytes.push((offset % 256) as u8);
    assert(bytes@ =~= addressed(command, offset as int));
    bytes
}

/// One byte of command.
fn plain_command(command: u8) -> (bytes: Vec<u8>)
    ensures
        bytes@ == seq![command],
{
    let mut bytes: Vec<u8> = Vec::new();
    bytes.push(command);
    assert(bytes@ =~= seq![command]);
    bytes
}

/// A copy of a command with as many zeros as bytes are wanted.
fn ask(command: &Vec<u8>, wanted: usize) -> (bytes: Vec<u8>)
    requires
        command.len() + wanted <= usize::MAX,
    ensures
        bytes@ == asking(command@, wanted as int),
{
    master::pad(command, command.len() + wanted)
}

/// Reads the state of the flash. A failure reads as zero.
fn read_status<F: FnMut(Access) -> u64>(bus: &SpiMaster, port: &mut Port<F>) -> (result: (
    u8,
    Ghost<Frame>,
))
    requires
        old(port).wf(),
    ensures
        final(port).wf(),
        final(port).performs() == old(port).performs(),
        frame_done(result.1@, asking(seq![CMD_READ_STATUS], 1)),
        result.0 == status_of(result.1@),
        final(port).log() == old(port).log() + frame_trace(
            result.1@,
            asking(seq![CMD_READ_STATUS], 1),
        ),
{
    let command = plain_command(CMD_READ_STATUS);
    let bytes = ask(&command, 1);
    let (received, ok, w) = frame(bus, port, &bytes);
    let status: u8 = if ok {
        received[1]
    } else {
        0
    };
    (status, w)
}

/// Waits until the flash no longer works.
fn wait_ready<F: FnMut(Access) -> u64>(bus: &SpiMaster, port: &mut Port<F>) -> (result: (
    Result<(), FlashIoError>,
    Ghost<Seq<Frame>>,
))
    requires
        old(port).wf(),
    ensures
        final(port).wf(),
        final(port).performs() == old(port).performs(),
        waited(result.1@, result.0),
        final(port).log() == old(port).log() + wait_trace(result.1@),
{
    let ghost start = port.log();
    let ghost mut frames: Seq<Frame> = Seq::empty();
    let mut round: u32 = 0;
    assert(start + wait_trace(frames) =~= start);
    while round < XFER_TIMEOUT_LOOPS
        invariant
            round <= XFER_TIMEOUT_LOOPS,
            port.wf(),
            port.performs() == old(port).performs(),
            frames.len() == round,
            forall|i: int|
                0 <= i < frames.len() ==> frame_done(
                    #[trigger] frames[i],
                    asking(seq![CMD_READ_STATUS], 1),
                ),
            forall|i: int| 0 <= i < frames.len() ==> busy(#[trigger] frames[i]),
            start == old(port).log(),
            port.log() == start + wait_trace(frames),
        decreases XFER_TIMEOUT_LOOPS - round,
    {
        let ghost earlier = frames;
        let ghost before = port.log();
        let (status, w) = read_status(bus, port);
        proof {
            frames = frames.push(w@);
            assert(frames.drop_last() =~= earlier);
            assert forall|i: int| 0 <= i < frames.len() implies frame_done(
                #[trigger] frames[i],
                asking(seq![CMD_READ_STATUS], 1),
            ) by {
                if i < round {
                    assert(frames[i] == earlier[i]);
                }
            }
            assert forall|i: int| 0 <= i < frames.len() - 1 implies busy(#[trigger] frames[i]) by {
                assert(frames[i] == earlier[i]);
            }
        }
        round += 1;
        if status & STATUS_WIP == 0 {
            assert(port.log() =~= start + wait_trace(frames));
            return (Ok(()), Ghost(frames));
        }
        port.delay(100_000);
        assert(port.log() =~= start + wait_trace(frames));
    }
    (Err(FlashIoError::Busy), Ghost(frames))
}

/// Runs a command that changes the flash.
fn run_command<F: FnMut(Access) -> u64>(
    bus: &SpiMaster,
    port: &mut Port<F>,
    bytes: &Vec<u8>,
) -> (result: (Result<(), FlashIoError>, Ghost<CommandRun>))
    requires
        old(port).wf(),
    ensures
        final(port).wf(),
        final(port).performs() == old(port).performs(),
        command_done(result.1@, bytes@),
        result.1@.result == result.0,
        final(port).log() == old(port).log() + result.1@.trace,
{
    let ghost start = port.log();
    let ghost mut w: CommandRun = arbitrary();
    let command = plain_command(CMD_WRITE_ENABLE);
    let (_received, enabled, enable) = frame(bus, port, &command);
    proof {
        w = CommandRun {
            enable: enable@,
            trace: frame_trace(enable@, seq![CMD_WRITE_ENABLE]),
            result: Err(FlashIoError::Io),
            ..w
        };
    }
    if !enabled {
        return (Err(FlashIoError::Io), Ghost(w));
    }
    let (_received, sent, body) = frame(bus, port, bytes);
    proof {
        w = CommandRun { body: body@, trace: w.trace + frame_trace(body@, bytes@), ..w };
        assert(port.log() =~= start + w.trace);
    }
    if !sent {
        return (Err(FlashIoError::Io), Ghost(w));
    }
    let (result, frames) = wait_ready(bus, port);
    proof {
        w = CommandRun { frames: frames@, trace: w.trace + wait_trace(frames@), result, ..w };
        assert(port.log() =~= start + w.trace);
    }
    (result, Ghost(w))
}

/// The contents of commands.
pub open spec fn contents(commands: Seq<Vec<u8>>) -> Seq<Seq<u8>> {
    Seq::new(commands.len(), |i: int| commands[i]@)
}

/// Runs commands until one fails.
pub fn run_commands<F: FnMut(Access) -> u64>(
    bus: &SpiMaster,
    port: &mut Port<F>,
    commands: &Vec<Vec<u8>>,
) -> (result: Result<(), FlashIoError>)
    requires
        old(port).wf(),
    ensures
        final(port).wf(),
        final(port).performs() == old(port).performs(),
        port::grown(final(port).log(), old(port).log()),
        exists|runs: Seq<CommandRun>| #[trigger]
            commands_went(
                runs,
                contents(commands@),
                port::since(final(port).log(), old(port).log()),
                result,
            ),
{
    let ghost start = port.log();
    let ghost wanted = contents(commands@);
    let ghost mut runs: Seq<CommandRun> = Seq::empty();
    let mut i: usize = 0;
    assert(start + commands_trace(runs) =~= start);
    while i < commands.len()
        invariant
            i <= commands@.len(),
            port.wf(),
            port.performs() == old(port).performs(),
            wanted == contents(commands@),
            runs.len() == i,
            forall|k: int| 0 <= k < runs.len() ==> command_done(#[trigger] runs[k], wanted[k]),
            forall|k: int| 0 <= k < runs.len() ==> (#[trigger] runs[k]).result is Ok,
            start == old(port).log(),
            port.log() == start + commands_trace(runs),
        decreases commands@.len() - i,
    {
        let ghost earlier = runs;
        let (result, run) = run_command(bus, port, &commands[i]);
        proof {
            assert(wanted[i as int] == commands@[i as int]@);
            runs = runs.push(run@);
            assert(runs.drop_last() =~= earlier);
            assert(port.log() =~= start + commands_trace(runs));
            port::lemma_grown(start, commands_trace(runs));
            assert forall|k: int| 0 <= k < runs.len() implies command_done(
                #[trigger] runs[k],
                wanted[k],
            ) by {
                if k < i {
                    assert(runs[k] == earlier[k]);
                }
            }
            assert forall|k: int| 0 <= k < runs.len() - 1 implies (#[trigger] runs[k]).result
                is Ok by {
                assert(runs[k] == earlier[k]);
            }
        }
        i += 1;
        if result.is_err() {
            assert(commands_went(runs, wanted, commands_trace(runs), result));
            return result;
        }
    }
    let result: Result<(), FlashIoError> = Ok(());
    proof {
        port::lemma_grown(start, commands_trace(runs));
        assert(commands_went(runs, wanted, commands_trace(runs), result));
    }
    result
}

/// Builds the commands of a write.
pub fn build_write(offset: usize, data: &Vec<u8>) -> (commands: Vec<Vec<u8>>)
    requires
        offset + data.len() <= usize::MAX,
    ensures
        contents(commands@) == write_commands(offset as int, data@),
{
    let len: usize = data.len();
    let ghost wanted = write_commands(offset as int, data@);
    let mut commands: Vec<Vec<u8>> = Vec::new();
    let mut done: usize = 0;
    proof {
        assert(contents(commands@) =~= wanted.take(0));
        if len > 0 {
            parts_keep_to_pages(offset as int, len as int, 0);
        }
    }
    while done < len
        invariant
            done <= len,
            len == data@.len(),
            offset + len <= usize::MAX,
            wanted == write_commands(offset as int, data@),
            commands@.len() <= wanted.len(),
            done < len ==> commands@.len() < wanted.len() && offset + done == chunk_start(
                offset as int,
                commands@.len() as int,
            ),
            done == len ==> commands@.len() == wanted.len(),
            contents(commands@) == wanted.take(commands@.len() as int),
        decreases len - done,
    {
        let ghost i = commands@.len() as int;
        let ghost earlier = commands@;
        proof {
            parts_keep_to_pages(offset as int, len as int, i);
        }
        let position: usize = offset + done;
        let room: usize = PAGE_SIZE - (position % PAGE_SIZE);
        let count: usize = if len - done < room {
            len - done
        } else {
            room
        };
        let ghost end = chunk_end(offset as int, len as int, i);
        assert(position + count == end) by {
            let page = offset as int / 256 + i;
            assert(position as int / 256 == page);
        }
        let mut bytes = address_command(CMD_PAGE_PROGRAM, position);
        let ghost head = bytes@;
        crate::bytes::push_range(&mut bytes, data, done, done + count);
        assert(bytes@ =~= head + data@.subrange(done as int, done + count));
        commands.push(bytes);
        done += count;
        proof {
            assert(commands@.last()@ == wanted[i]);
            assert(contents(commands@) =~= wanted.take(i + 1)) by {
                assert(contents(earlier) == wanted.take(i));
                assert forall|k: int| 0 <= k < i + 1 implies contents(commands@)[k]
                    == wanted.take(i + 1)[k] by {
                    if k < i {
                        assert(contents(earlier)[k] == wanted.take(i)[k]);
                    }
                }
            }
        }
    }
    assert(wanted.take(commands@.len() as int) =~= wanted);
    commands
}

/// Builds the commands of an erasure.
pub fn build_erase(offset: usize, len: usize) -> (commands: Vec<Vec<u8>>)
    requires
        offset + len <= usize::MAX,
        len % 4096 == 0,
    ensures
        contents(commands@) == erase_commands(offset as int, len as int),
{
    let ghost wanted = erase_commands(offset as int, len as int);
    let mut commands: Vec<Vec<u8>> = Vec::new();
    let mut done: usize = 0;
    assert(contents(commands@) =~= wanted.take(0));
    while done < len
        invariant
            done <= len,
            len % 4096 == 0,
            offset + len <= usize::MAX,
            wanted == erase_commands(offset as int, len as int),
            done == commands@.len() * 4096,
            contents(commands@) == wanted.take(commands@.len() as int),
        decreases len - done,
    {
        let ghost i = commands@.len() as int;
        let ghost earlier = commands@;
        assert(done + 4096 <= len);
        assert(i < wanted.len());
        commands.push(address_command(CMD_SECTOR_ERASE, offset + done));
        done += SECTOR_SIZE;
        proof {
            assert(commands@.last()@ == wanted[i]);
            assert forall|k: int| 0 <= k < i + 1 implies contents(commands@)[k] == wanted.take(
                i + 1,
            )[k] by {
                if k < i {
                    assert(contents(earlier)[k] == wanted.take(i)[k]);
                }
            }
            assert(contents(commands@) =~= wanted.take(i + 1));
        }
    }
    assert(wanted.take(commands@.len() as int) =~= wanted);
    commands
}

/// A flash on a bus.
pub struct SpiNorFlash {
    pub master: SpiMaster,
    pub size: u64,
    pub name: Vec<char>,
}

/// Whether a read went so.
pub open spec fn read_went(
    w: Frame,
    size: u64,
    offset: usize,
    out: Seq<u8>,
    out_after: Seq<u8>,
    trace: Seq<Exchange>,
    result: Result<(), FlashError>,
) -> bool {
    if offset + out.len() > size || offset + out.len() > usize::MAX {
        &&& trace == Seq::<Exchange>::empty()
        &&& out_after == out
        &&& result == Err::<(), FlashError>(FlashError::OutOfRange)
    } else {
        let bytes = asking(addressed(CMD_READ, offset as int), out.len() as int);
        &&& frame_done(w, bytes)
        &&& trace == frame_trace(w, bytes)
        &&& out_after == master::filled(out, payload(w.received, 4))
        &&& (result is Ok) == w.ok
        &&& result is Err ==> result == Err::<(), FlashError>(FlashError::Invalid)
    }
}

/// Whether the flash was changed so.
pub open spec fn change_went(
    runs: Seq<CommandRun>,
    refusal: Option<FlashIoError>,
    commands: Seq<Seq<u8>>,
    trace: Seq<Exchange>,
    result: Result<(), FlashIoError>,
) -> bool {
    match refusal {
        Some(error) => trace == Seq::<Exchange>::empty() && result == Err::<(), FlashIoError>(
            error,
        ),
        None => commands_went(runs, commands, trace, result),
    }
}

/// Why a write is refused, if it is.
pub open spec fn write_refusal(size: u64, offset: usize, len: int) -> Option<FlashIoError> {
    if offset + len > size || offset + len > usize::MAX {
        Some(FlashIoError::OutOfRange)
    } else {
        None
    }
}

/// Why an erasure is refused, if it is: it covers whole sectors.
pub open spec fn erase_refusal(size: u64, offset: usize, len: usize) -> Option<FlashIoError> {
    if offset % 4096 != 0 || len % 4096 != 0 {
        Some(FlashIoError::Invalid)
    } else {
        write_refusal(size, offset, len as int)
    }
}

/// Whether the identity of a flash was read so.
pub open spec fn identified(
    w: Frame,
    trace: Seq<Exchange>,
    result: Result<[u8; 3], &'static str>,
) -> bool {
    let bytes = asking(seq![CMD_READ_ID], 3);
    &&& frame_done(w, bytes)
    &&& trace == frame_trace(w, bytes)
    &&& match result {
        Ok(id) => w.ok && id@ == w.received.skip(1),
        Err(error) => !w.ok && error == "LS2K SPI transfer timeout",
    }
}

impl SpiNorFlash {
    pub fn new(master: SpiMaster, size: u64, name: Vec<char>) -> (flash: Self)
        ensures
            flash.master == master,
            flash.size == size,
            flash.name == name,
    {
        SpiNorFlash { master, size, name }
    }

    /// Reads who made the flash, its type and its capacity.
    pub fn read_id<F: FnMut(Access) -> u64>(&self, port: &mut Port<F>) -> (result: Result<
        [u8; 3],
        &'static str,
    >)
        requires
            old(port).wf(),
        ensures
            final(port).wf(),
            final(port).performs() == old(port).performs(),
            port::grown(final(port).log(), old(port).log()),
            exists|w: Frame| #[trigger]
                identified(w, port::since(final(port).log(), old(port).log()), result),
    {
        let ghost start = port.log();
        let command = plain_command(CMD_READ_ID);
        let bytes = ask(&command, 3);
        let (received, ok, w) = frame(&self.master, port, &bytes);
        proof {
            port::lemma_grown(start, frame_trace(w@, bytes@));
        }
        let result: Result<[u8; 3], &'static str> = if ok {
            let id: [u8; 3] = [received[1], received[2], received[3]];
            assert(id@ =~= received@.skip(1));
            Ok(id)
        } else {
            Err("LS2K SPI transfer timeout")
        };
        assert(identified(w@, frame_trace(w@, bytes@), result));
        result
    }

    pub fn capabilities(&self) -> (capabilities: FlashCapabilities)
        ensures
            capabilities == (FlashCapabilities { readable: true, writable: true, erasable: true }),
    {
        FlashCapabilities { readable: true, writable: true, erasable: true }
    }

    pub fn bank_width(&self) -> (width: usize)
        ensures
            width == 1,
    {
        1
    }

    pub fn window_count(&self) -> (count: usize)
        ensures
            count == 0,
    {
        0
    }

    pub fn erase_region_count(&self) -> (count: usize)
        ensures
            count == 1,
    {
        1
    }

    /// The flash is one region of sectors.
    pub fn erase_region_at(&self, index: usize) -> (region: Option<FlashEraseRegion>)
        ensures
            region == if index == 0 {
                Some(
                    FlashEraseRegion {
                        offset: 0,
                        block_size: 4096,
                        block_count: self.size / 4096,
                    },
                )
            } else {
                None
            },
    {
        if index == 0 {
            Some(
                FlashEraseRegion {
                    offset: 0,
                    block_size: SECTOR_SIZE,
                    block_count: self.size / 4096,
                },
            )
        } else {
            None
        }
    }

    /// Whether a range lies in the flash.
    fn holds(&self, offset: usize, len: usize) -> (held: bool)
        ensures
            held == (write_refusal(self.size, offset, len as int) is None),
    {
        match offset.checked_add(len) {
            Some(end) => end as u64 <= self.size,
            None => false,
        }
    }

    /// Reads as many bytes as `out` has.
    pub fn read<F: FnMut(Access) -> u64>(
        &self,
        port: &mut Port<F>,
        offset: usize,
        out: &mut Vec<u8>,
    ) -> (result: Result<(), FlashError>)
        requires
            old(port).wf(),
            old(out).len() + 4 <= usize::MAX,
        ensures
            final(port).wf(),
            final(port).performs() == old(port).performs(),
            port::grown(final(port).log(), old(port).log()),
            exists|w: Frame| #[trigger]
                read_went(
                    w,
                    self.size,
                    offset,
                    old(out)@,
                    final(out)@,
                    port::since(final(port).log(), old(port).log()),
                    result,
                ),
    {
        let ghost start = port.log();
        let ghost given = out@;
        if !self.holds(offset, out.len()) {
            let result: Result<(), FlashError> = Err(FlashError::OutOfRange);
            proof {
                assert(port.log() =~= start + Seq::<Exchange>::empty());
                port::lemma_grown(start, Seq::empty());
                assert(read_went(
                    arbitrary(),
                    self.size,
                    offset,
                    given,
                    out@,
                    Seq::empty(),
                    result,
                ));
            }
            return result;
        }
        let command = address_command(CMD_READ, offset);
        let bytes = ask(&command, out.len());
        let (received, ok, w) = frame(&self.master, port, &bytes);
        if received.len() > 4 {
            fill(out, &received, 4);
        }
        let result: Result<(), FlashError> = if ok {
            Ok(())
        } else {
            Err(FlashError::Invalid)
        };
        proof {
            port::lemma_grown(start, frame_trace(w@, bytes@));
            assert(out@ =~= master::filled(given, payload(w@.received, 4)));
            assert(read_went(
                w@,
                self.size,
                offset,
                given,
                out@,
                frame_trace(w@, bytes@),
                result,
            ));
        }
        result
    }

    /// Writes, page by page.
    pub fn write<F: FnMut(Access) -> u64>(
        &self,
        port: &mut Port<F>,
        offset: usize,
        data: &Vec<u8>,
    ) -> (result: Result<(), FlashIoError>)
        requires
            old(port).wf(),
        ensures
            final(port).wf(),
            final(port).performs() == old(port).performs(),
            port::grown(final(port).log(), old(port).log()),
            exists|runs: Seq<CommandRun>| #[trigger]
                change_went(
                    runs,
                    write_refusal(self.size, offset, data@.len() as int),
                    write_commands(offset as int, data@),
                    port::since(final(port).log(), old(port).log()),
                    result,
                ),
    {
        let ghost start = port.log();
        let ghost refusal = write_refusal(self.size, offset, data@.len() as int);
        let ghost wanted = write_commands(offset as int, data@);
        if !self.holds(offset, data.len()) {
            let result: Result<(), FlashIoError> = Err(FlashIoError::OutOfRange);
            proof {
                assert(port.log() =~= start + Seq::<Exchange>::empty());
                port::lemma_grown(start, Seq::empty());
                assert(change_went(arbitrary(), refusal, wanted, Seq::empty(), result));
            }
            return result;
        }
        let commands = build_write(offset, data);
        let result = run_commands(&self.master, port, &commands);
        proof {
            let trace = port::since(port.log(), start);
            let runs = choose|runs: Seq<CommandRun>| #[trigger]
                commands_went(runs, contents(commands@), trace, result);
            assert(change_went(runs, refusal, wanted, trace, result));
        }
        result
    }

    /// Erases, sector by sector.
    pub fn erase<F: FnMut(Access) -> u64>(&self, port: &mut Port<F>, offset: usize, len: usize) -> (result:
        Result<(), FlashIoError>)
        requires
            old(port).wf(),
        ensures
            final(port).wf(),
            final(port).performs() == old(port).performs(),
            port::grown(final(port).log(), old(port).log()),
            exists|runs: Seq<CommandRun>| #[trigger]
                change_went(
                    runs,
                    erase_refusal(self.size, offset, len),
                    erase_commands(offset as int, len as int),
                    port::since(final(port).log(), old(port).log()),
                    result,
                ),
    {
        let ghost start = port.log();
        let ghost refusal = erase_refusal(self.size, offset, len);
        let ghost wanted = erase_commands(offset as int, len as int);
        let refused: Option<FlashIoError> = if offset % SECTOR_SIZE != 0 || len % SECTOR_SIZE != 0 {
            Some(FlashIoError::Invalid)
        } else if !self.holds(offset, len) {
            Some(FlashIoError::OutOfRange)
        } else {
            None
        };
        if let Some(error) = refused {
            let result: Result<(), FlashIoError> = Err(error);
            proof {
                assert(port.log() =~= start + Seq::<Exchange>::empty());
                port::lemma_grown(start, Seq::empty());
                assert(change_went(arbitrary(), refusal, wanted, Seq::empty(), result));
            }
            return result;
        }
        let commands = build_erase(offset, len);
        let result = run_commands(&self.master, port, &commands);
        proof {
            let trace = port::since(port.log(), start);
            let runs = choose|runs: Seq<CommandRun>| #[trigger]
                commands_went(runs, contents(commands@), trace, result);
            assert(change_went(runs, refusal, wanted, trace, result));
        }
        result
    }
}

} // verus!
