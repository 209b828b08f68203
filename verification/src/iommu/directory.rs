//! The directory of devices, with the context of each.

use vstd::prelude::*;
use crate::iommu::bits;
use crate::iommu::queue::HardwareError;
use crate::iommu::radix;
use crate::iommu::radix::{PageView, RadixTable, WalkError, physical_address_valid, release_table};
use crate::port;
use crate::port::{Access, Exchange, NO_PAGE, Port};

verus! {

/// How many devices a page of contexts holds.
pub open spec fn contexts_per_page(extended: bool) -> int {
    if extended {
        64
    } else {
        128
    }
}

/// How many words a context has.
pub open spec fn words_of(extended: bool) -> int {
    if extended {
        8
    } else {
        4
    }
}

/// How many levels a mode has; none for modes without a directory.
pub open spec fn levels_of(mode: u8) -> int {
    if 2 <= mode <= 4 {
        mode - 1
    } else {
        0
    }
}

/// How many devices a directory can have. Three levels have more room than there
/// are device numbers.
pub open spec fn device_limit(extended: bool, levels: int) -> int {
    if levels == 1 {
        contexts_per_page(extended)
    } else if levels == 2 {
        contexts_per_page(extended) * 512
    } else {
        0x100_0000
    }
}

/// The indexes that lead to the page of a device.
pub open spec fn path_for(extended: bool, levels: int, device_id: u32) -> Seq<usize> {
    let low = (device_id as int / contexts_per_page(extended) % 512) as usize;
    let high = (device_id as int / (contexts_per_page(extended) * 512) % 512) as usize;
    if levels <= 1 {
        Seq::empty()
    } else if levels == 2 {
        seq![low]
    } else {
        seq![high, low]
    }
}

/// The first word of the context of a device in its page.
pub open spec fn word_for(extended: bool, device_id: u32) -> int {
    device_id as int % contexts_per_page(extended) * words_of(extended)
}

/// How a walk that was stopped is reported.
pub open spec fn walk_fault(error: WalkError) -> HardwareError {
    match error {
        WalkError::OutOfMemory => HardwareError::OutOfMemory,
        WalkError::Unreachable => HardwareError::Invalid,
        WalkError::Absent => HardwareError::Directory,
        WalkError::Corrupt => HardwareError::Directory,
    }
}

/// The way to a context, with the pages after it.
pub ghost struct Located {
    pub pages: Seq<PageView>,
    pub outcome: Result<(int, int), HardwareError>,
    pub trace: Seq<Exchange>,
}

/// What looking for the context of a device does. Tables on the way are made.
pub open spec fn located(
    pages: Seq<PageView>,
    pas: u8,
    extended: bool,
    mode: u8,
    device_id: u32,
    replies: Seq<u64>,
) -> Located {
    let levels = levels_of(mode);
    if levels == 0 {
        Located { pages, outcome: Err(HardwareError::Directory), trace: Seq::empty() }
    } else if device_id >= device_limit(extended, levels) {
        Located { pages, outcome: Err(HardwareError::Invalid), trace: Seq::empty() }
    } else {
        let walk = radix::walked(
            pages,
            pas,
            path_for(extended, levels, device_id),
            0,
            true,
            replies,
        );
        Located {
            pages: walk.pages,
            outcome: match walk.outcome {
                Ok(at) => Ok((at, word_for(extended, device_id))),
                Err(error) => Err(walk_fault(error)),
            },
            trace: walk.trace,
        }
    }
}

/// The pages after some words of a page were cleared.
pub open spec fn zeroed(pages: Seq<PageView>, at: int, word: int, count: int) -> Seq<PageView>
    decreases count,
{
    if count <= 0 {
        pages
    } else {
        radix::written(zeroed(pages, at, word, count - 1), at, word + count - 1, 0)
    }
}

/// The accesses that clear some words of a page.
pub open spec fn zero_trace(pages: Seq<PageView>, at: int, word: int, count: int) -> Seq<Exchange>
    decreases count,
{
    if count <= 0 {
        Seq::empty()
    } else {
        zero_trace(pages, at, word, count - 1) + radix::write_trace(
            pages[at],
            word + count - 1,
            0,
        )
    }
}

/// The pages after a context was installed.
pub open spec fn context_pages(
    pages: Seq<PageView>,
    at: int,
    word: int,
    words: int,
    fsc: u64,
) -> Seq<PageView> {
    radix::written(
        radix::written(zeroed(pages, at, word, words), at, word + 3, fsc),
        at,
        word,
        bits::DC_TC_VALID,
    )
}

/// The accesses that install a context: it is marked valid after everything else
/// is there.
pub open spec fn context_trace(
    pages: Seq<PageView>,
    at: int,
    word: int,
    words: int,
    fsc: u64,
) -> Seq<Exchange> {
    zero_trace(pages, at, word, words) + radix::write_trace(pages[at], word + 3, fsc) + seq![
        port::fence(),
    ] + radix::write_trace(pages[at], word, bits::DC_TC_VALID)
}

/// The directory of devices.
pub struct DeviceDirectory {
    pub extended: bool,
    pub mode: u8,
    pub table: RadixTable,
    /// Whether its pages were given up, because the unit may still use them.
    pub leaked: bool,
}

impl DeviceDirectory {
    pub open spec fn wf(&self) -> bool {
        self.table.wf()
    }

    pub open spec fn view(&self) -> Seq<PageView> {
        self.table@
    }

    /// Whether only the pages differ.
    pub open spec fn same_but_pages(&self, other: &DeviceDirectory) -> bool {
        &&& self.extended == other.extended
        &&& self.mode == other.mode
        &&& self.table.pas == other.table.pas
        &&& self.leaked == other.leaked
    }

    /// What looking for the context of a device does.
    pub open spec fn locating(&self, device_id: u32, replies: Seq<u64>) -> Located {
        located(self@, self.table.pas, self.extended, self.mode, device_id, replies)
    }

    /// A directory with an empty root, in no mode yet.
    pub fn new<F: FnMut(Access) -> u64>(port: &mut Port<F>, extended: bool, pas: u8) -> (result:
        Result<Self, HardwareError>)
        requires
            old(port).wf(),
        ensures
            final(port).wf(),
            final(port).performs() == old(port).performs(),
            exists|reply: u64|
                final(port).log() == old(port).log().push(#[trigger] port::allocated(reply)) && (
                if reply == NO_PAGE {
                    result == Err::<DeviceDirectory, HardwareError>(HardwareError::OutOfMemory)
                } else {
                    result matches Ok(directory) && directory.wf() && directory.extended == extended
                        && directory.mode == bits::DDTP_MODE_OFF && !directory.leaked
                        && directory.table.pas == pas && directory@ == seq![
                        radix::empty_page(reply),
                    ]
                }),
    {
        match RadixTable::new(port, pas) {
            Some(table) => Ok(
                DeviceDirectory { extended, mode: bits::DDTP_MODE_OFF, table, leaked: false },
            ),
            None => Err(HardwareError::OutOfMemory),
        }
    }

    pub fn root_paddr(&self) -> (paddr: u64)
        requires
            self.wf(),
        ensures
            paddr == self@[0].paddr,
    {
        self.table.pages[0].paddr
    }

    pub fn physical_valid(&self, paddr: u64) -> (valid: bool)
        ensures
            valid == radix::reachable(self.table.pas, paddr),
    {
        physical_address_valid(self.table.pas, paddr)
    }

    /// Where the context of a device is.
    pub fn context_location<F: FnMut(Access) -> u64>(
        &mut self,
        port: &mut Port<F>,
        device_id: u32,
    ) -> (result: Result<(usize, usize), HardwareError>)
        requires
            old(self).wf(),
            old(port).wf(),
        ensures
            final(self).wf(),
            final(port).wf(),
            final(port).performs() == old(port).performs(),
            final(self).same_but_pages(old(self)),
            exists|replies: Seq<u64>| #[trigger]
                old(self).location_found(
                    final(self),
                    device_id,
                    replies,
                    result,
                    old(port).log(),
                    final(port).log(),
                ),
            result matches Ok((at, word)) ==> at < final(self).table.pages@.len() && word + words_of(
                old(self).extended,
            ) <= 512,
    {
        let ghost start = port.log();
        assert(start + Seq::<Exchange>::empty() =~= start);
        if self.mode < 2 || self.mode > 4 {
            assert(old(self).location_found(
                self,
                device_id,
                Seq::empty(),
                Err(HardwareError::Directory),
                start,
                start,
            ));
            return Err(HardwareError::Directory);
        }
        let per_page: u32 = if self.extended {
            64
        } else {
            128
        };
        let limit: u32 = if self.mode == 2 {
            per_page
        } else if self.mode == 3 {
            per_page * 512
        } else {
            0x100_0000
        };
        if device_id >= limit {
            assert(old(self).location_found(
                self,
                device_id,
                Seq::empty(),
                Err(HardwareError::Invalid),
                start,
                start,
            ));
            return Err(HardwareError::Invalid);
        }
        let mut path: Vec<usize> = Vec::new();
        if self.mode == 4 {
            path.push((device_id / (per_page * 512) % 512) as usize);
        }
        if self.mode >= 3 {
            path.push((device_id / per_page % 512) as usize);
        }
        assert(path@ =~= path_for(self.extended, levels_of(self.mode), device_id));
        let ghost pas = self.table.pas;
        let ghost before = self@;
        let walked = self.table.walk(port, path.as_slice(), 0, 0, true);
        let ghost replies = choose|replies: Seq<u64>| #[trigger]
            radix::was_walked(
                before,
                pas,
                path@.skip(0),
                0,
                true,
                replies,
                self.table@,
                walked,
                start,
                port.log(),
            );
        assert(path@.skip(0) =~= path@);
        match walked {
            Ok(at) => {
                let words: usize = if self.extended {
                    8
                } else {
                    4
                };
                let word: usize = (device_id % per_page) as usize * words;
                assert(old(self).location_found(
                    self,
                    device_id,
                    replies,
                    Ok((at, word)),
                    start,
                    port.log(),
                ));
                Ok((at, word))
            },
            Err(error) => {
                let fault = match error {
                    WalkError::OutOfMemory => HardwareError::OutOfMemory,
                    WalkError::Unreachable => HardwareError::Invalid,
                    WalkError::Absent => HardwareError::Directory,
                    WalkError::Corrupt => HardwareError::Directory,
                };
                assert(old(self).location_found(
                    self,
                    device_id,
                    replies,
                    Err(fault),
                    start,
                    port.log(),
                ));
                Err(fault)
            },
        }
    }

    /// Whether the context of a device was looked for so.
    pub open spec fn location_found(
        &self,
        after: &DeviceDirectory,
        device_id: u32,
        replies: Seq<u64>,
        result: Result<(usize, usize), HardwareError>,
        log: Seq<Exchange>,
        now: Seq<Exchange>,
    ) -> bool {
        let way = self.locating(device_id, replies);
        &&& after@ == way.pages
        &&& now == log + way.trace
        &&& match result {
            Ok((at, word)) => way.outcome == Ok::<(int, int), HardwareError>(
                (at as int, word as int),
            ),
            Err(error) => way.outcome == Err::<(int, int), HardwareError>(error),
        }
    }

    /// Whether a device has a valid context.
    pub fn context_valid<F: FnMut(Access) -> u64>(&mut self, port: &mut Port<F>, device_id: u32) -> (result:
        Result<bool, HardwareError>)
        requires
            old(self).wf(),
            old(port).wf(),
        ensures
            final(self).wf(),
            final(port).wf(),
            final(port).performs() == old(port).performs(),
            port::grown(final(port).log(), old(port).log()),
            final(self).same_but_pages(old(self)),
            exists|replies: Seq<u64>| #[trigger]
                old(self).validity_read(
                    final(self)@,
                    device_id,
                    replies,
                    result,
                    port::since(final(port).log(), old(port).log()),
                ),
    {
        let ghost start = port.log();
        let location = self.context_location(port, device_id);
        let ghost replies = choose|replies: Seq<u64>| #[trigger]
            old(self).location_found(self, device_id, replies, location, start, port.log());
        let ghost way = old(self).locating(device_id, replies);
        let result = match location {
            Ok((at, word)) => Ok(self.table.read(at, word) % 2 == 1),
            Err(error) => Err(error),
        };
        proof {
            port::lemma_grown(start, way.trace);
            assert(old(self).validity_read(self@, device_id, replies, result, way.trace));
        }
        result
    }

    /// What reading the validity of a context gives.
    pub open spec fn validity_read(
        &self,
        after: Seq<PageView>,
        device_id: u32,
        replies: Seq<u64>,
        result: Result<bool, HardwareError>,
        trace: Seq<Exchange>,
    ) -> bool {
        let way = self.locating(device_id, replies);
        &&& after == way.pages
        &&& trace == way.trace
        &&& match way.outcome {
            Ok((at, word)) => result == Ok::<bool, HardwareError>(
                way.pages[at].entries[word] % 2 == 1,
            ),
            Err(error) => result == Err::<bool, HardwareError>(error),
        }
    }

    fn clear_words<F: FnMut(Access) -> u64>(
        &mut self,
        port: &mut Port<F>,
        at: usize,
        word: usize,
        count: usize,
    )
        requires
            old(self).wf(),
            old(port).wf(),
            at < old(self).table.pages@.len(),
            word + count <= 512,
        ensures
            final(self).wf(),
            final(port).wf(),
            final(port).performs() == old(port).performs(),
            final(self).same_but_pages(old(self)),
            final(self).table.pages@.len() == old(self).table.pages@.len(),
            final(self)@[at as int].paddr == old(self)@[at as int].paddr,
            final(self)@ == zeroed(old(self)@, at as int, word as int, count as int),
            final(port).log() == old(port).log() + zero_trace(
                old(self)@,
                at as int,
                word as int,
                count as int,
            ),
    {
        let ghost before = self@;
        let ghost start = port.log();
        let mut i: usize = 0;
        assert(start + zero_trace(before, at as int, word as int, 0) =~= start);
        while i < count
            invariant
                i <= count,
                word + count <= 512,
                self.wf(),
                port.wf(),
                port.performs() == old(port).performs(),
                self.same_but_pages(old(self)),
                self.table.pages@.len() == old(self).table.pages@.len(),
                at < self.table.pages@.len(),
                self@[at as int].paddr == before[at as int].paddr,
                self@ == zeroed(before, at as int, word as int, i as int),
                port.log() == start + zero_trace(before, at as int, word as int, i as int),
            decreases count - i,
        {
            let ghost page = self@[at as int];
            self.table.write(port, at, word + i, 0);
            i += 1;
            proof {
                assert(radix::write_trace(page, word + i - 1, 0) =~= radix::write_trace(
                    before[at as int],
                    word + i - 1,
                    0,
                ));
                assert(port.log() =~= start + zero_trace(
                    before,
                    at as int,
                    word as int,
                    i as int,
                ));
            }
        }
    }

    /// What installing a context does.
    pub open spec fn install_done(
        &self,
        after: Seq<PageView>,
        device_id: u32,
        fsc: u64,
        replies: Seq<u64>,
        result: Result<(), HardwareError>,
        trace: Seq<Exchange>,
    ) -> bool {
        let way = self.locating(device_id, replies);
        match way.outcome {
            Err(error) => after == way.pages && trace == way.trace && result == Err::<
                (),
                HardwareError,
            >(error),
            Ok((at, word)) => if way.pages[at].entries[word] % 2 == 1 {
                after == way.pages && trace == way.trace && result == Err::<(), HardwareError>(
                    HardwareError::Busy,
                )
            } else {
                &&& after == context_pages(way.pages, at, word, words_of(self.extended), fsc)
                &&& trace == way.trace + context_trace(
                    way.pages,
                    at,
                    word,
                    words_of(self.extended),
                    fsc,
                )
                &&& result is Ok
            },
        }
    }

    /// Gives a device a context.
    pub fn install_context<F: FnMut(Access) -> u64>(
        &mut self,
        port: &mut Port<F>,
        device_id: u32,
        fsc: u64,
    ) -> (result: Result<(), HardwareError>)
        requires
            old(self).wf(),
            old(port).wf(),
        ensures
            final(self).wf(),
            final(port).wf(),
            final(port).performs() == old(port).performs(),
            port::grown(final(port).log(), old(port).log()),
            final(self).same_but_pages(old(self)),
            exists|replies: Seq<u64>| #[trigger]
                old(self).install_done(
                    final(self)@,
                    device_id,
                    fsc,
                    replies,
                    result,
                    port::since(final(port).log(), old(port).log()),
                ),
    {
        let ghost start = port.log();
        let location = self.context_location(port, device_id);
        let ghost replies = choose|replies: Seq<u64>| #[trigger]
            old(self).location_found(self, device_id, replies, location, start, port.log());
        let ghost way = old(self).locating(device_id, replies);
        proof {
            port::lemma_grown(start, way.trace);
        }
        let (at, word): (usize, usize) = match location {
            Ok(location) => location,
            Err(error) => {
                assert(old(self).install_done(
                    self@,
                    device_id,
                    fsc,
                    replies,
                    Err(error),
                    way.trace,
                ));
                return Err(error);
            },
        };
        if self.table.read(at, word) % 2 == 1 {
            assert(old(self).install_done(
                self@,
                device_id,
                fsc,
                replies,
                Err(HardwareError::Busy),
                way.trace,
            ));
            return Err(HardwareError::Busy);
        }
        let words: usize = if self.extended {
            8
        } else {
            4
        };
        let ghost page = self@[at as int];
        self.clear_words(port, at, word, words);
        let ghost cleared = self@;
        assert(radix::write_trace(self@[at as int], word + 3, fsc) =~= radix::write_trace(
            page,
            word + 3,
            fsc,
        ));
        self.table.write(port, at, word + 3, fsc);
        port.barrier();
        assert(radix::write_trace(self@[at as int], word as int, bits::DC_TC_VALID)
            =~= radix::write_trace(page, word as int, bits::DC_TC_VALID));
        self.table.write(port, at, word, bits::DC_TC_VALID);
        proof {
            let trace = way.trace + context_trace(
                way.pages,
                at as int,
                word as int,
                words_of(self.extended),
                fsc,
            );
            assert(port.log() =~= start + trace);
            port::lemma_grown(start, trace);
            assert(old(self).install_done(self@, device_id, fsc, replies, Ok(()), trace));
        }
        Ok(())
    }

    /// What clearing a context does.
    pub open spec fn clear_done(
        &self,
        after: Seq<PageView>,
        device_id: u32,
        replies: Seq<u64>,
        result: Result<(), HardwareError>,
        trace: Seq<Exchange>,
    ) -> bool {
        let way = self.locating(device_id, replies);
        match way.outcome {
            Err(error) => after == way.pages && trace == way.trace && result == Err::<
                (),
                HardwareError,
            >(error),
            Ok((at, word)) => {
                &&& after == radix::written(way.pages, at, word, 0)
                &&& trace == way.trace + radix::write_trace(way.pages[at], word, 0) + seq![
                    port::fence(),
                ]
                &&& result is Ok
            },
        }
    }

    /// Takes the context of a device away.
    pub fn clear_context<F: FnMut(Access) -> u64>(&mut self, port: &mut Port<F>, device_id: u32) -> (result:
        Result<(), HardwareError>)
        requires
            old(self).wf(),
            old(port).wf(),
        ensures
            final(self).wf(),
            final(port).wf(),
            final(port).performs() == old(port).performs(),
            port::grown(final(port).log(), old(port).log()),
            final(self).same_but_pages(old(self)),
            exists|replies: Seq<u64>| #[trigger]
                old(self).clear_done(
                    final(self)@,
                    device_id,
                    replies,
                    result,
                    port::since(final(port).log(), old(port).log()),
                ),
    {
        let ghost start = port.log();
        let location = self.context_location(port, device_id);
        let ghost replies = choose|replies: Seq<u64>| #[trigger]
            old(self).location_found(self, device_id, replies, location, start, port.log());
        let ghost way = old(self).locating(device_id, replies);
        proof {
            port::lemma_grown(start, way.trace);
        }
        let (at, word): (usize, usize) = match location {
            Ok(location) => location,
            Err(error) => {
                assert(old(self).clear_done(self@, device_id, replies, Err(error), way.trace));
                return Err(error);
            },
        };
        self.table.write(port, at, word, 0);
        port.barrier();
        proof {
            let trace = way.trace + radix::write_trace(way.pages[at as int], word as int, 0) + seq![
                port::fence(),
            ];
            assert(port.log() =~= start + trace);
            port::lemma_grown(start, trace);
            assert(old(self).clear_done(self@, device_id, replies, Ok(()), trace));
        }
        Ok(())
    }

    /// The accesses that give the directory back.
    pub open spec fn drop_trace(&self) -> Seq<Exchange> {
        if self.leaked {
            Seq::empty()
        } else {
            radix::release_trace(self@)
        }
    }

    /// Gives the pages of the directory back, unless they were given up.
    pub fn release<F: FnMut(Access) -> u64>(self, port: &mut Port<F>)
        requires
            old(port).wf(),
        ensures
            final(port).wf(),
            final(port).performs() == old(port).performs(),
            final(port).log() == old(port).log() + self.drop_trace(),
    {
        let ghost start = port.log();
        assert(start + Seq::<Exchange>::empty() =~= start);
        if !self.leaked {
            release_table(self.table, port);
        }
    }
}

proof fn lemma_zeroed(pages: Seq<PageView>, path: Seq<usize>, at: int, word: int, count: int)
    requires
        radix::is_tree(pages, path.len()),
        radix::in_pages(path),
        radix::reach(pages, path, 0) == Some(at),
        0 <= word,
        0 <= count,
        word + count <= 512,
    ensures
        radix::is_tree(zeroed(pages, at, word, count), path.len()),
        radix::reach(zeroed(pages, at, word, count), path, 0) == Some(at),
        forall|other: Seq<usize>, slot: int|
            radix::in_pages(other) && other.len() == path.len() && 0 <= slot < 512
                ==> #[trigger] radix::value_at(zeroed(pages, at, word, count), other, slot) == (
            if other == path && word <= slot < word + count {
                0
            } else {
                radix::value_at(pages, other, slot)
            }),
    decreases count,
{
    if count > 0 {
        lemma_zeroed(pages, path, at, word, count - 1);
        let before = zeroed(pages, at, word, count - 1);
        radix::written_value_is_there(before, path, at, word + count - 1, 0);
        radix::lemma_write_keeps_way(before, path, at, word + count - 1, 0);
    }
}

/// An installed context is valid, points to its tables and is empty otherwise; the
/// contexts of all other devices stay as they were.
pub proof fn installed_context_is_there(
    pages: Seq<PageView>,
    path: Seq<usize>,
    at: int,
    word: int,
    words: int,
    fsc: u64,
)
    requires
        radix::is_tree(pages, path.len()),
        radix::in_pages(path),
        radix::reach(pages, path, 0) == Some(at),
        0 <= word,
        4 <= words,
        word + words <= 512,
    ensures
        radix::is_tree(context_pages(pages, at, word, words, fsc), path.len()),
        forall|other: Seq<usize>, slot: int|
            radix::in_pages(other) && other.len() == path.len() && 0 <= slot < 512
                ==> #[trigger] radix::value_at(
                context_pages(pages, at, word, words, fsc),
                other,
                slot,
            ) == (if other == path && word <= slot < word + words {
                if slot == word {
                    bits::DC_TC_VALID
                } else if slot == word + 3 {
                    fsc
                } else {
                    0
                }
            } else {
                radix::value_at(pages, other, slot)
            }),
{
    lemma_zeroed(pages, path, at, word, words);
    let cleared = zeroed(pages, at, word, words);
    radix::written_value_is_there(cleared, path, at, word + 3, fsc);
    radix::lemma_write_keeps_way(cleared, path, at, word + 3, fsc);
    let pointed = radix::written(cleared, at, word + 3, fsc);
    radix::written_value_is_there(pointed, path, at, word, bits::DC_TC_VALID);
    let after = context_pages(pages, at, word, words, fsc);
    assert forall|other: Seq<usize>, slot: int|
        radix::in_pages(other) && other.len() == path.len() && 0 <= slot < 512 implies #[trigger]
    radix::value_at(after, other, slot) == (if other == path && word <= slot < word + words {
        if slot == word {
            bits::DC_TC_VALID
        } else if slot == word + 3 {
            fsc
        } else {
            0
        }
    } else {
        radix::value_at(pages, other, slot)
    }) by {
        assert(radix::value_at(pointed, other, slot) == (if other == path && slot == word + 3 {
            fsc
        } else {
            radix::value_at(cleared, other, slot)
        }));
    }
}

} // verus!
