//! Numbers for the identities of all interrupt files.

use vstd::prelude::*;

verus! {

/// Numbers the identities of every file: file by file, with the unused identity
/// zero of each counted too. A number stays the same as long as the controller
/// is there; messages carry the identity alone.
#[derive(Clone, Copy, Debug, PartialEq, Eq, Structural)]
pub struct ImsicVectorLayout {
    files: usize,
    num_ids: u32,
    stride: usize,
    capacity: usize,
}

/// The number of an identity of a file.
pub open spec fn number_of(num_ids: u32, file_index: int, id: int) -> int {
    file_index * (num_ids + 1) + id
}

proof fn lemma_number_bound(files: int, num_ids: u32, file_index: int, id: int)
    requires
        0 <= file_index < files,
        0 <= id <= num_ids,
    ensures
        0 <= number_of(num_ids, file_index, id) < files * (num_ids + 1),
{
    assert(file_index * (num_ids + 1) + (num_ids + 1) <= files * (num_ids + 1)) by (nonlinear_arith)
        requires
            0 <= file_index < files,
    ;
    assert(0 <= file_index * (num_ids + 1)) by (nonlinear_arith)
        requires
            0 <= file_index,
    ;
}

impl ImsicVectorLayout {
    pub closed spec fn file_count(&self) -> int {
        self.files as int
    }

    pub closed spec fn ids(&self) -> u32 {
        self.num_ids
    }

    pub closed spec fn fits(&self) -> bool {
        &&& self.stride == self.num_ids + 1
        &&& self.capacity == self.files * self.num_ids
    }

    /// There are files and identities, and every number fits 32 bits.
    pub open spec fn wf(&self) -> bool {
        &&& self.fits()
        &&& 0 < self.file_count() <= usize::MAX
        &&& self.ids() > 0
        &&& self.ids() + 1 <= usize::MAX
        &&& self.file_count() * (self.ids() + 1) <= usize::MAX
        &&& self.file_count() * (self.ids() + 1) - 1 <= u32::MAX
    }

    /// Whether there is such a layout.
    pub open spec fn possible(files: usize, num_ids: u32) -> bool {
        &&& files > 0
        &&& num_ids > 0
        &&& num_ids + 1 <= usize::MAX
        &&& files * (num_ids + 1) <= usize::MAX
        &&& files * (num_ids + 1) - 1 <= u32::MAX
    }

    pub fn new(files: usize, num_ids: u32) -> (result: Option<Self>)
        ensures
            result is Some <==> Self::possible(files, num_ids),
            result matches Some(layout) ==> layout.wf() && layout.file_count() == files
                && layout.ids() == num_ids,
    {
        if files == 0 || num_ids == 0 {
            return None;
        }
        if num_ids as u64 + 1 > usize::MAX as u64 {
            return None;
        }
        let stride: usize = num_ids as usize + 1;
        let slots: usize = match files.checked_mul(stride) {
            Some(slots) => slots,
            None => {
                return None;
            },
        };
        proof {
            assert(slots >= 1) by (nonlinear_arith)
                requires
                    slots == files * stride,
                    files >= 1,
                    stride >= 1,
            ;
            assert(files * num_ids <= slots) by (nonlinear_arith)
                requires
                    slots == files * (num_ids + 1),
                    files >= 1,
            ;
        }
        if slots - 1 > u32::MAX as usize {
            return None;
        }
        Some(ImsicVectorLayout { files, num_ids, stride, capacity: files * num_ids as usize })
    }

    pub fn capacity(self) -> (capacity: usize)
        requires
            self.wf(),
        ensures
            capacity == self.file_count() * self.ids(),
    {
        self.capacity
    }

    /// The place of an identity among all of them.
    pub fn slot(self, file_index: usize, id: u32) -> (result: Option<usize>)
        requires
            self.wf(),
        ensures
            result == (if file_index < self.file_count() && 1 <= id <= self.ids() {
                Some(number_of(self.ids(), file_index as int, id as int) as usize)
            } else {
                None
            }),
            result matches Some(slot) ==> slot == number_of(
                self.ids(),
                file_index as int,
                id as int,
            ) && slot < self.file_count() * (self.ids() + 1),
    {
        if file_index >= self.files || id == 0 || id > self.num_ids {
            return None;
        }
        proof {
            lemma_number_bound(self.files as int, self.num_ids, file_index as int, id as int);
            assert(0 <= file_index * self.stride) by (nonlinear_arith)
                requires
                    0 <= file_index,
                    0 <= self.stride,
            ;
        }
        Some(file_index * self.stride + id as usize)
    }

    /// The number of an identity.
    pub fn hwirq(self, file_index: usize, id: u32) -> (result: Option<u32>)
        requires
            self.wf(),
        ensures
            result == (if file_index < self.file_count() && 1 <= id <= self.ids() {
                Some(number_of(self.ids(), file_index as int, id as int) as u32)
            } else {
                None
            }),
            result matches Some(hwirq) ==> hwirq == number_of(
                self.ids(),
                file_index as int,
                id as int,
            ),
    {
        match self.slot(file_index, id) {
            Some(slot) => Some(slot as u32),
            None => None,
        }
    }

    /// The file and the identity that a number stands for.
    pub open spec fn decoded(self, hwirq: u32) -> Option<(usize, u32, usize)> {
        let file_index = hwirq as int / (self.ids() + 1);
        let id = hwirq as int % (self.ids() + 1);
        if file_index < self.file_count() && id != 0 {
            Some((file_index as usize, id as u32, hwirq as usize))
        } else {
            None
        }
    }

    pub fn decode(self, hwirq: u32) -> (result: Option<(usize, u32, usize)>)
        requires
            self.wf(),
        ensures
            result == self.decoded(hwirq),
    {
        if hwirq as u64 > usize::MAX as u64 {
            return None;
        }
        let slot: usize = hwirq as usize;
        let file_index: usize = slot / self.stride;
        let rest: usize = slot % self.stride;
        if file_index >= self.files || rest == 0 {
            return None;
        }
        Some((file_index, rest as u32, slot))
    }

    /// The identities in the order in which they are handed out: the first of
    /// every file, then the second of every file, and so on.
    pub open spec fn ordered(self, ordinal: int) -> (int, int) {
        (ordinal % self.file_count(), ordinal / self.file_count() + 1)
    }

    pub fn ordinal(self, ordinal: usize) -> (result: Option<(usize, u32, usize, u32)>)
        requires
            self.wf(),
        ensures
            result is Some <==> ordinal < self.file_count() * self.ids(),
            result matches Some((file_index, id, slot, hwirq)) ==> {
                &&& (file_index as int, id as int) == self.ordered(ordinal as int)
                &&& file_index < self.file_count()
                &&& 1 <= id <= self.ids()
                &&& slot == number_of(self.ids(), file_index as int, id as int)
                &&& slot < self.file_count() * (self.ids() + 1)
                &&& hwirq == slot
            },
    {
        if ordinal >= self.capacity {
            return None;
        }
        let file_index: usize = ordinal % self.files;
        let row: usize = ordinal / self.files;
        proof {
            assert(row < self.num_ids) by (nonlinear_arith)
                requires
                    row == ordinal / self.files,
                    self.files > 0,
                    ordinal < self.files * self.num_ids,
            ;
        }
        let id: u32 = row as u32 + 1;
        match self.slot(file_index, id) {
            Some(slot) => Some((file_index, id, slot, slot as u32)),
            None => None,
        }
    }
}

/// A number stands for the identity that it was made of, and for no other.
pub proof fn numbers_decode(layout: ImsicVectorLayout, file_index: int, id: int)
    requires
        layout.wf(),
        0 <= file_index < layout.file_count(),
        1 <= id <= layout.ids(),
    ensures
        ({
            let hwirq = number_of(layout.ids(), file_index, id);
            &&& 0 <= hwirq <= u32::MAX
            &&& layout.decoded(hwirq as u32) == Some((file_index as usize, id as u32, hwirq as usize))
        }),
{
    lemma_number_bound(layout.file_count(), layout.ids(), file_index, id);
    let stride = layout.ids() + 1;
    let hwirq = number_of(layout.ids(), file_index, id);
    assert(hwirq / stride == file_index && hwirq % stride == id) by (nonlinear_arith)
        requires
            hwirq == file_index * stride + id,
            0 <= id < stride,
            0 <= file_index,
    ;
}

/// Different identities are handed out under different ordinals, and each one
/// under some.
pub proof fn ordinals_cover_identities(layout: ImsicVectorLayout, file_index: int, id: int)
    requires
        layout.wf(),
        0 <= file_index < layout.file_count(),
        1 <= id <= layout.ids(),
    ensures
        ({
            let ordinal = (id - 1) * layout.file_count() + file_index;
            &&& 0 <= ordinal < layout.file_count() * layout.ids()
            &&& layout.ordered(ordinal) == (file_index, id)
        }),
{
    let files = layout.file_count();
    let ids = layout.ids() as int;
    let ordinal = (id - 1) * files + file_index;
    assert(0 <= ordinal < files * ids && ordinal % files == file_index && ordinal / files == id - 1)
        by (nonlinear_arith)
        requires
            ordinal == (id - 1) * files + file_index,
            0 <= file_index < files,
            1 <= id <= ids,
    ;
}

} // verus!
