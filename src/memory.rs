use vstd::prelude::*;

use crate::page::{half_at, with_half, with_word, word_at, Page, PAGE_SIZE};

verus! {

/// Number of virtual pages in the 32-bit address space.
pub const PAGE_COUNT: usize = 0x10000;

/// Virtual page number of an address: its upper 16 bits.
pub open spec fn vpn_of(addr: u32) -> int {
    addr as int / 0x10000
}

/// In-page offset of an address: its lower 16 bits.
pub open spec fn offset_of(addr: u32) -> int {
    addr as int % 0x10000
}

/// Splits an address into its page number and in-page offset.
pub fn split_address(addr: u32) -> (r: (usize, u16))
    ensures
        r.0 as int == vpn_of(addr),
        r.1 as int == offset_of(addr),
        r.0 < PAGE_COUNT,
{
    assert((addr >> 16u32) as int == addr as int / 0x10000) by (bit_vector);
    assert((addr as u16) as int == addr as int % 0x10000) by (bit_vector);
    ((addr >> 16u32) as usize, addr as u16)
}

/// The offset of an aligned address is aligned alike, and the access stays in its page.
pub proof fn lemma_aligned_offset(addr: u32, width: int)
    requires
        width == 2 || width == 4,
        addr as int % width == 0,
    ensures
        offset_of(addr) % width == 0,
        offset_of(addr) + width <= PAGE_SIZE,
{
}

/// The byte at `addr` in a memory made of `pages` seen through `slots`, if its page is mapped.
pub open spec fn load_byte(pages: Seq<Seq<u8>>, slots: Seq<Option<usize>>, addr: u32) -> Option<u8> {
    match slots[vpn_of(addr)] {
        Some(p) => Some(pages[p as int][offset_of(addr)]),
        None => None,
    }
}

/// The halfword at an even `addr`, if its page is mapped.
pub open spec fn load_half(pages: Seq<Seq<u8>>, slots: Seq<Option<usize>>, addr: u32) -> Option<u16> {
    match slots[vpn_of(addr)] {
        Some(p) => Some(half_at(pages[p as int], offset_of(addr))),
        None => None,
    }
}

/// The word at an `addr` that is a multiple of four, if its page is mapped.
pub open spec fn load_word(pages: Seq<Seq<u8>>, slots: Seq<Option<usize>>, addr: u32) -> Option<u32> {
    match slots[vpn_of(addr)] {
        Some(p) => Some(word_at(pages[p as int], offset_of(addr))),
        None => None,
    }
}

/// The pages after writing the byte at `addr`, if its page is mapped.
pub open spec fn store_byte(pages: Seq<Seq<u8>>, slots: Seq<Option<usize>>, addr: u32, v: u8) -> Option<
    Seq<Seq<u8>>,
> {
    match slots[vpn_of(addr)] {
        Some(p) => Some(pages.update(p as int, pages[p as int].update(offset_of(addr), v))),
        None => None,
    }
}

/// The pages after writing the halfword at an even `addr`, if its page is mapped.
pub open spec fn store_half(pages: Seq<Seq<u8>>, slots: Seq<Option<usize>>, addr: u32, v: u16) -> Option<
    Seq<Seq<u8>>,
> {
    match slots[vpn_of(addr)] {
        Some(p) => Some(pages.update(p as int, with_half(pages[p as int], offset_of(addr), v))),
        None => None,
    }
}

/// The pages after writing the word at an `addr` that is a multiple of four, if its page is mapped.
pub open spec fn store_word(pages: Seq<Seq<u8>>, slots: Seq<Option<usize>>, addr: u32, v: u32) -> Option<
    Seq<Seq<u8>>,
> {
    match slots[vpn_of(addr)] {
        Some(p) => Some(pages.update(p as int, with_word(pages[p as int], offset_of(addr), v))),
        None => None,
    }
}

/// Two views that place the same page at the page of `addr` see each
/// other's writes: a byte stored through one is the byte loaded through the other.
pub proof fn lemma_shared_write_visible(pages: Seq<Seq<u8>>, a: Seq<Option<usize>>, b: Seq<Option<usize>>, addr: u32, v: u8)
    requires
        a[vpn_of(addr)] == b[vpn_of(addr)],
        a[vpn_of(addr)] matches Some(p) && p < pages.len() && pages[p as int].len() == PAGE_SIZE,
    ensures
        store_byte(pages, a, addr, v) matches Some(after) && load_byte(after, b, addr) == Some(v),
{
}

/// The contents of a freshly handed out page.
pub open spec fn zero_page() -> Seq<u8> {
    Seq::new(PAGE_SIZE as nat, |i: int| 0u8)
}

/// Handle of a page in the shared page store.
#[derive(Clone, Copy, Debug, PartialEq, Eq, Structural, Hash)]
pub struct PageId(pub usize);

impl PageId {
    pub fn raw(&self) -> (r: usize)
        ensures
            r == self.0,
    {
        self.0
    }
}

/// The shared page store: every page in the system, with the number of task
/// mappings that hold each one. A page that no mapping holds is reused by the
/// next request for a page.
pub struct TaskPoolSharedMemory {
    pages: Vec<Page>,
    owners: Vec<u64>,
}

impl TaskPoolSharedMemory {
    pub closed spec fn wf(&self) -> bool {
        &&& self.pages@.len() == self.owners@.len()
        &&& forall|i: int| 0 <= i < self.pages@.len() ==> #[trigger] self.pages@[i].wf()
    }

    /// Contents of every page, by page index.
    pub closed spec fn contents(&self) -> Seq<Seq<u8>> {
        Seq::new(self.pages@.len(), |i: int| self.pages@[i]@)
    }

    /// Number of task mappings that hold each page, by page index.
    pub closed spec fn owners(&self) -> Seq<u64> {
        self.owners@
    }

    pub proof fn lemma_wf(&self)
        requires
            self.wf(),
        ensures
            self.contents().len() == self.owners().len(),
            forall|i: int| 0 <= i < self.contents().len() ==> #[trigger] self.contents()[i].len() == PAGE_SIZE,
    {
        assert forall|i: int| 0 <= i < self.contents().len() implies #[trigger] self.contents()[i].len()
            == PAGE_SIZE by {
            self.pages@[i].lemma_wf_len();
        }
    }

    /// An empty store.
    pub fn new() -> (r: TaskPoolSharedMemory)
        ensures
            r.wf(),
            r.contents().len() == 0,
    {
        TaskPoolSharedMemory { pages: Vec::new(), owners: Vec::new() }
    }

    pub fn page_count(&self) -> (r: usize)
        requires
            self.wf(),
        ensures
            r == self.contents().len(),
    {
        self.pages.len()
    }

    pub fn owner_count(&self, id: PageId) -> (r: u64)
        requires
            self.wf(),
            id.0 < self.contents().len(),
        ensures
            r == self.owners()[id.0 as int],
    {
        self.owners[id.0]
    }

    /// Hands out a zeroed page held by one mapping. The first page that no
    /// mapping holds is reset and reused; only when there is none is a page added.
    pub fn new_page(&mut self) -> (r: PageId)
        requires
            old(self).wf(),
        ensures
            final(self).wf(),
            r.0 <= old(self).contents().len(),
            forall|i: int| 0 <= i < r.0 ==> old(self).owners()[i] > 0,
            r.0 < old(self).contents().len() ==> old(self).owners()[r.0 as int] == 0,
            final(self).contents() == (if r.0 < old(self).contents().len() {
                old(self).contents().update(r.0 as int, zero_page())
            } else {
                old(self).contents().push(zero_page())
            }),
            final(self).owners() == (if r.0 < old(self).contents().len() {
                old(self).owners().update(r.0 as int, 1)
            } else {
                old(self).owners().push(1)
            }),
    {
        let mut i: usize = 0;
        while i < self.pages.len()
            invariant
                self.wf(),
                *self == *old(self),
                i <= self.pages@.len(),
                forall|j: int| 0 <= j < i ==> self.owners@[j] > 0,
            decreases self.pages@.len() - i,
        {
            if self.owners[i] == 0 {
                let ghost before = self.contents();
                self.pages[i].clear();
                self.owners.set(i, 1);
                assert(self.contents() =~= before.update(i as int, zero_page()));
                return PageId(i);
            }
            i = i + 1;
        }
        let ghost before = self.contents();
        let id = self.pages.len();
        self.pages.push(Page::new());
        self.owners.push(1);
        assert(self.contents() =~= before.push(zero_page()));
        PageId(id)
    }

    /// Records one more mapping that holds page `id`.
    pub fn share_page(&mut self, id: PageId)
        requires
            old(self).wf(),
            id.0 < old(self).contents().len(),
            old(self).owners()[id.0 as int] < u64::MAX,
        ensures
            final(self).wf(),
            final(self).contents() == old(self).contents(),
            final(self).owners() == old(self).owners().update(id.0 as int, (old(self).owners()[id.0 as int] + 1) as u64),
    {
        let n = self.owners[id.0];
        self.owners.set(id.0, n + 1);
    }

    /// Records that a mapping no longer holds page `id`; the page is reused
    /// once no mapping holds it.
    pub fn release_page(&mut self, id: PageId)
        requires
            old(self).wf(),
            id.0 < old(self).contents().len(),
        ensures
            final(self).wf(),
            final(self).contents() == old(self).contents(),
            final(self).owners() == old(self).owners().update(
                id.0 as int,
                if old(self).owners()[id.0 as int] == 0 { 0 } else { (old(self).owners()[id.0 as int] - 1) as u64 },
            ),
    {
        let n = self.owners[id.0];
        if n > 0 {
            self.owners.set(id.0, n - 1);
        }
    }

    /// Copies `image` into page `id` from offset 0.
    pub fn write_image(&mut self, id: PageId, image: &Vec<u8>)
        requires
            old(self).wf(),
            id.0 < old(self).contents().len(),
            image@.len() <= PAGE_SIZE,
        ensures
            final(self).wf(),
            final(self).owners() == old(self).owners(),
            final(self).contents() == old(self).contents().update(
                id.0 as int,
                image@ + old(self).contents()[id.0 as int].subrange(image@.len() as int, PAGE_SIZE as int),
            ),
    {
        proof {
            self.lemma_wf();
        }
        let ghost before = self.contents();
        let mut i: usize = 0;
        while i < image.len()
            invariant
                self.wf(),
                self.owners() == old(self).owners(),
                self.contents().len() == before.len(),
                before == old(self).contents(),
                id.0 < before.len(),
                image@.len() <= PAGE_SIZE,
                i <= image@.len(),
                before[id.0 as int].len() == PAGE_SIZE,
                forall|k: int| 0 <= k < before.len() && k != id.0 ==> self.contents()[k] == before[k],
                self.contents()[id.0 as int] == image@.subrange(0, i as int) + before[id.0 as int].subrange(i as int, PAGE_SIZE as int),
            decreases image@.len() - i,
        {
            let ghost cur = self.contents();
            self.pages[id.0].set_u8(i as u16, image[i]);
            proof {
                assert(self.contents()[id.0 as int] =~= cur[id.0 as int].update(i as int, image@[i as int]));
                assert(self.contents()[id.0 as int] =~= image@.subrange(0, i + 1) + before[id.0 as int].subrange(i + 1, PAGE_SIZE as int));
                assert forall|k: int| 0 <= k < before.len() && k != id.0 implies self.contents()[k] == before[k] by {
                    assert(self.contents()[k] == cur[k]);
                }
            }
            i = i + 1;
        }
        proof {
            assert(image@.subrange(0, image@.len() as int) =~= image@);
            assert(self.contents() =~= before.update(id.0 as int, image@ + before[id.0 as int].subrange(image@.len() as int, PAGE_SIZE as int)));
        }
    }

    /// The byte at offset `off` of page `id`.
    pub fn read_u8(&self, id: usize, off: u16) -> (r: u8)
        requires
            self.wf(),
            id < self.contents().len(),
        ensures
            r == self.contents()[id as int][off as int],
    {
        self.pages[id].get_u8(off)
    }

    /// The halfword at an even offset `off` of page `id`.
    pub fn read_u16(&self, id: usize, off: u16) -> (r: u16)
        requires
            self.wf(),
            id < self.contents().len(),
            off % 2 == 0,
        ensures
            r == half_at(self.contents()[id as int], off as int),
    {
        self.pages[id].get_u16(off)
    }

    /// The word at an offset `off` of page `id` that is a multiple of four.
    pub fn read_u32(&self, id: usize, off: u16) -> (r: u32)
        requires
            self.wf(),
            id < self.contents().len(),
            off % 4 == 0,
        ensures
            r == word_at(self.contents()[id as int], off as int),
    {
        self.pages[id].get_u32(off)
    }

    /// Writes the byte at offset `off` of page `id`.
    pub fn write_u8(&mut self, id: usize, off: u16, v: u8)
        requires
            old(self).wf(),
            id < old(self).contents().len(),
        ensures
            final(self).wf(),
            final(self).owners() == old(self).owners(),
            final(self).contents() == old(self).contents().update(id as int, old(self).contents()[id as int].update(off as int, v)),
    {
        self.pages[id].set_u8(off, v);
        assert(self.contents() =~= old(self).contents().update(id as int, old(self).contents()[id as int].update(off as int, v)));
    }

    /// Writes the halfword at an even offset `off` of page `id`.
    pub fn write_u16(&mut self, id: usize, off: u16, v: u16)
        requires
            old(self).wf(),
            id < old(self).contents().len(),
            off % 2 == 0,
        ensures
            final(self).wf(),
            final(self).owners() == old(self).owners(),
            final(self).contents() == old(self).contents().update(id as int, with_half(old(self).contents()[id as int], off as int, v)),
    {
        self.pages[id].set_u16(off, v);
        assert(self.contents() =~= old(self).contents().update(id as int, with_half(old(self).contents()[id as int], off as int, v)));
    }

    /// Writes the word at an offset `off` of page `id` that is a multiple of four.
    pub fn write_u32(&mut self, id: usize, off: u16, v: u32)
        requires
            old(self).wf(),
            id < old(self).contents().len(),
            off % 4 == 0,
        ensures
            final(self).wf(),
            final(self).owners() == old(self).owners(),
            final(self).contents() == old(self).contents().update(id as int, with_word(old(self).contents()[id as int], off as int, v)),
    {
        self.pages[id].set_u32(off, v);
        assert(self.contents() =~= old(self).contents().update(id as int, with_word(old(self).contents()[id as int], off as int, v)));
    }
}

} // verus!
