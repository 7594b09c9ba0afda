use vstd::prelude::*;

use crate::ids::{ProcessId, TaskId};
use crate::memory::{
    load_byte, load_half, load_word, split_address, store_byte, store_half, store_word, vpn_of,
    PageId, TaskPoolSharedMemory, PAGE_COUNT,
};

verus! {

/// Virtual page number at which a page is mapped.
pub type PageVAddressStart = u16;

/// Register state of a task, as a mathematical value.
pub ghost struct Regs {
    pub pc: u32,
    pub hi: u32,
    pub lo: u32,
    pub reg: Seq<u32>,
}

impl Regs {
    /// The state with general register `i` set to `v`.
    pub open spec fn set(self, i: int, v: u32) -> Regs {
        Regs { reg: self.reg.update(i, v), ..self }
    }

    /// The state with the program counter set to `pc`.
    pub open spec fn jump(self, pc: u32) -> Regs {
        Regs { pc, ..self }
    }
}

/// The register file of a task: program counter, HI/LO and 32 general registers.
pub struct VmState {
    pub pc: u32,
    pub hi: u32,
    pub lo: u32,
    pub reg: [u32; 32],
}

impl View for VmState {
    type V = Regs;

    open spec fn view(&self) -> Regs {
        Regs { pc: self.pc, hi: self.hi, lo: self.lo, reg: self.reg@ }
    }
}

impl VmState {
    /// All registers zero.
    pub fn new() -> (r: VmState)
        ensures
            r.pc == 0 && r.hi == 0 && r.lo == 0,
            r.reg@ == Seq::new(32, |i: int| 0u32),
    {
        let r = VmState { pc: 0, hi: 0, lo: 0, reg: [0u32; 32] };
        assert(r.reg@ =~= Seq::new(32, |i: int| 0u32));
        r
    }
}

/// The page that a mapping places at virtual page `vpn`: the last entry for
/// that page number wins.
pub open spec fn mapped_at(m: Seq<(PageId, PageVAddressStart)>, vpn: int) -> Option<usize>
    decreases m.len(),
{
    if m.len() == 0 {
        None
    } else if m.last().1 as int == vpn {
        Some(m.last().0.0)
    } else {
        mapped_at(m.drop_last(), vpn)
    }
}

/// How many entries of mapping `m` hold page `p`.
pub open spec fn refs_in(m: Seq<(PageId, PageVAddressStart)>, p: int) -> nat
    decreases m.len(),
{
    if m.len() == 0 {
        0
    } else {
        (if m[0].0.0 == p { 1nat } else { 0nat }) + refs_in(m.drop_first(), p)
    }
}

/// Counting entries splits over concatenation.
pub proof fn lemma_refs_in_concat(a: Seq<(PageId, PageVAddressStart)>, b: Seq<(PageId, PageVAddressStart)>, p: int)
    ensures
        refs_in(a + b, p) == refs_in(a, p) + refs_in(b, p),
    decreases a.len(),
{
    if a.len() == 0 {
        assert(a + b =~= b);
    } else {
        assert((a + b).drop_first() =~= a.drop_first() + b);
        lemma_refs_in_concat(a.drop_first(), b, p);
    }
}

/// Adding an entry adds one for its page.
pub proof fn lemma_refs_in_push(m: Seq<(PageId, PageVAddressStart)>, x: (PageId, PageVAddressStart), p: int)
    ensures
        refs_in(m.push(x), p) == refs_in(m, p) + (if x.0.0 == p { 1nat } else { 0nat }),
{
    lemma_refs_in_concat(m, seq![x], p);
    assert(m.push(x) =~= m + seq![x]);
    assert(seq![x].drop_first() =~= Seq::<(PageId, PageVAddressStart)>::empty());
    assert(seq![x][0] == x);
    assert(refs_in(Seq::<(PageId, PageVAddressStart)>::empty(), p) == 0);
    assert(refs_in(seq![x], p) == (if x.0.0 == p { 1nat } else { 0nat }));
}

/// The entries from `i` on are entry `i` and those after it.
pub proof fn lemma_refs_in_from(m: Seq<(PageId, PageVAddressStart)>, i: int, p: int)
    requires
        0 <= i < m.len(),
    ensures
        refs_in(m.subrange(i, m.len() as int), p) == (if m[i].0.0 == p { 1nat } else { 0nat }) + refs_in(
            m.subrange(i + 1, m.len() as int),
            p,
        ),
{
    assert(m.subrange(i, m.len() as int).drop_first() =~= m.subrange(i + 1, m.len() as int));
    assert(m.subrange(i, m.len() as int)[0] == m[i]);
}

/// A mapping with no entry for page `p` has none anywhere.
pub proof fn lemma_refs_in_zero(m: Seq<(PageId, PageVAddressStart)>, p: int)
    requires
        refs_in(m, p) == 0,
    ensures
        forall|j: int| 0 <= j < m.len() ==> (#[trigger] m[j]).0.0 != p,
    decreases m.len(),
{
    if m.len() > 0 {
        lemma_refs_in_zero(m.drop_first(), p);
        assert forall|j: int| 0 <= j < m.len() implies (#[trigger] m[j]).0.0 != p by {
            if j > 0 {
                assert(m[j] == m.drop_first()[j - 1]);
            }
        }
    }
}

/// A mapping whose pages are all below `n` holds no page from `n` on.
pub proof fn lemma_refs_in_beyond(m: Seq<(PageId, PageVAddressStart)>, n: nat, p: int)
    requires
        forall|i: int| 0 <= i < m.len() ==> (#[trigger] m[i]).0.0 < n,
        p >= n,
    ensures
        refs_in(m, p) == 0,
    decreases m.len(),
{
    if m.len() > 0 {
        assert forall|i: int| 0 <= i < m.drop_first().len() implies (#[trigger] m.drop_first()[i]).0.0 < n by {
            assert(m.drop_first()[i] == m[i + 1]);
        }
        lemma_refs_in_beyond(m.drop_first(), n, p);
    }
}

/// A task's page table: which page handle appears at which virtual page number.
pub struct TaskMemoryMapping {
    pub mapping: Vec<(PageId, PageVAddressStart)>,
}

impl TaskMemoryMapping {
    pub fn new() -> (r: TaskMemoryMapping)
        ensures
            r.mapping@.len() == 0,
    {
        TaskMemoryMapping { mapping: Vec::new() }
    }

    /// Every page handle of the mapping is below `n`.
    pub open spec fn within(&self, n: nat) -> bool {
        forall|i: int| 0 <= i < self.mapping@.len() ==> (#[trigger] self.mapping@[i]).0.0 < n
    }
}

/// One guest execution context.
pub struct Task {
    pub tid: TaskId,
    pub pid: ProcessId,
    pub vm_state: VmState,
    pub memory_mapping: TaskMemoryMapping,
    /// Characters printed one at a time since the last newline.
    pub pending_line: Vec<u8>,
}

impl Task {
    /// The main task of process `id`: its task number is the process number.
    pub fn new(id: ProcessId) -> (r: Task)
        ensures
            r.pid == id,
            r.tid.raw() == id.raw(),
            r.vm_state.pc == 0,
            r.vm_state.reg@ == Seq::new(32, |i: int| 0u32),
            r.vm_state.hi == 0 && r.vm_state.lo == 0,
            r.memory_mapping.mapping@.len() == 0,
            r.pending_line@.len() == 0,
    {
        Task { tid: id.to_tid(), pid: id, vm_state: VmState::new(), memory_mapping: TaskMemoryMapping::new(), pending_line: Vec::new() }
    }

    /// A further task `tid` of process `pid`.
    pub fn new_subthread(pid: ProcessId, tid: TaskId) -> (r: Task)
        ensures
            r.pid == pid,
            r.tid == tid,
            r.vm_state.pc == 0,
            r.vm_state.reg@ == Seq::new(32, |i: int| 0u32),
            r.vm_state.hi == 0 && r.vm_state.lo == 0,
            r.memory_mapping.mapping@.len() == 0,
            r.pending_line@.len() == 0,
    {
        Task { tid, pid, vm_state: VmState::new(), memory_mapping: TaskMemoryMapping::new(), pending_line: Vec::new() }
    }

    pub fn pid(&self) -> (r: ProcessId)
        ensures
            r == self.pid,
    {
        self.pid
    }

    pub fn tid(&self) -> (r: TaskId)
        ensures
            r == self.tid,
    {
        self.tid
    }
}

/// How a slice of execution ended without a fault.
#[derive(Clone, Copy, Debug, PartialEq, Eq, Structural)]
pub enum TaskRunResult {
    /// The quantum was used up.
    Continue,
    /// The task blocked after this many instructions; the blocking instruction runs again next time.
    Wait(u32),
    /// The task ended after this many instructions, with this exit code.
    Exit(u32, u32),
}

/// A fault that ends a task. Each carries the program counter after the
/// faulting instruction was fetched.
#[derive(Clone, Copy, Debug, PartialEq, Eq, Structural)]
pub enum TaskError {
    DivByZeroError(u32),
    /// Access to an unmapped page: the address, then the program counter.
    MemoryDoesNotExistError(u32, u32),
    /// Unknown instruction or call: the program counter, then the instruction or call id.
    InvalidOperation(u32, u32),
    /// Misaligned access: the width in bytes, then the program counter.
    MemoryAllignmentError(u8, u32),
    OverflowError(u32),
}

/// The memory view of one execution slice: for each virtual page number,
/// the index of the store page mapped there, if any; and the load-linked
/// reservation flag.
pub struct TaskMemory {
    ll_bit: bool,
    mem: Vec<Option<usize>>,
}

impl TaskMemory {
    /// The page index at each virtual page number.
    pub closed spec fn slots(&self) -> Seq<Option<usize>> {
        self.mem@
    }

    /// The load-linked reservation flag.
    pub closed spec fn ll(&self) -> bool {
        self.ll_bit
    }

    pub fn ll_bit(&self) -> (r: bool)
        ensures
            r == self.ll(),
    {
        self.ll_bit
    }

    pub fn set_ll_bit(&mut self, b: bool)
        ensures
            final(self).ll() == b,
            final(self).slots() == old(self).slots(),
    {
        self.ll_bit = b;
    }

    /// The view covers the whole address space and names only pages of a store with `n` pages.
    pub open spec fn fits(&self, n: nat) -> bool {
        &&& self.slots().len() == PAGE_COUNT
        &&& forall|v: int| 0 <= v < PAGE_COUNT ==> (#[trigger] self.slots()[v] matches Some(p) ==> p < n)
    }

    /// An empty view: no page mapped, no reservation.
    pub fn new() -> (r: TaskMemory)
        ensures
            r.slots() == Seq::new(PAGE_COUNT as nat, |i: int| None::<usize>),
            !r.ll(),
    {
        let mut mem: Vec<Option<usize>> = Vec::with_capacity(PAGE_COUNT);
        let mut i: usize = 0;
        while i < PAGE_COUNT
            invariant
                i <= PAGE_COUNT,
                mem@.len() == i,
                forall|j: int| 0 <= j < i ==> mem@[j] is None,
            decreases PAGE_COUNT - i,
        {
            mem.push(None);
            i = i + 1;
        }
        let r = TaskMemory { ll_bit: false, mem };
        assert(r.slots() =~= Seq::new(PAGE_COUNT as nat, |i: int| None::<usize>));
        r
    }

    /// Places the pages of `m` at their virtual page numbers.
    pub fn map_pages(&mut self, m: &TaskMemoryMapping)
        requires
            old(self).slots().len() == PAGE_COUNT,
        ensures
            final(self).ll() == old(self).ll(),
            final(self).slots().len() == PAGE_COUNT,
            forall|v: int|
                0 <= v < PAGE_COUNT ==> #[trigger] final(self).slots()[v] == (match mapped_at(m.mapping@, v) {
                    Some(p) => Some(p),
                    None => old(self).slots()[v],
                }),
    {
        let mut i: usize = 0;
        while i < m.mapping.len()
            invariant
                i <= m.mapping@.len(),
                self.ll_bit == old(self).ll_bit,
                self.mem@.len() == PAGE_COUNT,
                forall|v: int|
                    0 <= v < PAGE_COUNT ==> #[trigger] self.mem@[v] == (match mapped_at(m.mapping@.subrange(0, i as int), v) {
                        Some(p) => Some(p),
                        None => old(self).slots()[v],
                    }),
            decreases m.mapping@.len() - i,
        {
            let (p, v) = m.mapping[i];
            self.mem.set(v as usize, Some(p.0));
            proof {
                let pre = m.mapping@.subrange(0, i as int);
                let post = m.mapping@.subrange(0, i + 1);
                assert(post.drop_last() =~= pre);
                assert(post.last() == m.mapping@[i as int]);
            }
            i = i + 1;
        }
        assert(m.mapping@.subrange(0, m.mapping@.len() as int) =~= m.mapping@);
    }

    /// Clears the virtual page numbers that `m` maps.
    pub fn unmap_pages(&mut self, m: &TaskMemoryMapping)
        requires
            old(self).slots().len() == PAGE_COUNT,
        ensures
            final(self).ll() == old(self).ll(),
            final(self).slots().len() == PAGE_COUNT,
            forall|v: int|
                0 <= v < PAGE_COUNT ==> #[trigger] final(self).slots()[v] == (if mapped_at(m.mapping@, v) is Some {
                    None
                } else {
                    old(self).slots()[v]
                }),
    {
        let mut i: usize = 0;
        while i < m.mapping.len()
            invariant
                i <= m.mapping@.len(),
                self.ll_bit == old(self).ll_bit,
                self.mem@.len() == PAGE_COUNT,
                forall|v: int|
                    0 <= v < PAGE_COUNT ==> #[trigger] self.mem@[v] == (if mapped_at(m.mapping@.subrange(0, i as int), v) is Some {
                        None
                    } else {
                        old(self).slots()[v]
                    }),
            decreases m.mapping@.len() - i,
        {
            let (_p, v) = m.mapping[i];
            self.mem.set(v as usize, None);
            proof {
                let pre = m.mapping@.subrange(0, i as int);
                let post = m.mapping@.subrange(0, i + 1);
                assert(post.drop_last() =~= pre);
                assert(post.last() == m.mapping@[i as int]);
                assert forall|w: int| 0 <= w < PAGE_COUNT implies #[trigger] self.mem@[w] == (if mapped_at(post, w) is Some {
                        None
                    } else {
                        old(self).slots()[w]
                    }) by {
                    if w != v as int {
                        if mapped_at(pre, w) is Some {
                            assert(mapped_at(post, w) is Some);
                        }
                    }
                }
            }
            i = i + 1;
        }
        assert(m.mapping@.subrange(0, m.mapping@.len() as int) =~= m.mapping@);
    }

    /// The store page mapped at the page of `addr`, if any.
    pub fn page_of(&self, addr: u32) -> (r: Option<(usize, u16)>)
        requires
            self.slots().len() == PAGE_COUNT,
        ensures
            r is Some <==> self.slots()[vpn_of(addr)] is Some,
            r matches Some((p, off)) ==> Some(p) == self.slots()[vpn_of(addr)] && off as int == addr as int % 0x10000,
    {
        let (vpn, off) = split_address(addr);
        match self.mem[vpn] {
            Some(p) => Some((p, off)),
            None => None,
        }
    }

    /// The byte at `addr`, if its page is mapped.
    pub fn read_u8(&self, store: &TaskPoolSharedMemory, addr: u32) -> (r: Option<u8>)
        requires
            store.wf(),
            self.fits(store.contents().len()),
        ensures
            r == load_byte(store.contents(), self.slots(), addr),
    {
        match self.page_of(addr) {
            Some((p, off)) => Some(store.read_u8(p, off)),
            None => None,
        }
    }

    /// The halfword at an even `addr`, if its page is mapped.
    pub fn read_u16(&self, store: &TaskPoolSharedMemory, addr: u32) -> (r: Option<u16>)
        requires
            store.wf(),
            self.fits(store.contents().len()),
            addr as int % 2 == 0,
        ensures
            r == load_half(store.contents(), self.slots(), addr),
    {
        match self.page_of(addr) {
            Some((p, off)) => Some(store.read_u16(p, off)),
            None => None,
        }
    }

    /// The word at an `addr` that is a multiple of four, if its page is mapped.
    pub fn read_u32(&self, store: &TaskPoolSharedMemory, addr: u32) -> (r: Option<u32>)
        requires
            store.wf(),
            self.fits(store.contents().len()),
            addr as int % 4 == 0,
        ensures
            r == load_word(store.contents(), self.slots(), addr),
    {
        match self.page_of(addr) {
            Some((p, off)) => Some(store.read_u32(p, off)),
            None => None,
        }
    }

    /// Writes the byte at `addr`; `false`, with nothing written, if its page is unmapped.
    pub fn write_u8(&self, store: &mut TaskPoolSharedMemory, addr: u32, v: u8) -> (r: bool)
        requires
            old(store).wf(),
            self.fits(old(store).contents().len()),
        ensures
            final(store).wf(),
            final(store).owners() == old(store).owners(),
            r == store_byte(old(store).contents(), self.slots(), addr, v) is Some,
            final(store).contents() == match store_byte(old(store).contents(), self.slots(), addr, v) {
                Some(c) => c,
                None => old(store).contents(),
            },
    {
        match self.page_of(addr) {
            Some((p, off)) => {
                store.write_u8(p, off, v);
                true
            },
            None => false,
        }
    }

    /// Writes the halfword at an even `addr`; `false`, with nothing written, if its page is unmapped.
    pub fn write_u16(&self, store: &mut TaskPoolSharedMemory, addr: u32, v: u16) -> (r: bool)
        requires
            old(store).wf(),
            self.fits(old(store).contents().len()),
            addr as int % 2 == 0,
        ensures
            final(store).wf(),
            final(store).owners() == old(store).owners(),
            r == store_half(old(store).contents(), self.slots(), addr, v) is Some,
            final(store).contents() == match store_half(old(store).contents(), self.slots(), addr, v) {
                Some(c) => c,
                None => old(store).contents(),
            },
    {
        match self.page_of(addr) {
            Some((p, off)) => {
                store.write_u16(p, off, v);
                true
            },
            None => false,
        }
    }

    /// Writes the word at an `addr` that is a multiple of four; `false`, with nothing written, if its page is unmapped.
    pub fn write_u32(&self, store: &mut TaskPoolSharedMemory, addr: u32, v: u32) -> (r: bool)
        requires
            old(store).wf(),
            self.fits(old(store).contents().len()),
            addr as int % 4 == 0,
        ensures
            final(store).wf(),
            final(store).owners() == old(store).owners(),
            r == store_word(old(store).contents(), self.slots(), addr, v) is Some,
            final(store).contents() == match store_word(old(store).contents(), self.slots(), addr, v) {
                Some(c) => c,
                None => old(store).contents(),
            },
    {
        match self.page_of(addr) {
            Some((p, off)) => {
                store.write_u32(p, off, v);
                true
            },
            None => false,
        }
    }
}

} // verus!
