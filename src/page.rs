use vstd::prelude::*;

verus! {

/// Number of bytes in a page.
pub const PAGE_SIZE: usize = 0x10000;

/// The little-endian halfword held by two bytes.
pub open spec fn le16(b0: u8, b1: u8) -> u16 {
    (b0 as u16 | ((b1 as u16) << 8u16)) as u16
}

/// The little-endian word held by four bytes.
pub open spec fn le32(b0: u8, b1: u8, b2: u8, b3: u8) -> u32 {
    (b0 as u32 | ((b1 as u32) << 8u32) | ((b2 as u32) << 16u32) | ((b3 as u32) << 24u32)) as u32
}

/// Byte `k` (0 is the least significant) of a word.
pub open spec fn byte_of(v: u32, k: u32) -> u8 {
    ((v >> (8 * k)) & 0xff) as u8
}

/// Page contents after a little-endian word store at offset `off`.
pub open spec fn with_word(b: Seq<u8>, off: int, v: u32) -> Seq<u8> {
    b.update(off, byte_of(v, 0)).update(off + 1, byte_of(v, 1)).update(off + 2, byte_of(v, 2)).update(
        off + 3,
        byte_of(v, 3),
    )
}

/// Page contents after a little-endian halfword store at offset `off`.
pub open spec fn with_half(b: Seq<u8>, off: int, v: u16) -> Seq<u8> {
    b.update(off, (v & 0xff) as u8).update(off + 1, (v >> 8u16) as u8)
}

/// The word read little-endian at offset `off`.
pub open spec fn word_at(b: Seq<u8>, off: int) -> u32 {
    le32(b[off], b[off + 1], b[off + 2], b[off + 3])
}

/// The halfword read little-endian at offset `off`.
pub open spec fn half_at(b: Seq<u8>, off: int) -> u16 {
    le16(b[off], b[off + 1])
}

/// Splitting a word into bytes and joining them again gives the word back.
pub proof fn lemma_word_bytes(v: u32)
    ensures
        le32(byte_of(v, 0), byte_of(v, 1), byte_of(v, 2), byte_of(v, 3)) == v,
{
    assert(((v >> 0u32) & 0xff) as u8 as u32 | (((v >> 8u32) & 0xff) as u8 as u32) << 8u32 | (((v
        >> 16u32) & 0xff) as u8 as u32) << 16u32 | (((v >> 24u32) & 0xff) as u8 as u32) << 24u32
        == v) by (bit_vector);
}

/// A page of guest memory: 64 KiB of byte-addressable storage.
pub struct Page {
    bytes: Vec<u8>,
}

impl View for Page {
    type V = Seq<u8>;

    closed spec fn view(&self) -> Seq<u8> {
        self.bytes@
    }
}

impl Page {
    /// A page holds exactly `PAGE_SIZE` bytes.
    pub closed spec fn wf(&self) -> bool {
        self.bytes@.len() == PAGE_SIZE
    }

    pub proof fn lemma_wf_len(&self)
        requires
            self.wf(),
        ensures
            self@.len() == PAGE_SIZE,
    {
    }

    /// A page whose bytes are all zero.
    pub fn new() -> (r: Page)
        ensures
            r.wf(),
            r@ == Seq::new(PAGE_SIZE as nat, |i: int| 0u8),
    {
        let mut bytes: Vec<u8> = Vec::with_capacity(PAGE_SIZE);
        let mut i: usize = 0;
        while i < PAGE_SIZE
            invariant
                i <= PAGE_SIZE,
                bytes@.len() == i,
                forall|j: int| 0 <= j < i ==> bytes@[j] == 0u8,
            decreases PAGE_SIZE - i,
        {
            bytes.push(0u8);
            i = i + 1;
        }
        let r = Page { bytes };
        assert(r@ =~= Seq::new(PAGE_SIZE as nat, |i: int| 0u8));
        r
    }

    /// Sets every byte to zero.
    pub fn clear(&mut self)
        requires
            old(self).wf(),
        ensures
            final(self).wf(),
            final(self)@ == Seq::new(PAGE_SIZE as nat, |i: int| 0u8),
    {
        let mut i: usize = 0;
        while i < PAGE_SIZE
            invariant
                i <= PAGE_SIZE,
                self.bytes@.len() == PAGE_SIZE,
                forall|j: int| 0 <= j < i ==> self.bytes@[j] == 0u8,
            decreases PAGE_SIZE - i,
        {
            self.bytes.set(i, 0u8);
            i = i + 1;
        }
        assert(self@ =~= Seq::new(PAGE_SIZE as nat, |i: int| 0u8));
    }

    /// The byte at `index`.
    pub fn get_u8(&self, index: u16) -> (r: u8)
        requires
            self.wf(),
        ensures
            r == self@[index as int],
    {
        self.bytes[index as usize]
    }

    /// Writes the byte at `index`.
    pub fn set_u8(&mut self, index: u16, val: u8)
        requires
            old(self).wf(),
        ensures
            final(self).wf(),
            final(self)@ == old(self)@.update(index as int, val),
    {
        self.bytes.set(index as usize, val);
    }

    /// The little-endian halfword at an even `index`.
    pub fn get_u16(&self, index: u16) -> (r: u16)
        requires
            self.wf(),
            index % 2 == 0,
        ensures
            r == half_at(self@, index as int),
    {
        let i = index as usize;
        let b0 = self.bytes[i];
        let b1 = self.bytes[i + 1];
        b0 as u16 | ((b1 as u16) << 8u16)
    }

    /// Writes the little-endian halfword at an even `index`.
    pub fn set_u16(&mut self, index: u16, val: u16)
        requires
            old(self).wf(),
            index % 2 == 0,
        ensures
            final(self).wf(),
            final(self)@ == with_half(old(self)@, index as int, val),
    {
        let i = index as usize;
        self.bytes.set(i, (val & 0xff) as u8);
        self.bytes.set(i + 1, (val >> 8u16) as u8);
    }

    /// The little-endian word at an `index` that is a multiple of four.
    pub fn get_u32(&self, index: u16) -> (r: u32)
        requires
            self.wf(),
            index % 4 == 0,
        ensures
            r == word_at(self@, index as int),
    {
        let i = index as usize;
        let b0 = self.bytes[i];
        let b1 = self.bytes[i + 1];
        let b2 = self.bytes[i + 2];
        let b3 = self.bytes[i + 3];
        b0 as u32 | ((b1 as u32) << 8u32) | ((b2 as u32) << 16u32) | ((b3 as u32) << 24u32)
    }

    /// Writes the little-endian word at an `index` that is a multiple of four.
    pub fn set_u32(&mut self, index: u16, val: u32)
        requires
            old(self).wf(),
            index % 4 == 0,
        ensures
            final(self).wf(),
            final(self)@ == with_word(old(self)@, index as int, val),
    {
        let i = index as usize;
        self.bytes.set(i, (val & 0xff) as u8);
        self.bytes.set(i + 1, ((val >> 8u32) & 0xff) as u8);
        self.bytes.set(i + 2, ((val >> 16u32) & 0xff) as u8);
        self.bytes.set(i + 3, ((val >> 24u32) & 0xff) as u8);
        assert((val >> 0u32) == val) by (bit_vector);
    }
}

} // verus!
