use vstd::prelude::*;

verus! {

/// Bytes per page.
pub const PAGE_BYTES: usize = 4096;
/// Bytes of the data area: 4 GiB.
pub const DATA_BYTES: u64 = 4294967296;
/// Pages of the data area.
pub const DATA_PAGES: usize = 1048576;
/// Bytes of one page descriptor in the descriptor table.
pub const PD_ENTRY_BYTES: usize = 16;
/// Bytes of one mark bitmap in the bitmap table.
pub const BITMAP_ENTRY_BYTES: usize = 32;
/// Pages of the descriptor table (`DATA_PAGES * PD_ENTRY_BYTES` rounded up to pages).
pub const PD_PAGES: usize = 4096;
/// Pages of the bitmap table (`DATA_PAGES * BITMAP_ENTRY_BYTES` rounded up to pages).
pub const BITMAP_PAGES: usize = 8192;
/// Bytes of the descriptor table.
pub const PD_BYTES: u64 = 16777216;
/// Bytes of the bitmap table.
pub const BITMAP_BYTES: u64 = 33554432;
/// Pages of the whole address space: data, descriptors and bitmaps.
pub const TOTAL_PAGES: u64 = 1060864;
/// Bytes of the whole address space.
pub const TOTAL_BYTES: u64 = 4345298944;
/// Offset of the data area: it follows the two tables.
pub const DATA_START: u64 = 50331648;
/// The number of lists that the heap keeps, each rooted at a reserved descriptor.
pub const RESERVED_LISTS: u32 = 13;

/// The number of pages needed for `n` bytes, rounding up.
pub open spec fn spec_bytes_to_pages(n: int) -> int {
    if n % (PAGE_BYTES as int) != 0 {
        n / (PAGE_BYTES as int) + 1
    } else {
        n / (PAGE_BYTES as int)
    }
}

/// Returns the number of pages needed for `n` bytes (rounding up).
pub fn bytes_to_pages(n: usize) -> (res: usize)
    ensures
        res == spec_bytes_to_pages(n as int),
        res * PAGE_BYTES >= n,
        res == 0 || (res - 1) * PAGE_BYTES < n,
{
    if n % PAGE_BYTES != 0 {
        n / PAGE_BYTES + 1
    } else {
        n / PAGE_BYTES
    }
}

/// The memory region of the heap: its size and where it starts.  Addresses
/// handed out by the heap are offsets from its start.
pub struct MemoryMap {
    size: u64,
}

impl MemoryMap {
    /// A region of `size` bytes.
    pub fn new(size: u64) -> (res: MemoryMap)
        ensures
            res.spec_size() == size,
    {
        MemoryMap { size }
    }

    pub closed spec fn spec_size(&self) -> u64 {
        self.size
    }

    /// The address of the first byte of the region.
    pub fn data(&self) -> (res: u64)
        ensures
            res == 0,
    {
        0
    }
}

/// The index of a page descriptor.
#[derive(Copy, Clone, Debug, PartialEq, Eq, Structural)]
pub struct PdIdx(pub u32);

/// The size class of a page: the size of its blocks, or a ream of whole pages.
#[derive(Copy, Clone, Debug, PartialEq, Eq, Structural)]
pub enum SizeClass {
    Ream,
    Block16,
    Block32,
    Block64,
    Block128,
    Block256,
    Block512,
    Block1024,
    Block2048,
    Block4096,
}

/// The base-2 logarithm of the block size of a class (0 for a ream).
pub open spec fn class_shift(c: SizeClass) -> nat {
    match c {
        SizeClass::Ream => 0,
        SizeClass::Block16 => 4,
        SizeClass::Block32 => 5,
        SizeClass::Block64 => 6,
        SizeClass::Block128 => 7,
        SizeClass::Block256 => 8,
        SizeClass::Block512 => 9,
        SizeClass::Block1024 => 10,
        SizeClass::Block2048 => 11,
        SizeClass::Block4096 => 12,
    }
}

/// The block size of a class; `None` for a ream.
pub open spec fn spec_block_bytes(c: SizeClass) -> Option<usize> {
    match c {
        SizeClass::Ream => None,
        SizeClass::Block16 => Some(16),
        SizeClass::Block32 => Some(32),
        SizeClass::Block64 => Some(64),
        SizeClass::Block128 => Some(128),
        SizeClass::Block256 => Some(256),
        SizeClass::Block512 => Some(512),
        SizeClass::Block1024 => Some(1024),
        SizeClass::Block2048 => Some(2048),
        SizeClass::Block4096 => Some(4096),
    }
}

/// The number of blocks of one page of a class; 1 for a ream.
pub open spec fn spec_total_blocks(c: SizeClass) -> usize {
    match spec_block_bytes(c) {
        Some(size) => (PAGE_BYTES / size) as usize,
        None => 1,
    }
}

/// The small classes in order of size: index `i` holds blocks of `16 << i` bytes.
pub open spec fn spec_small(i: int) -> SizeClass {
    if i == 0 { SizeClass::Block16 }
    else if i == 1 { SizeClass::Block32 }
    else if i == 2 { SizeClass::Block64 }
    else if i == 3 { SizeClass::Block128 }
    else if i == 4 { SizeClass::Block256 }
    else if i == 5 { SizeClass::Block512 }
    else if i == 6 { SizeClass::Block1024 }
    else if i == 7 { SizeClass::Block2048 }
    else { SizeClass::Block4096 }
}

/// The position of a small class in the list of small classes.
pub open spec fn spec_small_index(c: SizeClass) -> int {
    class_shift(c) - 4
}

impl SizeClass {
    /// The small class at position `i` (blocks of `16 << i` bytes).
    pub fn small(i: usize) -> (res: SizeClass)
        requires
            i < 9,
        ensures
            res == spec_small(i as int),
            spec_small_index(res) == i,
    {
        if i == 0 { SizeClass::Block16 }
        else if i == 1 { SizeClass::Block32 }
        else if i == 2 { SizeClass::Block64 }
        else if i == 3 { SizeClass::Block128 }
        else if i == 4 { SizeClass::Block256 }
        else if i == 5 { SizeClass::Block512 }
        else if i == 6 { SizeClass::Block1024 }
        else if i == 7 { SizeClass::Block2048 }
        else { SizeClass::Block4096 }
    }

    /// The base-2 logarithm of the block size (0 for a ream).
    pub fn shift(self) -> (res: u32)
        ensures
            res == class_shift(self),
    {
        match self {
            SizeClass::Ream => 0,
            SizeClass::Block16 => 4,
            SizeClass::Block32 => 5,
            SizeClass::Block64 => 6,
            SizeClass::Block128 => 7,
            SizeClass::Block256 => 8,
            SizeClass::Block512 => 9,
            SizeClass::Block1024 => 10,
            SizeClass::Block2048 => 11,
            SizeClass::Block4096 => 12,
        }
    }

    /// The block size; `None` for a ream.
    pub fn block_bytes(self) -> (res: Option<usize>)
        ensures
            res == spec_block_bytes(self),
    {
        if let SizeClass::Ream = self {
            return None;
        }
        let shift = self.shift();
        let res: usize = 1usize << shift;
        assert(1usize << 4u32 == 16 && 1usize << 5u32 == 32 && 1usize << 6u32 == 64 && 1usize << 7u32 == 128
            && 1usize << 8u32 == 256 && 1usize << 9u32 == 512 && 1usize << 10u32 == 1024
            && 1usize << 11u32 == 2048 && 1usize << 12u32 == 4096) by (bit_vector);
        Some(res)
    }

    /// The number of blocks of one page; 1 for a ream.
    pub fn total_blocks(self) -> (res: usize)
        ensures
            res == spec_total_blocks(self),
            1 <= res <= 256,
    {
        if let Some(size) = self.block_bytes() {
            PAGE_BYTES / size
        } else {
            1
        }
    }
}


/// Bit `i` (0..256) of the mark bitmap of page `p`.
pub open spec fn page_bit(bits: Seq<u64>, p: int, i: int) -> bool {
    (bits[4 * p + i / 64] >> ((i % 64) as u64)) & 1u64 == 1u64
}

/// The value a bitmap word must have when the page is full: the bits of
/// the blocks that fall in word `k` set, all others clear.
pub open spec fn word_mask(total: int, k: int) -> u64 {
    let n = total - 64 * k;
    if n >= 64 {
        0xffff_ffff_ffff_ffffu64
    } else if n <= 0 {
        0u64
    } else {
        ((1u64 << (n as u64)) - 1u64) as u64
    }
}

/// No bit is set past the blocks of the page.
pub open spec fn page_clean(bits: Seq<u64>, p: int, total: int) -> bool {
    forall|k: int| 0 <= k < 4 ==> #[trigger] bits[4 * p + k] & !word_mask(total, k) == 0
}

/// Every block of the page is marked, and nothing else.
pub open spec fn page_full(bits: Seq<u64>, p: int, total: int) -> bool {
    forall|k: int| 0 <= k < 4 ==> #[trigger] bits[4 * p + k] == word_mask(total, k)
}

/// No block of the page is marked.
pub open spec fn page_empty(bits: Seq<u64>, p: int) -> bool {
    forall|k: int| 0 <= k < 4 ==> #[trigger] bits[4 * p + k] == 0
}

/// The number of set bits among the low `n` bits of `w`.
pub open spec fn count_ones(w: u64, n: nat) -> nat
    decreases n,
{
    if n == 0 {
        0
    } else {
        count_ones(w, (n - 1) as nat) + if (w >> ((n - 1) as u64)) & 1u64 == 1u64 { 1nat } else { 0nat }
    }
}

/// The number of marked blocks of page `p`.
pub open spec fn page_count(bits: Seq<u64>, p: int) -> nat {
    count_ones(bits[4 * p], 64) + count_ones(bits[4 * p + 1], 64) + count_ones(bits[4 * p + 2], 64)
        + count_ones(bits[4 * p + 3], 64)
}

proof fn lemma_set_bit(w: u64, b: u64, j: u64)
    by (bit_vector)
    requires
        b < 64,
        j < 64,
    ensures
        ((w | (1u64 << b)) >> j) & 1u64 == 1u64 <==> (j == b || (w >> j) & 1u64 == 1u64),
{
}

proof fn lemma_low_bits_step(w: u64, j: u64)
    by (bit_vector)
    requires
        j < 64,
        w & (((1u64 << j) - 1u64) as u64) == ((1u64 << j) - 1u64) as u64,
        (w >> j) & 1u64 == 1u64,
    ensures
        j + 1 < 64 ==> w & (((1u64 << (j + 1)) - 1u64) as u64) == ((1u64 << (j + 1)) - 1u64) as u64,
        j + 1 == 64 ==> w == 0xffff_ffff_ffff_ffffu64,
{
}

proof fn lemma_first_zero_below(w: u64, n: u64, j: u64)
    by (bit_vector)
    requires
        n < 64,
        j < 64,
        w & (((1u64 << j) - 1u64) as u64) == ((1u64 << j) - 1u64) as u64,
        w & !(((1u64 << n) - 1u64) as u64) == 0,
        w != ((1u64 << n) - 1u64) as u64,
    ensures
        j < n,
{
}

/// A page with no marks has none beyond any number of blocks.
proof fn lemma_empty_clean(bits: Seq<u64>, p: int, total: int)
    requires
        0 <= 4 * p,
        4 * p + 4 <= bits.len(),
        page_empty(bits, p),
    ensures
        page_clean(bits, p, total),
{
    assert forall|k: int| 0 <= k < 4 implies #[trigger] bits[4 * p + k] & !word_mask(total, k) == 0 by {
        lemma_zero_and(!word_mask(total, k));
    }
}

proof fn lemma_zero_and(m: u64)
    by (bit_vector)
    ensures
        0u64 & m == 0,
{
}

proof fn lemma_mark_clean(w: u64, b: u64, n: u64)
    by (bit_vector)
    requires
        b < n,
        n < 64,
        w & !(((1u64 << n) - 1u64) as u64) == 0,
    ensures
        (w | (1u64 << b)) & !(((1u64 << n) - 1u64) as u64) == 0,
{
}

proof fn lemma_full_clean(w: u64, b: u64)
    by (bit_vector)
    ensures
        (w | (1u64 << b)) & !0xffff_ffff_ffff_ffffu64 == 0,
        w & !0xffff_ffff_ffff_ffffu64 == 0,
{
}

proof fn lemma_all_ones_clean(w: u64, m: u64)
    by (bit_vector)
    requires
        w == 0xffff_ffff_ffff_ffffu64,
        w & !m == 0,
    ensures
        w == m,
{
}

proof fn lemma_zero_low(w: u64)
    by (bit_vector)
    ensures
        w & (((1u64 << 0u64) - 1u64) as u64) == ((1u64 << 0u64) - 1u64) as u64,
{
}

/// A page descriptor: the links of the list the page is on, its size
/// class, and how many pages follow it in its ream.
#[derive(Copy, Clone, Debug)]
pub struct PageDescriptor {
    pub prev: PdIdx,
    pub next: PdIdx,
    pub class: SizeClass,
    /// Additional pages
    pub len: u32,
}

impl PageDescriptor {
    /// A zeroed descriptor.
    pub fn zeroed() -> (res: PageDescriptor)
        ensures
            res.prev.0 == 0 && res.next.0 == 0 && res.class == SizeClass::Ream && res.len == 0,
    {
        PageDescriptor { prev: PdIdx(0), next: PdIdx(0), class: SizeClass::Ream, len: 0 }
    }
}

/// The page descriptors and mark bitmaps of the address space, and how many
/// of them are in use.
pub struct AddrSpace {
    mem: MemoryMap,
    pds: Vec<PageDescriptor>,
    bits: Vec<u64>,
    used_pds: u32,
    reserved_pds: u32,
}

impl AddrSpace {
    pub closed spec fn spec_pds(&self) -> Seq<PageDescriptor> {
        self.pds@
    }

    pub closed spec fn spec_bits(&self) -> Seq<u64> {
        self.bits@
    }

    pub closed spec fn spec_used(&self) -> nat {
        self.used_pds as nat
    }

    pub closed spec fn spec_reserved(&self) -> nat {
        self.reserved_pds as nat
    }

    /// Descriptor `i` is in use.
    pub open spec fn valid(&self, i: int) -> bool {
        0 <= i < self.spec_used()
    }

    /// The descriptors in use link only to descriptors in use, and each
    /// ream stays within them.
    pub open spec fn wf(&self) -> bool {
        &&& self.spec_pds().len() == self.spec_used()
        &&& self.spec_bits().len() == 4 * self.spec_used()
        &&& self.spec_reserved() <= self.spec_used() <= DATA_PAGES
        &&& forall|i: int| #![trigger self.spec_pds()[i]] 0 <= i < self.spec_used() ==> {
            &&& self.valid(self.spec_pds()[i].prev.0 as int)
            &&& self.valid(self.spec_pds()[i].next.0 as int)
            &&& i + self.spec_pds()[i].len < self.spec_used()
        }
        &&& forall|p: int| 0 <= p < self.spec_used() ==> #[trigger] page_clean(self.spec_bits(), p,
            spec_total_blocks(self.spec_pds()[p].class) as int)
    }

    /// Only the links, classes and lengths of descriptors changed; marks and
    /// counts did not.
    pub open spec fn same_shape(&self, other: &AddrSpace) -> bool {
        &&& other.spec_used() == self.spec_used()
        &&& other.spec_reserved() == self.spec_reserved()
    }

    /// Constructs a new [`AddrSpace`]. This will return `None` on error.
    pub fn create() -> (res: Option<AddrSpace>)
        ensures
            res matches Some(space) && space.wf() && space.spec_used() == 0 && space.spec_reserved() == 0,
    {
        let mem = MemoryMap::new(TOTAL_BYTES);
        Some(AddrSpace { mem, pds: Vec::new(), bits: Vec::new(), used_pds: 0, reserved_pds: 0 })
    }

    /// Constructs a [`PdRef`] for the specified [`PdIdx`].
    pub fn pd(&self, idx: PdIdx) -> (res: PdRef)
        ensures
            res.idx == idx,
    {
        PdRef { idx }
    }

    /// Constructs a [`PdRef`] for the specified index.
    pub fn pd_at(&self, index: u32) -> (res: PdRef)
        ensures
            res.idx.0 == index,
    {
        PdRef { idx: PdIdx(index) }
    }

    /// Constructs a [`PdRef`] for the page `ptr` is in.
    pub fn pd_of(&self, ptr: u64) -> (res: PdRef)
        requires
            DATA_START <= ptr < DATA_START + DATA_BYTES,
        ensures
            res.idx.0 == (ptr - DATA_START) / (PAGE_BYTES as int),
    {
        let base = self.mem.data() + DATA_START;
        let offset = ptr - base;
        let index = offset / (PAGE_BYTES as u64);
        self.pd_at(index as u32)
    }

    /// The number of pages not yet handed to a descriptor.
    pub fn available_pages(&self) -> (res: u32)
        requires
            self.wf(),
        ensures
            res == DATA_PAGES - self.spec_used(),
    {
        let used_pages = self.used_pds;
        DATA_PAGES as u32 - used_pages
    }

    /// Reserves one more list root; only before any other descriptor.
    pub fn new_reserved(&mut self) -> (res: PdList)
        requires
            old(self).wf(),
            old(self).spec_reserved() == old(self).spec_used(),
            old(self).spec_used() < DATA_PAGES,
        ensures
            final(self).wf(),
            final(self).spec_used() == old(self).spec_used() + 1,
            final(self).spec_reserved() == old(self).spec_reserved() + 1,
            res.root.0 == old(self).spec_used(),
            final(self).spec_pds().last().prev == res.root,
            final(self).spec_pds().last().next == res.root,
            final(self).spec_pds().subrange(0, old(self).spec_used() as int) == old(self).spec_pds(),
    {
        let ream = self.new_ream(1);
        self.reserved_pds = self.reserved_pds + 1;
        PdList::new(ream.idx)
    }

    /// Constructs a ream of specified size.
    pub fn new_ream(&mut self, count: u32) -> (res: PdRef)
        requires
            old(self).wf(),
            count > 0,
            old(self).spec_used() + count <= DATA_PAGES,
        ensures
            final(self).wf(),
            final(self).spec_used() == old(self).spec_used() + count,
            final(self).spec_reserved() == old(self).spec_reserved(),
            res.idx.0 == old(self).spec_used(),
            final(self).spec_pds()[res.idx.0 as int].len == count - 1,
            final(self).spec_pds()[res.idx.0 as int].prev == res.idx,
            final(self).spec_pds()[res.idx.0 as int].next == res.idx,
            final(self).spec_pds().subrange(0, old(self).spec_used() as int) == old(self).spec_pds(),
            final(self).spec_bits().subrange(0, 4 * old(self).spec_used() as int) == old(self).spec_bits(),
            forall|k: int| 4 * old(self).spec_used() <= k < 4 * final(self).spec_used() ==> #[trigger] final(self).spec_bits()[k] == 0,
    {
        let used_pages = self.used_pds;
        let mut i: u32 = 0;
        while i < count
            invariant
                old(self).wf(),
                i <= count,
                used_pages == old(self).spec_used(),
                used_pages + count <= DATA_PAGES,
                self.mem == old(self).mem,
                self.used_pds == used_pages,
                self.reserved_pds == old(self).reserved_pds,
                self.pds@.len() == used_pages + i,
                self.bits@.len() == 4 * (used_pages + i),
                self.pds@.subrange(0, used_pages as int) == old(self).pds@,
                self.bits@.subrange(0, 4 * used_pages as int) == old(self).bits@,
                forall|j: int| used_pages <= j < used_pages + i ==> #[trigger] self.pds@[j].prev.0 == 0
                    && self.pds@[j].next.0 == 0 && self.pds@[j].len == 0,
                forall|k: int| 4 * used_pages <= k < 4 * (used_pages + i) ==> #[trigger] self.bits@[k] == 0,
            decreases count - i,
        {
            self.pds.push(PageDescriptor::zeroed());
            self.bits.push(0);
            self.bits.push(0);
            self.bits.push(0);
            self.bits.push(0);
            i = i + 1;
            assert(self.pds@.subrange(0, used_pages as int) =~= old(self).pds@);
            assert(self.bits@.subrange(0, 4 * used_pages as int) =~= old(self).bits@);
        }
        self.used_pds = used_pages + count;
        let page = PdRef { idx: PdIdx(used_pages) };
        let ghost before_set = self.pds@;
        self.pds.set(used_pages as usize, PageDescriptor { prev: PdIdx(used_pages), next: PdIdx(used_pages), class: SizeClass::Ream, len: count - 1 });
        proof {
            assert(self.pds@.subrange(0, used_pages as int) =~= old(self).pds@);
            assert forall|j: int| #![trigger self.spec_pds()[j]] 0 <= j < self.spec_used() implies {
                &&& self.valid(self.spec_pds()[j].prev.0 as int)
                &&& self.valid(self.spec_pds()[j].next.0 as int)
                &&& j + self.spec_pds()[j].len < self.spec_used()
            } by {
                if j < used_pages {
                    assert(self.pds@[j] == old(self).pds@[j]);
                } else if j > used_pages {
                    assert(self.pds@[j] == before_set[j]);
                    assert(before_set[j].prev.0 == 0);
                }
            }
            assert forall|p: int| 0 <= p < self.spec_used() implies #[trigger] page_clean(self.spec_bits(), p,
                spec_total_blocks(self.spec_pds()[p].class) as int) by {
                if p < used_pages {
                    assert(self.pds@[p] == old(self).pds@[p]);
                    assert(page_clean(old(self).spec_bits(), p, spec_total_blocks(old(self).spec_pds()[p].class) as int));
                    assert forall|k: int| 0 <= k < 4 implies #[trigger] self.bits@[4 * p + k]
                        & !word_mask(spec_total_blocks(self.spec_pds()[p].class) as int, k) == 0 by {
                        assert(self.bits@[4 * p + k] == old(self).bits@[4 * p + k]);
                    }
                } else {
                    assert forall|k: int| 0 <= k < 4 implies #[trigger] self.bits@[4 * p + k]
                        & !word_mask(spec_total_blocks(self.spec_pds()[p].class) as int, k) == 0 by {
                        lemma_zero_and(!word_mask(spec_total_blocks(self.spec_pds()[p].class) as int, k));
                    }
                }
            }
        }
        page
    }
}

/// A reference to the descriptor of a page, by index.
#[derive(Copy, Clone)]
pub struct PdRef {
    pub idx: PdIdx,
}

/// The mask of the bitmap word `k` of a full page with `total` blocks.
fn full_mask(total: usize, k: usize) -> (res: u64)
    requires
        total <= 256,
        k < 4,
    ensures
        res == word_mask(total as int, k as int),
{
    let base = 64 * k;
    if total >= base + 64 {
        0xffff_ffff_ffff_ffffu64
    } else if total <= base {
        0u64
    } else {
        let n = (total - base) as u64;
        assert(1u64 << n >= 1u64) by (bit_vector)
            requires
                n < 64;
        (1u64 << n) - 1u64
    }
}

impl PdRef {
    spec fn at(&self, space: &AddrSpace) -> PageDescriptor {
        space.spec_pds()[self.idx.0 as int]
    }

    /// The page has a descriptor in use.
    pub open spec fn ok(&self, space: &AddrSpace) -> bool {
        space.wf() && space.valid(self.idx.0 as int)
    }

    /// The number of pages of the ream this page starts.
    pub fn pages(self, space: &AddrSpace) -> (res: usize)
        requires
            self.ok(space),
        ensures
            res == space.spec_pds()[self.idx.0 as int].len + 1,
            self.idx.0 + res <= space.spec_used(),
    {
        space.pds[self.idx.0 as usize].len as usize + 1
    }

    /// The ream is a single page.
    pub fn is_single_page(self, space: &AddrSpace) -> (res: bool)
        requires
            self.ok(space),
        ensures
            res == (space.spec_pds()[self.idx.0 as int].len == 0),
    {
        self.pages(space) == 1
    }

    /// Sets the size class of the page; its marks stay as they are.  The
    /// space stays well formed when those marks lie within the blocks of the
    /// new class.
    pub fn set_class(self, space: &mut AddrSpace, size_class: SizeClass)
        requires
            self.ok(old(space)),
        ensures
            page_clean(old(space).spec_bits(), self.idx.0 as int, spec_total_blocks(size_class) as int)
                ==> final(space).wf(),
            old(space).same_shape(final(space)),
            final(space).spec_bits() == old(space).spec_bits(),
            final(space).spec_pds() == old(space).spec_pds().update(self.idx.0 as int, PageDescriptor {
                class: size_class,
                ..old(space).spec_pds()[self.idx.0 as int]
            }),
    {
        let i = self.idx.0 as usize;
        let mut pd = space.pds[i];
        pd.class = size_class;
        space.pds.set(i, pd);
        proof {
            if page_clean(old(space).spec_bits(), i as int, spec_total_blocks(size_class) as int) {
                lemma_pds_update_wf(*old(space), *space, i as int);
            }
        }
    }

    /// The size class of the page.
    pub fn class(self, space: &AddrSpace) -> (res: SizeClass)
        requires
            self.ok(space),
        ensures
            res == space.spec_pds()[self.idx.0 as int].class,
    {
        space.pds[self.idx.0 as usize].class
    }

    /// The page is on some list: it does not link to itself.
    pub fn is_linked(self, space: &AddrSpace) -> (res: bool)
        requires
            self.ok(space),
        ensures
            res == (space.spec_pds()[self.idx.0 as int].prev != self.idx || space.spec_pds()[self.idx.0 as int].next != self.idx),
    {
        let pd = space.pds[self.idx.0 as usize];
        pd.prev.0 != self.idx.0 || pd.next.0 != self.idx.0
    }

    /// Clears all marks of the page.
    pub fn set_empty(self, space: &mut AddrSpace)
        requires
            self.ok(old(space)),
        ensures
            final(space).wf(),
            old(space).same_shape(final(space)),
            final(space).spec_pds() == old(space).spec_pds(),
            page_empty(final(space).spec_bits(), self.idx.0 as int),
            forall|k: int| 0 <= k < final(space).spec_bits().len() && !(4 * self.idx.0 <= k < 4 * self.idx.0 + 4)
                ==> #[trigger] final(space).spec_bits()[k] == old(space).spec_bits()[k],
    {
        let base = 4 * self.idx.0 as usize;
        let mut k: usize = 0;
        while k < 4
            invariant
                self.ok(old(space)),
                base == 4 * self.idx.0,
                k <= 4,
                space.mem == old(space).mem,
                space.pds == old(space).pds,
                space.used_pds == old(space).used_pds,
                space.reserved_pds == old(space).reserved_pds,
                space.bits@.len() == old(space).bits@.len(),
                forall|j: int| 0 <= j < k ==> #[trigger] space.bits@[base + j] == 0,
                forall|j: int| 0 <= j < space.bits@.len() && !(base <= j < base + k)
                    ==> #[trigger] space.bits@[j] == old(space).bits@[j],
            decreases 4 - k,
        {
            space.bits.set(base + k, 0);
            k = k + 1;
        }
        proof {
            assert forall|p: int| 0 <= p < space.spec_used() implies #[trigger] page_clean(space.spec_bits(), p,
                spec_total_blocks(space.spec_pds()[p].class) as int) by {
                assert(page_clean(old(space).spec_bits(), p, spec_total_blocks(old(space).spec_pds()[p].class) as int));
                assert forall|k: int| 0 <= k < 4 implies #[trigger] space.spec_bits()[4 * p + k]
                    & !word_mask(spec_total_blocks(space.spec_pds()[p].class) as int, k) == 0 by {
                    if p == self.idx.0 {
                        assert(space.bits@[base + k] == 0);
                        lemma_zero_and(!word_mask(spec_total_blocks(space.spec_pds()[p].class) as int, k));
                    } else {
                        assert(space.bits@[4 * p + k] == old(space).bits@[4 * p + k]);
                    }
                }
            }
        }
    }

    /// No block of the page is marked.
    pub fn is_empty(self, space: &AddrSpace) -> (res: bool)
        requires
            self.ok(space),
        ensures
            res == page_empty(space.spec_bits(), self.idx.0 as int),
    {
        let base = 4 * self.idx.0 as usize;
        let mut k: usize = 0;
        while k < 4
            invariant
                self.ok(space),
                base == 4 * self.idx.0,
                k <= 4,
                forall|j: int| 0 <= j < k ==> #[trigger] space.bits@[base + j] == 0,
            decreases 4 - k,
        {
            if space.bits[base + k] != 0 {
                return false;
            }
            k = k + 1;
        }
        true
    }

    /// Every block of the page is marked.
    pub fn is_full(self, space: &AddrSpace) -> (res: bool)
        requires
            self.ok(space),
        ensures
            res == page_full(space.spec_bits(), self.idx.0 as int, spec_total_blocks(space.spec_pds()[self.idx.0 as int].class) as int),
    {
        let blocks = self.class(space).total_blocks();
        let base = 4 * self.idx.0 as usize;
        let mut is_full = true;
        let mut k: usize = 0;
        while k < 4
            invariant
                self.ok(space),
                base == 4 * self.idx.0,
                blocks == spec_total_blocks(space.spec_pds()[self.idx.0 as int].class),
                blocks <= 256,
                k <= 4,
                is_full == forall|j: int| 0 <= j < k ==> #[trigger] space.bits@[base + j] == word_mask(blocks as int, j),
            decreases 4 - k,
        {
            is_full = is_full && space.bits[base + k] == full_mask(blocks, k);
            k = k + 1;
        }
        is_full
    }

    /// The number of marked blocks of the page.
    pub fn bits_used(self, space: &AddrSpace) -> (res: u32)
        requires
            self.ok(space),
        ensures
            res == page_count(space.spec_bits(), self.idx.0 as int),
            res <= 256,
    {
        let base = 4 * self.idx.0 as usize;
        let a = word_count_ones(space.bits[base]);
        let b = word_count_ones(space.bits[base + 1]);
        let c = word_count_ones(space.bits[base + 2]);
        let d = word_count_ones(space.bits[base + 3]);
        a + b + c + d
    }

    /// The number of bytes in use on the page: for a ream, all its pages
    /// unless nothing is marked (taken modulo 2^32, as a `u32` holds it);
    /// otherwise its marked blocks.
    pub fn bytes_used(self, space: &AddrSpace) -> (res: u32)
        requires
            self.ok(space),
        ensures
            space.spec_pds()[self.idx.0 as int].class == SizeClass::Ream ==> res == if page_empty(space.spec_bits(), self.idx.0 as int) {
                0
            } else {
                ((space.spec_pds()[self.idx.0 as int].len + 1) * PAGE_BYTES) as u32
            },
            space.spec_pds()[self.idx.0 as int].class != SizeClass::Ream ==> res == page_count(space.spec_bits(), self.idx.0 as int)
                * spec_block_bytes(space.spec_pds()[self.idx.0 as int].class)->0,
    {
        let class = self.class(space);
        if class == SizeClass::Ream {
            if self.is_empty(space) {
                0
            } else {
                let pages = self.pages(space) as u64;
                #[verifier::truncate]
                ((pages * PAGE_BYTES as u64) as u32)
            }
        } else {
            let used = self.bits_used(space);
            let size = match class.block_bytes() {
                Some(size) => size,
                None => 1,
            };
            assert(size <= 4096);
            assert(used as int * size as int <= 256 * 4096) by (nonlinear_arith)
                requires
                    used <= 256,
                    size <= 4096;
            used * size as u32
        }
    }

    /// The address of block `index` of the page.
    pub fn data(self, space: &AddrSpace, index: usize) -> (res: u64)
        requires
            self.ok(space),
            index < 256,
        ensures
            res == DATA_START + self.idx.0 * PAGE_BYTES
                + index * match spec_block_bytes(space.spec_pds()[self.idx.0 as int].class) { Some(b) => b, None => 1usize },
    {
        let size = match self.class(space).block_bytes() {
            Some(size) => size,
            None => 1,
        };
        assert(size <= 4096);
        assert(self.idx.0 as int * 4096 <= 1048576 * 4096) by (nonlinear_arith)
            requires
                self.idx.0 < 1048576;
        assert(index as int * size as int <= 256 * 4096) by (nonlinear_arith)
            requires
                index < 256,
                size <= 4096;
        let offset = DATA_START + self.idx.0 as u64 * PAGE_BYTES as u64 + index as u64 * size as u64;
        space.mem.data() + offset
    }

    /// Marks block `index` of the page.
    pub fn mark(self, space: &mut AddrSpace, index: usize)
        requires
            self.ok(old(space)),
            index < spec_total_blocks(old(space).spec_pds()[self.idx.0 as int].class),
        ensures
            final(space).wf(),
            old(space).same_shape(final(space)),
            final(space).spec_pds() == old(space).spec_pds(),
            final(space).spec_bits().len() == old(space).spec_bits().len(),
            forall|i: int| 0 <= i < 256 ==> #[trigger] page_bit(final(space).spec_bits(), self.idx.0 as int, i)
                == (i == index || page_bit(old(space).spec_bits(), self.idx.0 as int, i)),
            forall|k: int| 0 <= k < final(space).spec_bits().len() && k != 4 * self.idx.0 + index / 64
                ==> #[trigger] final(space).spec_bits()[k] == old(space).spec_bits()[k],
    {
        let word = index / 64;
        let bit = index % 64;
        let w = 4 * self.idx.0 as usize + word;
        let ghost old_word = space.bits@[w as int];
        let value = space.bits[w] | (1u64 << bit as u64);
        space.bits.set(w, value);
        proof {
            let total = spec_total_blocks(space.spec_pds()[self.idx.0 as int].class) as int;
            let p0 = self.idx.0 as int;
            assert(page_clean(old(space).spec_bits(), p0, total));
            assert(old(space).spec_bits()[4 * p0 + word] & !word_mask(total, word as int) == 0);
            let n = total - 64 * word;
            if n >= 64 {
                lemma_full_clean(old_word, bit as u64);
            } else {
                lemma_mark_clean(old_word, bit as u64, n as u64);
            }
            assert forall|p: int| 0 <= p < space.spec_used() implies #[trigger] page_clean(space.spec_bits(), p,
                spec_total_blocks(space.spec_pds()[p].class) as int) by {
                assert(page_clean(old(space).spec_bits(), p, spec_total_blocks(old(space).spec_pds()[p].class) as int));
                assert forall|k: int| 0 <= k < 4 implies #[trigger] space.spec_bits()[4 * p + k]
                    & !word_mask(spec_total_blocks(space.spec_pds()[p].class) as int, k) == 0 by {
                    if 4 * p + k != w {
                        assert(space.bits@[4 * p + k] == old(space).bits@[4 * p + k]);
                    }
                }
            }
            assert forall|i: int| 0 <= i < 256 implies #[trigger] page_bit(space.spec_bits(), self.idx.0 as int, i)
                == (i == index || page_bit(old(space).spec_bits(), self.idx.0 as int, i)) by {
                if i / 64 == word {
                    lemma_set_bit(old(space).bits@[w as int], bit as u64, (i % 64) as u64);
                }
            }
        }
    }

    /// Block `index` of the page is marked.
    pub fn is_marked(self, space: &AddrSpace, index: usize) -> (res: bool)
        requires
            self.ok(space),
            index < 256,
        ensures
            res == page_bit(space.spec_bits(), self.idx.0 as int, index as int),
    {
        let word = index / 64;
        let bit = index % 64;
        let w = space.bits[4 * self.idx.0 as usize + word];
        let b = bit as u64;
        let res = w & (1u64 << b) != 0;
        assert(res == ((w >> b) & 1u64 == 1u64)) by (bit_vector)
            requires
                b < 64,
                res == (w & (1u64 << b) != 0);
        res
    }

    /// The next page on the list.
    pub fn next(self, space: &AddrSpace) -> (res: PdRef)
        requires
            self.ok(space),
        ensures
            res.idx == space.spec_pds()[self.idx.0 as int].next,
            res.ok(space),
    {
        PdRef { idx: space.pds[self.idx.0 as usize].next }
    }

    /// The previous page on the list.
    pub fn prev(self, space: &AddrSpace) -> (res: PdRef)
        requires
            self.ok(space),
        ensures
            res.idx == space.spec_pds()[self.idx.0 as int].prev,
            res.ok(space),
    {
        PdRef { idx: space.pds[self.idx.0 as usize].prev }
    }

    /// Force self to be unlinked, this will *not* remove it from any list.
    pub fn force_unlink(self, space: &mut AddrSpace)
        requires
            self.ok(old(space)),
        ensures
            final(space).wf(),
            old(space).same_shape(final(space)),
            final(space).spec_bits() == old(space).spec_bits(),
            final(space).spec_pds() == old(space).spec_pds().update(self.idx.0 as int, PageDescriptor {
                prev: self.idx,
                next: self.idx,
                ..old(space).spec_pds()[self.idx.0 as int]
            }),
    {
        let i = self.idx.0 as usize;
        let mut pd = space.pds[i];
        pd.next = self.idx;
        pd.prev = self.idx;
        space.pds.set(i, pd);
        proof { lemma_pds_update_wf(*old(space), *space, i as int); }
    }

    /// Takes the page off its list: its neighbours link to each other, and
    /// it links to itself.
    pub fn unlink(self, space: &mut AddrSpace)
        requires
            self.ok(old(space)),
        ensures
            final(space).wf(),
            old(space).same_shape(final(space)),
            final(space).spec_bits() == old(space).spec_bits(),
            ({
                let old_pds = old(space).spec_pds();
                let i = self.idx.0 as int;
                let p = old_pds[i].prev.0 as int;
                let n = old_pds[i].next.0 as int;
                let pds1 = old_pds.update(p, PageDescriptor { next: PdIdx(n as u32), ..old_pds[p] });
                let pds2 = pds1.update(n, PageDescriptor { prev: PdIdx(p as u32), ..pds1[n] });
                final(space).spec_pds() == pds2.update(i, PageDescriptor { prev: self.idx, next: self.idx, ..pds2[i] })
            }),
    {
        let prev = self.prev(space);
        let next = self.next(space);

        let mut pd = space.pds[prev.idx.0 as usize];
        pd.next = next.idx;
        space.pds.set(prev.idx.0 as usize, pd);
        proof { lemma_pds_update_wf(*old(space), *space, prev.idx.0 as int); }
        let ghost s1 = *space;

        let mut pd = space.pds[next.idx.0 as usize];
        pd.prev = prev.idx;
        space.pds.set(next.idx.0 as usize, pd);
        proof { lemma_pds_update_wf(s1, *space, next.idx.0 as int); }
        let ghost s2 = *space;

        // Unlink by setting next and prev on self to self.
        let mut pd = space.pds[self.idx.0 as usize];
        pd.next = self.idx;
        pd.prev = self.idx;
        space.pds.set(self.idx.0 as usize, pd);
        proof { lemma_pds_update_wf(s2, *space, self.idx.0 as int); }
    }

    /// Marks the first free block of the page and returns its index; `None`
    /// when every block is marked.
    pub fn take_next_block(self, space: &mut AddrSpace) -> (res: Option<usize>)
        requires
            self.ok(old(space)),
        ensures
            final(space).wf(),
            old(space).same_shape(final(space)),
            final(space).spec_pds() == old(space).spec_pds(),
            res is None ==> final(space).spec_bits() == old(space).spec_bits()
                && page_full(old(space).spec_bits(), self.idx.0 as int, spec_total_blocks(old(space).spec_pds()[self.idx.0 as int].class) as int),
            res matches Some(i) ==> {
                &&& i < 256
                &&& !page_bit(old(space).spec_bits(), self.idx.0 as int, i as int)
                &&& forall|j: int| 0 <= j < i ==> #[trigger] page_bit(old(space).spec_bits(), self.idx.0 as int, j)
                    || (j / 64 < i / 64 && old(space).spec_bits()[4 * self.idx.0 + j / 64]
                        == word_mask(spec_total_blocks(old(space).spec_pds()[self.idx.0 as int].class) as int, j / 64))
                &&& i < spec_total_blocks(old(space).spec_pds()[self.idx.0 as int].class)
                &&& forall|j: int| 0 <= j < 256 ==> #[trigger] page_bit(final(space).spec_bits(), self.idx.0 as int, j)
                    == (j == i || page_bit(old(space).spec_bits(), self.idx.0 as int, j))
            },
    {
        let blocks = self.class(space).total_blocks();
        let base = 4 * self.idx.0 as usize;
        let ghost total = blocks as int;
        let mut index: usize = 0;
        while index < 4
            invariant
                self.ok(old(space)),
                *space == *old(space),
                base == 4 * self.idx.0,
                blocks == total,
                total == spec_total_blocks(old(space).spec_pds()[self.idx.0 as int].class),
                1 <= blocks <= 256,
                index <= 4,
                forall|k: int| 0 <= k < index ==> #[trigger] space.bits@[base + k] == word_mask(total, k),
            decreases 4 - index,
        {
            let word = space.bits[base + index];
            let mask = full_mask(blocks, index);
            if word == mask {
                index = index + 1;
                continue;
            }
            // The first zero bit of the word.
            let mut idx: u64 = 0;
            proof { lemma_zero_low(word); }
            while idx < 64 && (word >> idx) & 1u64 == 1u64
                invariant
                    idx <= 64,
                    idx < 64 ==> word & (((1u64 << idx) - 1u64) as u64) == ((1u64 << idx) - 1u64) as u64,
                    idx == 64 ==> word == 0xffff_ffff_ffff_ffffu64,
                    forall|t: u64| t < idx ==> #[trigger] ((word >> t) & 1u64) == 1u64,
                decreases 64 - idx,
            {
                proof { lemma_low_bits_step(word, idx); }
                idx = idx + 1;
            }
            let ghost w_old = word;
            proof {
                assert(page_clean(old(space).spec_bits(), self.idx.0 as int, total));
                assert(space.bits@[base + index] & !word_mask(total, index as int) == 0);
                if idx == 64 {
                    lemma_all_ones_clean(word, mask);
                }
                let n = total - 64 * index;
                if n >= 64 {
                } else if n <= 0 {
                    assert(word == 0u64) by (bit_vector)
                        requires word & !0u64 == 0u64;
                } else {
                    lemma_first_zero_below(word, n as u64, idx);
                }
            }
            let value = word | (1u64 << idx);
            space.bits.set(base + index, value);
            let res = index * 64 + idx as usize;
            proof {
                let n = total - 64 * index;
                if n >= 64 {
                    lemma_full_clean(w_old, idx);
                } else {
                    lemma_mark_clean(w_old, idx, n as u64);
                }
                assert forall|p: int| 0 <= p < space.spec_used() implies #[trigger] page_clean(space.spec_bits(), p,
                    spec_total_blocks(space.spec_pds()[p].class) as int) by {
                    assert(page_clean(old(space).spec_bits(), p, spec_total_blocks(old(space).spec_pds()[p].class) as int));
                    assert forall|k: int| 0 <= k < 4 implies #[trigger] space.spec_bits()[4 * p + k]
                        & !word_mask(spec_total_blocks(space.spec_pds()[p].class) as int, k) == 0 by {
                        if 4 * p + k != base + index {
                            assert(space.bits@[4 * p + k] == old(space).bits@[4 * p + k]);
                        }
                    }
                }
                assert forall|j: int| 0 <= j < 256 implies #[trigger] page_bit(space.spec_bits(), self.idx.0 as int, j)
                    == (j == res || page_bit(old(space).spec_bits(), self.idx.0 as int, j)) by {
                    if j / 64 == index {
                        lemma_set_bit(w_old, idx, (j % 64) as u64);
                    }
                }
                assert forall|j: int| 0 <= j < res implies #[trigger] page_bit(old(space).spec_bits(), self.idx.0 as int, j)
                    || (j / 64 < res / 64 && old(space).spec_bits()[4 * self.idx.0 + j / 64] == word_mask(total, j / 64)) by {
                    if j / 64 == index {
                        assert(((j % 64) as u64) < idx);
                    }
                }
            }
            return Some(res);
        }
        None
    }
}

impl PdRef {
    /// Splits off the first `split` pages of the ream: `None` when the ream
    /// is shorter; the ream itself when it has exactly that many pages;
    /// otherwise the ream shortened to `split` pages and the rest as a new,
    /// unlinked ream.
    pub fn split(self, space: &mut AddrSpace, split: usize) -> (res: Option<(PdRef, Option<PdRef>)>)
        requires
            self.ok(old(space)),
            old(space).spec_pds()[self.idx.0 as int].len > 0,
            split > 0,
        ensures
            final(space).wf(),
            old(space).same_shape(final(space)),
            final(space).spec_bits() == old(space).spec_bits(),
            ({
                let pages = old(space).spec_pds()[self.idx.0 as int].len + 1;
                let i = self.idx.0 as int;
                &&& pages == split ==> res == Some((self, None::<PdRef>)) && final(space).spec_pds() == old(space).spec_pds()
                &&& pages < split ==> res is None && final(space).spec_pds() == old(space).spec_pds()
                &&& pages > split ==> {
                    &&& res matches Some((first, Some(rest)))
                    &&& first == self
                    &&& rest.idx.0 == i + split
                    &&& final(space).spec_pds() == old(space).spec_pds()
                        .update(i + split, PageDescriptor {
                            prev: rest.idx,
                            next: rest.idx,
                            len: (pages - split - 1) as u32,
                            ..old(space).spec_pds()[i + split]
                        })
                        .update(i, PageDescriptor { len: (split - 1) as u32, ..old(space).spec_pds()[i] })
                }
            }),
    {
        let pages = self.pages(space);
        if pages == split {
            Some((self, None))
        } else if pages < split {
            None
        } else {
            let rest_len = pages - split - 1;
            let rest = space.pd_at(self.idx.0 + split as u32);
            rest.force_unlink(space);
            let ghost s1 = *space;
            let mut pd = space.pds[rest.idx.0 as usize];
            pd.len = rest_len as u32;
            space.pds.set(rest.idx.0 as usize, pd);
            proof { lemma_pds_update_wf(s1, *space, rest.idx.0 as int); }
            let ghost s2 = *space;

            let mut pd = space.pds[self.idx.0 as usize];
            pd.len = split as u32 - 1;
            space.pds.set(self.idx.0 as usize, pd);
            proof { lemma_pds_update_wf(s2, *space, self.idx.0 as int); }

            Some((self, Some(rest)))
        }
    }
}

/// A circular list of descriptors, linked through `prev` and `next`, with
/// a reserved descriptor as its root.
pub struct PdList {
    pub root: PdIdx,
}

impl PdList {
    /// The list rooted at `root`.
    pub fn new(root: PdIdx) -> (res: PdList)
        ensures
            res.root == root,
    {
        PdList { root }
    }

    /// The first page of the list, if it is not empty.
    pub fn first(&self, space: &AddrSpace) -> (res: Option<PdRef>)
        requires
            space.wf(),
            space.valid(self.root.0 as int),
        ensures
            space.spec_pds()[self.root.0 as int].next != self.root ==> res == Some(PdRef { idx: space.spec_pds()[self.root.0 as int].next }),
            space.spec_pds()[self.root.0 as int].next == self.root ==> res is None,
    {
        let root = space.pd(self.root);
        if root.next(space).idx.0 != root.idx.0 {
            Some(root.next(space))
        } else {
            None
        }
    }

    /// Puts `item` first on the list.
    pub fn push(&self, space: &mut AddrSpace, item: PdRef)
        requires
            old(space).wf(),
            old(space).valid(self.root.0 as int),
            item.ok(old(space)),
        ensures
            final(space).wf(),
            old(space).same_shape(final(space)),
            final(space).spec_bits() == old(space).spec_bits(),
            ({
                let old_pds = old(space).spec_pds();
                let r = self.root.0 as int;
                let n = old_pds[r].next.0 as int;
                let i = item.idx.0 as int;
                let pds1 = old_pds.update(n, PageDescriptor { prev: item.idx, ..old_pds[n] });
                let pds2 = pds1.update(r, PageDescriptor { next: item.idx, ..pds1[r] });
                final(space).spec_pds() == pds2.update(i, PageDescriptor { prev: self.root, next: PdIdx(n as u32), ..pds2[i] })
            }),
    {
        let root = space.pd(self.root);
        let next = root.next(space);

        let mut pd = space.pds[next.idx.0 as usize];
        pd.prev = item.idx;
        space.pds.set(next.idx.0 as usize, pd);
        proof { lemma_pds_update_wf(*old(space), *space, next.idx.0 as int); }
        let ghost s1 = *space;

        let mut pd = space.pds[root.idx.0 as usize];
        pd.next = item.idx;
        space.pds.set(root.idx.0 as usize, pd);
        proof { lemma_pds_update_wf(s1, *space, root.idx.0 as int); }
        let ghost s2 = *space;

        let mut pd = space.pds[item.idx.0 as usize];
        pd.prev = self.root;
        pd.next = next.idx;
        space.pds.set(item.idx.0 as usize, pd);
        proof { lemma_pds_update_wf(s2, *space, item.idx.0 as int); }
    }
}

/// The page that holds address `ptr` of the data area.
pub open spec fn ptr_page(ptr: u64) -> int {
    (ptr - DATA_START) / (PAGE_BYTES as int)
}

/// The block of its page that holds address `ptr`, for a page of class `c`.
pub open spec fn ptr_block(ptr: u64, c: SizeClass) -> int {
    ((ptr - DATA_START) % (PAGE_BYTES as int)) / (match spec_block_bytes(c) { Some(b) => b as int, None => 1int })
}

/// A heap built on an address space: lists of free reams, free single
/// pages, partly used pages of each small class, and full reams and pages;
/// and the number of bytes in use.
pub struct Heap {
    space: AddrSpace,

    free_reams: PdList,
    free_pages: PdList,
    free_sized: Vec<PdList>,

    full_reams: PdList,
    full_pages: PdList,

    bytes_used: usize,
}

proof fn lemma_ream_not_empty_is_full(w0: u64, w1: u64, w2: u64, w3: u64)
    by (bit_vector)
    requires
        w0 & !1u64 == 0,
        w1 & !0u64 == 0,
        w2 & !0u64 == 0,
        w3 & !0u64 == 0,
        !(w0 == 0 && w1 == 0 && w2 == 0 && w3 == 0),
    ensures
        w0 == 1u64 && w1 == 0u64 && w2 == 0u64 && w3 == 0u64,
{
}

/// A page holds between 1 and 256 blocks.
proof fn lemma_total_blocks(c: SizeClass)
    ensures
        1 <= spec_total_blocks(c) <= 256,
{
    match c {
        SizeClass::Ream => {},
        SizeClass::Block16 => { assert(4096usize / 16usize == 256) by (nonlinear_arith); },
        SizeClass::Block32 => { assert(4096usize / 32usize == 128) by (nonlinear_arith); },
        SizeClass::Block64 => { assert(4096usize / 64usize == 64) by (nonlinear_arith); },
        SizeClass::Block128 => { assert(4096usize / 128usize == 32) by (nonlinear_arith); },
        SizeClass::Block256 => { assert(4096usize / 256usize == 16) by (nonlinear_arith); },
        SizeClass::Block512 => { assert(4096usize / 512usize == 8) by (nonlinear_arith); },
        SizeClass::Block1024 => { assert(4096usize / 1024usize == 4) by (nonlinear_arith); },
        SizeClass::Block2048 => { assert(4096usize / 2048usize == 2) by (nonlinear_arith); },
        SizeClass::Block4096 => { assert(4096usize / 4096usize == 1) by (nonlinear_arith); },
    }
}

/// The address of block `index` of page `idx` lies within that page.
proof fn lemma_block_in_page(idx: int, index: int, c: SizeClass)
    requires
        0 <= idx < DATA_PAGES,
        0 <= index < spec_total_blocks(c),
    ensures
        ({
            let b = match spec_block_bytes(c) { Some(b) => b as int, None => 1int };
            let off = idx * 4096 + index * b;
            &&& 0 <= index * b < 4096
            &&& off < DATA_BYTES
            &&& off / 4096 == idx
            &&& off % 4096 == index * b
        }),
{
    let b = match spec_block_bytes(c) { Some(b) => b as int, None => 1int };
    assert(0 <= index * b < 4096) by {
        match c {
            SizeClass::Ream => { assert(b == 1 && index == 0); },
            SizeClass::Block16 => {
                assert(4096usize / 16usize == 256) by (nonlinear_arith);
                assert(0 <= index * b < 4096) by (nonlinear_arith) requires b == 16, 0 <= index < 256;
            },
            SizeClass::Block32 => {
                assert(4096usize / 32usize == 128) by (nonlinear_arith);
                assert(0 <= index * b < 4096) by (nonlinear_arith) requires b == 32, 0 <= index < 128;
            },
            SizeClass::Block64 => {
                assert(4096usize / 64usize == 64) by (nonlinear_arith);
                assert(0 <= index * b < 4096) by (nonlinear_arith) requires b == 64, 0 <= index < 64;
            },
            SizeClass::Block128 => {
                assert(4096usize / 128usize == 32) by (nonlinear_arith);
                assert(0 <= index * b < 4096) by (nonlinear_arith) requires b == 128, 0 <= index < 32;
            },
            SizeClass::Block256 => {
                assert(4096usize / 256usize == 16) by (nonlinear_arith);
                assert(0 <= index * b < 4096) by (nonlinear_arith) requires b == 256, 0 <= index < 16;
            },
            SizeClass::Block512 => {
                assert(4096usize / 512usize == 8) by (nonlinear_arith);
                assert(0 <= index * b < 4096) by (nonlinear_arith) requires b == 512, 0 <= index < 8;
            },
            SizeClass::Block1024 => {
                assert(4096usize / 1024usize == 4) by (nonlinear_arith);
                assert(0 <= index * b < 4096) by (nonlinear_arith) requires b == 1024, 0 <= index < 4;
            },
            SizeClass::Block2048 => {
                assert(4096usize / 2048usize == 2) by (nonlinear_arith);
                assert(0 <= index * b < 4096) by (nonlinear_arith) requires b == 2048, 0 <= index < 2;
            },
            SizeClass::Block4096 => {
                assert(4096usize / 4096usize == 1) by (nonlinear_arith);
                assert(0 <= index * b < 4096) by (nonlinear_arith) requires b == 4096, 0 <= index < 1;
            },
        }
    }
    let off = idx * 4096 + index * b;
    vstd::arithmetic::div_mod::lemma_fundamental_div_mod_converse(off, 4096, idx, index * b);
    assert(idx * 4096 + 4096 <= DATA_BYTES) by (nonlinear_arith)
        requires
            idx < 1048576;
}

/// A ream page (one block) with some mark is full.
proof fn lemma_ream_marked_is_full(b: Seq<u64>, p: int)
    requires
        0 <= 4 * p,
        4 * p + 4 <= b.len(),
        page_clean(b, p, 1),
        !page_empty(b, p),
    ensures
        page_full(b, p, 1),
{
    let k0 = 0int;
    let k1 = 1int;
    let k2 = 2int;
    let k3 = 3int;
    assert(b[4 * p + k0] & !word_mask(1, k0) == 0);
    assert(b[4 * p + k1] & !word_mask(1, k1) == 0);
    assert(b[4 * p + k2] & !word_mask(1, k2) == 0);
    assert(b[4 * p + k3] & !word_mask(1, k3) == 0);
    assert(word_mask(1, 0) == 1u64) by (bit_vector);
    if b[4 * p + k0] == 0 && b[4 * p + k1] == 0 && b[4 * p + k2] == 0 && b[4 * p + k3] == 0 {
        assert forall|k: int| 0 <= k < 4 implies #[trigger] b[4 * p + k] == 0 by {
            if k == 0 { assert(b[4 * p + k0] == 0); }
        }
    }
    lemma_ream_not_empty_is_full(b[4 * p + k0], b[4 * p + k1], b[4 * p + k2], b[4 * p + k3]);
    assert forall|k: int| 0 <= k < 4 implies #[trigger] b[4 * p + k] == word_mask(1, k) by {
        if k == 0 { assert(b[4 * p + k] == b[4 * p + k0]); }
        else if k == 1 { assert(b[4 * p + k] == b[4 * p + k1]); }
        else if k == 2 { assert(b[4 * p + k] == b[4 * p + k2]); }
        else { assert(b[4 * p + k] == b[4 * p + k3]); }
    }
}

impl Heap {
    pub closed spec fn spec_space(&self) -> AddrSpace {
        self.space
    }

    pub closed spec fn spec_bytes_used(&self) -> usize {
        self.bytes_used
    }

    /// The descriptor at the head of the list of free reams.
    pub closed spec fn spec_free_reams(&self) -> int {
        self.free_reams.root.0 as int
    }

    /// The descriptor at the head of the list of free pages.
    pub closed spec fn spec_free_pages(&self) -> int {
        self.free_pages.root.0 as int
    }

    /// The descriptor at the head of the list of partly used pages of the
    /// small class `c`.
    pub closed spec fn spec_sized(&self, c: SizeClass) -> int {
        self.free_sized@[spec_small_index(c)].root.0 as int
    }

    /// Why a small allocation of class `c` can fail: the first page on the
    /// list of partly used pages of `c` is full, or that list and the free
    /// pages are empty and no free ream is left.
    pub open spec fn small_exhausted(&self, c: SizeClass) -> bool {
        let pds = self.spec_space().spec_pds();
        let sized = self.spec_sized(c);
        let free = self.spec_free_pages();
        if pds[sized].next.0 != sized {
            let first = pds[sized].next.0 as int;
            page_full(self.spec_space().spec_bits(), first, spec_total_blocks(pds[first].class) as int)
        } else {
            pds[free].next.0 == free && self.no_free_ream(1)
        }
    }

    /// No ream met walking the free list from its head (until back at the
    /// head, at most as many steps as descriptors in use) has `pages` pages
    /// or more.
    pub open spec fn no_free_ream(&self, pages: int) -> bool {
        let pds = self.spec_space().spec_pds();
        let root = self.spec_free_reams();
        forall|m: nat| 1 <= m <= self.spec_space().spec_used()
            && (forall|q: nat| 1 <= q <= m ==> #[trigger] list_node(pds, root, q) != root)
            ==> pds[#[trigger] list_node(pds, root, m)].len + 1 < pages
    }

    /// The lists are rooted at reserved descriptors.
    pub closed spec fn wf(&self) -> bool {
        &&& self.space.wf()
        &&& self.free_sized@.len() == 9
        &&& self.space.valid(self.free_reams.root.0 as int)
        &&& self.space.valid(self.free_pages.root.0 as int)
        &&& self.space.valid(self.full_reams.root.0 as int)
        &&& self.space.valid(self.full_pages.root.0 as int)
        &&& forall|i: int| 0 <= i < 9 ==> self.space.valid(#[trigger] self.free_sized@[i].root.0 as int)
    }

    /// A heap whose data area is one free ream: thirteen descriptors are
    /// the heads of its lists, the free reams at the first, and the pages
    /// after them are one ream on that list; every other list is empty.
    pub fn new() -> (res: Option<Heap>)
        ensures
            res matches Some(heap) && heap.wf() && heap.spec_bytes_used() == 0
                && heap.spec_space().spec_used() == DATA_PAGES
                && heap.spec_space().spec_reserved() == 13
                && heap.spec_free_reams() == 0
                && ({
                    let pds = heap.spec_space().spec_pds();
                    &&& pds[0].next.0 == 13 && pds[0].prev.0 == 13
                    &&& pds[13].next.0 == 0 && pds[13].prev.0 == 0
                    &&& pds[13].len + 1 == DATA_PAGES - 13
                    &&& forall|r: int| 1 <= r < 13 ==> #[trigger] pds[r].next.0 == r && pds[r].prev.0 == r
                }),
    {
        let mut space = match AddrSpace::create() {
            Some(space) => space,
            None => return None,
        };

        let free_reams = space.new_reserved();
        let ghost s1 = space;
        let free_pages = space.new_reserved();
        proof {
            assert(space.spec_pds()[0] == s1.spec_pds()[0]) by {
                assert(space.spec_pds().subrange(0, 1)[0] == space.spec_pds()[0]);
            }
        }
        let mut free_sized: Vec<PdList> = Vec::new();
        let mut i: usize = 0;
        while i < 9
            invariant
                space.wf(),
                i <= 9,
                space.spec_used() == 2 + i,
                space.spec_reserved() == space.spec_used(),
                free_reams.root.0 == 0,
                free_pages.root.0 == 1,
                free_sized@.len() == i,
                forall|j: int| 0 <= j < i ==> (#[trigger] free_sized@[j]).root.0 == 2 + j,
                forall|r: int| 0 <= r < space.spec_used() ==> #[trigger] space.spec_pds()[r].next.0 == r
                    && space.spec_pds()[r].prev.0 == r,
            decreases 9 - i,
        {
            let ghost before = space;
            free_sized.push(space.new_reserved());
            proof {
                assert forall|r: int| 0 <= r < space.spec_used() implies #[trigger] space.spec_pds()[r].next.0 == r
                    && space.spec_pds()[r].prev.0 == r by {
                    if r < before.spec_used() {
                        assert(space.spec_pds()[r] == space.spec_pds().subrange(0, before.spec_used() as int)[r]);
                    }
                }
            }
            i = i + 1;
        }
        let ghost b2 = space;
        let full_reams = space.new_reserved();
        let ghost b3 = space;
        let full_pages = space.new_reserved();
        proof {
            assert forall|r: int| 0 <= r < space.spec_used() implies #[trigger] space.spec_pds()[r].next.0 == r
                && space.spec_pds()[r].prev.0 == r by {
                if r < b3.spec_used() {
                    assert(space.spec_pds()[r] == space.spec_pds().subrange(0, b3.spec_used() as int)[r]);
                    if r < b2.spec_used() {
                        assert(b3.spec_pds()[r] == b3.spec_pds().subrange(0, b2.spec_used() as int)[r]);
                    }
                }
            }
        }

        let available = space.available_pages();
        let ghost b4 = space;
        let ream = space.new_ream(available);
        proof {
            assert forall|r: int| 0 <= r < 13 implies #[trigger] space.spec_pds()[r] == b4.spec_pds()[r] by {
                assert(space.spec_pds()[r] == space.spec_pds().subrange(0, 13)[r]);
            }
        }
        let ghost b5 = space;
        free_reams.push(&mut space, ream);
        proof {
            assert(b5.spec_pds()[0].next.0 == 0);
            assert(space.spec_pds()[0].next.0 == 13);
            assert forall|r: int| 1 <= r < 13 implies #[trigger] space.spec_pds()[r].next.0 == r
                && space.spec_pds()[r].prev.0 == r by {
                assert(space.spec_pds()[r] == b5.spec_pds()[r]);
                assert(b5.spec_pds()[r] == b4.spec_pds()[r]);
            }
        }

        let heap = Heap { space, free_reams, free_pages, free_sized, full_reams, full_pages, bytes_used: 0 };
        proof {
            assert forall|i: int| 0 <= i < 9 implies heap.space.valid(#[trigger] heap.free_sized@[i].root.0 as int) by {
                assert(heap.free_sized@[i].root.0 == 2 + i);
            }
        }
        Some(heap)
    }

    /// The number of bytes in use, as counted by the last sweep and the
    /// allocations since.
    pub fn bytes_used(&self) -> (res: usize)
        ensures
            res == self.spec_bytes_used(),
    {
        self.bytes_used
    }

    /// The list of partly used pages of a small class.
    fn sized_list(&self, size_class: SizeClass) -> (res: PdList)
        requires
            self.wf(),
            size_class != SizeClass::Ream,
        ensures
            res == self.free_sized@[spec_small_index(size_class)],
            self.spec_space().valid(res.root.0 as int),
    {
        let i = size_class.shift() as usize - 4;
        PdList { root: self.free_sized[i].root }
    }

    /// Allocates `bytes` bytes and returns their address: a block of the
    /// smallest class that holds them, marked in use, or the start of a
    /// ream of the whole pages needed beyond a page, cut from the first free
    /// ream long enough.  `None` when no ream of
    /// the pages needed is free (or, for a small class, a full page stands
    /// on the list of partly used pages).
    pub fn allocate(&mut self, bytes: usize) -> (res: Option<u64>)
        requires
            old(self).wf(),
        ensures
            final(self).wf(),
            bytes <= PAGE_BYTES ==> final(self).spec_bytes_used() == old(self).spec_bytes_used()
                .wrapping_add(spec_block_bytes(small_class_for(bytes as int))->0),
            bytes > PAGE_BYTES && spec_bytes_to_pages(bytes as int) as u32 > 0 ==> final(self).spec_bytes_used()
                == old(self).spec_bytes_used().wrapping_add(((spec_bytes_to_pages(bytes as int) as u32) * PAGE_BYTES) as usize),
            bytes > PAGE_BYTES && spec_bytes_to_pages(bytes as int) as u32 == 0 ==> res is None
                && final(self).spec_bytes_used() == old(self).spec_bytes_used(),
            bytes > PAGE_BYTES && spec_bytes_to_pages(bytes as int) as u32 > 0 && res is None
                ==> old(self).no_free_ream((spec_bytes_to_pages(bytes as int) as u32) as int),
            bytes <= PAGE_BYTES && res is None ==> old(self).small_exhausted(small_class_for(bytes as int)),
            bytes <= PAGE_BYTES ==> (res matches Some(ptr) ==> fresh_block(old(self).spec_space().spec_bits(),
                final(self).spec_space().spec_bits(), ptr_page(ptr),
                ptr_block(ptr, final(self).spec_space().spec_pds()[ptr_page(ptr)].class))),
            bytes > PAGE_BYTES ==> (res matches Some(ptr) ==> exists|m: nat| #[trigger] first_fit(old(self).spec_space().spec_pds(),
                old(self).spec_free_reams(), (spec_bytes_to_pages(bytes as int) as u32) as int, m)
                && ptr_page(ptr) == list_node(old(self).spec_space().spec_pds(), old(self).spec_free_reams(), m)),
            res matches Some(ptr) ==> DATA_START <= ptr < DATA_START + DATA_BYTES
                && final(self).spec_space().valid(ptr_page(ptr))
                && ({
                    let pd = final(self).spec_space().spec_pds()[ptr_page(ptr)];
                    &&& bytes <= PAGE_BYTES ==> ptr_block(ptr, pd.class) < spec_total_blocks(pd.class)
                        && page_bit(final(self).spec_space().spec_bits(), ptr_page(ptr), ptr_block(ptr, pd.class))
                    &&& bytes > PAGE_BYTES ==> pd.class == SizeClass::Ream && ptr == DATA_START + ptr_page(ptr) * PAGE_BYTES
                        && pd.len + 1 == spec_bytes_to_pages(bytes as int) as u32
                }),
    {
        if bytes <= PAGE_BYTES {
            let class = small_class(bytes);
            self.alloc_small(class)
        } else {
            #[verifier::truncate]
            let pages = bytes_to_pages(bytes) as u32;
            if pages == 0 {
                return None;
            }
            self.alloc_ream(pages)
        }
    }

    /// Clears the marks of every ream and page, walking them from the first
    /// descriptor after the list roots.
    pub fn start_gc(&mut self)
        requires
            old(self).wf(),
        ensures
            final(self).wf(),
            final(self).spec_bytes_used() == old(self).spec_bytes_used(),
            final(self).spec_space().spec_pds() == old(self).spec_space().spec_pds(),
            final(self).spec_space().spec_used() == old(self).spec_space().spec_used(),
            forall|p: int| #[trigger] walk_reaches(old(self).spec_space().spec_pds(), old(self).spec_space().spec_reserved() as int, p)
                ==> page_empty(final(self).spec_space().spec_bits(), p),
    {
        let end = self.space.used_pds;
        let mut index = self.space.reserved_pds;
        let ghost start = index as int;
        let ghost pds = self.space.spec_pds();
        while index < end
            invariant
                self.wf(),
                end == self.space.spec_used(),
                pds == self.space.spec_pds(),
                pds.len() == end,
                pds == old(self).space.spec_pds(),
                start == old(self).space.spec_reserved(),
                self.space.spec_used() == old(self).space.spec_used(),
                self.space.spec_reserved() == old(self).space.spec_reserved(),
                self.bytes_used == old(self).bytes_used,
                self.free_reams == old(self).free_reams,
                self.free_pages == old(self).free_pages,
                self.free_sized == old(self).free_sized,
                self.full_reams == old(self).full_reams,
                self.full_pages == old(self).full_pages,
                forall|p: int| #[trigger] walk_reaches(pds, start, p)
                    ==> (p < index && page_empty(self.space.spec_bits(), p)) || walk_reaches(pds, index as int, p),
            decreases end - index,
        {
            let pd = self.space.pd_at(index);
            let pages = pd.pages(&self.space);
            let ghost before = self.space.spec_bits();
            pd.set_empty(&mut self.space);
            let next = index + pages as u32;
            proof {
                assert forall|p: int| #[trigger] walk_reaches(pds, start, p)
                    implies (p < next && page_empty(self.space.spec_bits(), p)) || walk_reaches(pds, next as int, p) by {
                    if p < index && page_empty(before, p) {
                        assert forall|k: int| 0 <= k < 4 implies #[trigger] self.space.spec_bits()[4 * p + k] == 0 by {
                            assert(before[4 * p + k] == 0);
                        }
                    } else {
                        assert(walk_reaches(pds, index as int, p));
                    }
                }
            }
            index = next;
        }
    }

    /// Marks the block that holds `ptr`.
    pub fn mark(&mut self, ptr: u64)
        requires
            old(self).wf(),
            DATA_START <= ptr < DATA_START + DATA_BYTES,
            old(self).spec_space().valid(ptr_page(ptr)),
            ptr_block(ptr, old(self).spec_space().spec_pds()[ptr_page(ptr)].class)
                < spec_total_blocks(old(self).spec_space().spec_pds()[ptr_page(ptr)].class),
        ensures
            final(self).wf(),
            final(self).spec_bytes_used() == old(self).spec_bytes_used(),
            final(self).spec_space().spec_pds() == old(self).spec_space().spec_pds(),
            page_bit(final(self).spec_space().spec_bits(), ptr_page(ptr),
                ptr_block(ptr, old(self).spec_space().spec_pds()[ptr_page(ptr)].class)),
            final(self).spec_space().spec_used() == old(self).spec_space().spec_used(),
            forall|p: int, i: int| 0 <= p < old(self).spec_space().spec_used() && 0 <= i < 256
                && (p != ptr_page(ptr) || i != ptr_block(ptr, old(self).spec_space().spec_pds()[ptr_page(ptr)].class))
                ==> #[trigger] page_bit(final(self).spec_space().spec_bits(), p, i)
                    == page_bit(old(self).spec_space().spec_bits(), p, i),
    {
        let page = self.space.pd_of(ptr);
        let index = self.block_index(page, ptr);
        page.mark(&mut self.space, index);
        proof { lemma_total_blocks(old(self).space.spec_pds()[page.idx.0 as int].class); }
        assert(page_bit(self.space.spec_bits(), page.idx.0 as int, index as int));
        assert forall|p: int, i: int| 0 <= p < old(self).spec_space().spec_used() && 0 <= i < 256
            && (p != page.idx.0 || i != index)
            implies #[trigger] page_bit(self.space.spec_bits(), p, i) == page_bit(old(self).space.spec_bits(), p, i) by {
            if p != page.idx.0 {
                assert(4 * p + i / 64 != 4 * page.idx.0 + index / 64);
                assert(self.space.spec_bits()[4 * p + i / 64] == old(self).space.spec_bits()[4 * p + i / 64]);
            }
        }
    }

    /// The block that holds `ptr` is marked.
    pub fn is_marked(&self, ptr: u64) -> (res: bool)
        requires
            self.wf(),
            DATA_START <= ptr < DATA_START + DATA_BYTES,
            self.spec_space().valid(ptr_page(ptr)),
            ptr_block(ptr, self.spec_space().spec_pds()[ptr_page(ptr)].class) < 256,
        ensures
            res == page_bit(self.spec_space().spec_bits(), ptr_page(ptr),
                ptr_block(ptr, self.spec_space().spec_pds()[ptr_page(ptr)].class)),
    {
        let page = self.space.pd_of(ptr);
        let index = self.block_index(page, ptr);
        page.is_marked(&self.space, index)
    }

    fn block_index(&self, page: PdRef, ptr: u64) -> (res: usize)
        requires
            self.wf(),
            DATA_START <= ptr < DATA_START + DATA_BYTES,
            page.idx.0 == ptr_page(ptr),
            self.spec_space().valid(ptr_page(ptr)),
        ensures
            res == ptr_block(ptr, self.spec_space().spec_pds()[ptr_page(ptr)].class),
            res < PAGE_BYTES,
    {
        let start = page.data(&self.space, 0);
        let offset = ptr - start;
        let size = match page.class(&self.space).block_bytes() {
            Some(size) => size,
            None => 1,
        };
        assert(page.idx.0 as int * 4096 <= ptr - DATA_START < page.idx.0 as int * 4096 + 4096) by (nonlinear_arith)
            requires
                page.idx.0 == (ptr - DATA_START) / 4096,
                ptr >= DATA_START;
        assert((ptr - DATA_START) % 4096 == offset) by (nonlinear_arith)
            requires
                page.idx.0 == (ptr - DATA_START) / 4096,
                ptr >= DATA_START,
                offset == ptr - DATA_START - page.idx.0 * 4096;
        (offset / size as u64) as usize
    }

    /// Frees every page without marks, and files every other page by how full
    /// it is; counts the bytes in use, walking the reams from the first
    /// descriptor after the list roots.
    pub fn sweep(&mut self)
        requires
            old(self).wf(),
        ensures
            final(self).wf(),
            final(self).spec_space().spec_bits() == old(self).spec_space().spec_bits(),
            final(self).spec_space().spec_used() == old(self).spec_space().spec_used(),
            same_extents(final(self).spec_space().spec_pds(), old(self).spec_space().spec_pds()),
            final(self).spec_bytes_used() == walk_bytes(old(self).spec_space().spec_pds(),
                old(self).spec_space().spec_bits(), old(self).spec_space().spec_reserved() as int) as usize,
    {
        let mut count: u64 = 0;
        let end = self.space.used_pds;
        let mut index = self.space.reserved_pds;
        let ghost start = index as int;
        let ghost pds0 = self.space.spec_pds();
        let ghost bits = self.space.spec_bits();
        while index < end
            invariant
                self.wf(),
                end == self.space.spec_used(),
                end <= DATA_PAGES,
                pds0 == old(self).space.spec_pds(),
                bits == old(self).space.spec_bits(),
                start == old(self).space.spec_reserved(),
                start <= index,
                self.space.spec_used() == old(self).space.spec_used(),
                self.space.spec_bits() == bits,
                same_extents(self.space.spec_pds(), pds0),
                count <= index * 4294967296u64,
                count + walk_bytes(pds0, bits, index as int) == walk_bytes(pds0, bits, start),
            decreases end - index,
        {
            let pd = self.space.pd_at(index);
            let pages = pd.pages(&self.space);
            let used = pd.bytes_used(&self.space);
            proof {
                assert(page_bytes(pds0, bits, index as int) == used);
                assert(count + used <= (index + 1) * 4294967296u64) by (nonlinear_arith)
                    requires
                        count <= index * 4294967296u64,
                        used < 4294967296u64;
            }
            count = count + used as u64;
            let ghost before = self.space.spec_pds();

            if pd.is_empty(&self.space) {
                pd.unlink(&mut self.space);
                if pd.is_single_page(&self.space) {
                    self.free_pages.push(&mut self.space, pd);
                } else {
                    self.free_reams.push(&mut self.space, pd);
                }
            } else if pd.is_full(&self.space) {
                // Do nothing
            } else {
                let class = pd.class(&self.space);
                if class == SizeClass::Ream {
                    proof {
                        lemma_ream_marked_is_full(self.space.spec_bits(), index as int);
                    }
                } else {
                    pd.unlink(&mut self.space);
                    let list = self.sized_list(class);
                    list.push(&mut self.space, pd);
                }
            }
            proof {
                assert(same_extents(self.space.spec_pds(), before));
            }
            index = index + pages as u32;
        }
        #[verifier::truncate]
        let total = count as usize;
        self.bytes_used = total;
    }

    /// Takes a ream of exactly `pages` pages off the free reams, from the
    /// first one on the list that is long enough, splitting it when longer,
    /// and unlinks it; the rest goes back to the free pages or reams.  Walks the
    /// list at most once per descriptor.  `None` when no free ream is long
    /// enough.
    fn take_ream(&mut self, pages: u32) -> (res: Option<PdRef>)
        requires
            old(self).wf(),
            pages > 0,
        ensures
            final(self).wf(),
            final(self).spec_bytes_used() == old(self).spec_bytes_used(),
            final(self).spec_space().spec_bits() == old(self).spec_space().spec_bits(),
            res matches Some(r) ==> r.ok(&final(self).spec_space())
                && final(self).spec_space().spec_pds()[r.idx.0 as int].len + 1 == pages,
            res matches Some(r) ==> final(self).spec_space().spec_pds()[r.idx.0 as int].next == r.idx
                && final(self).spec_space().spec_pds()[r.idx.0 as int].prev == r.idx,
            res matches Some(r) ==> exists|m: nat| #[trigger] first_fit(old(self).spec_space().spec_pds(),
                old(self).spec_free_reams(), pages as int, m)
                && r.idx.0 == list_node(old(self).spec_space().spec_pds(), old(self).spec_free_reams(), m),
            res is None ==> old(self).no_free_ream(pages as int),
    {
        let root = self.space.pd(self.free_reams.root);
        let mut current = root.next(&self.space);
        let mut fuel = self.space.used_pds;
        let ghost pds = self.space.spec_pds();
        let ghost r = root.idx.0 as int;
        let ghost mut count: nat = 1;
        proof {
            assert(list_node(pds, r, 1) == pds[list_node(pds, r, 0)].next.0 as int);
        }
        while current.idx.0 != root.idx.0 && fuel > 0
            invariant
                self.wf(),
                pages > 0,
                self.bytes_used == old(self).bytes_used,
                self.space.spec_bits() == old(self).space.spec_bits(),
                self.free_reams == old(self).free_reams,
                self.space.spec_pds() == pds,
                self.space.spec_used() == old(self).spec_space().spec_used(),
                pds == old(self).spec_space().spec_pds(),
                r == old(self).free_reams.root.0 as int,
                root.idx == self.free_reams.root,
                current.ok(&self.space),
                current.idx.0 as int == list_node(pds, r, count),
                count >= 1,
                count + fuel == old(self).spec_space().spec_used() + 1,
                forall|m: nat| 1 <= m < count ==> #[trigger] list_node(pds, r, m) != r
                    && pds[list_node(pds, r, m)].len + 1 < pages,
            decreases fuel,
        {
            fuel = fuel - 1;
            let next = current.next(&self.space);
            if current.is_single_page(&self.space) {
                if pages == 1 {
                    proof {
                        assert(old(self).spec_free_reams() == r);
                        assert(first_fit(old(self).spec_space().spec_pds(), old(self).spec_free_reams(), pages as int, count));
                    }
                    current.unlink(&mut self.space);
                    return Some(current);
                }
                proof {
                    assert(list_node(pds, r, count + 1) == pds[list_node(pds, r, count)].next.0 as int);
                    count = count + 1;
                }
                current = next;
                continue;
            }
            let ghost at = current;
            let (ream, rest) = match current.split(&mut self.space, pages as usize) {
                Some(x) => x,
                None => {
                    proof {
                        assert(self.space.spec_pds() == pds);
                        assert(list_node(pds, r, count + 1) == pds[list_node(pds, r, count)].next.0 as int);
                        count = count + 1;
                    }
                    current = next;
                    continue;
                },
            };

            proof {
                assert(ream == at);
                assert(old(self).spec_free_reams() == r);
                assert(first_fit(old(self).spec_space().spec_pds(), old(self).spec_free_reams(), pages as int, count));
            }
            match rest {
                Some(r) => {
                    if r.is_single_page(&self.space) {
                        self.free_pages.push(&mut self.space, r);
                    } else {
                        self.free_reams.push(&mut self.space, r);
                    }
                },
                None => (),
            };

            ream.unlink(&mut self.space);
            return Some(ream);
        }

        None
    }

    fn alloc_ream(&mut self, pages: u32) -> (res: Option<u64>)
        requires
            old(self).wf(),
            pages > 0,
        ensures
            final(self).wf(),
            final(self).spec_bytes_used() == old(self).spec_bytes_used().wrapping_add((pages * PAGE_BYTES) as usize),
            res matches Some(ptr) ==> DATA_START <= ptr < DATA_START + DATA_BYTES
                && final(self).spec_space().valid(ptr_page(ptr))
                && final(self).spec_space().spec_pds()[ptr_page(ptr)].class == SizeClass::Ream
                && final(self).spec_space().spec_pds()[ptr_page(ptr)].len + 1 == pages
                && ptr == DATA_START + ptr_page(ptr) * PAGE_BYTES,
            res matches Some(ptr) ==> exists|m: nat| #[trigger] first_fit(old(self).spec_space().spec_pds(),
                old(self).spec_free_reams(), pages as int, m)
                && ptr_page(ptr) == list_node(old(self).spec_space().spec_pds(), old(self).spec_free_reams(), m),
            res is None ==> old(self).no_free_ream(pages as int),
    {
        let added = (pages as u64 * PAGE_BYTES as u64) as usize;
        self.bytes_used = self.bytes_used.wrapping_add(added);
        let page = match self.take_ream(pages) {
            Some(page) => page,
            None => return None,
        };

        // A free ream has no marks; clearing them keeps the page's marks
        // within its one block.
        page.set_empty(&mut self.space);
        proof {
            lemma_empty_clean(self.space.spec_bits(), page.idx.0 as int, spec_total_blocks(SizeClass::Ream) as int);
        }
        page.set_class(&mut self.space, SizeClass::Ream);
        page.take_next_block(&mut self.space);
        self.full_reams.push(&mut self.space, page);

        let res = page.data(&self.space, 0);
        proof {
            lemma_block_in_page(page.idx.0 as int, 0, self.space.spec_pds()[page.idx.0 as int].class);
        }
        Some(res)
    }

    #[verifier::rlimit(100)]
    fn alloc_small(&mut self, size_class: SizeClass) -> (res: Option<u64>)
        requires
            old(self).wf(),
            size_class != SizeClass::Ream,
        ensures
            final(self).wf(),
            final(self).spec_bytes_used() == old(self).spec_bytes_used().wrapping_add(spec_block_bytes(size_class)->0),
            res matches Some(ptr) ==> DATA_START <= ptr < DATA_START + DATA_BYTES
                && final(self).spec_space().valid(ptr_page(ptr))
                && ({
                    let c = final(self).spec_space().spec_pds()[ptr_page(ptr)].class;
                    &&& ptr_block(ptr, c) < spec_total_blocks(c)
                    &&& page_bit(final(self).spec_space().spec_bits(), ptr_page(ptr), ptr_block(ptr, c))
                }),
            res matches Some(ptr) ==> fresh_block(old(self).spec_space().spec_bits(), final(self).spec_space().spec_bits(),
                ptr_page(ptr), ptr_block(ptr, final(self).spec_space().spec_pds()[ptr_page(ptr)].class)),
            res is None ==> old(self).small_exhausted(size_class),
    {
        let size = match size_class.block_bytes() {
            Some(size) => size,
            None => 1,
        };
        self.bytes_used = self.bytes_used.wrapping_add(size);

        let list = self.sized_list(size_class);
        let ghost mut fresh_page = false;

        let page = match list.first(&self.space) {
            Some(page) => page,
            None => {
                let page = match self.free_pages.first(&self.space) {
                    Some(page) => {
                        page.unlink(&mut self.space);
                        page
                    },
                    None => {
                        let ghost before_take = *self;
                        assert(before_take.space == old(self).space);
                        assert(before_take.free_reams == old(self).free_reams);
                        match self.take_ream(1) {
                            Some(page) => page,
                            None => {
                                assert(old(self).no_free_ream(1));
                                return None;
                            },
                        }
                    },
                };

                list.push(&mut self.space, page);
                page.set_empty(&mut self.space);
                proof {
                    lemma_empty_clean(self.space.spec_bits(), page.idx.0 as int, spec_total_blocks(size_class) as int);
                }
                page.set_class(&mut self.space, size_class);
                proof { fresh_page = true; }
                page
            },
        };
        let ghost pre = self.space;
        assert(fresh_page ==> page_empty(pre.spec_bits(), page.idx.0 as int));
        assert(!fresh_page ==> pre.spec_bits() == old(self).space.spec_bits());

        let index = match page.take_next_block(&mut self.space) {
            Some(index) => index,
            // A full page on the list of partly used pages.
            None => {
                proof {
                    if fresh_page {
                        let p = page.idx.0 as int;
                        let c = pre.spec_pds()[p].class;
                        lemma_total_blocks(c);
                        lemma_mask_nonzero(spec_total_blocks(c) as int);
                        assert(pre.spec_bits()[4 * p + 0] == 0);
                        assert(pre.spec_bits()[4 * p + 0] == word_mask(spec_total_blocks(c) as int, 0));
                    } else {
                        assert(pre.spec_pds() == old(self).space.spec_pds());
                    }
                }
                return None;
            },
        };
        let ghost taken = self.space;
        proof {
            let p = page.idx.0 as int;
            if fresh_page {
                assert forall|j: int| 0 <= j < 256 && j != index implies !#[trigger] page_bit(taken.spec_bits(), p, j) by {
                    lemma_empty_bit(pre.spec_bits(), p, j);
                }
            }
        }

        if page.is_full(&self.space) {
            page.unlink(&mut self.space);
            self.full_pages.push(&mut self.space, page);
        }

        let ptr = page.data(&self.space, index);
        proof {
            let p = page.idx.0 as int;
            let c = self.space.spec_pds()[p].class;
            assert(c == taken.spec_pds()[p].class);
            assert(self.space.spec_bits() == taken.spec_bits());
            lemma_block_in_page(p, index as int, c);
            lemma_total_blocks(c);
            let b = match spec_block_bytes(c) { Some(b) => b as int, None => 1int };
            assert(b > 0) by {
                match c {
                    SizeClass::Ream => {},
                    _ => { assert(spec_block_bytes(c)->0 >= 16); },
                }
            }
            assert(ptr_page(ptr) == p);
            assert((ptr - DATA_START) % 4096 == index * b);
            assert(((index as int) * b) / b == index) by (nonlinear_arith)
                requires
                    b > 0;
            assert(ptr_block(ptr, c) == index);
        }
        Some(ptr)
    }
}

/// The descriptor `n` links on from `from`, following the links to the
/// next one.
pub open spec fn list_node(pds: Seq<PageDescriptor>, from: int, n: nat) -> int
    decreases n,
{
    if n == 0 {
        from
    } else {
        pds[list_node(pds, from, (n - 1) as nat)].next.0 as int
    }
}

/// Walking the reams from descriptor `from`, each to the one after its
/// pages, reaches descriptor `p`.
pub open spec fn walk_reaches(pds: Seq<PageDescriptor>, from: int, p: int) -> bool
    decreases pds.len() - from,
{
    if from < 0 || from >= pds.len() {
        false
    } else if p == from {
        true
    } else {
        let next = from + pds[from].len + 1;
        if p < from || next > pds.len() {
            false
        } else {
            walk_reaches(pds, next, p)
        }
    }
}

/// The two descriptor tables differ at most in their links: each
/// descriptor keeps its number of pages and its class.
pub open spec fn same_extents(a: Seq<PageDescriptor>, b: Seq<PageDescriptor>) -> bool {
    &&& a.len() == b.len()
    &&& forall|i: int| 0 <= i < a.len() ==> (#[trigger] a[i]).len == b[i].len && a[i].class == b[i].class
}

/// The bytes in use on the page of descriptor `p`: for a ream, all its
/// pages (taken modulo 2^32) unless nothing is marked; otherwise its marked
/// blocks.
pub open spec fn page_bytes(pds: Seq<PageDescriptor>, bits: Seq<u64>, p: int) -> int {
    if pds[p].class == SizeClass::Ream {
        if page_empty(bits, p) { 0 } else { ((pds[p].len + 1) * PAGE_BYTES) as u32 as int }
    } else {
        page_count(bits, p) * spec_block_bytes(pds[p].class)->0
    }
}

/// The bytes in use on the reams and pages met walking from descriptor
/// `from`, each to the one after its pages.
pub open spec fn walk_bytes(pds: Seq<PageDescriptor>, bits: Seq<u64>, from: int) -> int
    decreases pds.len() - from,
{
    if from < 0 || from >= pds.len() {
        0
    } else {
        let next = from + pds[from].len + 1;
        if next > pds.len() {
            page_bytes(pds, bits, from)
        } else {
            page_bytes(pds, bits, from) + walk_bytes(pds, bits, next)
        }
    }
}

/// The smallest small class whose blocks hold `bytes` bytes.
pub open spec fn small_class_for(bytes: int) -> SizeClass {
    if bytes <= 16 { SizeClass::Block16 }
    else if bytes <= 32 { SizeClass::Block32 }
    else if bytes <= 64 { SizeClass::Block64 }
    else if bytes <= 128 { SizeClass::Block128 }
    else if bytes <= 256 { SizeClass::Block256 }
    else if bytes <= 512 { SizeClass::Block512 }
    else if bytes <= 1024 { SizeClass::Block1024 }
    else if bytes <= 2048 { SizeClass::Block2048 }
    else { SizeClass::Block4096 }
}

/// The smallest small class whose blocks hold `bytes` bytes: the class of
/// the next power of two, and no smaller than 16 bytes.
pub fn small_class(bytes: usize) -> (res: SizeClass)
    requires
        bytes <= PAGE_BYTES,
    ensures
        res == small_class_for(bytes as int),
{
    if bytes <= 16 {
        SizeClass::Block16
    } else if bytes <= 32 {
        SizeClass::Block32
    } else if bytes <= 64 {
        SizeClass::Block64
    } else if bytes <= 128 {
        SizeClass::Block128
    } else if bytes <= 256 {
        SizeClass::Block256
    } else if bytes <= 512 {
        SizeClass::Block512
    } else if bytes <= 1024 {
        SizeClass::Block1024
    } else if bytes <= 2048 {
        SizeClass::Block2048
    } else {
        SizeClass::Block4096
    }
}

/// The number of set bits of a word.
fn word_count_ones(w: u64) -> (res: u32)
    ensures
        res == count_ones(w, 64),
        res <= 64,
{
    let mut count: u32 = 0;
    let mut i: u64 = 0;
    while i < 64
        invariant
            i <= 64,
            count == count_ones(w, i as nat),
            count <= i,
        decreases 64 - i,
    {
        if (w >> i) & 1u64 == 1u64 {
            count = count + 1;
        }
        i = i + 1;
    }
    count
}

/// Writing one descriptor of the space with links in use keeps it well formed.
proof fn lemma_pds_update_wf(before: AddrSpace, after: AddrSpace, i: int)
    requires
        before.wf(),
        0 <= i < before.spec_used(),
        after.spec_used() == before.spec_used(),
        after.spec_reserved() == before.spec_reserved(),
        after.spec_bits() == before.spec_bits(),
        after.spec_pds().len() == before.spec_pds().len(),
        forall|j: int| 0 <= j < before.spec_used() && j != i ==> after.spec_pds()[j] == before.spec_pds()[j],
        after.valid(after.spec_pds()[i].prev.0 as int),
        after.valid(after.spec_pds()[i].next.0 as int),
        i + after.spec_pds()[i].len < after.spec_used(),
        page_clean(after.spec_bits(), i, spec_total_blocks(after.spec_pds()[i].class) as int),
    ensures
        after.wf(),
{
    assert forall|p: int| 0 <= p < after.spec_used() implies #[trigger] page_clean(after.spec_bits(), p,
        spec_total_blocks(after.spec_pds()[p].class) as int) by {
        if p != i {
            assert(after.spec_pds()[p] == before.spec_pds()[p]);
        }
    }
    assert forall|j: int| #![trigger after.spec_pds()[j]] 0 <= j < after.spec_used() implies {
        &&& after.valid(after.spec_pds()[j].prev.0 as int)
        &&& after.valid(after.spec_pds()[j].next.0 as int)
        &&& j + after.spec_pds()[j].len < after.spec_used()
    } by {
        if j != i {
            assert(after.spec_pds()[j] == before.spec_pds()[j]);
        }
    }
}


/// Descriptor `m` steps along the list from `root` heads the first ream on
/// the list that holds at least `pages` pages.
pub open spec fn first_fit(pds: Seq<PageDescriptor>, root: int, pages: int, m: nat) -> bool {
    &&& m >= 1
    &&& forall|q: nat| 1 <= q < m ==> #[trigger] list_node(pds, root, q) != root
        && pds[list_node(pds, root, q)].len + 1 < pages
    &&& list_node(pds, root, m) != root
    &&& pds[list_node(pds, root, m)].len + 1 >= pages
}

/// Block `b` of page `p` was free in `before`, or the page had just been
/// taken empty and this block is the only one marked in `after`.
pub open spec fn fresh_block(before: Seq<u64>, after: Seq<u64>, p: int, b: int) -> bool {
    ||| !page_bit(before, p, b)
    ||| forall|j: int| 0 <= j < 256 && j != b ==> !#[trigger] page_bit(after, p, j)
}

/// No block of an empty page is marked.
proof fn lemma_empty_bit(bits: Seq<u64>, p: int, j: int)
    requires
        page_empty(bits, p),
        0 <= j < 256,
    ensures
        !page_bit(bits, p, j),
{
    assert(bits[4 * p + j / 64] == 0);
    let w = bits[4 * p + j / 64];
    let s = (j % 64) as u64;
    assert(w == 0u64 ==> (w >> s) & 1u64 == 0u64) by (bit_vector);
}

/// The first word of a full page with at least one block is not zero.
proof fn lemma_mask_nonzero(total: int)
    requires
        1 <= total,
    ensures
        word_mask(total, 0) != 0,
{
    if total < 64 {
        let n = total as u64;
        assert(1 <= n < 64 ==> ((1u64 << n) - 1u64) as u64 != 0u64) by (bit_vector);
    }
}

} // verus!
