//! Addresses, frames, pages, page-table entries and page tables.

use vstd::prelude::*;

verus! {

/// Size of a page and of a frame, in bytes.
pub const PAGE_SIZE: usize = 4096;

/// Number of entries in each page table.
pub const ENTRY_COUNT: usize = 512;

/// `x` rounded down to a multiple of `align`.
pub open spec fn align_down_spec(x: u64, align: u64) -> int {
    x - x % align
}

/// `x` rounded up to a multiple of `align`.
pub open spec fn align_up_spec(x: u64, align: u64) -> int {
    if x % align == 0 {
        x as int
    } else {
        x - x % align + align
    }
}

fn round_down(x: u64, align: usize) -> (r: u64)
    requires
        align > 0,
    ensures
        r == align_down_spec(x, align as u64),
{
    let a = align as u64;
    assert(x % a <= x) by (nonlinear_arith)
        requires
            a > 0,
    ;
    x - x % a
}

fn round_up(x: u64, align: usize) -> (r: u64)
    requires
        align > 0,
        x + align - 1 <= u64::MAX,
    ensures
        r == align_up_spec(x, align as u64),
{
    let a = align as u64;
    let rem = x % a;
    assert(x % a <= x) by (nonlinear_arith)
        requires
            a > 0,
    ;
    if rem == 0 {
        x
    } else {
        x - rem + a
    }
}

/// Bits 12..52 of an entry: the physical address it holds.
pub const ADDR_MASK: u64 = 0x000F_FFFF_FFFF_F000;

/// The bits of an entry outside 12..52: its flag bits, NO_EXECUTE included.
pub const FLAG_MASK: u64 = 0xFFF0_0000_0000_0FFF;

/// Highest physical address that a page-table entry can hold, plus one.
pub const PHYS_ADDR_LIMIT: u64 = 0x10_0000_0000_0000;

/// Page is present in memory.
pub const PRESENT: u64 = 1;

/// Page is writable.
pub const WRITABLE: u64 = 2;

/// Page is accessible from user mode.
pub const USER_ACCESSIBLE: u64 = 4;

/// Write-through caching.
pub const WRITE_THROUGH: u64 = 8;

/// Caching disabled.
pub const NO_CACHE: u64 = 16;

/// Set by the processor on access.
pub const ACCESSED: u64 = 32;

/// Set by the processor on write.
pub const DIRTY: u64 = 64;

/// Entry maps a 2 MiB or 1 GiB page.
pub const HUGE_PAGE: u64 = 128;

/// Translation kept across address-space switches.
pub const GLOBAL: u64 = 256;

/// Execution disabled.
pub const NO_EXECUTE: u64 = 0x8000_0000_0000_0000;

/// The named flags leave the address bits 12..52 clear.
pub proof fn lemma_flags_clear_address()
    ensures
        PRESENT & ADDR_MASK == 0,
        WRITABLE & ADDR_MASK == 0,
        USER_ACCESSIBLE & ADDR_MASK == 0,
        WRITE_THROUGH & ADDR_MASK == 0,
        NO_CACHE & ADDR_MASK == 0,
        ACCESSED & ADDR_MASK == 0,
        DIRTY & ADDR_MASK == 0,
        HUGE_PAGE & ADDR_MASK == 0,
        GLOBAL & ADDR_MASK == 0,
        NO_EXECUTE & ADDR_MASK == 0,
{
    assert(1u64 & 0x000F_FFFF_FFFF_F000u64 == 0 && 2u64 & 0x000F_FFFF_FFFF_F000u64 == 0 && 4u64
        & 0x000F_FFFF_FFFF_F000u64 == 0 && 8u64 & 0x000F_FFFF_FFFF_F000u64 == 0 && 16u64
        & 0x000F_FFFF_FFFF_F000u64 == 0 && 32u64 & 0x000F_FFFF_FFFF_F000u64 == 0 && 64u64
        & 0x000F_FFFF_FFFF_F000u64 == 0 && 128u64 & 0x000F_FFFF_FFFF_F000u64 == 0 && 256u64
        & 0x000F_FFFF_FFFF_F000u64 == 0 && 0x8000_0000_0000_0000u64 & 0x000F_FFFF_FFFF_F000u64
        == 0) by (bit_vector);
}

/// Index into the table at `level` (1 to 4) for the virtual address `v`.
pub open spec fn index_spec(v: u64, level: int) -> u64 {
    (v >> ((12 + 9 * (level - 1)) as u64)) & 0x1FF
}

/// Offset of `v` within its page.
pub open spec fn offset_spec(v: u64) -> u64 {
    v & 0xFFF
}

/// Bits 48..64 agree with bit 47.
pub open spec fn is_canonical(v: u64) -> bool {
    v >> 47u64 == 0 || v >> 47u64 == 0x1FFFF
}

/// The address held by the entry word `w`.
pub open spec fn entry_addr(w: u64) -> u64 {
    w & ADDR_MASK
}

/// The entry word `w` has PRESENT set.
pub open spec fn is_present(w: u64) -> bool {
    w & PRESENT != 0
}

/// The entry word `w` has HUGE_PAGE set.
pub open spec fn is_huge(w: u64) -> bool {
    w & HUGE_PAGE != 0
}

/// A physical memory address.
#[derive(Debug, Clone, Copy, PartialEq, Eq, Structural)]
pub struct PhysAddr(pub u64);

impl PhysAddr {
    /// The address `addr`.
    pub fn new(addr: u64) -> (r: PhysAddr)
        ensures
            r.0 == addr,
    {
        PhysAddr(addr)
    }

    /// Whether the address is a multiple of `align`.
    pub fn is_aligned(&self, align: usize) -> (r: bool)
        requires
            align > 0,
        ensures
            r == (self.0 % align as u64 == 0),
    {
        self.0 % align as u64 == 0
    }

    /// The address rounded down to a multiple of `align`.
    pub fn align_down(&self, align: usize) -> (r: PhysAddr)
        requires
            align > 0,
        ensures
            r.0 == align_down_spec(self.0, align as u64),
    {
        PhysAddr(round_down(self.0, align))
    }

    /// The address rounded up to a multiple of `align`.
    pub fn align_up(&self, align: usize) -> (r: PhysAddr)
        requires
            align > 0,
            self.0 + align - 1 <= u64::MAX,
        ensures
            r.0 == align_up_spec(self.0, align as u64),
    {
        PhysAddr(round_up(self.0, align))
    }

    /// The raw address.
    pub fn as_u64(&self) -> (r: u64)
        ensures
            r == self.0,
    {
        self.0
    }
}


/// A virtual memory address.
#[derive(Debug, Clone, Copy, PartialEq, Eq, Structural)]
pub struct VirtAddr(pub u64);

impl VirtAddr {
    /// The canonical address `addr`.
    pub fn new(addr: u64) -> (r: VirtAddr)
        requires
            is_canonical(addr),
        ensures
            r.0 == addr,
    {
        VirtAddr(addr)
    }

    /// The address `addr`, canonical or not.
    pub fn new_unchecked(addr: u64) -> (r: VirtAddr)
        ensures
            r.0 == addr,
    {
        VirtAddr(addr)
    }

    /// Whether the address is a multiple of `align`.
    pub fn is_aligned(&self, align: usize) -> (r: bool)
        requires
            align > 0,
        ensures
            r == (self.0 % align as u64 == 0),
    {
        self.0 % align as u64 == 0
    }

    /// The address rounded down to a multiple of `align`.
    pub fn align_down(&self, align: usize) -> (r: VirtAddr)
        requires
            align > 0,
        ensures
            r.0 == align_down_spec(self.0, align as u64),
    {
        VirtAddr(round_down(self.0, align))
    }

    /// The address rounded up to a multiple of `align`.
    pub fn align_up(&self, align: usize) -> (r: VirtAddr)
        requires
            align > 0,
            self.0 + align - 1 <= u64::MAX,
        ensures
            r.0 == align_up_spec(self.0, align as u64),
    {
        VirtAddr(round_up(self.0, align))
    }

    /// The raw address.
    pub fn as_u64(&self) -> (r: u64)
        ensures
            r == self.0,
    {
        self.0
    }

    /// The 9-bit index into the table at `level` that this address selects.
    pub fn page_table_index(&self, level: PageTableLevel) -> (r: usize)
        ensures
            r == index_spec(self.0, level.number()),
            r < ENTRY_COUNT,
    {
        let shift: u64 = 12 + (level.as_u64() - 1) * 9;
        let v = self.0;
        assert((v >> shift) & 0x1FF < 512) by (bit_vector);
        ((v >> shift) & 0x1FF) as usize
    }

    /// The offset of the address within its page.
    pub fn page_offset(&self) -> (r: usize)
        ensures
            r == offset_spec(self.0),
            r < PAGE_SIZE,
    {
        let v = self.0;
        assert(v & 0xFFF < 4096) by (bit_vector);
        (v & 0xFFF) as usize
    }
}

/// Every index that an address selects is below the table size.
pub proof fn lemma_index_in_range(v: VirtAddr, level: int)
    requires
        1 <= level <= 4,
    ensures
        0 <= index_spec(v.0, level) < ENTRY_COUNT,
{
    let x = v.0;
    let s = (12 + 9 * (level - 1)) as u64;
    assert((x >> s) & 0x1FF < 512) by (bit_vector);
}

/// Rounding an address (physical or virtual) down and up to a multiple `n`
/// of the page size brackets it within less than `n`, and both results are
/// multiples of `n`.
pub proof fn lemma_alignment_brackets(a: u64, n: u64)
    requires
        n >= PAGE_SIZE,
        n % PAGE_SIZE as u64 == 0,
        a + n - 1 <= u64::MAX,
    ensures
        align_down_spec(a, n) <= a <= align_up_spec(a, n),
        a - align_down_spec(a, n) < n,
        align_up_spec(a, n) - a < n,
        align_down_spec(a, n) % n as int == 0,
        align_up_spec(a, n) % n as int == 0,
{
    let x = a as int;
    let m = n as int;
    let q = x / m;
    vstd::arithmetic::div_mod::lemma_fundamental_div_mod(x, m);
    vstd::arithmetic::div_mod::lemma_mod_pos_bound(x, m);
    vstd::arithmetic::mul::lemma_mul_is_commutative(m, q);
    vstd::arithmetic::div_mod::lemma_mod_multiples_basic(q, m);
    vstd::arithmetic::mul::lemma_mul_is_distributive_add_other_way(m, q, 1);
    vstd::arithmetic::div_mod::lemma_mod_multiples_basic(q + 1, m);
    assert(x - x % m == q * m);
    assert(x - x % m + m == (q + 1) * m);
}

/// The four levels of the paging hierarchy.
#[derive(Debug, Clone, Copy, PartialEq, Eq, Structural)]
pub enum PageTableLevel {
    /// Page table: its entries map 4 KiB pages.
    One,
    /// Page directory.
    Two,
    /// Page-directory-pointer table.
    Three,
    /// Top-level table (PML4).
    Four,
}

impl PageTableLevel {
    /// The level as a number from 1 to 4.
    pub open spec fn number(self) -> int {
        match self {
            PageTableLevel::One => 1,
            PageTableLevel::Two => 2,
            PageTableLevel::Three => 3,
            PageTableLevel::Four => 4,
        }
    }

    /// The level as a number from 1 to 4.
    pub fn as_u64(self) -> (r: u64)
        ensures
            r == self.number(),
    {
        match self {
            PageTableLevel::One => 1,
            PageTableLevel::Two => 2,
            PageTableLevel::Three => 3,
            PageTableLevel::Four => 4,
        }
    }
}

/// Flag bits of a page-table entry.
#[derive(Debug, Clone, Copy, PartialEq, Eq, Structural)]
pub struct PageTableFlags(u64);

impl View for PageTableFlags {
    type V = u64;

    /// The raw bits.
    closed spec fn view(&self) -> u64 {
        self.0
    }
}

proof fn lemma_addr_free_ops(a: u64, b: u64)
    requires
        a & ADDR_MASK == 0,
        b & ADDR_MASK == 0,
    ensures
        (a | b) & ADDR_MASK == 0,
        (a & !b) & ADDR_MASK == 0,
{
    assert((a | b) & 0x000F_FFFF_FFFF_F000u64 == 0) by (bit_vector)
        requires
            a & 0x000F_FFFF_FFFF_F000u64 == 0,
            b & 0x000F_FFFF_FFFF_F000u64 == 0,
    ;
    assert((a & !b) & 0x000F_FFFF_FFFF_F000u64 == 0) by (bit_vector)
        requires
            a & 0x000F_FFFF_FFFF_F000u64 == 0,
    ;
}

impl PageTableFlags {
    /// Flags never touch the address bits 12..52.
    #[verifier::type_invariant]
    spec fn no_address_bits(self) -> bool {
        self.0 & ADDR_MASK == 0
    }

    /// The flag set with the given bits, which must leave bits 12..52 clear.
    pub fn from_bits(bits: u64) -> (r: PageTableFlags)
        requires
            bits & ADDR_MASK == 0,
        ensures
            r@ == bits,
    {
        PageTableFlags(bits)
    }

    /// No flag set.
    pub fn empty() -> (r: PageTableFlags)
        ensures
            r@ == 0,
    {
        assert(0u64 & 0x000F_FFFF_FFFF_F000u64 == 0) by (bit_vector);
        PageTableFlags(0)
    }

    /// Whether every flag of `other` is set here.
    pub fn contains(self, other: PageTableFlags) -> (r: bool)
        ensures
            r == (self@ & other@ == other@),
    {
        (self.0 & other.0) == other.0
    }

    /// Sets the flags of `other`.
    pub fn insert(&mut self, other: PageTableFlags)
        ensures
            final(self)@ == old(self)@ | other@,
    {
        proof {
            use_type_invariant(&*self);
            use_type_invariant(&other);
            lemma_addr_free_ops(self.0, other.0);
        }
        self.0 = self.0 | other.0;
    }

    /// Clears the flags of `other`.
    pub fn remove(&mut self, other: PageTableFlags)
        ensures
            final(self)@ == old(self)@ & !other@,
    {
        proof {
            use_type_invariant(&*self);
            use_type_invariant(&other);
            lemma_addr_free_ops(self.0, other.0);
        }
        self.0 = self.0 & !other.0;
    }

    /// The flags set here or in `other`.
    pub fn union(self, other: PageTableFlags) -> (r: PageTableFlags)
        ensures
            r@ == self@ | other@,
    {
        proof {
            use_type_invariant(&self);
            use_type_invariant(&other);
            lemma_addr_free_ops(self.0, other.0);
        }
        PageTableFlags(self.0 | other.0)
    }

    /// The raw bits; bits 12..52 are always clear.
    pub fn bits(self) -> (r: u64)
        ensures
            r == self@,
            r & ADDR_MASK == 0,
    {
        proof {
            use_type_invariant(&self);
        }
        self.0
    }
}

/// A union of flag sets contains each of them.
pub proof fn lemma_union_contains_both(f: PageTableFlags, g: PageTableFlags)
    ensures
        (f@ | g@) & f@ == f@,
        (f@ | g@) & g@ == g@,
{
    let a = f@;
    let b = g@;
    assert((a | b) & a == a) by (bit_vector);
    assert((a | b) & b == b) by (bit_vector);
}

/// A page-table entry: a 64-bit word of flag bits and a physical address.
#[derive(Debug, Clone, Copy, PartialEq, Eq, Structural)]
pub struct PageTableEntry {
    pub entry: u64,
}

impl PageTableEntry {
    /// An unused (all-zero) entry.
    pub fn new() -> (r: PageTableEntry)
        ensures
            r.entry == 0,
    {
        PageTableEntry { entry: 0 }
    }

    /// Whether the whole word is zero.
    pub fn is_unused(&self) -> (r: bool)
        ensures
            r == (self.entry == 0),
    {
        self.entry == 0
    }

    /// Clears the whole word.
    pub fn set_unused(&mut self)
        ensures
            final(self).entry == 0,
    {
        self.entry = 0;
    }

    /// The flag bits: every bit outside the address bits 12..52.
    pub fn flags(&self) -> (r: PageTableFlags)
        ensures
            r@ == self.entry & FLAG_MASK,
    {
        let w = self.entry;
        assert((w & 0xFFF0_0000_0000_0FFFu64) & 0x000F_FFFF_FFFF_F000u64 == 0) by (bit_vector);
        PageTableFlags(self.entry & FLAG_MASK)
    }

    /// The physical address held in bits 12..52.
    pub fn addr(&self) -> (r: PhysAddr)
        ensures
            r.0 == entry_addr(self.entry),
            r.0 % 4096 == 0,
            r.0 < 0x10_0000_0000_0000,
    {
        let w = self.entry;
        assert((w & 0x000F_FFFF_FFFF_F000u64) % 4096 == 0) by (bit_vector);
        assert(w & 0x000F_FFFF_FFFF_F000u64 < 0x10_0000_0000_0000) by (bit_vector);
        PhysAddr(self.entry & ADDR_MASK)
    }

    /// The frame that starts at the held address.
    pub fn frame(&self) -> (r: PhysFrame)
        ensures
            r@ == entry_addr(self.entry),
    {
        PhysFrame::containing_address(self.addr())
    }

    /// Stores `addr` and `flags`; `addr` must be page aligned.
    pub fn set_addr(&mut self, addr: PhysAddr, flags: PageTableFlags)
        requires
            addr.0 % 4096 == 0,
            addr.0 < PHYS_ADDR_LIMIT,
        ensures
            final(self).entry == addr.0 | flags@,
            entry_addr(final(self).entry) == addr.0,
            final(self).entry & FLAG_MASK == flags@,
    {
        proof {
            use_type_invariant(&flags);
            lemma_entry_round_trip(addr.0, flags@);
        }
        self.entry = addr.0 | flags.bits();
    }

    /// Replaces the flags and keeps the held address.
    pub fn set_flags(&mut self, flags: PageTableFlags)
        ensures
            final(self).entry == entry_addr(old(self).entry) | flags@,
            entry_addr(final(self).entry) == entry_addr(old(self).entry),
            final(self).entry & FLAG_MASK == flags@,
    {
        proof {
            use_type_invariant(&flags);
            let w = self.entry;
            let f = flags@;
            assert(((w & 0x000F_FFFF_FFFF_F000u64) | f) & 0x000F_FFFF_FFFF_F000u64 == w
                & 0x000F_FFFF_FFFF_F000u64 && ((w & 0x000F_FFFF_FFFF_F000u64) | f)
                & 0xFFF0_0000_0000_0FFFu64 == f) by (bit_vector)
                requires
                    f & 0x000F_FFFF_FFFF_F000u64 == 0,
            ;
        }
        let addr = self.addr();
        self.entry = addr.0 | flags.bits();
    }
}

/// An address stored with flags that leave bits 12..52 alone reads back
/// unchanged, and the flags read back as stored.
pub proof fn lemma_entry_round_trip(p: u64, f: u64)
    requires
        p % 4096 == 0,
        p < 0x10_0000_0000_0000,
        f & ADDR_MASK == 0,
    ensures
        entry_addr(p | f) == p,
        (p | f) & FLAG_MASK == f,
{
    assert((p | f) & 0x000F_FFFF_FFFF_F000u64 == p) by (bit_vector)
        requires
            p % 4096 == 0,
            p < 0x10_0000_0000_0000,
            f & 0x000F_FFFF_FFFF_F000u64 == 0,
    ;
    assert((p | f) & 0xFFF0_0000_0000_0FFFu64 == f) by (bit_vector)
        requires
            p % 4096 == 0,
            p < 0x10_0000_0000_0000,
            f & 0x000F_FFFF_FFFF_F000u64 == 0,
    ;
}

/// A physical 4 KiB frame.
#[derive(Debug, Clone, Copy, PartialEq, Eq, Structural)]
pub struct PhysFrame {
    start_address: PhysAddr,
}

impl View for PhysFrame {
    type V = u64;

    /// The frame's start address.
    closed spec fn view(&self) -> u64 {
        self.start_address.0
    }
}

impl PhysFrame {
    #[verifier::type_invariant]
    spec fn aligned(self) -> bool {
        self.start_address.0 % 4096 == 0
    }

    /// The frame that contains `addr`.
    pub fn containing_address(addr: PhysAddr) -> (r: PhysFrame)
        ensures
            r@ == align_down_spec(addr.0, 4096),
    {
        let start = addr.align_down(PAGE_SIZE);
        proof {
            assert(start.0 % 4096 == 0) by {
                vstd::arithmetic::div_mod::lemma_mod_self_0(4096);
                let x = addr.0 as int;
                vstd::arithmetic::div_mod::lemma_fundamental_div_mod(x, 4096);
                vstd::arithmetic::div_mod::lemma_mod_multiples_basic(x / 4096, 4096);
            }
        }
        PhysFrame { start_address: start }
    }

    /// The first address of the frame.
    pub fn start_address(&self) -> (r: PhysAddr)
        ensures
            r.0 == self@,
            r.0 % 4096 == 0,
    {
        proof {
            use_type_invariant(self);
        }
        self.start_address
    }

    /// The frame number: the start address divided by the page size.
    pub fn number(&self) -> (r: u64)
        ensures
            r == self@ / 4096,
    {
        self.start_address.0 / PAGE_SIZE as u64
    }
}

/// Two frames with the same start address are the same frame.
pub proof fn lemma_frame_eq(a: PhysFrame, b: PhysFrame)
    requires
        a@ == b@,
    ensures
        a == b,
{
}

/// A virtual 4 KiB page.
#[derive(Debug, Clone, Copy, PartialEq, Eq, Structural)]
pub struct Page {
    start_address: VirtAddr,
}

impl View for Page {
    type V = u64;

    /// The page's start address.
    closed spec fn view(&self) -> u64 {
        self.start_address.0
    }
}

impl Page {
    #[verifier::type_invariant]
    spec fn aligned(self) -> bool {
        self.start_address.0 % 4096 == 0
    }

    /// The page that contains `addr`.
    pub fn containing_address(addr: VirtAddr) -> (r: Page)
        ensures
            r@ == align_down_spec(addr.0, 4096),
    {
        let start = addr.align_down(PAGE_SIZE);
        proof {
            let x = addr.0 as int;
            vstd::arithmetic::div_mod::lemma_fundamental_div_mod(x, 4096);
            vstd::arithmetic::div_mod::lemma_mod_multiples_basic(x / 4096, 4096);
        }
        Page { start_address: start }
    }

    /// The first address of the page.
    pub fn start_address(&self) -> (r: VirtAddr)
        ensures
            r.0 == self@,
            r.0 % 4096 == 0,
    {
        proof {
            use_type_invariant(self);
        }
        self.start_address
    }

    /// The page number: the start address divided by the page size.
    pub fn number(&self) -> (r: u64)
        ensures
            r == self@ / 4096,
    {
        self.start_address.0 / PAGE_SIZE as u64
    }
}

/// A page table: 512 entries, at any level of the hierarchy.
#[derive(Debug)]
pub struct PageTable {
    entries: [PageTableEntry; 512],
}

impl View for PageTable {
    type V = Seq<u64>;

    /// The entry words, in index order.
    closed spec fn view(&self) -> Seq<u64> {
        Seq::new(ENTRY_COUNT as nat, |i: int| self.entries@[i].entry)
    }
}

/// A table always holds 512 entry words.
pub broadcast proof fn lemma_table_len(t: PageTable)
    ensures
        #[trigger] t@.len() == ENTRY_COUNT,
{
}

impl PageTable {
    /// A table whose entries are all unused.
    pub fn new() -> (r: PageTable)
        ensures
            forall|i: int| 0 <= i < ENTRY_COUNT ==> #[trigger] r@[i] == 0,
    {
        let entries: [PageTableEntry; 512] = [PageTableEntry { entry: 0 }; 512];
        assert(entries@.len() == 512);
        PageTable { entries }
    }

    /// Marks every entry unused.
    pub fn zero(&mut self)
        ensures
            forall|i: int| 0 <= i < ENTRY_COUNT ==> #[trigger] final(self)@[i] == 0,
    {
        let mut n: usize = 0;
        while n < ENTRY_COUNT
            invariant
                n <= ENTRY_COUNT,
                forall|i: int| 0 <= i < n ==> #[trigger] self.entries@[i].entry == 0,
            decreases ENTRY_COUNT - n,
        {
            self.entries[n] = PageTableEntry::new();
            n = n + 1;
        }
    }

    /// The entry at `index`.
    pub fn entry(&self, index: usize) -> (r: PageTableEntry)
        requires
            index < ENTRY_COUNT,
        ensures
            r.entry == self@[index as int],
    {
        self.entries[index]
    }

    /// Overwrites the entry at `index`.
    pub fn set_entry(&mut self, index: usize, e: PageTableEntry)
        requires
            index < ENTRY_COUNT,
        ensures
            final(self)@ == old(self)@.update(index as int, e.entry),
    {
        self.entries[index] = e;
        assert(self@ =~= old(self)@.update(index as int, e.entry));
    }

    /// The entry at `index`, to change in place.
    pub fn entry_mut(&mut self, index: usize) -> (r: &mut PageTableEntry)
        requires
            index < ENTRY_COUNT,
        ensures
            r.entry == old(self)@[index as int],
            final(self)@ == old(self)@.update(index as int, final(r).entry),
    {
        &mut self.entries[index]
    }

    /// The entries, in index order.
    pub fn iter(&self) -> (r: std::slice::Iter<'_, PageTableEntry>)
        ensures
            vstd::std_specs::iter::IteratorSpec::remaining(&r).len() == ENTRY_COUNT,
            forall|i: int|
                0 <= i < ENTRY_COUNT ==> (#[trigger] vstd::std_specs::iter::IteratorSpec::remaining(
                    &r,
                )[i]).entry == self@[i],
    {
        let sl = self.entries.as_slice();
        let r = sl.iter();
        proof {
            vstd::std_specs::slice::axiom_spec_slice_iter(sl);
        }
        r
    }
}

} // verus!
