//! The Multiboot2 boot-information blob and its memory map.
//!
//! The blob starts with `u32 total_size; u32 reserved;` and is followed by
//! 8-byte-aligned tags `u32 type; u32 size;` plus `size - 8` bytes of
//! payload, up to an End tag (type 0). The memory-map tag (type 6) holds
//! `u32 entry_size; u32 entry_version;` and then its entries, each
//! `u64 base_addr; u64 length; u32 mem_type; u32 reserved;` at a stride of
//! `entry_size`. All integers are little-endian.

use vstd::prelude::*;

verus! {

/// The magic word a Multiboot2 loader hands to the kernel.
pub const MULTIBOOT2_MAGIC: u32 = 0x36d76289;

/// Type code of the End tag.
pub const TAG_END: u32 = 0;

/// Type code of the memory-map tag.
pub const TAG_MEMORY_MAP: u32 = 6;

/// Smallest stride of memory-map entries: the size of one entry.
pub const MIN_ENTRY_SIZE: u32 = 24;

/// Multiboot2 tag types.
#[derive(Debug, Clone, Copy, PartialEq, Eq, Structural)]
pub enum TagType {
    End,
    BootCommandLine,
    BootLoaderName,
    Module,
    BasicMemInfo,
    BiosBootDevice,
    MemoryMap,
    VbeInfo,
    FramebufferInfo,
    ElfSymbols,
    ApmTable,
    Efi32BitSystemTable,
    Efi64BitSystemTable,
    SmbiosTables,
    AcpiOldRsdp,
    AcpiNewRsdp,
    NetworkingInfo,
    EfiMemoryMap,
    EfiBootServicesNotTerminated,
    Efi32BitImageHandle,
    Efi64BitImageHandle,
    ImageLoadBasePhysicalAddress,
}

impl TagType {
    /// The type code of the tag as it appears in the blob.
    pub open spec fn spec_code(self) -> u32 {
        match self {
            TagType::End => 0,
            TagType::BootCommandLine => 1,
            TagType::BootLoaderName => 2,
            TagType::Module => 3,
            TagType::BasicMemInfo => 4,
            TagType::BiosBootDevice => 5,
            TagType::MemoryMap => 6,
            TagType::VbeInfo => 7,
            TagType::FramebufferInfo => 8,
            TagType::ElfSymbols => 9,
            TagType::ApmTable => 10,
            TagType::Efi32BitSystemTable => 11,
            TagType::Efi64BitSystemTable => 12,
            TagType::SmbiosTables => 13,
            TagType::AcpiOldRsdp => 14,
            TagType::AcpiNewRsdp => 15,
            TagType::NetworkingInfo => 16,
            TagType::EfiMemoryMap => 17,
            TagType::EfiBootServicesNotTerminated => 18,
            TagType::Efi32BitImageHandle => 19,
            TagType::Efi64BitImageHandle => 20,
            TagType::ImageLoadBasePhysicalAddress => 21,
        }
    }

    /// The type code of the tag as it appears in the blob.
    pub fn code(self) -> (r: u32)
        ensures
            r == self.spec_code(),
    {
        match self {
            TagType::End => 0,
            TagType::BootCommandLine => 1,
            TagType::BootLoaderName => 2,
            TagType::Module => 3,
            TagType::BasicMemInfo => 4,
            TagType::BiosBootDevice => 5,
            TagType::MemoryMap => 6,
            TagType::VbeInfo => 7,
            TagType::FramebufferInfo => 8,
            TagType::ElfSymbols => 9,
            TagType::ApmTable => 10,
            TagType::Efi32BitSystemTable => 11,
            TagType::Efi64BitSystemTable => 12,
            TagType::SmbiosTables => 13,
            TagType::AcpiOldRsdp => 14,
            TagType::AcpiNewRsdp => 15,
            TagType::NetworkingInfo => 16,
            TagType::EfiMemoryMap => 17,
            TagType::EfiBootServicesNotTerminated => 18,
            TagType::Efi32BitImageHandle => 19,
            TagType::Efi64BitImageHandle => 20,
            TagType::ImageLoadBasePhysicalAddress => 21,
        }
    }
}

/// Kinds of memory regions.
#[derive(Debug, Clone, Copy, PartialEq, Eq, Structural)]
pub enum MemoryType {
    Available,
    Reserved,
    AcpiReclaimable,
    Nvs,
    BadRam,
}

impl MemoryType {
    /// The kind with type code `value`, if it is one of the five known.
    pub open spec fn spec_from_u32(value: u32) -> Option<MemoryType> {
        if value == 1 {
            Some(MemoryType::Available)
        } else if value == 2 {
            Some(MemoryType::Reserved)
        } else if value == 3 {
            Some(MemoryType::AcpiReclaimable)
        } else if value == 4 {
            Some(MemoryType::Nvs)
        } else if value == 5 {
            Some(MemoryType::BadRam)
        } else {
            None
        }
    }

    /// The kind with type code `value`, if it is one of the five known.
    pub fn from_u32(value: u32) -> (r: Option<MemoryType>)
        ensures
            r == MemoryType::spec_from_u32(value),
    {
        match value {
            1 => Some(MemoryType::Available),
            2 => Some(MemoryType::Reserved),
            3 => Some(MemoryType::AcpiReclaimable),
            4 => Some(MemoryType::Nvs),
            5 => Some(MemoryType::BadRam),
            _ => None,
        }
    }

    /// A human-readable name of the kind.
    pub fn as_str(&self) -> (r: &'static str)
        ensures
            r@ == match *self {
                MemoryType::Available => "Available"@,
                MemoryType::Reserved => "Reserved"@,
                MemoryType::AcpiReclaimable => "ACPI Reclaimable"@,
                MemoryType::Nvs => "NVS"@,
                MemoryType::BadRam => "Bad RAM"@,
            },
    {
        match self {
            MemoryType::Available => "Available",
            MemoryType::Reserved => "Reserved",
            MemoryType::AcpiReclaimable => "ACPI Reclaimable",
            MemoryType::Nvs => "NVS",
            MemoryType::BadRam => "Bad RAM",
        }
    }
}

/// One memory-region record of the memory map.
#[derive(Debug, Clone, Copy, PartialEq, Eq, Structural)]
pub struct MemoryMapEntry {
    pub base_addr: u64,
    pub length: u64,
    pub mem_type: u32,
    pub reserved: u32,
}

/// Little-endian `u32` at `off` in `b`.
pub open spec fn le_u32(b: Seq<u8>, off: int) -> u32 {
    (b[off] as int + b[off + 1] as int * 0x100 + b[off + 2] as int * 0x1_0000 + b[off + 3] as int
        * 0x100_0000) as u32
}

/// Little-endian `u64` at `off` in `b`.
pub open spec fn le_u64(b: Seq<u8>, off: int) -> u64 {
    (le_u32(b, off) as int + le_u32(b, off + 4) as int * 0x1_0000_0000) as u64
}

/// The record stored at `off` in `b`.
pub open spec fn entry_at(b: Seq<u8>, off: int) -> MemoryMapEntry {
    MemoryMapEntry {
        base_addr: le_u64(b, off),
        length: le_u64(b, off + 8),
        mem_type: le_u32(b, off + 16),
        reserved: le_u32(b, off + 20),
    }
}

/// The size the blob's header declares, or 0 when the blob is too short to
/// hold it.
pub open spec fn declared_size(b: Seq<u8>) -> int {
    if b.len() >= 4 {
        le_u32(b, 0) as int
    } else {
        0
    }
}

/// How far tags may reach: the declared size, within the bytes at hand.
pub open spec fn tag_limit(b: Seq<u8>) -> int {
    if declared_size(b) < b.len() {
        declared_size(b)
    } else {
        b.len() as int
    }
}

/// `x` rounded up to a multiple of 8.
pub open spec fn align8(x: int) -> int {
    x + (8 - x % 8) % 8
}

/// Offset of the first memory-map tag at or after the tag at `cur`, when
/// the walk over the tags reaches one: the walk stops at an End tag, at a
/// tag whose header does not fit, and at a tag whose size is below its
/// header or runs past the limit.
pub open spec fn find_mmap_tag(b: Seq<u8>, cur: int, limit: int) -> Option<int>
    decreases limit + 8 - cur,
{
    if cur < 0 || cur + 8 > limit || limit > b.len() {
        None
    } else {
        let ty = le_u32(b, cur);
        let size = le_u32(b, cur + 4) as int;
        if ty == TAG_END || size < 8 || cur + size > limit {
            None
        } else if ty == TAG_MEMORY_MAP {
            Some(cur)
        } else {
            find_mmap_tag(b, align8(cur + size), limit)
        }
    }
}

proof fn lemma_find_mmap_tag(b: Seq<u8>, cur: int, limit: int)
    ensures
        find_mmap_tag(b, cur, limit) matches Some(t) ==> {
            &&& 0 <= t
            &&& t + 8 <= limit <= b.len()
            &&& t + le_u32(b, t + 4) <= limit
            &&& le_u32(b, t) == TAG_MEMORY_MAP
        },
    decreases limit + 8 - cur,
{
    if !(cur < 0 || cur + 8 > limit || limit > b.len()) {
        let ty = le_u32(b, cur);
        let size = le_u32(b, cur + 4) as int;
        if !(ty == TAG_END || size < 8 || cur + size > limit) && ty != TAG_MEMORY_MAP {
            lemma_find_mmap_tag(b, align8(cur + size), limit);
        }
    }
}

/// The records of the memory-map tag at `tag`, or None when the tag is too
/// short for its header or its stride is below the size of a record.
pub open spec fn mmap_entries(b: Seq<u8>, tag: int) -> Option<Seq<MemoryMapEntry>> {
    let size = le_u32(b, tag + 4) as int;
    if size < 16 {
        None
    } else {
        let es = le_u32(b, tag + 8) as int;
        if es < MIN_ENTRY_SIZE {
            None
        } else {
            Some(Seq::new(((size - 16) / es) as nat, |i: int| entry_at(b, tag + 16 + i * es)))
        }
    }
}

/// The memory map that the blob `b` holds, if any.
pub open spec fn parse_memory_map(b: Seq<u8>) -> Option<Seq<MemoryMapEntry>> {
    match find_mmap_tag(b, 8, tag_limit(b)) {
        Some(tag) => mmap_entries(b, tag),
        None => None,
    }
}

fn read_u32(b: &Vec<u8>, off: usize) -> (r: u32)
    requires
        off + 4 <= b.len(),
    ensures
        r == le_u32(b@, off as int),
{
    b[off] as u32 + b[off + 1] as u32 * 0x100 + b[off + 2] as u32 * 0x1_0000 + b[off + 3] as u32
        * 0x100_0000
}

fn read_u64(b: &Vec<u8>, off: usize) -> (r: u64)
    requires
        off + 8 <= b.len(),
    ensures
        r == le_u64(b@, off as int),
{
    read_u32(b, off) as u64 + read_u32(b, off + 4) as u64 * 0x1_0000_0000
}

fn read_entry(b: &Vec<u8>, off: usize) -> (r: MemoryMapEntry)
    requires
        off + 24 <= b.len(),
    ensures
        r == entry_at(b@, off as int),
{
    MemoryMapEntry {
        base_addr: read_u64(b, off),
        length: read_u64(b, off + 8),
        mem_type: read_u32(b, off + 16),
        reserved: read_u32(b, off + 20),
    }
}

/// The records of a memory map, handed out one at a time in the order they
/// are stored.
pub struct MemoryMapIter {
    entries: Vec<MemoryMapEntry>,
    pos: usize,
}

impl MemoryMapIter {
    #[verifier::type_invariant]
    spec fn in_bounds(self) -> bool {
        self.pos <= self.entries.len()
    }

    /// The records not handed out yet.
    pub closed spec fn remaining(self) -> Seq<MemoryMapEntry> {
        self.entries@.skip(self.pos as int)
    }

    /// The next record, if any is left.
    pub fn next(&mut self) -> (r: Option<MemoryMapEntry>)
        ensures
            old(self).remaining().len() == 0 ==> r is None && final(self).remaining() == old(
                self,
            ).remaining(),
            old(self).remaining().len() > 0 ==> r == Some(old(self).remaining()[0])
                && final(self).remaining() == old(self).remaining().drop_first(),
    {
        proof {
            use_type_invariant(&*self);
        }
        if self.pos >= self.entries.len() {
            return None;
        }
        let e = self.entries[self.pos];
        self.pos = self.pos + 1;
        assert(self.remaining() =~= old(self).remaining().drop_first());
        Some(e)
    }

    /// All records not handed out yet, in order.
    pub fn to_vec(&self) -> (r: Vec<MemoryMapEntry>)
        ensures
            r@ == self.remaining(),
    {
        proof {
            use_type_invariant(self);
        }
        let mut out: Vec<MemoryMapEntry> = Vec::new();
        let mut i: usize = self.pos;
        while i < self.entries.len()
            invariant
                self.pos <= i <= self.entries.len(),
                out@ == self.entries@.subrange(self.pos as int, i as int),
            decreases self.entries.len() - i,
        {
            out.push(self.entries[i]);
            i = i + 1;
        }
        assert(out@ =~= self.remaining());
        out
    }
}

/// Total length of the Available regions among `s`.
pub open spec fn available_length(s: Seq<MemoryMapEntry>) -> int
    decreases s.len(),
{
    if s.len() == 0 {
        0
    } else {
        available_length(s.drop_last()) + if s.last().mem_type == 1 {
            s.last().length as int
        } else {
            0
        }
    }
}

/// Total length of the other regions among `s`, those of unknown type
/// included.
pub open spec fn reserved_length(s: Seq<MemoryMapEntry>) -> int
    decreases s.len(),
{
    if s.len() == 0 {
        0
    } else {
        reserved_length(s.drop_last()) + if s.last().mem_type == 1 {
            0
        } else {
            s.last().length as int
        }
    }
}

/// `x`, or the largest `u64` when it is larger.
pub open spec fn saturate(x: int) -> u64 {
    if x > u64::MAX {
        u64::MAX
    } else {
        x as u64
    }
}

proof fn lemma_lengths_nonneg(s: Seq<MemoryMapEntry>)
    ensures
        available_length(s) >= 0,
        reserved_length(s) >= 0,
    decreases s.len(),
{
    if s.len() > 0 {
        lemma_lengths_nonneg(s.drop_last());
    }
}

/// Why the boot information could not be opened.
#[derive(Debug, Clone, Copy, PartialEq, Eq, Structural)]
pub enum BootError {
    /// The magic word is not the Multiboot2 one.
    InvalidMagic,
    /// The blob's address is zero.
    NullAddress,
}

/// The Multiboot2 boot information: the blob the loader placed at `addr`.
pub struct BootInfo {
    addr: usize,
    bytes: Vec<u8>,
}

impl View for BootInfo {
    type V = Seq<u8>;

    /// The bytes of the blob.
    closed spec fn view(&self) -> Seq<u8> {
        self.bytes@
    }
}

impl BootInfo {
    /// Where the blob lies in physical memory.
    pub closed spec fn address(self) -> usize {
        self.addr
    }

    /// The blob `bytes` read from `addr`, unless `addr` is zero.
    pub fn new(addr: usize, bytes: Vec<u8>) -> (r: Option<BootInfo>)
        ensures
            addr == 0 <==> r is None,
            r matches Some(info) ==> info@ == bytes@ && info.address() == addr,
    {
        if addr == 0 {
            return None;
        }
        Some(BootInfo { addr, bytes })
    }

    /// Checks the loader's magic word and the address, then takes the blob.
    pub fn open(addr: usize, magic: u32, bytes: Vec<u8>) -> (r: Result<BootInfo, BootError>)
        ensures
            magic != MULTIBOOT2_MAGIC <==> r == Err::<BootInfo, BootError>(BootError::InvalidMagic),
            magic == MULTIBOOT2_MAGIC && addr == 0 <==> r == Err::<BootInfo, BootError>(
                BootError::NullAddress,
            ),
            r matches Ok(info) ==> info@ == bytes@ && info.address() == addr,
    {
        if magic != MULTIBOOT2_MAGIC {
            return Err(BootError::InvalidMagic);
        }
        match BootInfo::new(addr, bytes) {
            Some(info) => Ok(info),
            None => Err(BootError::NullAddress),
        }
    }

    /// The size the blob's header declares (0 when it is too short to say).
    pub fn total_size(&self) -> (r: u32)
        ensures
            r == declared_size(self@),
    {
        if self.bytes.len() < 4 {
            return 0;
        }
        read_u32(&self.bytes, 0)
    }

    /// Offset of the memory-map tag, found by walking the tags.
    fn find_memory_map_tag(&self) -> (r: Option<usize>)
        ensures
            r matches Some(t) ==> find_mmap_tag(self@, 8, tag_limit(self@)) == Some(t as int),
            r is None ==> find_mmap_tag(self@, 8, tag_limit(self@)) is None,
    {
        let declared = self.total_size() as u64;
        let limit: u64 = if declared < self.bytes.len() as u64 {
            declared
        } else {
            self.bytes.len() as u64
        };
        let mut cur: u64 = 8;
        while cur + 8 <= limit
            invariant
                limit == tag_limit(self@),
                limit <= self.bytes.len(),
                limit <= u32::MAX,
                8 <= cur,
                cur <= limit + 8,
                find_mmap_tag(self@, cur as int, limit as int) == find_mmap_tag(
                    self@,
                    8,
                    limit as int,
                ),
            decreases limit + 8 - cur,
        {
            let ty = read_u32(&self.bytes, cur as usize);
            let size = read_u32(&self.bytes, cur as usize + 4) as u64;
            if ty == TAG_END || size < 8 || size > limit - cur {
                return None;
            }
            if ty == TAG_MEMORY_MAP {
                return Some(cur as usize);
            }
            let end = cur + size;
            cur = end + (8 - end % 8) % 8;
        }
        None
    }

    /// The memory map, or None when the blob holds no usable memory-map tag.
    pub fn memory_map(&self) -> (r: Option<MemoryMapIter>)
        ensures
            match parse_memory_map(self@) {
                None => r is None,
                Some(s) => r matches Some(it) && it.remaining() == s,
            },
    {
        let tag = match self.find_memory_map_tag() {
            Some(t) => t,
            None => return None,
        };
        proof {
            lemma_find_mmap_tag(self@, 8, tag_limit(self@));
        }
        let b = &self.bytes;
        let size = read_u32(b, tag + 4) as usize;
        if size < 16 {
            return None;
        }
        let es = read_u32(b, tag + 8) as usize;
        if es < MIN_ENTRY_SIZE as usize {
            return None;
        }
        let n = (size - 16) / es;
        let ghost want = Seq::new(n as nat, |i: int| entry_at(b@, tag + 16 + i * es));
        let mut entries: Vec<MemoryMapEntry> = Vec::new();
        let mut i: usize = 0;
        let mut off: usize = tag + 16;
        while i < n
            invariant
                tag + size <= b.len(),
                es >= 24,
                n == (size - 16) / es as int,
                size >= 16,
                i <= n,
                off == tag + 16 + i * es,
                want == Seq::new(n as nat, |i: int| entry_at(b@, tag + 16 + i * es)),
                entries@ == want.take(i as int),
            decreases n - i,
        {
            proof {
                assert((i + 1) * es <= n * es) by (nonlinear_arith)
                    requires
                        i < n,
                        es >= 0,
                ;
                assert(n * es <= size - 16) by (nonlinear_arith)
                    requires
                        n == (size - 16) / es as int,
                        es > 0,
                        size >= 16,
                ;
                assert((i + 1) * es == i * es + es) by (nonlinear_arith);
            }
            entries.push(read_entry(b, off));
            assert(off + es <= tag + size);
            proof {
                assert(entries@ =~= want.take(i + 1));
            }
            i = i + 1;
            off = off + es;
        }
        proof {
            assert(entries@ =~= want);
        }
        let it = MemoryMapIter { entries, pos: 0 };
        assert(it.remaining() =~= want);
        Some(it)
    }

    /// Total lengths of the Available regions and of the others (unknown
    /// types counted as reserved), each capped at the largest `u64`; None
    /// when the blob holds no usable memory map.
    pub fn memory_totals(&self) -> (r: Option<(u64, u64)>)
        ensures
            match parse_memory_map(self@) {
                None => r is None,
                Some(s) => r == Some(
                    (saturate(available_length(s)), saturate(reserved_length(s))),
                ),
            },
    {
        let entries = match self.memory_map() {
            Some(it) => it.to_vec(),
            None => return None,
        };
        let mut available: u64 = 0;
        let mut reserved: u64 = 0;
        let mut i: usize = 0;
        while i < entries.len()
            invariant
                i <= entries@.len(),
                available == saturate(available_length(entries@.take(i as int))),
                reserved == saturate(reserved_length(entries@.take(i as int))),
            decreases entries.len() - i,
        {
            let e = entries[i];
            proof {
                assert(entries@.take(i + 1).drop_last() =~= entries@.take(i as int));
                assert(available_length(entries@.take(i as int)) >= 0) by {
                    lemma_lengths_nonneg(entries@.take(i as int));
                }
                assert(reserved_length(entries@.take(i as int)) >= 0) by {
                    lemma_lengths_nonneg(entries@.take(i as int));
                }
            }
            let is_available = match MemoryType::from_u32(e.mem_type) {
                Some(MemoryType::Available) => true,
                _ => false,
            };
            if is_available {
                available = available.saturating_add(e.length);
            } else {
                reserved = reserved.saturating_add(e.length);
            }
            i = i + 1;
        }
        proof {
            assert(entries@.take(i as int) =~= entries@);
        }
        Some((available, reserved))
    }
}

} // verus!
