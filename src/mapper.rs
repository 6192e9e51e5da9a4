//! Translation and mutation of a four-level page-table hierarchy.
//!
//! The mapper owns the top-level table and every lower table it reaches,
//! each kept under the physical address of the frame that holds it. Lower
//! tables are taken from a frame allocator as the walks need them.

use crate::frame_alloc::FrameAllocator;
use crate::paging::{
    entry_addr, index_spec, is_huge, is_present, lemma_table_len, offset_spec, Page,
    PageTable, PageTableEntry, PageTableFlags, PageTableLevel, PhysAddr, PhysFrame, VirtAddr,
    ADDR_MASK, ENTRY_COUNT, PHYS_ADDR_LIMIT, HUGE_PAGE, PRESENT, USER_ACCESSIBLE, WRITABLE,
};
use std::collections::HashMap;
use vstd::prelude::*;

verus! {

broadcast use vstd::std_specs::hash::group_hash_axioms, lemma_table_len;


/// Why a mapping operation failed.
#[derive(Debug, Clone, Copy, PartialEq, Eq, Structural)]
pub enum MapError {
    /// The page already has a mapping.
    PageAlreadyMapped,
    /// The page has no mapping.
    NotMapped,
    /// No frame could be had for a new page table.
    FrameAllocationFailed,
    /// An upper-level entry on the way maps a huge page.
    ParentEntryHugePage,
    /// The flags do not suit the operation.
    InvalidFlags,
}

/// How one step of a walk ends: at an entry that is not present, at a
/// huge-page entry, or at the next table, given by its address.
pub enum Step {
    Missing,
    Huge,
    Table(u64),
}

/// The page-table hierarchy as words: the top-level table, and the lower
/// tables under their physical addresses.
pub struct PagingModel {
    pub root: Seq<u64>,
    pub tables: Map<u64, Seq<u64>>,
}

impl PagingModel {
    /// Follows entry `i` of `table`.
    pub open spec fn step(self, table: Seq<u64>, i: int) -> Step {
        let w = table[i];
        if !is_present(w) {
            Step::Missing
        } else if is_huge(w) {
            Step::Huge
        } else {
            Step::Table(entry_addr(w))
        }
    }

    /// Walks the top three levels with indices `i4`, `i3`, `i2`; ends at the
    /// bottom-level table, or where the walk stops.
    pub open spec fn walk(self, i4: int, i3: int, i2: int) -> Step {
        match self.step(self.root, i4) {
            Step::Table(t3) => match self.step(self.tables[t3], i3) {
                Step::Table(t2) => self.step(self.tables[t2], i2),
                other => other,
            },
            other => other,
        }
    }

    /// The bottom-level entry word for indices `i4`, `i3`, `i2`, `i1`, when
    /// the walk reaches it and it is in use.
    pub open spec fn leaf(self, i4: int, i3: int, i2: int, i1: int) -> Option<u64> {
        match self.walk(i4, i3, i2) {
            Step::Table(t1) => if self.tables[t1][i1] != 0 {
                Some(self.tables[t1][i1])
            } else {
                None
            },
            _ => None,
        }
    }

    /// The bottom-level entry word for the page that holds `v`.
    pub open spec fn leaf_of(self, v: u64) -> Option<u64> {
        self.leaf(index_spec(v, 4) as int, index_spec(v, 3) as int, index_spec(v, 2) as int, index_spec(v, 1) as int)
    }

    /// The walk for the page that holds `v`.
    pub open spec fn walk_of(self, v: u64) -> Step {
        self.walk(index_spec(v, 4) as int, index_spec(v, 3) as int, index_spec(v, 2) as int)
    }

    /// The physical address that `v` translates to.
    pub open spec fn translate(self, v: u64) -> Option<u64> {
        match self.leaf_of(v) {
            Some(w) => Some((entry_addr(w) + offset_spec(v)) as u64),
            None => None,
        }
    }

    /// How many lower tables the walk for the page holding `v` lacks: the
    /// levels from its first missing entry down (0 when it reaches the
    /// bottom-level table or a huge page).
    pub open spec fn tables_needed(self, v: u64) -> nat {
        match self.step(self.root, index_spec(v, 4) as int) {
            Step::Missing => 3,
            Step::Table(t3) => match self.step(self.tables[t3], index_spec(v, 3) as int) {
                Step::Missing => 2,
                Step::Table(t2) => match self.step(self.tables[t2], index_spec(v, 2) as int) {
                    Step::Missing => 1,
                    _ => 0,
                },
                Step::Huge => 0,
            },
            Step::Huge => 0,
        }
    }

    /// The three upper-level entry words that the walk for the page holding
    /// `v` reads, top level first.
    pub open spec fn upper_words(self, v: u64) -> Seq<u64> {
        let w4 = self.root[index_spec(v, 4) as int];
        let w3 = self.tables[entry_addr(w4)][index_spec(v, 3) as int];
        let w2 = self.tables[entry_addr(w3)][index_spec(v, 2) as int];
        seq![w4, w3, w2]
    }

    /// Each upper-level entry on the walk for `v` is as it was in `before`,
    /// or links a table with the flags PRESENT, WRITABLE and USER_ACCESSIBLE.
    pub open spec fn kept_or_linked(self, before: PagingModel, v: u64) -> bool {
        forall|j: int|
            0 <= j < 3 ==> #[trigger] self.upper_words(v)[j] == before.upper_words(v)[j]
                || self.upper_words(v)[j] == entry_addr(self.upper_words(v)[j]) | (PRESENT
                | WRITABLE | USER_ACCESSIBLE)
    }

    /// The two hierarchies have the same bottom-level entries everywhere but
    /// at the page that holds `v`.
    pub open spec fn same_leaves_except(self, other: PagingModel, v: u64) -> bool {
        forall|i4: int, i3: int, i2: int, i1: int|
            0 <= i4 < 512 && 0 <= i3 < 512 && 0 <= i2 < 512 && 0 <= i1 < 512 && !(i4 == index_spec(v, 4)
                && i3 == index_spec(v, 3) && i2 == index_spec(v, 2) && i1 == index_spec(v, 1))
                ==> #[trigger] self.leaf(i4, i3, i2, i1) == other.leaf(i4, i3, i2, i1)
    }

    /// The two hierarchies have the same bottom-level entries.
    pub open spec fn same_leaves(self, other: PagingModel) -> bool {
        forall|i4: int, i3: int, i2: int, i1: int|
            0 <= i4 < 512 && 0 <= i3 < 512 && 0 <= i2 < 512 && 0 <= i1 < 512
                ==> #[trigger] self.leaf(i4, i3, i2, i1) == other.leaf(i4, i3, i2, i1)
    }
}

/// Entry `i` of `table`, whose prefix of indices is `prefix`, leads to a
/// table held under the prefix extended by `i`, if it leads to a table.
pub open spec fn link_ok(
    m: PagingModel,
    layout: Map<u64, Seq<int>>,
    table: Seq<u64>,
    prefix: Seq<int>,
    i: int,
) -> bool {
    let w = table[i];
    is_present(w) && !is_huge(w) ==> layout.contains_key(entry_addr(w)) && layout[entry_addr(w)]
        == prefix.push(i)
}

/// The lower tables form a tree below the top-level table: `layout` gives
/// each held table the indices that lead to it (one to three of them), and
/// every upper-level entry that leads to a table leads to one held under
/// its own path.
pub open spec fn tree_wf(m: PagingModel, layout: Map<u64, Seq<int>>) -> bool {
    &&& m.root.len() == 512
    &&& m.tables.dom() == layout.dom()
    &&& forall|a: u64| #[trigger]
        layout.contains_key(a) ==> 1 <= layout[a].len() <= 3 && m.tables[a].len() == 512
    &&& forall|i: int| 0 <= i < 512 ==> #[trigger] link_ok(m, layout, m.root, Seq::empty(), i)
    &&& forall|a: u64, i: int|
        #![trigger layout[a], m.tables[a][i]]
        layout.contains_key(a) && layout[a].len() < 3 && 0 <= i < 512 ==> link_ok(
            m,
            layout,
            m.tables[a],
            layout[a],
            i,
        )
}

/// A table of unused entries.
pub open spec fn zero_table() -> Seq<u64> {
    Seq::new(512, |j: int| 0u64)
}

/// The words of the table `table`: the top-level one when None.
pub open spec fn words(m: PagingModel, table: Option<u64>) -> Seq<u64> {
    match table {
        None => m.root,
        Some(a) => m.tables[a],
    }
}

/// `m` with entry `i` of table `table` set to `w`.
pub open spec fn set_word(m: PagingModel, table: Option<u64>, i: int, w: u64) -> PagingModel {
    match table {
        None => PagingModel { root: m.root.update(i, w), tables: m.tables },
        Some(a) => PagingModel { root: m.root, tables: m.tables.insert(a, m.tables[a].update(i, w)) },
    }
}

/// The indices that lead to `table`: none for the top-level one.
pub open spec fn path_of(layout: Map<u64, Seq<int>>, table: Option<u64>) -> Seq<int> {
    match table {
        None => Seq::empty(),
        Some(a) => layout[a],
    }
}

/// `table` is the top-level table or an upper-level table that is held.
pub open spec fn upper_table(layout: Map<u64, Seq<int>>, table: Option<u64>) -> bool {
    match table {
        None => true,
        Some(a) => layout.contains_key(a) && layout[a].len() < 3,
    }
}

proof fn lemma_table_word(t: u64)
    requires
        t % 4096 == 0,
        t < PHYS_ADDR_LIMIT,
    ensures
        entry_addr(t | 7) == t,
        is_present(t | 7),
        !is_huge(t | 7),
        t | 7 != 0,
{
    assert((t | 7) & 0x000F_FFFF_FFFF_F000u64 == t) by (bit_vector)
        requires
            t % 4096 == 0,
            t < 0x10_0000_0000_0000u64,
    ;
    assert((t | 7) & 1 != 0) by (bit_vector);
    assert((t | 7) & 128 == 0) by (bit_vector)
        requires
            t % 4096 == 0,
    ;
    assert(t | 7 != 0) by (bit_vector);
}

proof fn lemma_link_words(t: u64)
    ensures
        t % 4096 == 0 && t < PHYS_ADDR_LIMIT ==> entry_addr(t | 7) == t && (t | 7) == entry_addr(t | 7) | 7,
{
    if t % 4096 == 0 && t < PHYS_ADDR_LIMIT {
        lemma_table_word(t);
    }
}

/// A walk that reaches a table reaches one held under the walk's indices,
/// through upper tables held under the leading indices.
proof fn lemma_walk_layout(m: PagingModel, layout: Map<u64, Seq<int>>, j4: int, j3: int, j2: int)
    requires
        tree_wf(m, layout),
        0 <= j4 < 512,
        0 <= j3 < 512,
        0 <= j2 < 512,
    ensures
        m.step(m.root, j4) matches Step::Table(t3) ==> {
            &&& layout.contains_key(t3)
            &&& layout[t3] == seq![j4]
            &&& m.step(m.tables[t3], j3) matches Step::Table(t2) ==> {
                &&& layout.contains_key(t2)
                &&& layout[t2] == seq![j4, j3]
                &&& m.step(m.tables[t2], j2) matches Step::Table(t1) ==> {
                    &&& layout.contains_key(t1)
                    &&& layout[t1] == seq![j4, j3, j2]
                }
            }
        },
{
    assert(link_ok(m, layout, m.root, Seq::empty(), j4));
    if let Step::Table(t3) = m.step(m.root, j4) {
        assert(Seq::<int>::empty().push(j4) =~= seq![j4]);
        assert(link_ok(m, layout, m.tables[t3], layout[t3], j3));
        if let Step::Table(t2) = m.step(m.tables[t3], j3) {
            assert(seq![j4].push(j3) =~= seq![j4, j3]);
            assert(link_ok(m, layout, m.tables[t2], layout[t2], j2));
            if let Step::Table(t1) = m.step(m.tables[t2], j2) {
                assert(seq![j4, j3].push(j2) =~= seq![j4, j3, j2]);
            }
        }
    }
}

/// Writing entry `i1` of the bottom-level table `t1`, which the walk with
/// indices `i4`, `i3`, `i2` reaches, changes the entry of that one page and
/// nothing else.
proof fn lemma_write_leaf(
    m: PagingModel,
    layout: Map<u64, Seq<int>>,
    i4: int,
    i3: int,
    i2: int,
    i1: int,
    t1: u64,
    w: u64,
)
    requires
        tree_wf(m, layout),
        0 <= i4 < 512,
        0 <= i3 < 512,
        0 <= i2 < 512,
        0 <= i1 < 512,
        m.walk(i4, i3, i2) == Step::Table(t1),
    ensures
        layout.contains_key(t1),
        layout[t1] == seq![i4, i3, i2],
        tree_wf(set_word(m, Some(t1), i1, w), layout),
        set_word(m, Some(t1), i1, w).walk(i4, i3, i2) == Step::Table(t1),
        set_word(m, Some(t1), i1, w).leaf(i4, i3, i2, i1) == if w != 0 {
            Some(w)
        } else {
            None::<u64>
        },
        forall|j4: int, j3: int, j2: int, j1: int|
            0 <= j4 < 512 && 0 <= j3 < 512 && 0 <= j2 < 512 && 0 <= j1 < 512 && !(j4 == i4 && j3
                == i3 && j2 == i2 && j1 == i1) ==> #[trigger] set_word(m, Some(t1), i1, w).leaf(
                j4,
                j3,
                j2,
                j1,
            ) == m.leaf(j4, j3, j2, j1),
{
    let n = set_word(m, Some(t1), i1, w);
    lemma_walk_layout(m, layout, i4, i3, i2);
    assert(n.tables.dom() =~= m.tables.dom());
    assert forall|j4: int, j3: int, j2: int|
        0 <= j4 < 512 && 0 <= j3 < 512 && 0 <= j2 < 512 implies #[trigger] n.walk(j4, j3, j2)
        == m.walk(j4, j3, j2) by {
        lemma_walk_layout(m, layout, j4, j3, j2);
    }
    assert forall|j4: int, j3: int, j2: int, j1: int|
        0 <= j4 < 512 && 0 <= j3 < 512 && 0 <= j2 < 512 && 0 <= j1 < 512 && !(j4 == i4 && j3 == i3
            && j2 == i2 && j1 == i1) implies #[trigger] n.leaf(j4, j3, j2, j1) == m.leaf(
        j4,
        j3,
        j2,
        j1,
    ) by {
        lemma_walk_layout(m, layout, j4, j3, j2);
        assert(n.walk(j4, j3, j2) == m.walk(j4, j3, j2));
        if let Step::Table(u) = m.walk(j4, j3, j2) {
            if u == t1 {
                assert(seq![j4, j3, j2][0] == j4);
                assert(seq![j4, j3, j2][1] == j3);
                assert(seq![j4, j3, j2][2] == j2);
            }
        }
    }
    assert(n.walk(i4, i3, i2) == m.walk(i4, i3, i2));
    assert forall|a: u64| #[trigger] layout.contains_key(a) implies 1 <= layout[a].len() <= 3
        && n.tables[a].len() == 512 by {}
    assert forall|i: int| 0 <= i < 512 implies #[trigger] link_ok(n, layout, n.root, Seq::empty(), i) by {
        assert(link_ok(m, layout, m.root, Seq::empty(), i));
    }
    assert forall|a: u64, i: int|
        #![trigger layout[a], n.tables[a][i]]
        layout.contains_key(a) && layout[a].len() < 3 && 0 <= i < 512 implies link_ok(
            n,
            layout,
            n.tables[a],
            layout[a],
            i,
        ) by {
        assert(a != t1);
        assert(link_ok(m, layout, m.tables[a], layout[a], i));
    }
}

/// `m` with the zeroed table `t` added and linked from entry `i` of
/// `table`, with the flags PRESENT, WRITABLE and USER_ACCESSIBLE (7).
pub open spec fn add_table(m: PagingModel, table: Option<u64>, i: int, t: u64) -> PagingModel {
    set_word(
        PagingModel { root: m.root, tables: m.tables.insert(t, zero_table()) },
        table,
        i,
        t | 7,
    )
}

/// Linking a new zeroed table from an entry that was not present keeps the
/// tree, and every bottom-level entry stays as it was.
proof fn lemma_add_table(
    m: PagingModel,
    layout: Map<u64, Seq<int>>,
    table: Option<u64>,
    i: int,
    t: u64,
)
    requires
        tree_wf(m, layout),
        upper_table(layout, table),
        0 <= i < 512,
        !is_present(words(m, table)[i]),
        !layout.contains_key(t),
        t % 4096 == 0,
        t < PHYS_ADDR_LIMIT,
    ensures
        tree_wf(add_table(m, table, i, t), layout.insert(t, path_of(layout, table).push(i))),
        add_table(m, table, i, t).same_leaves(m),
        add_table(m, table, i, t).step(words(add_table(m, table, i, t), table), i) == Step::Table(
            t,
        ),
{
    let n = add_table(m, table, i, t);
    let lay2 = layout.insert(t, path_of(layout, table).push(i));
    lemma_table_word(t);
    assert(zero_table().len() == 512);
    assert(n.tables.dom() =~= lay2.dom());
    assert forall|a: u64| #[trigger] lay2.contains_key(a) implies 1 <= lay2[a].len() <= 3
        && n.tables[a].len() == 512 by {}
    assert forall|k: int| 0 <= k < 512 implies #[trigger] link_ok(n, lay2, n.root, Seq::empty(), k) by {
        assert(link_ok(m, layout, m.root, Seq::empty(), k));
    }
    assert forall|a: u64, k: int|
        #![trigger lay2[a], n.tables[a][k]]
        lay2.contains_key(a) && lay2[a].len() < 3 && 0 <= k < 512 implies link_ok(
            n,
            lay2,
            n.tables[a],
            lay2[a],
            k,
        ) by {
        if a != t {
            assert(link_ok(m, layout, m.tables[a], layout[a], k));
        } else {
            assert(n.tables[a][k] == 0);
            assert(0u64 & 1 == 0) by (bit_vector);
        }
    }
    assert(0u64 & 1 == 0) by (bit_vector);
    assert forall|j4: int, j3: int, j2: int, j1: int|
        0 <= j4 < 512 && 0 <= j3 < 512 && 0 <= j2 < 512 && 0 <= j1 < 512 implies #[trigger] n.leaf(
        j4,
        j3,
        j2,
        j1,
    ) == m.leaf(j4, j3, j2, j1) by {
        lemma_walk_layout(m, layout, j4, j3, j2);
        lemma_walk_layout(n, lay2, j4, j3, j2);
    }
}

/// An address in a page selects the same entries as the page's start, and
/// its offset is its distance from the start.
pub proof fn lemma_same_page(v: u64, o: u64)
    requires
        v % 4096 == 0,
        o < 4096,
    ensures
        v + o <= u64::MAX,
        index_spec((v + o) as u64, 4) == index_spec(v, 4),
        index_spec((v + o) as u64, 3) == index_spec(v, 3),
        index_spec((v + o) as u64, 2) == index_spec(v, 2),
        index_spec((v + o) as u64, 1) == index_spec(v, 1),
        offset_spec((v + o) as u64) == o,
{
    assert(v + o <= 0xFFFF_FFFF_FFFF_FFFFu64) by (bit_vector)
        requires
            v % 4096 == 0,
            o < 4096,
    ;
    let s: u64 = (v + o) as u64;
    assert(s >> 39u64 & 0x1FF == v >> 39u64 & 0x1FF && s >> 30u64 & 0x1FF == v >> 30u64 & 0x1FF
        && s >> 21u64 & 0x1FF == v >> 21u64 & 0x1FF && s >> 12u64 & 0x1FF == v >> 12u64 & 0x1FF
        && s & 0xFFF == o) by (bit_vector)
        requires
            v % 4096 == 0,
            o < 4096,
            s == v + o,
    ;
}

/// Right after `frame` is mapped at `page` with `flags` that leave the
/// address bits alone, every address in the page translates to the address
/// at the same offset in the frame.
pub proof fn lemma_translate_after_map(m: PagingModel, page: u64, frame: u64, flags: u64, o: u64)
    requires
        page % 4096 == 0,
        frame % 4096 == 0,
        frame < PHYS_ADDR_LIMIT,
        flags & ADDR_MASK == 0,
        m.leaf_of(page) == Some(frame | (flags | PRESENT)),
        o < 4096,
    ensures
        m.translate((page + o) as u64) == Some((frame + o) as u64),
        entry_addr(frame | (flags | PRESENT)) == frame,
{
    lemma_same_page(page, o);
    let f = flags | 1;
    assert(f & 0x000F_FFFF_FFFF_F000u64 == 0) by (bit_vector)
        requires
            flags & 0x000F_FFFF_FFFF_F000u64 == 0,
            f == flags | 1,
    ;
    crate::paging::lemma_entry_round_trip(frame, f);
}

/// After `frame` is mapped at `page`, unmapping `page` hands back `frame`,
/// and the page's start no longer translates.
pub proof fn lemma_unmap_after_map(
    mapped: PagingModel,
    unmapped: PagingModel,
    page: u64,
    frame: PhysFrame,
    flags: u64,
    r: Result<PhysFrame, MapError>,
)
    requires
        page % 4096 == 0,
        frame@ % 4096 == 0,
        frame@ < PHYS_ADDR_LIMIT,
        flags & ADDR_MASK == 0,
        mapped.leaf_of(page) == Some(frame@ | (flags | PRESENT)),
        unmap_outcome(mapped, unmapped, page, r),
    ensures
        r == Ok::<PhysFrame, MapError>(frame),
        unmapped.translate(page) is None,
{
    lemma_translate_after_map(mapped, page, frame@, flags, 0);
    assert((page + 0) as u64 == page);
    if let Ok(g) = r {
        crate::paging::lemma_frame_eq(g, frame);
    }
}

/// What `unmap` of the page that starts at `page` does to the hierarchy
/// `before`, giving `after` and the result `r`.
pub open spec fn unmap_outcome(
    before: PagingModel,
    after: PagingModel,
    page: u64,
    r: Result<PhysFrame, MapError>,
) -> bool {
    match before.walk_of(page) {
        Step::Huge => r == Err::<PhysFrame, MapError>(MapError::ParentEntryHugePage) && after == before,
        Step::Missing => r == Err::<PhysFrame, MapError>(MapError::NotMapped) && after == before,
        Step::Table(_) => match before.leaf_of(page) {
            None => r == Err::<PhysFrame, MapError>(MapError::NotMapped) && after == before,
            Some(w) => {
                &&& r matches Ok(f) && f@ == entry_addr(w)
                &&& after.leaf_of(page) is None
                &&& after.same_leaves_except(before, page)
            },
        },
    }
}

/// `after` is `before`, or `before` with one of its elements taken out.
pub open spec fn one_taken(before: Set<u64>, after: Set<u64>) -> bool {
    after == before || exists|t: u64| before.contains(t) && after == before.remove(t)
}

proof fn lemma_one_taken(before: Set<u64>, after: Set<u64>)
    requires
        one_taken(before, after),
    ensures
        before.finite() ==> after.finite() && after.len() + 1 >= before.len(),
        after == Set::<u64>::empty() && before.finite() ==> before.len() <= 1,
{
    if before.finite() && after != before {
        let t = choose|t: u64| before.contains(t) && after == before.remove(t);
        assert(after.len() == before.len() - 1);
    }
    if after == Set::<u64>::empty() {
        assert(after.len() == 0);
    }
}

/// The hierarchy with top-level words `root` and the lower tables `lower`.
pub open spec fn model_of(root: Seq<u64>, lower: Map<u64, PageTable>) -> PagingModel {
    PagingModel { root, tables: lower.map_values(|t: PageTable| t@) }
}

/// The words of `parent` in the hierarchy of `root` and `given`: those of
/// the top-level table when None.
pub open spec fn parent_words(root: Seq<u64>, given: Map<u64, PageTable>, parent: Option<u64>) -> Seq<u64> {
    match parent {
        None => root,
        Some(p) => given[p]@,
    }
}

/// Some assignment of index paths to the lower tables makes the hierarchy
/// a tree.
pub open spec fn forms_tree(m: PagingModel) -> bool {
    exists|layout: Map<u64, Seq<int>>| tree_wf(m, layout)
}

/// The index path that `t` (its length, then up to three indices) stands for.
pub open spec fn tuple_path(t: (u64, u64, u64, u64)) -> Seq<int> {
    if t.0 == 1 {
        seq![t.1 as int]
    } else if t.0 == 2 {
        seq![t.1 as int, t.2 as int]
    } else {
        seq![t.1 as int, t.2 as int, t.3 as int]
    }
}

/// `t` stands for a path of one to three indices below 512, with zeros past
/// its length.
pub open spec fn canonical(t: (u64, u64, u64, u64)) -> bool {
    &&& 1 <= t.0 <= 3
    &&& t.1 < 512 && t.2 < 512 && t.3 < 512
    &&& t.0 < 2 ==> t.2 == 0
    &&& t.0 < 3 ==> t.3 == 0
}

proof fn lemma_tuple_path_injective(s: (u64, u64, u64, u64), t: (u64, u64, u64, u64))
    requires
        canonical(s),
        canonical(t),
        tuple_path(s) == tuple_path(t),
    ensures
        s == t,
{
    let p = tuple_path(s);
    assert(p.len() == s.0);
    assert(p[0] == s.1 && tuple_path(t)[0] == t.1);
    if s.0 >= 2 {
        assert(p[1] == s.2 && tuple_path(t)[1] == t.2);
    }
    if s.0 >= 3 {
        assert(p[2] == s.3 && tuple_path(t)[2] == t.3);
    }
}

/// The lower tables taken over so far from a hierarchy handed in, with the
/// index path each one is reached by.
struct Adoption {
    input: HashMap<u64, PageTable>,
    kept: HashMap<u64, PageTable>,
    paths: HashMap<u64, (u64, u64, u64, u64)>,
    layout: Ghost<Map<u64, Seq<int>>>,
}

impl Adoption {
    /// The tables taken over so far, as a hierarchy below `root`.
    spec fn model(self, root: Seq<u64>) -> PagingModel {
        model_of(root, self.kept@)
    }

    /// Every table is either still in `input` or taken over, unchanged; the
    /// paths are those any tree layout of the given hierarchy must use.
    spec fn inv(self, root: Seq<u64>, given: Map<u64, PageTable>) -> bool {
        &&& forall|a: u64| #[trigger]
            self.kept@.contains_key(a) ==> given.contains_key(a) && self.kept@[a] == given[a]
        &&& forall|a: u64| #[trigger]
            self.input@.contains_key(a) == (given.contains_key(a) && !self.kept@.contains_key(a))
        &&& forall|a: u64| #[trigger] self.input@.contains_key(a) ==> self.input@[a] == given[a]
        &&& self.kept@.dom() == self.layout@.dom()
        &&& self.paths@.dom() == self.layout@.dom()
        &&& forall|a: u64| #[trigger]
            self.layout@.contains_key(a) ==> canonical(self.paths@[a]) && tuple_path(
                self.paths@[a],
            ) == self.layout@[a]
        &&& forall|l: Map<u64, Seq<int>>, a: u64|
            tree_wf(model_of(root, given), l) && #[trigger] self.layout@.contains_key(a)
                ==> #[trigger] l.contains_key(a) && l[a] == self.layout@[a]
    }

    /// Follows entry word `w`, entry `i` of a table whose words in the given
    /// hierarchy are `pw`, reached by the path `pp`: takes over the table it
    /// leads to under the path `np` (`pp` extended by `i`). None when no tree
    /// layout of the given hierarchy can exist.
    fn adopt(
        &mut self,
        root: Ghost<Seq<u64>>,
        given: Ghost<Map<u64, PageTable>>,
        pw: Ghost<Seq<u64>>,
        pp: Ghost<Seq<int>>,
        i: usize,
        w: u64,
        np: (u64, u64, u64, u64),
    ) -> (r: Option<Option<u64>>)
        requires
            old(self).inv(root@, given@),
            i < 512,
            pw@.len() == 512,
            w == pw@[i as int],
            canonical(np),
            tuple_path(np) == pp@.push(i as int),
            forall|l: Map<u64, Seq<int>>|
                tree_wf(model_of(root@, given@), l) ==> #[trigger] link_ok(
                    model_of(root@, given@),
                    l,
                    pw@,
                    pp@,
                    i as int,
                ),
        ensures
            r is None ==> !forms_tree(model_of(root@, given@)),
            r is Some ==> {
                &&& final(self).inv(root@, given@)
                &&& link_ok(final(self).model(root@), final(self).layout@, pw@, pp@, i as int)
                &&& forall|a: u64| #[trigger]
                    old(self).layout@.contains_key(a) ==> final(self).layout@.contains_key(a)
                        && final(self).layout@[a] == old(self).layout@[a]
                &&& forall|a: u64| #[trigger]
                    final(self).layout@.contains_key(a) && !old(self).layout@.contains_key(a)
                        ==> r == Some(Some(a)) && final(self).layout@[a] == pp@.push(i as int)
                &&& r matches Some(Some(x)) ==> !old(self).layout@.contains_key(x)
                    && final(self).layout@.contains_key(x)
            },
    {
        let g = Ghost(model_of(root@, given@));
        let e = PageTableEntry { entry: w };
        proof {
            crate::paging::lemma_flags_clear_address();
            assert((w & 0xFFF0_0000_0000_0FFFu64) & 1 == 1 <==> w & 1 != 0) by (bit_vector);
            assert((w & 0xFFF0_0000_0000_0FFFu64) & 128 == 128 <==> w & 128 != 0) by (bit_vector);
        }
        if !e.flags().contains(PageTableFlags::from_bits(PRESENT)) || e.flags().contains(
            PageTableFlags::from_bits(HUGE_PAGE),
        ) {
            return Some(None);
        }
        let x = e.addr().as_u64();
        match self.paths.get(&x) {
            Some(t) => {
                let t = *t;
                if t.0 == np.0 && t.1 == np.1 && t.2 == np.2 && t.3 == np.3 {
                    return Some(None);
                }
                proof {
                    if forms_tree(g@) {
                        let l = choose|l: Map<u64, Seq<int>>| tree_wf(g@, l);
                        assert(link_ok(g@, l, pw@, pp@, i as int));
                        assert(l[x] == self.layout@[x]);
                        lemma_tuple_path_injective(t, np);
                    }
                }
                return None;
            },
            None => {},
        }
        match self.input.remove(&x) {
            Some(table) => {
                self.kept.insert(x, table);
                self.paths.insert(x, np);
                let ghost before = self.layout@;
                self.layout = Ghost(self.layout@.insert(x, pp@.push(i as int)));
                proof {
                    assert(self.kept@.dom() =~= self.layout@.dom());
                    assert(self.paths@.dom() =~= self.layout@.dom());
                    assert forall|l: Map<u64, Seq<int>>, a: u64|
                        tree_wf(g@, l) && #[trigger] self.layout@.contains_key(a) implies #[trigger] l.contains_key(a)
                            && l[a] == self.layout@[a] by {
                        if a == x {
                            assert(link_ok(g@, l, pw@, pp@, i as int));
                        } else {
                            assert(before.contains_key(a));
                        }
                    }
                }
                Some(Some(x))
            },
            None => {
                proof {
                    if forms_tree(g@) {
                        let l = choose|l: Map<u64, Seq<int>>| tree_wf(g@, l);
                        assert(link_ok(g@, l, pw@, pp@, i as int));
                        assert(g@.tables.dom() == l.dom());
                        assert(given@.contains_key(x));
                    }
                }
                None
            },
        }
    }

    /// Follows every entry of the table `parent` (the top-level one when
    /// None, whose words are those of `pml4`), reached by the path `pt`;
    /// returns the tables newly taken over. None when no tree layout of the
    /// given hierarchy can exist.
    fn scan(
        &mut self,
        root: Ghost<Seq<u64>>,
        given: Ghost<Map<u64, PageTable>>,
        parent: Option<u64>,
        pml4: &PageTable,
        pt: (u64, u64, u64, u64),
    ) -> (r: Option<Vec<u64>>)
        requires
            old(self).inv(root@, given@),
            root@ == pml4@,
            match parent {
                None => pt == (0u64, 0u64, 0u64, 0u64),
                Some(p) => {
                    &&& old(self).layout@.contains_key(p)
                    &&& old(self).layout@[p].len() < 3
                    &&& old(self).paths@[p] == pt
                },
            },
        ensures
            r is None ==> !forms_tree(model_of(root@, given@)),
            r matches Some(list) ==> {
                &&& final(self).inv(root@, given@)
                &&& forall|a: u64| #[trigger]
                    old(self).layout@.contains_key(a) ==> final(self).layout@.contains_key(a)
                        && final(self).layout@[a] == old(self).layout@[a]
                &&& forall|a: u64|
                    #[trigger] final(self).layout@.contains_key(a) && !old(self).layout@.contains_key(a) <==> list@.contains(a)
                &&& forall|k: int|
                    0 <= k < list@.len() ==> #[trigger] final(self).layout@.contains_key(list@[k])
                        && final(self).layout@[list@[k]].len() == pt.0 + 1
                &&& forall|j: int|
                    0 <= j < 512 ==> #[trigger] link_ok(
                        final(self).model(root@),
                        final(self).layout@,
                        parent_words(root@, given@, parent),
                        path_of(old(self).layout@, parent),
                        j,
                    )
            },
    {
        let ghost pw: Seq<u64> = parent_words(root@, given@, parent);
        let ghost pp: Seq<int> = path_of(self.layout@, parent);
        let ghost g = model_of(root@, given@);
        proof {
            if let Some(p) = parent {
                assert(self.kept@.contains_key(p));
                assert(canonical(self.paths@[p]));
            }
            assert(pw.len() == 512);
        }
        let ghost l0 = self.layout@;
        let mut list: Vec<u64> = Vec::new();
        let mut i: usize = 0;
        while i < 512
            invariant
                0 <= i <= 512,
                g == model_of(root@, given@),
                self.inv(root@, given@),
                root@ == pml4@,
                pw.len() == 512,
                pt.0 == pp.len(),
                pp.len() < 3,
                match parent {
                    None => pt == (0u64, 0u64, 0u64, 0u64) && pw == root@ && pp == Seq::<int>::empty(),
                    Some(p) => {
                        &&& l0.contains_key(p)
                        &&& pp == l0[p]
                        &&& pw == given@[p]@
                        &&& self.paths@[p] == pt
                        &&& canonical(pt)
                        &&& tuple_path(pt) == pp
                    },
                },
                forall|a: u64| #[trigger]
                    l0.contains_key(a) ==> self.layout@.contains_key(a) && self.layout@[a] == l0[a],
                forall|a: u64|
                    #[trigger] self.layout@.contains_key(a) && !l0.contains_key(a) <==> list@.contains(a),
                forall|k: int|
                    0 <= k < list@.len() ==> #[trigger] self.layout@.contains_key(list@[k])
                        && self.layout@[list@[k]].len() == pt.0 + 1,
                forall|j: int| 0 <= j < i ==> #[trigger] link_ok(self.model(root@), self.layout@, pw, pp, j),
            decreases 512 - i,
        {
            let w = match parent {
                None => pml4.entry(i).entry,
                Some(p) => match self.kept.get(&p) {
                    Some(t) => t.entry(i).entry,
                    None => {
                        proof {
                            assert(self.kept@.contains_key(p));
                        }
                        0
                    },
                },
            };
            let np: (u64, u64, u64, u64) = if pt.0 == 0 {
                (1, i as u64, 0, 0)
            } else if pt.0 == 1 {
                (2, pt.1, i as u64, 0)
            } else {
                (3, pt.1, pt.2, i as u64)
            };
            proof {
                assert(tuple_path(np) =~= pp.push(i as int));
                assert forall|l: Map<u64, Seq<int>>|
                    tree_wf(g, l) implies #[trigger] link_ok(g, l, pw, pp, i as int) by {
                    match parent {
                        None => {
                            assert(link_ok(g, l, g.root, Seq::empty(), i as int));
                        },
                        Some(p) => {
                            assert(self.layout@.contains_key(p));
                            assert(l.contains_key(p));
                            assert(l[p] == self.layout@[p]);
                            assert(g.tables.contains_key(p));
                            assert(link_ok(g, l, g.tables[p], l[p], i as int));
                        },
                    }
                }
            }
            let ghost before = self.layout@;
            let ghost bmodel = self.model(root@);
            let ghost blist = list@;
            match self.adopt(root, given, Ghost(pw), Ghost(pp), i, w, np) {
                None => return None,
                Some(Some(x)) => {
                    list.push(x);
                    proof {
                        assert(list@ == blist.push(x));
                        assert(self.layout@.contains_key(x));
                        assert forall|a: u64|
                            #[trigger] self.layout@.contains_key(a) && !l0.contains_key(a) <==> list@.contains(a) by {
                            assert(before.contains_key(a) == (self.layout@.contains_key(a) && a != x));
                            if list@.contains(a) {
                                let k = choose|k: int| 0 <= k < list@.len() && list@[k] == a;
                                if k < blist.len() {
                                    assert(blist[k] == a);
                                    assert(blist.contains(a));
                                }
                            }
                            if a == x {
                                assert(list@[list@.len() - 1] == x);
                            }
                            if blist.contains(a) {
                                let k = choose|k: int| 0 <= k < blist.len() && blist[k] == a;
                                assert(list@[k] == a);
                            }
                        }
                        assert forall|k: int| 0 <= k < list@.len() implies #[trigger] self.layout@.contains_key(list@[k])
                            && self.layout@[list@[k]].len() == pt.0 + 1 by {
                            if k < blist.len() {
                                assert(list@[k] == blist[k]);
                                assert(before.contains_key(blist[k]));
                                assert(self.layout@[blist[k]] == before[blist[k]]);
                            } else {
                                assert(list@[k] == x);
                                assert(self.layout@[x] == pp.push(i as int));
                            }
                        }
                    }
                },
                Some(None) => {
                    proof {
                        assert forall|a: u64| #[trigger] self.layout@.contains_key(a) == before.contains_key(a) by {
                            if self.layout@.contains_key(a) && !before.contains_key(a) {
                                assert(false);
                            }
                        }
                        assert(self.layout@ =~= before);
                        assert(list@ == blist);
                        assert(forall|k: int|
                            0 <= k < blist.len() ==> #[trigger] before.contains_key(blist[k])
                                && before[blist[k]].len() == pt.0 + 1);
                    }
                },
            }
            proof {
                assert forall|a: u64| #[trigger] l0.contains_key(a) implies self.layout@.contains_key(a)
                    && self.layout@[a] == l0[a] by {
                    assert(before.contains_key(a));
                }
                assert forall|j: int| 0 <= j < i + 1 implies #[trigger] link_ok(self.model(root@), self.layout@, pw, pp, j) by {
                    if j < i {
                        assert(link_ok(bmodel, before, pw, pp, j));
                    }
                }
                assert(forall|k: int|
                    0 <= k < list@.len() ==> #[trigger] self.layout@.contains_key(list@[k])
                        && self.layout@[list@[k]].len() == pt.0 + 1);
            }
            i = i + 1;
        }
        Some(list)
    }

    /// Scans every table of `parents`, all reached by paths of length `d`;
    /// returns the tables newly taken over. None when no tree layout of the
    /// given hierarchy can exist.
    fn scan_level(
        &mut self,
        root: Ghost<Seq<u64>>,
        given: Ghost<Map<u64, PageTable>>,
        pml4: &PageTable,
        parents: &Vec<u64>,
        d: Ghost<nat>,
    ) -> (r: Option<Vec<u64>>)
        requires
            old(self).inv(root@, given@),
            root@ == pml4@,
            1 <= d@ < 3,
            forall|k: int|
                0 <= k < parents@.len() ==> #[trigger] old(self).layout@.contains_key(parents@[k])
                    && old(self).layout@[parents@[k]].len() == d@,
        ensures
            r is None ==> !forms_tree(model_of(root@, given@)),
            r matches Some(next) ==> {
                &&& final(self).inv(root@, given@)
                &&& forall|a: u64| #[trigger]
                    old(self).layout@.contains_key(a) ==> final(self).layout@.contains_key(a)
                        && final(self).layout@[a] == old(self).layout@[a]
                &&& forall|a: u64|
                    #[trigger] final(self).layout@.contains_key(a) && !old(self).layout@.contains_key(a) <==> next@.contains(a)
                &&& forall|k: int|
                    0 <= k < next@.len() ==> #[trigger] final(self).layout@.contains_key(next@[k])
                        && final(self).layout@[next@[k]].len() == d@ + 1
                &&& forall|k: int, j: int|
                    0 <= k < parents@.len() && 0 <= j < 512 ==> #[trigger] link_ok(
                        model_of(root@, given@),
                        final(self).layout@,
                        given@[parents@[k]]@,
                        final(self).layout@[parents@[k]],
                        j,
                    )
            },
    {
        let ghost l0 = self.layout@;
        let ghost g = model_of(root@, given@);
        proof {
            assert forall|q: int|
                0 <= q < parents@.len() implies #[trigger] l0.contains_key(parents@[q]) && l0[parents@[q]].len() == d@ by {
                assert(old(self).layout@.contains_key(parents@[q]));
            }
        }
        let mut next: Vec<u64> = Vec::new();
        let mut k: usize = 0;
        while k < parents.len()
            invariant
                0 <= k <= parents@.len(),
                g == model_of(root@, given@),
                root@ == pml4@,
                1 <= d@ < 3,
                self.inv(root@, given@),
                forall|q: int|
                    0 <= q < parents@.len() ==> #[trigger] l0.contains_key(parents@[q]) && l0[parents@[q]].len() == d@,
                forall|a: u64| #[trigger]
                    l0.contains_key(a) ==> self.layout@.contains_key(a) && self.layout@[a] == l0[a],
                forall|a: u64|
                    #[trigger] self.layout@.contains_key(a) && !l0.contains_key(a) <==> next@.contains(a),
                forall|q: int|
                    0 <= q < next@.len() ==> #[trigger] self.layout@.contains_key(next@[q])
                        && self.layout@[next@[q]].len() == d@ + 1,
                forall|q: int, j: int|
                    0 <= q < k && 0 <= j < 512 ==> #[trigger] link_ok(g, self.layout@, given@[parents@[q]]@, self.layout@[parents@[q]], j),
            decreases parents@.len() - k,
        {
            let p = parents[k];
            proof {
                assert(l0.contains_key(parents@[k as int]));
            }
            let pt = match self.paths.get(&p) {
                Some(t) => *t,
                None => {
                    proof {
                        assert(self.layout@.contains_key(p));
                    }
                    (0, 0, 0, 0)
                },
            };
            let ghost before = self.layout@;
            let ghost bnext = next@;
            proof {
                assert(l0.contains_key(p));
                assert(self.layout@.contains_key(p));
                assert(canonical(pt) && tuple_path(pt) == self.layout@[p]);
                assert(tuple_path(pt).len() == pt.0);
                assert(pt.0 == d@);
            }
            let found = match self.scan(root, given, Some(p), pml4, pt) {
                Some(f) => f,
                None => return None,
            };
            proof {
                assert(canonical(pt));
            }
            let ghost bfound = found@;
            let mut n: usize = 0;
            while n < found.len()
                invariant
                    0 <= n <= found@.len(),
                    found@ == bfound,
                    next@ == bnext + bfound.take(n as int),
            decreases found@.len() - n,
            {
                next.push(found[n]);
                proof {
                    assert(bfound.take(n + 1) =~= bfound.take(n as int).push(bfound[n as int]));
                }
                n = n + 1;
            }
            proof {
                assert(bfound.take(n as int) =~= bfound);
                assert(next@ == bnext + bfound);
                assert forall|a: u64| #[trigger] l0.contains_key(a) implies self.layout@.contains_key(a)
                    && self.layout@[a] == l0[a] by {
                    assert(before.contains_key(a));
                }
                assert forall|a: u64|
                    #[trigger] self.layout@.contains_key(a) && !l0.contains_key(a) <==> next@.contains(a) by {
                    if next@.contains(a) {
                        let q = choose|q: int| 0 <= q < next@.len() && next@[q] == a;
                        if q < bnext.len() {
                            assert(bnext[q] == a);
                            assert(bnext.contains(a));
                        } else {
                            assert(bfound[q - bnext.len()] == a);
                            assert(bfound.contains(a));
                        }
                    }
                    if bnext.contains(a) {
                        let q = choose|q: int| 0 <= q < bnext.len() && bnext[q] == a;
                        assert(next@[q] == a);
                    }
                    if bfound.contains(a) {
                        let q = choose|q: int| 0 <= q < bfound.len() && bfound[q] == a;
                        assert(next@[bnext.len() + q] == a);
                    }
                    if self.layout@.contains_key(a) && !before.contains_key(a) {
                        assert(bfound.contains(a));
                    }
                    if before.contains_key(a) {
                        assert(self.layout@.contains_key(a));
                    }
                }
                assert forall|q: int|
                    0 <= q < next@.len() implies #[trigger] self.layout@.contains_key(next@[q])
                        && self.layout@[next@[q]].len() == d@ + 1 by {
                    if q < bnext.len() {
                        assert(next@[q] == bnext[q]);
                        assert(before.contains_key(bnext[q]));
                    } else {
                        assert(next@[q] == bfound[q - bnext.len()]);
                    }
                }
                assert forall|q: int, j: int|
                    0 <= q < k + 1 && 0 <= j < 512 implies #[trigger] link_ok(g, self.layout@, given@[parents@[q]]@, self.layout@[parents@[q]], j) by {
                    let pq = parents@[q];
                    assert(l0.contains_key(pq));
                    assert(before.contains_key(pq));
                    if q < k {
                        assert(link_ok(g, before, given@[pq]@, before[pq], j));
                    } else {
                        assert(link_ok(self.model(root@), self.layout@, parent_words(root@, given@, Some(p)), path_of(before, Some(p)), j));
                        assert(parent_words(root@, given@, Some(p)) == given@[p]@);
                        assert(path_of(before, Some(p)) == before[p]);
                    }
                }
            }
            k = k + 1;
        }
        Some(next)
    }

}

/// Two hierarchies that agree on the top-level table and on every table
/// that `layout` holds, of which `sub` is a tree, have the same bottom-level
/// entries.
proof fn lemma_walks_agree(sub: PagingModel, full: PagingModel, layout: Map<u64, Seq<int>>)
    requires
        tree_wf(sub, layout),
        sub.root == full.root,
        sub.tables.submap_of(full.tables),
    ensures
        sub.same_leaves(full),
{
    assert forall|i4: int, i3: int, i2: int, i1: int|
        0 <= i4 < 512 && 0 <= i3 < 512 && 0 <= i2 < 512 && 0 <= i1 < 512 implies #[trigger] sub.leaf(
        i4,
        i3,
        i2,
        i1,
    ) == full.leaf(i4, i3, i2, i1) by {
        lemma_walk_layout(sub, layout, i4, i3, i2);
        if let Step::Table(t3) = sub.step(sub.root, i4) {
            assert(sub.tables.contains_key(t3));
            assert(full.tables.dom().contains(t3));
            assert(sub.tables[t3] == full.tables[t3]);
            if let Step::Table(t2) = sub.step(sub.tables[t3], i3) {
                assert(sub.tables.contains_key(t2));
                assert(full.tables.dom().contains(t2));
                assert(sub.tables[t2] == full.tables[t2]);
                if let Step::Table(t1) = sub.step(sub.tables[t2], i2) {
                    assert(sub.tables.contains_key(t1));
                    assert(full.tables.dom().contains(t1));
                    assert(sub.tables[t1] == full.tables[t1]);
                }
            }
        }
    }
}

proof fn lemma_link_ok_grows(
    m1: PagingModel,
    m2: PagingModel,
    l1: Map<u64, Seq<int>>,
    l2: Map<u64, Seq<int>>,
    t: Seq<u64>,
    p: Seq<int>,
    i: int,
)
    requires
        link_ok(m1, l1, t, p, i),
        forall|a: u64| #[trigger] l1.contains_key(a) ==> l2.contains_key(a) && l2[a] == l1[a],
    ensures
        link_ok(m2, l2, t, p, i),
{
}

/// A mapper over a page-table hierarchy and the frame allocator it takes
/// new tables from.
pub struct Mapper<A: FrameAllocator> {
    pml4: PageTable,
    tables: HashMap<u64, PageTable>,
    allocator: A,
    layout: Ghost<Map<u64, Seq<int>>>,
}

impl<A: FrameAllocator> View for Mapper<A> {
    type V = PagingModel;

    closed spec fn view(&self) -> PagingModel {
        PagingModel { root: self.pml4@, tables: self.tables@.map_values(|t: PageTable| t@) }
    }
}

impl<A: FrameAllocator> Mapper<A> {
    /// The frame allocator.
    pub closed spec fn frame_allocator(self) -> A {
        self.allocator
    }

    /// The frame allocator.
    pub fn allocator(&self) -> (r: &A)
        ensures
            *r == self.frame_allocator(),
    {
        &self.allocator
    }

    /// Addresses of the lower tables the mapper holds.
    pub closed spec fn table_frames(self) -> Set<u64> {
        self.layout@.dom()
    }

    /// The hierarchy is a tree, the allocator is consistent, and no frame
    /// that holds a table is available for allocation.
    pub closed spec fn wf(self) -> bool {
        &&& tree_wf(self@, self.layout@)
        &&& self.allocator.inv()
        &&& forall|a: u64| #[trigger]
            self.layout@.contains_key(a) ==> !self.allocator.available().contains(a)
    }

    /// A mapper over the top-level table `pml4` and the allocator
    /// `allocator`, with no lower table yet: no entry of `pml4` may lead to
    /// one. `with_tables` takes over an existing hierarchy.
    pub fn new(pml4: PageTable, allocator: A) -> (r: Mapper<A>)
        requires
            allocator.inv(),
            forall|i: int| 0 <= i < 512 ==> !(is_present(#[trigger] pml4@[i]) && !is_huge(pml4@[i])),
        ensures
            r.wf(),
            r@.root == pml4@,
            r@.tables.dom() == Set::<u64>::empty(),
            r.frame_allocator() == allocator,
    {
        let r = Mapper { pml4, tables: HashMap::new(), allocator, layout: Ghost(Map::empty()) };
        proof {
            assert(r@.tables.dom() =~= Set::<u64>::empty());
            assert(r.layout@.dom() =~= Set::<u64>::empty());
        }
        r
    }

    /// A mapper over an existing hierarchy: the top-level table `pml4` and
    /// the lower tables `lower`, under their physical addresses. It keeps the
    /// lower tables that walks from `pml4` reach. None when no assignment of
    /// index paths makes the hierarchy a tree (an entry leads to a table not
    /// in `lower`, or two entries lead to the same table).
    pub fn with_tables(pml4: PageTable, lower: HashMap<u64, PageTable>, allocator: A) -> (r: Option<Mapper<A>>)
        requires
            allocator.inv(),
            forall|a: u64| #[trigger] lower@.contains_key(a) ==> !allocator.available().contains(a),
        ensures
            r is Some <==> forms_tree(model_of(pml4@, lower@)),
            r matches Some(m) ==> {
                &&& m.wf()
                &&& m@.root == pml4@
                &&& m.frame_allocator() == allocator
                &&& m@.tables.submap_of(model_of(pml4@, lower@).tables)
                &&& m@.same_leaves(model_of(pml4@, lower@))
            },
    {
        let ghost root = pml4@;
        let ghost given = lower@;
        let ghost g = model_of(root, given);
        let mut st = Adoption {
            input: lower,
            kept: HashMap::new(),
            paths: HashMap::new(),
            layout: Ghost(Map::empty()),
        };
        proof {
            assert(st.kept@.dom() =~= st.layout@.dom());
            assert(st.paths@.dom() =~= st.layout@.dom());
        }
        let l3 = match st.scan(Ghost(root), Ghost(given), None, &pml4, (0, 0, 0, 0)) {
            Some(l) => l,
            None => return None,
        };
        let ghost lay1 = st.layout@;
        let ghost k1 = st.model(root);
        let l2 = match st.scan_level(Ghost(root), Ghost(given), &pml4, &l3, Ghost(1nat)) {
            Some(l) => l,
            None => return None,
        };
        let ghost lay2 = st.layout@;
        let l1 = match st.scan_level(Ghost(root), Ghost(given), &pml4, &l2, Ghost(2nat)) {
            Some(l) => l,
            None => return None,
        };
        let ghost lay = st.layout@;
        let ghost k = st.model(root);
        proof {
            // Every held table with a path shorter than 3 was scanned.
            assert forall|a: u64, i: int|
                #![trigger lay[a], k.tables[a][i]]
                lay.contains_key(a) && lay[a].len() < 3 && 0 <= i < 512 implies link_ok(k, lay, k.tables[a], lay[a], i) by {
                assert(st.kept@.contains_key(a));
                assert(k.tables[a] == given[a]@);
                if lay2.contains_key(a) {
                    if lay1.contains_key(a) {
                        assert(l3@.contains(a));
                        let q = choose|q: int| 0 <= q < l3@.len() && l3@[q] == a;
                        assert(link_ok(g, lay2, given[l3@[q]]@, lay2[l3@[q]], i));
                        lemma_link_ok_grows(g, k, lay2, lay, given[a]@, lay2[a], i);
                    } else {
                        assert(l2@.contains(a));
                        let q = choose|q: int| 0 <= q < l2@.len() && l2@[q] == a;
                        assert(link_ok(g, lay, given[l2@[q]]@, lay[l2@[q]], i));
                        lemma_link_ok_grows(g, k, lay, lay, given[a]@, lay[a], i);
                    }
                } else {
                    assert(l1@.contains(a));
                    let q = choose|q: int| 0 <= q < l1@.len() && l1@[q] == a;
                    assert(lay[l1@[q]].len() == 3);
                }
            }
            assert forall|i: int| 0 <= i < 512 implies #[trigger] link_ok(k, lay, k.root, Seq::empty(), i) by {
                assert(link_ok(k1, lay1, parent_words(root, given, None), path_of(Map::<u64, Seq<int>>::empty(), None), i));
                assert forall|a: u64| #[trigger] lay1.contains_key(a) implies lay.contains_key(a) && lay[a] == lay1[a] by {
                    assert(lay2.contains_key(a));
                }
                lemma_link_ok_grows(k1, k, lay1, lay, root, Seq::empty(), i);
            }
            assert(k.tables.dom() =~= lay.dom());
            assert forall|a: u64| #[trigger] lay.contains_key(a) implies 1 <= lay[a].len() <= 3
                && k.tables[a].len() == 512 by {
                assert(canonical(st.paths@[a]));
            }
            assert(tree_wf(k, lay));
        }
        let m = Mapper { pml4, tables: st.kept, allocator, layout: Ghost(lay) };
        proof {
            assert(m@.tables.submap_of(g.tables));
            lemma_walks_agree(k, g, lay);
            let full = Map::new(|a: u64| given.contains_key(a), |a: u64| if lay.contains_key(a) { lay[a] } else { seq![0int, 0int, 0int] });
            assert(g.tables.dom() =~= full.dom());
            assert forall|a: u64| #[trigger] full.contains_key(a) implies 1 <= full[a].len() <= 3
                && g.tables[a].len() == 512 by {}
            assert forall|i: int| 0 <= i < 512 implies #[trigger] link_ok(g, full, g.root, Seq::empty(), i) by {
                assert(link_ok(k, lay, k.root, Seq::empty(), i));
            }
            assert forall|a: u64, i: int|
                #![trigger full[a], g.tables[a][i]]
                full.contains_key(a) && full[a].len() < 3 && 0 <= i < 512 implies link_ok(g, full, g.tables[a], full[a], i) by {
                assert(lay.contains_key(a));
                assert(link_ok(k, lay, k.tables[a], lay[a], i));
            }
            assert(tree_wf(g, full));
        }
        Some(m)
    }

    /// Entry `i` of `table`.
    fn read_word(&self, table: Option<u64>, i: usize) -> (r: u64)
        requires
            self.wf(),
            i < ENTRY_COUNT,
            table matches Some(a) ==> self.layout@.contains_key(a),
        ensures
            r == words(self@, table)[i as int],
    {
        match table {
            None => self.pml4.entry(i).entry,
            Some(a) => match self.tables.get(&a) {
                Some(t) => t.entry(i).entry,
                None => {
                    proof {
                        assert(self@.tables.contains_key(a));
                    }
                    0
                },
            },
        }
    }

    /// Sets entry `i` of `table` to `w`.
    fn write_word(&mut self, table: Option<u64>, i: usize, w: u64)
        requires
            i < ENTRY_COUNT,
            table matches Some(a) ==> old(self)@.tables.contains_key(a),
        ensures
            final(self)@ == set_word(old(self)@, table, i as int, w),
            final(self).layout == old(self).layout,
            final(self).allocator == old(self).allocator,
    {
        match table {
            None => {
                self.pml4.set_entry(i, PageTableEntry { entry: w });
                proof {
                    assert(self@.tables =~= old(self)@.tables);
                }
            },
            Some(a) => {
                match self.tables.remove(&a) {
                    Some(mut t) => {
                        t.set_entry(i, PageTableEntry { entry: w });
                        self.tables.insert(a, t);
                        proof {
                            assert(self@.tables =~= old(self)@.tables.insert(
                                a,
                                old(self)@.tables[a].update(i as int, w),
                            ));
                        }
                    },
                    None => {
                        proof {
                            assert(false);
                        }
                    },
                }
            },
        }
    }

    /// Follows entry `i` of `table` without changing anything.
    fn descend(&self, table: Option<u64>, i: usize) -> (r: Result<u64, MapError>)
        requires
            self.wf(),
            i < ENTRY_COUNT,
            upper_table(self.layout@, table),
        ensures
            match self@.step(words(self@, table), i as int) {
                Step::Missing => r == Err::<u64, MapError>(MapError::NotMapped),
                Step::Huge => r == Err::<u64, MapError>(MapError::ParentEntryHugePage),
                Step::Table(t) => {
                    &&& r == Ok::<u64, MapError>(t)
                    &&& self.layout@.contains_key(t)
                    &&& self.layout@[t] == path_of(self.layout@, table).push(i as int)
                },
            },
    {
        let w = self.read_word(table, i);
        proof {
            match table {
                None => assert(link_ok(self@, self.layout@, self@.root, Seq::empty(), i as int)),
                Some(a) => assert(link_ok(
                    self@,
                    self.layout@,
                    self@.tables[a],
                    self.layout@[a],
                    i as int,
                )),
            }
        }
        let e = PageTableEntry { entry: w };
        proof {
            assert((w & 0xFFF0_0000_0000_0FFFu64) & 1 == 1 <==> w & 1 != 0) by (bit_vector);
            assert((w & 0xFFF0_0000_0000_0FFFu64) & 128 == 128 <==> w & 128 != 0) by (bit_vector);
        }
        proof {
            crate::paging::lemma_flags_clear_address();
        }
        if !e.flags().contains(PageTableFlags::from_bits(PRESENT)) {
            return Err(MapError::NotMapped);
        }
        if e.flags().contains(PageTableFlags::from_bits(HUGE_PAGE)) {
            return Err(MapError::ParentEntryHugePage);
        }
        Ok(e.addr().as_u64())
    }

    /// Walks the top three levels for `v` without changing anything; ends at
    /// the address of the bottom-level table.
    fn lookup(&self, v: VirtAddr) -> (r: Result<u64, MapError>)
        requires
            self.wf(),
        ensures
            match self@.walk_of(v.0) {
                Step::Missing => r == Err::<u64, MapError>(MapError::NotMapped),
                Step::Huge => r == Err::<u64, MapError>(MapError::ParentEntryHugePage),
                Step::Table(t) => {
                    &&& r == Ok::<u64, MapError>(t)
                    &&& self.layout@.contains_key(t)
                },
            },
    {
        let i4 = v.page_table_index(PageTableLevel::Four);
        let i3 = v.page_table_index(PageTableLevel::Three);
        let i2 = v.page_table_index(PageTableLevel::Two);
        proof {
            lemma_walk_layout(self@, self.layout@, i4 as int, i3 as int, i2 as int);
        }
        let t3 = match self.descend(None, i4) {
            Ok(t) => t,
            Err(e) => return Err(e),
        };
        let t2 = match self.descend(Some(t3), i3) {
            Ok(t) => t,
            Err(e) => return Err(e),
        };
        self.descend(Some(t2), i2)
    }

    /// Translates the virtual address `addr`: the address held by the
    /// bottom-level entry of its page, plus its offset in the page; None when
    /// a walk step finds no present entry, finds a huge-page entry, or the
    /// bottom-level entry is unused.
    pub fn translate(&self, addr: VirtAddr) -> (r: Option<PhysAddr>)
        requires
            self.wf(),
        ensures
            match self@.translate(addr.0) {
                Some(p) => r == Some(PhysAddr(p)),
                None => r is None,
            },
    {
        let offset = addr.page_offset();
        let t1 = match self.lookup(addr) {
            Ok(t) => t,
            Err(_) => return None,
        };
        let i1 = addr.page_table_index(PageTableLevel::One);
        let w = self.read_word(Some(t1), i1);
        let e = PageTableEntry { entry: w };
        if e.is_unused() {
            None
        } else {
            let frame_addr = e.addr().as_u64();
            Some(PhysAddr::new(frame_addr + offset as u64))
        }
    }

    /// Follows entry `i` of `table`; where the entry is not present, first
    /// links a zeroed table taken from the allocator.
    fn descend_create(&mut self, table: Option<u64>, i: usize) -> (r: Result<u64, MapError>)
        requires
            old(self).wf(),
            i < ENTRY_COUNT,
            upper_table(old(self).layout@, table),
        ensures
            final(self).wf(),
            final(self)@.same_leaves(old(self)@),
            final(self).frame_allocator().available().subset_of(
                old(self).frame_allocator().available(),
            ),
            forall|a: u64| #[trigger]
                final(self).layout@.contains_key(a) ==> old(self).layout@.contains_key(a)
                    || old(self).frame_allocator().available().contains(a),
            forall|a: u64| #[trigger]
                old(self).layout@.contains_key(a) ==> final(self).layout@.contains_key(a)
                    && final(self).layout@[a] == old(self).layout@[a],
            table is Some ==> final(self)@.root == old(self)@.root,
            forall|a: u64|
                old(self).layout@.contains_key(a) && table != Some(a)
                    ==> #[trigger] final(self)@.tables[a] == old(self)@.tables[a],
            old(self).frame_allocator().allocated().subset_of(
                final(self).frame_allocator().allocated(),
            ),
            final(self).frame_allocator().available() == old(self).frame_allocator().available()
                || (r matches Ok(t) && old(self).frame_allocator().available().contains(t)
                && final(self).frame_allocator().available() == old(self).frame_allocator().available().remove(t)),
            r == Err::<u64, MapError>(MapError::FrameAllocationFailed) ==> final(self).frame_allocator().available() == Set::<u64>::empty(),
            old(self)@.step(words(old(self)@, table), i as int) == Step::Missing && r is Ok ==> old(self).frame_allocator().available() != Set::<u64>::empty(),
            r matches Ok(t) ==> {
                &&& final(self)@.step(words(final(self)@, table), i as int) == Step::Table(t)
                &&& final(self).layout@.contains_key(t)
                &&& final(self).layout@[t] == path_of(old(self).layout@, table).push(i as int)
            },
            match old(self)@.step(words(old(self)@, table), i as int) {
                Step::Huge => {
                    &&& r == Err::<u64, MapError>(MapError::ParentEntryHugePage)
                    &&& *final(self) == *old(self)
                },
                Step::Table(t) => r == Ok::<u64, MapError>(t) && *final(self) == *old(self),
                Step::Missing => match r {
                    Ok(t) => {
                        &&& final(self)@.tables[t] == zero_table()
                        &&& words(final(self)@, table)[i as int] == t | 7
                        &&& (t | 7) == entry_addr(t | 7) | 7
                    },
                    Err(e) => {
                        &&& e == MapError::FrameAllocationFailed
                        &&& final(self)@ == old(self)@
                        &&& final(self).layout == old(self).layout
                    },
                },
            },
    {
        let w = self.read_word(table, i);
        proof {
            assert((w & 0xFFF0_0000_0000_0FFFu64) & 1 == 1 <==> w & 1 != 0) by (bit_vector);
        }
        let e = PageTableEntry { entry: w };
        proof {
            crate::paging::lemma_flags_clear_address();
        }
        if !e.flags().contains(PageTableFlags::from_bits(PRESENT)) {
            let frame = match self.allocator.allocate_frame() {
                Ok(f) => f,
                Err(_) => {
                    return Err(MapError::FrameAllocationFailed);
                },
            };
            let t = frame.start_address().as_u64();
            let ghost before = *self;
            let ghost lay2 = self.layout@.insert(t, path_of(self.layout@, table).push(i as int));
            proof {
                assert(!self.layout@.contains_key(t));
                lemma_add_table(self@, self.layout@, table, i as int, t);
                lemma_link_words(t);
            }
            let fresh = PageTable::new();
            proof {
                assert(fresh@ =~= zero_table());
            }
            self.tables.insert(t, fresh);
            proof {
                assert(self@.tables =~= before@.tables.insert(t, zero_table()));
            }
            let link = PageTableFlags::from_bits(PRESENT).union(
                PageTableFlags::from_bits(WRITABLE),
            ).union(PageTableFlags::from_bits(USER_ACCESSIBLE));
            assert(1u64 | 2u64 | 4u64 == 7) by (bit_vector);
            self.write_word(table, i, t | link.bits());
            self.layout = Ghost(lay2);
            proof {
                assert(self@ == add_table(before@, table, i as int, t));
                assert forall|a: u64| #[trigger]
                    self.layout@.contains_key(a) implies !self.allocator.available().contains(a) by {
                    if a != t {
                        assert(before.layout@.contains_key(a));
                    }
                }
            }
            return Ok(t);
        }
        self.descend(table, i)
    }

    /// Walks the top three levels for `v`, linking zeroed tables where
    /// entries are not present; ends at the address of the bottom-level
    /// table.
    fn walk_create(&mut self, v: VirtAddr) -> (r: Result<u64, MapError>)
        requires
            old(self).wf(),
        ensures
            final(self).wf(),
            final(self)@.same_leaves(old(self)@),
            final(self).frame_allocator().available().subset_of(
                old(self).frame_allocator().available(),
            ),
            forall|a: u64| #[trigger]
                final(self).layout@.contains_key(a) ==> old(self).layout@.contains_key(a)
                    || old(self).frame_allocator().available().contains(a),
            old(self).frame_allocator().allocated().subset_of(
                final(self).frame_allocator().allocated(),
            ),
            r == Err::<u64, MapError>(MapError::FrameAllocationFailed) ==> {
                &&& final(self).frame_allocator().available() == Set::<u64>::empty()
                &&& old(self).frame_allocator().available().finite() ==> old(self).frame_allocator().available().len() < old(self)@.tables_needed(v.0)
            },
            old(self)@.walk_of(v.0) == Step::Missing && old(self).frame_allocator().available() == Set::<u64>::empty() ==> r == Err::<u64, MapError>(MapError::FrameAllocationFailed),
            r matches Ok(t) ==> final(self)@.walk_of(v.0) == Step::Table(t),
            r is Ok ==> final(self)@.kept_or_linked(old(self)@, v.0),
            match old(self)@.walk_of(v.0) {
                Step::Huge => {
                    &&& r == Err::<u64, MapError>(MapError::ParentEntryHugePage)
                    &&& *final(self) == *old(self)
                },
                Step::Table(t) => r == Ok::<u64, MapError>(t) && *final(self) == *old(self),
                Step::Missing => r is Ok || r == Err::<u64, MapError>(
                    MapError::FrameAllocationFailed,
                ),
            },
    {
        let i4 = v.page_table_index(PageTableLevel::Four);
        let i3 = v.page_table_index(PageTableLevel::Three);
        let i2 = v.page_table_index(PageTableLevel::Two);
        let ghost m0 = self@;
        proof {
            lemma_walk_layout(self@, self.layout@, i4 as int, i3 as int, i2 as int);
        }
        let ghost a0 = self.allocator.available();
        let t3 = match self.descend_create(None, i4) {
            Ok(t) => t,
            Err(e) => return Err(e),
        };
        let ghost a1 = self.allocator.available();
        proof {
            lemma_one_taken(a0, a1);
        }
        let ghost m1 = self@;
        proof {
            assert(0u64 & 1 == 0) by (bit_vector);
            assert(seq![i4 as int] =~= Seq::<int>::empty().push(i4 as int));
        }
        let t2 = match self.descend_create(Some(t3), i3) {
            Ok(t) => t,
            Err(e) => return Err(e),
        };
        let ghost m2 = self@;
        let ghost a2 = self.allocator.available();
        proof {
            lemma_one_taken(a1, a2);
        }
        let t1 = match self.descend_create(Some(t2), i2) {
            Ok(t) => t,
            Err(e) => return Err(e),
        };
        proof {
            assert(self.layout@[t3].len() == 1);
            assert(self.layout@[t2].len() == 2);
            assert(self@.tables[t3] == m2.tables[t3]);
            assert(1u64 | 2u64 | 4u64 == 7) by (bit_vector);
            lemma_link_words(t3);
            lemma_link_words(t2);
            lemma_link_words(t1);
            let f = self@;
            assert(f.upper_words(v.0)[0] == f.root[i4 as int]);
            assert(f.upper_words(v.0)[1] == f.tables[t3][i3 as int]);
            assert(f.upper_words(v.0)[2] == f.tables[t2][i2 as int]);
        }
        Ok(t1)
    }

    /// Maps `page` to `frame` with `flags` (PRESENT is added), linking
    /// zeroed tables taken from the allocator where the walk needs them.
    /// Tables linked before a failure stay linked, empty.
    pub fn map_to(&mut self, page: Page, frame: PhysFrame, flags: PageTableFlags) -> (r: Result<
        (),
        MapError,
    >)
        requires
            old(self).wf(),
            frame@ < PHYS_ADDR_LIMIT,
        ensures
            final(self).wf(),
            final(self).frame_allocator().available().subset_of(
                old(self).frame_allocator().available(),
            ),
            forall|a: u64| #[trigger]
                final(self).table_frames().contains(a) ==> old(self).table_frames().contains(a)
                    || old(self).frame_allocator().available().contains(a),
            r matches Err(e) ==> {
                &&& e == MapError::PageAlreadyMapped || e == MapError::FrameAllocationFailed || e
                    == MapError::ParentEntryHugePage
                &&& final(self)@.same_leaves(old(self)@)
            },
            r == Err::<(), MapError>(MapError::ParentEntryHugePage) <==> old(self)@.walk_of(page@)
                == Step::Huge,
            r == Err::<(), MapError>(MapError::PageAlreadyMapped) <==> old(self)@.leaf_of(
                page@,
            ) is Some,
            r == Err::<(), MapError>(MapError::FrameAllocationFailed) ==> old(self)@.walk_of(page@)
                == Step::Missing,
            old(self)@.walk_of(page@) is Table && old(self)@.leaf_of(page@) is None ==> r is Ok,
            old(self)@.walk_of(page@) != Step::Huge && old(self)@.leaf_of(page@) is None && old(self).frame_allocator().available().finite() && old(self).frame_allocator().available().len()
                >= old(self)@.tables_needed(page@) ==> r is Ok,
            old(self)@.walk_of(page@) == Step::Missing && old(self).frame_allocator().available() == Set::<u64>::empty() ==> r == Err::<(), MapError>(MapError::FrameAllocationFailed),
            r == Err::<(), MapError>(MapError::PageAlreadyMapped) || r == Err::<(), MapError>(
                MapError::ParentEntryHugePage,
            ) ==> final(self)@ == old(self)@ && final(self).frame_allocator() == old(self).frame_allocator(),
            r == Err::<(), MapError>(MapError::FrameAllocationFailed) ==> {
                &&& final(self).frame_allocator().available() == Set::<u64>::empty()
                &&& old(self).frame_allocator().available().finite() ==> old(self).frame_allocator().available().len() < old(self)@.tables_needed(page@)
            },
            old(self).frame_allocator().allocated().subset_of(
                final(self).frame_allocator().allocated(),
            ),
            r is Ok ==> {
                &&& final(self)@.leaf_of(page@) == Some(frame@ | (flags@ | PRESENT))
                &&& final(self)@.same_leaves_except(old(self)@, page@)
            },
            r is Ok ==> final(self)@.kept_or_linked(old(self)@, page@),
            r is Ok ==> forall|o: u64|
                o < 4096 ==> #[trigger] final(self)@.translate((page@ + o) as u64) == Some(
                    (frame@ + o) as u64,
                ),
    {
        proof {
            crate::paging::lemma_flags_clear_address();
        }
        let flag_bits = flags.bits();
        let leaf_flags = flags.union(PageTableFlags::from_bits(PRESENT));
        let v = page.start_address();
        let t1 = match self.walk_create(v) {
            Ok(t) => t,
            Err(e) => return Err(e),
        };
        let i4 = v.page_table_index(PageTableLevel::Four);
        let i3 = v.page_table_index(PageTableLevel::Three);
        let i2 = v.page_table_index(PageTableLevel::Two);
        let i1 = v.page_table_index(PageTableLevel::One);
        let ghost mid = self@;
        proof {
            lemma_walk_layout(self@, self.layout@, i4 as int, i3 as int, i2 as int);
            assert(mid.leaf(i4 as int, i3 as int, i2 as int, i1 as int) == old(self)@.leaf(
                i4 as int,
                i3 as int,
                i2 as int,
                i1 as int,
            ));
        }
        let w = self.read_word(Some(t1), i1);
        if w != 0 {
            return Err(MapError::PageAlreadyMapped);
        }
        let mut e = PageTableEntry::new();
        e.set_addr(frame.start_address(), leaf_flags);
        proof {
            let x = frame@;
            let f = leaf_flags@;
            let g = flags@;
            assert(f & 1 == 1) by (bit_vector)
                requires
                    f == g | 1,
            ;
            assert(x | f != 0) by (bit_vector)
                requires
                    f & 1 == 1,
            ;
            lemma_write_leaf(
                self@,
                self.layout@,
                i4 as int,
                i3 as int,
                i2 as int,
                i1 as int,
                t1,
                e.entry,
            );
        }
        self.write_word(Some(t1), i1, e.entry);
        proof {
            let w4 = mid.root[i4 as int];
            let w3 = mid.tables[entry_addr(w4)][i3 as int];
            assert(self.layout@[t1] == seq![i4 as int, i3 as int, i2 as int]);
            assert(self.layout@[entry_addr(w4)] == seq![i4 as int]);
            assert(self.layout@[entry_addr(w3)] == seq![i4 as int, i3 as int]);
            assert(entry_addr(w4) != t1);
            assert(entry_addr(w3) != t1);
            assert(self@.upper_words(v.0) =~= mid.upper_words(v.0));
            assert forall|o: u64| o < 4096 implies #[trigger] self@.translate(
                (page@ + o) as u64,
            ) == Some((frame@ + o) as u64) by {
                lemma_translate_after_map(self@, page@, frame@, flags@, o);
            }
        }
        Ok(())
    }

    /// Removes the mapping of `page` and hands back the frame it mapped; the
    /// frame is not freed. The caller invalidates the page's TLB entry.
    pub fn unmap(&mut self, page: Page) -> (r: Result<PhysFrame, MapError>)
        requires
            old(self).wf(),
        ensures
            final(self).wf(),
            final(self).frame_allocator() == old(self).frame_allocator(),
            final(self).table_frames() == old(self).table_frames(),
            unmap_outcome(old(self)@, final(self)@, page@, r),
    {
        let v = page.start_address();
        let t1 = match self.lookup(v) {
            Ok(t) => t,
            Err(e) => return Err(e),
        };
        let i4 = v.page_table_index(PageTableLevel::Four);
        let i3 = v.page_table_index(PageTableLevel::Three);
        let i2 = v.page_table_index(PageTableLevel::Two);
        let i1 = v.page_table_index(PageTableLevel::One);
        let w = self.read_word(Some(t1), i1);
        let mut e = PageTableEntry { entry: w };
        if e.is_unused() {
            return Err(MapError::NotMapped);
        }
        let frame = e.frame();
        e.set_unused();
        proof {
            lemma_write_leaf(self@, self.layout@, i4 as int, i3 as int, i2 as int, i1 as int, t1, 0);
        }
        self.write_word(Some(t1), i1, e.entry);
        Ok(frame)
    }

    /// Replaces the flags of the mapping of `page` with `flags` (PRESENT is
    /// added) and keeps its frame. The caller invalidates the page's TLB
    /// entry.
    pub fn update_flags(&mut self, page: Page, flags: PageTableFlags) -> (r: Result<(), MapError>)
        requires
            old(self).wf(),
        ensures
            final(self).wf(),
            final(self).frame_allocator() == old(self).frame_allocator(),
            final(self).table_frames() == old(self).table_frames(),
            match old(self)@.walk_of(page@) {
                Step::Huge => {
                    &&& r == Err::<(), MapError>(MapError::ParentEntryHugePage)
                    &&& final(self)@ == old(self)@
                },
                Step::Missing => {
                    &&& r == Err::<(), MapError>(MapError::NotMapped)
                    &&& final(self)@ == old(self)@
                },
                Step::Table(_) => match old(self)@.leaf_of(page@) {
                    None => {
                        &&& r == Err::<(), MapError>(MapError::NotMapped)
                        &&& final(self)@ == old(self)@
                    },
                    Some(w) => {
                        &&& r is Ok
                        &&& final(self)@.leaf_of(page@) == Some(entry_addr(w) | (flags@ | PRESENT))
                        &&& final(self)@.same_leaves_except(old(self)@, page@)
                    },
                },
            },
    {
        proof {
            crate::paging::lemma_flags_clear_address();
        }
        let leaf_flags = flags.union(PageTableFlags::from_bits(PRESENT));
        let v = page.start_address();
        let t1 = match self.lookup(v) {
            Ok(t) => t,
            Err(e) => return Err(e),
        };
        let i4 = v.page_table_index(PageTableLevel::Four);
        let i3 = v.page_table_index(PageTableLevel::Three);
        let i2 = v.page_table_index(PageTableLevel::Two);
        let i1 = v.page_table_index(PageTableLevel::One);
        let w = self.read_word(Some(t1), i1);
        let mut e = PageTableEntry { entry: w };
        if e.is_unused() {
            return Err(MapError::NotMapped);
        }
        e.set_flags(leaf_flags);
        proof {
            let x = entry_addr(w);
            let f = leaf_flags@;
            let g = flags@;
            assert(x | f != 0) by (bit_vector)
                requires
                    f == g | 1,
            ;
            lemma_write_leaf(
                self@,
                self.layout@,
                i4 as int,
                i3 as int,
                i2 as int,
                i1 as int,
                t1,
                e.entry,
            );
        }
        self.write_word(Some(t1), i1, e.entry);
        Ok(())
    }

    /// Maps `page` to a frame taken from the allocator, with `flags`; when
    /// the mapping fails, the frame goes back to the allocator.
    pub fn map(&mut self, page: Page, flags: PageTableFlags) -> (r: Result<PhysFrame, MapError>)
        requires
            old(self).wf(),
        ensures
            final(self).wf(),
            r matches Ok(f) ==> {
                &&& old(self).frame_allocator().available().contains(f@)
                &&& final(self)@.leaf_of(page@) == Some(f@ | (flags@ | PRESENT))
                &&& final(self)@.same_leaves_except(old(self)@, page@)
                &&& forall|o: u64|
                    o < 4096 ==> #[trigger] final(self)@.translate((page@ + o) as u64) == Some(
                        (f@ + o) as u64,
                    )
            },
            r matches Err(e) ==> {
                &&& e == MapError::PageAlreadyMapped || e == MapError::FrameAllocationFailed || e
                    == MapError::ParentEntryHugePage
                &&& final(self)@.same_leaves(old(self)@)
            },
            old(self).frame_allocator().available() == Set::<u64>::empty() ==> {
                &&& r == Err::<PhysFrame, MapError>(MapError::FrameAllocationFailed)
                &&& final(self)@ == old(self)@
            },
            old(self).frame_allocator().available() != Set::<u64>::empty() ==> {
                &&& r == Err::<PhysFrame, MapError>(MapError::ParentEntryHugePage) <==> old(self)@.walk_of(page@) == Step::Huge
                &&& r == Err::<PhysFrame, MapError>(MapError::PageAlreadyMapped) <==> old(self)@.leaf_of(page@) is Some
            },
            r matches Err(e) && e != MapError::FrameAllocationFailed ==> final(self).frame_allocator().available() == old(self).frame_allocator().available(),
            r == Err::<PhysFrame, MapError>(MapError::FrameAllocationFailed) ==> old(self).frame_allocator().available().finite() ==> old(self).frame_allocator().available().len() <= old(self)@.tables_needed(page@),
            r == Err::<PhysFrame, MapError>(MapError::FrameAllocationFailed) && old(self).frame_allocator().available() != Set::<u64>::empty() ==> exists|f: u64| #[trigger] old(self).frame_allocator().available().contains(f) && final(self).frame_allocator().available() == Set::<u64>::empty().insert(f),
            old(self)@.walk_of(page@) != Step::Huge && old(self)@.leaf_of(page@) is None && old(self).frame_allocator().available().finite() && old(self).frame_allocator().available().len()
                > old(self)@.tables_needed(page@) ==> r is Ok,
    {
        let ghost a0 = self.allocator.available();
        let frame = match self.allocator.allocate_frame() {
            Ok(f) => f,
            Err(_) => return Err(MapError::FrameAllocationFailed),
        };
        let ghost mid = *self;
        proof {
            assert(!self.layout@.contains_key(frame@));
            assert(a0 != Set::<u64>::empty()) by {
                assert(a0.contains(frame@));
            }
            if a0.finite() {
                assert(mid.allocator.available().len() == a0.len() - 1);
            }
        }
        match self.map_to(page, frame, flags) {
            Ok(()) => Ok(frame),
            Err(e) => {
                let ghost after = *self;
                self.allocator.deallocate_frame(frame);
                proof {
                    assert(!mid.frame_allocator().available().contains(frame@));
                    assert(!after.table_frames().contains(frame@));
                    assert(!after.layout@.contains_key(frame@));
                    assert forall|a: u64| #[trigger]
                        self.layout@.contains_key(a) implies !self.allocator.available().contains(
                        a,
                    ) by {
                        assert(after.layout@.contains_key(a));
                    }
                    assert(after.allocator.allocated().contains(frame@));
                    if e != MapError::FrameAllocationFailed {
                        assert(self.allocator.available() =~= a0);
                    } else {
                        assert(self.allocator.available() =~= Set::<u64>::empty().insert(frame@));
                    }
                }
                Err(e)
            },
        }
    }

    /// Maps the frame `frame` at the page with the same address.
    pub fn identity_map(&mut self, frame: PhysFrame, flags: PageTableFlags) -> (r: Result<
        (),
        MapError,
    >)
        requires
            old(self).wf(),
            frame@ < PHYS_ADDR_LIMIT,
        ensures
            final(self).wf(),
            final(self).frame_allocator().available().subset_of(
                old(self).frame_allocator().available(),
            ),
            forall|a: u64| #[trigger]
                final(self).table_frames().contains(a) ==> old(self).table_frames().contains(a)
                    || old(self).frame_allocator().available().contains(a),
            r matches Err(e) ==> {
                &&& e == MapError::PageAlreadyMapped || e == MapError::FrameAllocationFailed || e
                    == MapError::ParentEntryHugePage
                &&& final(self)@.same_leaves(old(self)@)
            },
            r == Err::<(), MapError>(MapError::ParentEntryHugePage) <==> old(self)@.walk_of(frame@)
                == Step::Huge,
            r == Err::<(), MapError>(MapError::PageAlreadyMapped) <==> old(self)@.leaf_of(
                frame@,
            ) is Some,
            r == Err::<(), MapError>(MapError::FrameAllocationFailed) ==> old(self)@.walk_of(frame@)
                == Step::Missing,
            old(self)@.walk_of(frame@) is Table && old(self)@.leaf_of(frame@) is None ==> r is Ok,
            old(self)@.walk_of(frame@) != Step::Huge && old(self)@.leaf_of(frame@) is None && old(self).frame_allocator().available().finite() && old(self).frame_allocator().available().len()
                >= old(self)@.tables_needed(frame@) ==> r is Ok,
            old(self)@.walk_of(frame@) == Step::Missing && old(self).frame_allocator().available() == Set::<u64>::empty() ==> r == Err::<(), MapError>(MapError::FrameAllocationFailed),
            r == Err::<(), MapError>(MapError::PageAlreadyMapped) || r == Err::<(), MapError>(
                MapError::ParentEntryHugePage,
            ) ==> final(self)@ == old(self)@ && final(self).frame_allocator() == old(self).frame_allocator(),
            r == Err::<(), MapError>(MapError::FrameAllocationFailed) ==> {
                &&& final(self).frame_allocator().available() == Set::<u64>::empty()
                &&& old(self).frame_allocator().available().finite() ==> old(self).frame_allocator().available().len() < old(self)@.tables_needed(frame@)
            },
            old(self).frame_allocator().allocated().subset_of(
                final(self).frame_allocator().allocated(),
            ),
            r is Ok ==> {
                &&& final(self)@.leaf_of(frame@) == Some(frame@ | (flags@ | PRESENT))
                &&& final(self)@.same_leaves_except(old(self)@, frame@)
            },
            r is Ok ==> final(self)@.kept_or_linked(old(self)@, frame@),
            r is Ok ==> forall|o: u64|
                o < 4096 ==> #[trigger] final(self)@.translate((frame@ + o) as u64) == Some(
                    (frame@ + o) as u64,
                ),
    {
        let addr = frame.start_address().as_u64();
        let page = Page::containing_address(VirtAddr::new_unchecked(addr));
        self.map_to(page, frame, flags)
    }
}

} // verus!
