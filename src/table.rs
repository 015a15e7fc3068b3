use vstd::prelude::*;

use crate::descriptor::{
    addr_fits, addr_of, attrs_fit, attrs_of, encode, entry_addr, entry_attrs, entry_type,
    lemma_zero_invalid, make_entry, type_of, ENTRIES, ENTRY_BYTES, END_LEVEL, L2_IDX_MASK, L2_IDX_SHIFT,
    L2_REGION, L3_IDX_MASK, L3_IDX_SHIFT, L3_REGION, PAGE_SIZE, PA_LIMIT, START_LEVEL, TYPE_BLOCK,
    TYPE_INVALID, TYPE_PAGE, TYPE_RESERVED, TYPE_TABLE, VA_LIMIT,
};

verus! {

/// Number of 64KB pages in the translated virtual range.
pub open spec fn va_pages() -> int {
    ENTRIES as int * ENTRIES as int
}

/// What one virtual page translates to.
pub struct Leaf {
    pub pa: int,
    pub attr: u64,
}

/// A request to map `size` bytes at virtual address `va` to physical address `pa`.
#[derive(Clone, Copy)]
pub struct Mapping {
    pub va: u64,
    pub pa: u64,
    pub size: u64,
    pub attr: u64,
}

/// The request covers virtual page `p`.
pub open spec fn covers(m: Mapping, p: int) -> bool {
    m.va <= p * PAGE_SIZE < m.va + m.size
}

/// What the request makes virtual page `p` translate to.
pub open spec fn leaf_of(m: Mapping, p: int) -> Leaf {
    Leaf { pa: m.pa + p * PAGE_SIZE - m.va, attr: m.attr }
}

/// The translation after the request is installed over translation `v`.
pub open spec fn apply_mapping(v: Map<int, Leaf>, m: Mapping) -> Map<int, Leaf> {
    Map::new(
        |p: int| v.dom().contains(p) || covers(m, p),
        |p: int|
            if covers(m, p) {
                leaf_of(m, p)
            } else {
                v[p]
            },
    )
}

/// First 512MB boundary at or after `va`.
pub open spec fn align_up(va: u64) -> int {
    va + (L2_REGION - va % L2_REGION) as int % (L2_REGION as int)
}

/// Wherever the request covers a whole level-2 region, its physical
/// addresses are aligned alike, so that a block can describe it.
pub open spec fn block_compatible(m: Mapping) -> bool {
    m.va % L2_REGION == m.pa % L2_REGION || align_up(m.va) + L2_REGION > m.va + m.size
}

/// A request that the mapper accepts.
pub open spec fn valid_request(m: Mapping) -> bool {
    &&& m.va % PAGE_SIZE == 0
    &&& m.pa % PAGE_SIZE == 0
    &&& m.size % PAGE_SIZE == 0
    &&& m.va + m.size <= VA_LIMIT
    &&& m.pa + m.size <= PA_LIMIT
    &&& attrs_fit(m.attr)
    &&& block_compatible(m)
}

impl Mapping {
    /// A request with the given fields.
    pub fn new(va: u64, pa: u64, size: u64, attr: u64) -> (r: Mapping)
        ensures
            r == (Mapping { va, pa, size, attr }),
    {
        Mapping { va, pa, size, attr }
    }
}

/// Failure of a request that is otherwise well formed.
#[derive(Debug, PartialEq, Eq, Structural)]
pub enum MapError {
    /// No page is left to hold a new level-3 table.
    OutOfPages,
}

/// The translation tables of one address space: an arena of table pages.
/// Table `k` is the page at physical address `base + k * PAGE_SIZE`; table 0
/// is the level-2 root, the others are level-3 tables.
pub struct TableArena {
    tables: Vec<Vec<u64>>,
    base: u64,
    capacity: usize,
}

impl TableArena {
    /// Number of table pages in use, the root included.
    pub closed spec fn len(&self) -> int {
        self.tables@.len() as int
    }

    /// Number of table pages the arena can hold.
    pub closed spec fn cap(&self) -> int {
        self.capacity as int
    }

    /// Entry word `i` of table `k`.
    pub closed spec fn entry(&self, k: int, i: int) -> u64 {
        self.tables@[k]@[i]
    }

    /// Physical address of table `k`.
    pub closed spec fn table_addr(&self, k: int) -> int {
        self.base + k * PAGE_SIZE
    }

    /// The table that an entry word points to.
    pub closed spec fn target(&self, e: u64) -> int {
        (addr_of(e) - self.base) / PAGE_SIZE as int
    }

    /// Root slot `i` points to a level-3 table.
    pub closed spec fn is_table_slot(&self, i: int) -> bool {
        type_of(self.entry(0, i)) == TYPE_TABLE
    }

    /// Root slot `i` is invalid, a 512MB-aligned block, or points to a
    /// level-3 table of the arena.
    pub closed spec fn root_slot_wf(&self, i: int) -> bool {
        let e = self.entry(0, i);
        &&& type_of(e) != TYPE_RESERVED
        &&& type_of(e) == TYPE_TABLE ==> {
            &&& 1 <= self.target(e) < self.len()
            &&& addr_of(e) == self.table_addr(self.target(e))
        }
        &&& type_of(e) == TYPE_BLOCK ==> addr_of(e) % L2_REGION == 0
    }

    /// The arena's pages fit the address field, every table is one page of
    /// entries, and no two root slots point to the same level-3 table.
    pub closed spec fn wf(&self) -> bool {
        &&& 1 <= self.len() <= self.capacity
        &&& self.base % PAGE_SIZE == 0
        &&& self.base + self.capacity * PAGE_SIZE <= PA_LIMIT
        &&& forall|k: int| 0 <= k < self.len() ==> #[trigger] self.tables@[k]@.len() == ENTRIES
        &&& forall|i: int| 0 <= i < ENTRIES ==> #[trigger] self.root_slot_wf(i)
        &&& forall|i: int, j: int|
            0 <= i < ENTRIES && 0 <= j < ENTRIES && i != j && self.is_table_slot(i)
                && self.is_table_slot(j) ==> #[trigger] self.target(self.entry(0, i))
                != #[trigger] self.target(self.entry(0, j))
    }

    /// What virtual page `p` translates to, walking from the root.
    pub closed spec fn translate(&self, p: int) -> Option<Leaf> {
        let e2 = self.entry(0, p / ENTRIES as int);
        if type_of(e2) == TYPE_INVALID {
            None
        } else if type_of(e2) == TYPE_TABLE {
            let e3 = self.entry(self.target(e2), p % ENTRIES as int);
            if type_of(e3) == TYPE_INVALID {
                None
            } else {
                Some(Leaf { pa: addr_of(e3) as int, attr: attrs_of(e3) })
            }
        } else {
            Some(
                Leaf {
                    pa: addr_of(e2) + (p % ENTRIES as int) * PAGE_SIZE,
                    attr: attrs_of(e2),
                },
            )
        }
    }

    /// The translation: each mapped virtual page with what it maps to.
    pub open spec fn view(&self) -> Map<int, Leaf> {
        Map::new(
            |p: int| 0 <= p < va_pages() && self.translate(p) is Some,
            |p: int| self.translate(p)->0,
        )
    }

    /// Builds an address space whose table pages start at `base`, with room
    /// for `capacity` tables, the root included; `None` where `base` is not
    /// page aligned, `capacity` is zero or the pages pass the address field.
    pub fn new(base: u64, capacity: usize) -> (r: Option<TableArena>)
        ensures
            r is Some <==> (base % PAGE_SIZE == 0 && 1 <= capacity && base + capacity * PAGE_SIZE
                <= PA_LIMIT),
            r matches Some(a) ==> {
                &&& a.wf()
                &&& a.len() == 1
                &&& a.cap() == capacity
                &&& a@ == Map::<int, Leaf>::empty()
            },
    {
        if base % PAGE_SIZE != 0 || base >= PA_LIMIT || capacity == 0 {
            return None;
        }
        let room: u64 = (PA_LIMIT - base) / PAGE_SIZE;
        if capacity as u64 > room {
            proof {
                assert(base + capacity * PAGE_SIZE > PA_LIMIT) by (nonlinear_arith)
                    requires
                        capacity > room,
                        room == (PA_LIMIT - base) / (PAGE_SIZE as int),
                        base < PA_LIMIT,
                ;
            }
            return None;
        }
        proof {
            assert(base + capacity * PAGE_SIZE <= PA_LIMIT) by (nonlinear_arith)
                requires
                    capacity <= room,
                    room == (PA_LIMIT - base) / (PAGE_SIZE as int),
                    base < PA_LIMIT,
            ;
        }
        let mut tables: Vec<Vec<u64>> = Vec::new();
        tables.push(zeroed_page());
        let a = TableArena { tables, base, capacity };
        proof {
            lemma_zero_invalid();
            assert(a@ =~= Map::<int, Leaf>::empty());
        }
        Some(a)
    }

    /// Number of table pages in use, the root included.
    pub fn table_count(&self) -> (r: usize)
        ensures
            r == self.len(),
    {
        self.tables.len()
    }

    /// Number of table pages the arena can hold.
    pub fn capacity(&self) -> (r: usize)
        ensures
            r == self.cap(),
    {
        self.capacity
    }

    /// Read-only view of the root table.
    pub fn root(&self) -> (r: PageTable<'_>)
        requires
            self.wf(),
        ensures
            r.arena == self,
            r.index == 0,
            r.level == START_LEVEL,
    {
        PageTable { arena: self, index: 0, level: START_LEVEL }
    }

    /// Mutable handle on the root table.
    pub fn root_mut(&self) -> (r: PageTableMut)
        ensures
            r.index == 0,
            r.level == START_LEVEL,
    {
        PageTableMut { index: 0, level: START_LEVEL }
    }
}

/// A fresh table page with every entry invalid.
fn zeroed_page() -> (r: Vec<u64>)
    ensures
        r@.len() == ENTRIES,
        forall|i: int| 0 <= i < ENTRIES ==> r@[i] == 0,
{
    let mut v: Vec<u64> = Vec::with_capacity(ENTRIES);
    let mut i: usize = 0;
    while i < ENTRIES
        invariant
            i <= ENTRIES,
            v@.len() == i,
            forall|j: int| 0 <= j < i ==> v@[j] == 0,
        decreases ENTRIES - i,
    {
        v.push(0);
        i += 1;
    }
    v
}

/// Read-only handle on one table at a level.
pub struct PageTable<'a> {
    pub arena: &'a TableArena,
    pub index: usize,
    pub level: u8,
}

/// Read-only handle on one entry of a table at a level.
pub struct Pte<'a> {
    pub arena: &'a TableArena,
    pub table: usize,
    pub index: usize,
    pub level: u8,
}

/// Mutable handle on one table at a level; the arena is passed to each call.
#[derive(Clone, Copy)]
pub struct PageTableMut {
    pub index: usize,
    pub level: u8,
}

/// Mutable handle on one entry of a table at a level.
#[derive(Clone, Copy)]
pub struct PteMut {
    pub table: usize,
    pub index: usize,
    pub level: u8,
}

/// Table `k` of the arena is one at `level`.
pub open spec fn table_at_level(a: &TableArena, k: int, level: u8) -> bool {
    &&& 0 <= k < a.len()
    &&& level == START_LEVEL ==> k == 0
    &&& level == END_LEVEL ==> k >= 1
    &&& level == START_LEVEL || level == END_LEVEL
}

impl<'a> PageTable<'a> {
    /// The handle names a table of the arena at its level.
    pub open spec fn valid(&self) -> bool {
        self.arena.wf() && table_at_level(self.arena, self.index as int, self.level)
    }

    /// Entry `i` of this table.
    pub fn pte(&self, i: usize) -> (r: Pte<'a>)
        requires
            self.valid(),
            i < ENTRIES,
        ensures
            r.arena == self.arena,
            r.table == self.index,
            r.index == i,
            r.level == self.level,
            r.valid(),
    {
        Pte { arena: self.arena, table: self.index, index: i, level: self.level }
    }
}

impl<'a> Pte<'a> {
    /// The handle names an entry of a table of the arena at its level.
    pub open spec fn valid(&self) -> bool {
        &&& self.arena.wf()
        &&& table_at_level(self.arena, self.table as int, self.level)
        &&& self.index < ENTRIES
    }

    /// The entry word.
    pub open spec fn raw(&self) -> u64 {
        self.arena.entry(self.table as int, self.index as int)
    }

    /// The entry word.
    pub fn as_raw(&self) -> (r: u64)
        requires
            self.valid(),
        ensures
            r == self.raw(),
    {
        self.arena.tables[self.table][self.index]
    }

    /// Only an entry above the leaf level can point to a table.
    pub fn can_be_table(&self) -> (r: bool)
        ensures
            r == (self.level != END_LEVEL),
    {
        self.level != END_LEVEL
    }

    /// The entry is present.
    pub fn is_valid(&self) -> (r: bool)
        requires
            self.valid(),
        ensures
            r == (type_of(self.raw()) != TYPE_INVALID),
    {
        entry_type(self.as_raw()) != TYPE_INVALID
    }

    /// The entry points to a table, or stands at the leaf level.
    pub fn is_table(&self) -> (r: bool)
        requires
            self.valid(),
        ensures
            r == (type_of(self.raw()) == TYPE_TABLE || self.level == END_LEVEL),
    {
        entry_type(self.as_raw()) == TYPE_TABLE || self.level == END_LEVEL
    }

    /// The table at the next level that this entry points to.
    pub fn as_table(&self) -> (r: PageTable<'a>)
        requires
            self.valid(),
            self.level == START_LEVEL,
            type_of(self.raw()) == TYPE_TABLE,
        ensures
            r.arena == self.arena,
            r.index == self.arena.target(self.raw()),
            r.level == self.level + 1,
            r.valid(),
    {
        let k = self.arena.table_of(self.as_raw());
        PageTable { arena: self.arena, index: k, level: self.level + 1 }
    }
}

impl TableArena {
    /// The table that a table entry of the root points to.
    fn table_of(&self, e: u64) -> (r: usize)
        requires
            self.wf(),
            exists|i: int| 0 <= i < ENTRIES && self.entry(0, i) == e && type_of(e) == TYPE_TABLE,
        ensures
            r == self.target(e),
            1 <= r < self.len(),
    {
        proof {
            let i = choose|i: int| 0 <= i < ENTRIES && self.entry(0, i) == e && type_of(e) == TYPE_TABLE;
            assert(self.root_slot_wf(i));
        }
        ((entry_addr(e) - self.base) / PAGE_SIZE) as usize
    }
}

/// Span of virtual addresses described by one entry at `level`.
pub open spec fn region_of(level: u8) -> u64 {
    if level == END_LEVEL {
        L3_REGION
    } else {
        L2_REGION
    }
}

/// Type tag of a leaf-like entry written at `level`.
pub open spec fn leaf_tag(level: u8) -> u64 {
    if level == END_LEVEL {
        TYPE_PAGE
    } else {
        TYPE_BLOCK
    }
}

/// Span of virtual addresses described by one entry at `level`.
pub fn region_size(level: u8) -> (r: u64)
    ensures
        r == region_of(level),
{
    if level == END_LEVEL {
        L3_REGION
    } else {
        L2_REGION
    }
}

/// Length of the first piece of `[va, va + left)` that stays inside one
/// region of `region` bytes: the whole rest, or up to the next boundary.
pub fn region_chunk(va: u64, left: u64, region: u64) -> (r: u64)
    requires
        region > 0,
    ensures
        r == if left < region - va % region { left } else { (region - va % region) as u64 },
        left > 0 ==> 0 < r <= left,
        left > 0 ==> va / region == (va + r - 1) as int / (region as int),
        r < left ==> (va + r) / (region as int) == va / region + 1,
        r < left ==> (va + r) % (region as int) == 0,
        left > 0 ==> va + r <= (va / region + 1) * region,
{
    let to_boundary = region - va % region;
    let r = if left < to_boundary { left } else { to_boundary };
    proof {
        if left > 0 {
            lemma_same_region(va as int, r as int, region as int);
            vstd::arithmetic::div_mod::lemma_fundamental_div_mod(va as int, region as int);
            assert(va + r <= (va / region + 1) * region) by (nonlinear_arith)
                requires va == region * (va / region) + va % region, r <= region - va % region;
        }
        if r < left {
            vstd::arithmetic::div_mod::lemma_fundamental_div_mod(va as int, region as int);
            let q = va / region;
            assert(va + r == (q + 1) * region) by (nonlinear_arith)
                requires va == region * q + va % region, r == region - va % region;
            vstd::arithmetic::div_mod::lemma_fundamental_div_mod_converse(va + r, region as int, q + 1, 0);
        }
    }
    r
}

/// A piece that ends no later than the next boundary stays in one region.
proof fn lemma_same_region(va: int, r: int, region: int)
    requires
        region > 0,
        va >= 0,
        0 < r <= region - va % region,
    ensures
        va / region == (va + r - 1) / region,
{
    vstd::arithmetic::div_mod::lemma_fundamental_div_mod(va, region);
    let q = va / region;
    assert(q * region == region * q) by (nonlinear_arith);
    assert(va + r - 1 == q * region + (va % region + r - 1));
    vstd::arithmetic::div_mod::lemma_fundamental_div_mod_converse(
        va + r - 1,
        region,
        q,
        va % region + r - 1,
    );
}

/// Level-2 index of a virtual address: bits [41:29].
fn l2_index(va: u64) -> (r: usize)
    requires
        va < VA_LIMIT,
    ensures
        r == va / L2_REGION,
        r < ENTRIES,
{
    assert(va < 0x400_0000_0000 ==> (va & 0x0000_03ff_e000_0000u64) >> 29u64 == va / 0x2000_0000
        && va / 0x2000_0000 < 8192) by (bit_vector);
    ((va & L2_IDX_MASK) >> L2_IDX_SHIFT) as usize
}

/// Level-3 index of a virtual address: bits [28:16].
fn l3_index(va: u64) -> (r: usize)
    ensures
        r == (va % L2_REGION) / PAGE_SIZE,
        r < ENTRIES,
{
    assert((va & 0x1fff_0000u64) >> 16u64 == (va % 0x2000_0000) / 0x1_0000
        && (va % 0x2000_0000) / 0x1_0000 < 8192) by (bit_vector);
    ((va & L3_IDX_MASK) >> L3_IDX_SHIFT) as usize
}

impl TableArena {
    /// Physical address of table `k`.
    fn table_address(&self, k: usize) -> (r: u64)
        requires
            self.wf(),
            k < self.capacity,
        ensures
            r == self.table_addr(k as int),
            addr_fits(r),
            (r - self.base) / PAGE_SIZE as int == k,
    {
        proof {
            assert(self.base + k * PAGE_SIZE < self.base + self.capacity * PAGE_SIZE) by (nonlinear_arith)
                requires
                    k < self.capacity,
            ;
            assert((k * PAGE_SIZE) % (PAGE_SIZE as int) == 0 && (k * PAGE_SIZE) / (PAGE_SIZE as int) == k) by (nonlinear_arith);
            vstd::arithmetic::div_mod::lemma_mod_adds(self.base as int, k * PAGE_SIZE, PAGE_SIZE as int);
        }
        self.base + k as u64 * PAGE_SIZE
    }

    /// Takes a fresh zeroed page for a new table; `None` when the arena is full.
    fn alloc_table(&mut self) -> (r: Option<usize>)
        requires
            old(self).wf(),
        ensures
            final(self).wf(),
            final(self).base == old(self).base,
            final(self).capacity == old(self).capacity,
            r is None <==> old(self).len() == old(self).capacity,
            r is None ==> *final(self) == *old(self),
            r matches Some(k) ==> {
                &&& k == old(self).len()
                &&& final(self).len() == k + 1
                &&& final(self).tables@.take(k as int) == old(self).tables@
                &&& forall|i: int| 0 <= i < ENTRIES ==> #[trigger] final(self).entry(k as int, i) == 0
            },
    {
        if self.tables.len() >= self.capacity {
            return None;
        }
        let k = self.tables.len();
        self.tables.push(zeroed_page());
        proof {
            assert(self.tables@.take(k as int) =~= old(self).tables@);
            assert forall|i: int| 0 <= i < ENTRIES implies #[trigger] self.root_slot_wf(i) by {
                assert(old(self).root_slot_wf(i));
            }
            assert forall|i: int, j: int|
                0 <= i < ENTRIES && 0 <= j < ENTRIES && i != j && self.is_table_slot(i)
                    && self.is_table_slot(j) implies #[trigger] self.target(self.entry(0, i))
                != #[trigger] self.target(self.entry(0, j)) by {
                assert(self.tables@[0] == old(self).tables@[0]);
                assert(self.entry(0, i) == old(self).entry(0, i));
                assert(self.entry(0, j) == old(self).entry(0, j));
                assert(old(self).is_table_slot(i) && old(self).is_table_slot(j));
                assert(old(self).target(old(self).entry(0, i)) != old(self).target(old(self).entry(0, j)));
            }
        }
        Some(k)
    }

    /// Stores one entry word.
    fn set_entry(&mut self, k: usize, i: usize, e: u64)
        requires
            k < old(self).len(),
            i < ENTRIES,
            forall|kk: int| 0 <= kk < old(self).len() ==> #[trigger] old(self).tables@[kk]@.len() == ENTRIES,
        ensures
            final(self).base == old(self).base,
            final(self).capacity == old(self).capacity,
            final(self).tables@.len() == old(self).tables@.len(),
            forall|kk: int| 0 <= kk < old(self).len() && kk != k ==> #[trigger] final(self).tables@[kk] == old(self).tables@[kk],
            final(self).tables@[k as int]@ == old(self).tables@[k as int]@.update(i as int, e),
    {
        self.tables[k].set(i, e);
    }
}

impl TableArena {
    /// Same tables, page base and capacity in both.
    pub closed spec fn same_layout(&self, other: &TableArena) -> bool {
        &&& self.tables@.len() == other.tables@.len()
        &&& self.base == other.base
        &&& self.capacity == other.capacity
    }

    /// `other` is `self` with at most entry `i` of table `k` changed.
    pub closed spec fn only_changed(&self, other: &TableArena, k: int, i: int) -> bool {
        &&& self.same_layout(other)
        &&& forall|kk: int| 0 <= kk < self.len() && kk != k ==> #[trigger] other.tables@[kk] == self.tables@[kk]
        &&& other.tables@[k]@ == self.tables@[k]@.update(i, other.entry(k, i))
    }

    /// `other` is `self` with at most table `k` changed.
    pub closed spec fn only_table_changed(&self, other: &TableArena, k: int) -> bool {
        &&& self.same_layout(other)
        &&& forall|kk: int| 0 <= kk < self.len() && kk != k ==> #[trigger] other.tables@[kk] == self.tables@[kk]
        &&& other.tables@[k]@.len() == ENTRIES
    }

    /// Changing root slot `i` alone, to a well-formed slot that points, if
    /// to a table, to one added since, keeps the arena well formed.
    proof fn lemma_wf_root_set(&self, other: &TableArena, i: int)
        requires
            self.wf(),
            0 <= i < ENTRIES,
            other.base == self.base,
            other.capacity == self.capacity,
            self.len() <= other.len() <= other.capacity,
            forall|kk: int| 0 <= kk < other.len() ==> #[trigger] other.tables@[kk]@.len() == ENTRIES,
            other.tables@[0]@ == self.tables@[0]@.update(i, other.entry(0, i)),
            other.root_slot_wf(i),
            other.is_table_slot(i) ==> other.target(other.entry(0, i)) >= self.len(),
        ensures
            other.wf(),
    {
        assert forall|j: int| 0 <= j < ENTRIES && j != i implies #[trigger] other.entry(0, j) == self.entry(0, j) by {
            assert(self.tables@[0]@.len() == ENTRIES);
            assert(other.tables@[0]@[j] == self.tables@[0]@.update(i, other.entry(0, i))[j]);
        }
        assert forall|j: int| 0 <= j < ENTRIES implies #[trigger] other.root_slot_wf(j) by {
            if j != i {
                assert(self.root_slot_wf(j));
                assert(other.entry(0, j) == self.entry(0, j));
            }
        }
        assert forall|x: int, y: int|
            0 <= x < ENTRIES && 0 <= y < ENTRIES && x != y && other.is_table_slot(x)
                && other.is_table_slot(y) implies #[trigger] other.target(other.entry(0, x))
            != #[trigger] other.target(other.entry(0, y)) by {
            if x != i && y != i {
                assert(other.entry(0, x) == self.entry(0, x));
                assert(other.entry(0, y) == self.entry(0, y));
                assert(self.is_table_slot(x) && self.is_table_slot(y));
                assert(self.target(self.entry(0, x)) != self.target(self.entry(0, y)));
            } else if x == i {
                assert(other.entry(0, y) == self.entry(0, y));
                assert(self.root_slot_wf(y));
            } else {
                assert(other.entry(0, x) == self.entry(0, x));
                assert(self.root_slot_wf(x));
            }
        }
    }

    /// Changing level-3 tables only keeps the arena well formed.
    proof fn lemma_wf_root_unchanged(&self, other: &TableArena)
        requires
            self.wf(),
            self.same_layout(other),
            other.tables@[0] == self.tables@[0],
            forall|kk: int| 0 <= kk < self.len() ==> #[trigger] other.tables@[kk]@.len() == ENTRIES,
        ensures
            other.wf(),
    {
        assert forall|i: int| 0 <= i < ENTRIES implies #[trigger] other.root_slot_wf(i) by {
            assert(self.root_slot_wf(i));
            assert(other.entry(0, i) == self.entry(0, i));
        }
        assert forall|i: int, j: int|
            0 <= i < ENTRIES && 0 <= j < ENTRIES && i != j && other.is_table_slot(i)
                && other.is_table_slot(j) implies #[trigger] other.target(other.entry(0, i))
            != #[trigger] other.target(other.entry(0, j)) by {
            assert(other.entry(0, i) == self.entry(0, i));
            assert(other.entry(0, j) == self.entry(0, j));
            assert(self.is_table_slot(i) && self.is_table_slot(j));
            assert(self.target(self.entry(0, i)) != self.target(self.entry(0, j)));
        }
    }
}

impl PteMut {
    /// The handle names an entry of a table of `a` at its level.
    pub open spec fn valid(&self, a: &TableArena) -> bool {
        &&& a.wf()
        &&& table_at_level(a, self.table as int, self.level)
        &&& self.index < ENTRIES
    }

    /// The entry word in `a`.
    pub open spec fn raw(&self, a: &TableArena) -> u64 {
        a.entry(self.table as int, self.index as int)
    }

    /// The entry word.
    pub fn as_raw(&self, arena: &TableArena) -> (r: u64)
        requires
            self.valid(arena),
        ensures
            r == self.raw(arena),
    {
        arena.tables[self.table][self.index]
    }

    /// Only an entry above the leaf level can point to a table.
    pub fn can_be_table(&self) -> (r: bool)
        ensures
            r == (self.level != END_LEVEL),
    {
        self.level != END_LEVEL
    }

    /// The entry is present.
    pub fn is_valid(&self, arena: &TableArena) -> (r: bool)
        requires
            self.valid(arena),
        ensures
            r == (type_of(self.raw(arena)) != TYPE_INVALID),
    {
        entry_type(self.as_raw(arena)) != TYPE_INVALID
    }

    /// The entry points to a table, or stands at the leaf level.
    pub fn is_table(&self, arena: &TableArena) -> (r: bool)
        requires
            self.valid(arena),
        ensures
            r == (type_of(self.raw(arena)) == TYPE_TABLE || self.level == END_LEVEL),
    {
        entry_type(self.as_raw(arena)) == TYPE_TABLE || self.level == END_LEVEL
    }

    /// Makes the entry invalid.
    pub fn clear(&self, arena: &mut TableArena)
        requires
            self.valid(old(arena)),
        ensures
            final(arena).wf(),
            old(arena).only_changed(final(arena), self.table as int, self.index as int),
            self.raw(final(arena)) == 0,
            type_of(self.raw(final(arena))) == TYPE_INVALID,
    {
        arena.set_entry(self.table, self.index, 0);
        proof {
            lemma_zero_invalid();
            assert(arena.tables@[self.table as int]@ =~= old(arena).tables@[self.table as int]@.update(
                self.index as int,
                arena.entry(self.table as int, self.index as int),
            ));
            if self.table == 0 {
                old(arena).lemma_wf_root_set(arena, self.index as int);
            } else {
                old(arena).lemma_wf_root_unchanged(arena);
            }
        }
    }

    /// Writes a block (level 2) or page (level 3) entry for a request of
    /// exactly this level's region size.
    pub fn write(&self, arena: &mut TableArena, m: Mapping)
        requires
            self.valid(old(arena)),
            m.size == region_of(self.level),
            attrs_fit(m.attr),
            addr_fits(m.pa),
            addr_fits(m.va),
            m.pa % m.size == 0,
            m.va % m.size == 0,
        ensures
            final(arena).wf(),
            old(arena).only_changed(final(arena), self.table as int, self.index as int),
            self.raw(final(arena)) == encode(m.pa, m.attr, leaf_tag(self.level)),
    {
        let tag = if self.level == END_LEVEL { TYPE_PAGE } else { TYPE_BLOCK };
        let e = make_entry(m.pa, m.attr, tag);
        arena.set_entry(self.table, self.index, e);
        proof {
            assert(arena.tables@[self.table as int]@ =~= old(arena).tables@[self.table as int]@.update(
                self.index as int,
                arena.entry(self.table as int, self.index as int),
            ));
            if self.table == 0 {
                old(arena).lemma_wf_root_set(arena, self.index as int);
            } else {
                old(arena).lemma_wf_root_unchanged(arena);
            }
        }
    }
}

/// Entry `i` of a level-3 table lies in the run that request `m` writes.
pub open spec fn in_run(m: Mapping, i: int) -> bool {
    m.va % L2_REGION <= i * PAGE_SIZE < m.va % L2_REGION + m.size
}

/// The page entry that request `m` writes at entry `i` of a level-3 table.
pub open spec fn run_entry(m: Mapping, i: int) -> u64 {
    encode((m.pa + i * PAGE_SIZE - m.va % L2_REGION) as u64, m.attr, TYPE_PAGE)
}

/// A request that fits in one level-3 table.
pub open spec fn leaf_request(m: Mapping) -> bool {
    &&& m.va % PAGE_SIZE == 0
    &&& m.pa % PAGE_SIZE == 0
    &&& m.size % PAGE_SIZE == 0
    &&& m.va % L2_REGION + m.size <= L2_REGION
    &&& m.va + m.size <= VA_LIMIT
    &&& m.pa + m.size <= PA_LIMIT
    &&& attrs_fit(m.attr)
}

impl PageTableMut {
    /// The handle names a table of `a` at its level.
    pub open spec fn valid(&self, a: &TableArena) -> bool {
        a.wf() && table_at_level(a, self.index as int, self.level)
    }

    /// Entry `i` of this table.
    pub fn pte(&self, i: usize) -> (r: PteMut)
        requires
            i < ENTRIES,
        ensures
            r == (PteMut { table: self.index, index: i, level: self.level }),
    {
        PteMut { table: self.index, index: i, level: self.level }
    }

    /// Calls `f` on entry `i` of this table and hands back what it returns.
    pub fn with_pte<F, R>(&self, i: usize, f: F) -> (r: R)
        where
            F: FnOnce(PteMut) -> R,
        requires
            i < ENTRIES,
            f.requires((PteMut { table: self.index, index: i, level: self.level },)),
        ensures
            f.ensures((PteMut { table: self.index, index: i, level: self.level },), r),
    {
        f(self.pte(i))
    }

    /// Installs a request that fits in this level-3 table: one page entry
    /// for each 64KB of it.
    fn map_leaves(&self, arena: &mut TableArena, m: Mapping)
        requires
            self.valid(old(arena)),
            self.level == END_LEVEL,
            leaf_request(m),
        ensures
            final(arena).wf(),
            old(arena).only_table_changed(final(arena), self.index as int),
            forall|i: int|
                0 <= i < ENTRIES ==> #[trigger] final(arena).entry(self.index as int, i) == if in_run(m, i) {
                    run_entry(m, i)
                } else {
                    old(arena).entry(self.index as int, i)
                },
    {
        let region = region_size(self.level);
        let mut va = m.va;
        let mut pa = m.pa;
        let mut left = m.size;
        let ghost k = self.index as int;
        let ghost off: int = (m.va % L2_REGION) as int;
        while left > 0
            invariant
                self.valid(arena),
                self.level == END_LEVEL,
                leaf_request(m),
                region == L3_REGION,
                off == m.va % L2_REGION,
                k == self.index,
                va - m.va == pa - m.pa,
                va + left == m.va + m.size,
                va >= m.va,
                (va - m.va) % (PAGE_SIZE as int) == 0,
                left % PAGE_SIZE == 0,
                old(arena).only_table_changed(arena, k),
                forall|i: int|
                    0 <= i < ENTRIES ==> #[trigger] arena.entry(k, i) == if off <= i * PAGE_SIZE < off + (va - m.va) {
                        run_entry(m, i)
                    } else {
                        old(arena).entry(k, i)
                    },
            decreases left,
        {
            let size = region_chunk(va, left, region);
            assert(size == PAGE_SIZE);
            let idx = l3_index(va);
            let ghost before = *arena;
            proof {
                assert(va % L2_REGION == off + (va - m.va)) by (nonlinear_arith)
                    requires off == m.va % L2_REGION, va >= m.va, va - m.va + off < L2_REGION as int;
                assert(idx * PAGE_SIZE == off + (va - m.va)) by (nonlinear_arith)
                    requires idx == (va % L2_REGION) as int / (PAGE_SIZE as int), va % L2_REGION == off + (va - m.va),
                        off % (PAGE_SIZE as int) == 0, (va - m.va) % (PAGE_SIZE as int) == 0;
            }
            let leaf = Mapping { va, pa, size, attr: m.attr };
            self.pte(idx).write(arena, leaf);
            proof {
                assert forall|i: int|
                    0 <= i < ENTRIES implies #[trigger] arena.entry(k, i) == if off <= i * PAGE_SIZE < off + (va + size - m.va) {
                        run_entry(m, i)
                    } else {
                        old(arena).entry(k, i)
                    } by {
                    if i == idx {
                        assert(arena.entry(k, i) == encode(pa, m.attr, TYPE_PAGE));
                        assert(run_entry(m, i) == encode(pa, m.attr, TYPE_PAGE));
                    } else {
                        assert(arena.entry(k, i) == before.entry(k, i));
                        assert(i * PAGE_SIZE != idx * PAGE_SIZE) by (nonlinear_arith) requires i != idx;
                        if i * PAGE_SIZE < idx * PAGE_SIZE {
                            assert(i * PAGE_SIZE <= idx * PAGE_SIZE - PAGE_SIZE) by (nonlinear_arith) requires i < idx;
                        }
                    }
                }
            }
            left = left - size;
            va = va + size;
            pa = pa + size;
        }
    }
}

/// A virtual page splits into a level-2 and a level-3 index.
proof fn lemma_page_split(p: int)
    requires
        0 <= p < va_pages(),
    ensures
        0 <= p / (ENTRIES as int) < ENTRIES,
        0 <= p % (ENTRIES as int) < ENTRIES,
        (p % (ENTRIES as int)) * PAGE_SIZE < L2_REGION,
{
    assert(0 <= p < 8192 * 8192 ==> 0 <= p / 8192 < 8192 && 0 <= p % 8192 < 8192) by (nonlinear_arith);
    assert(0 <= p % 8192 < 8192 ==> (p % 8192) * 0x1_0000 < 0x2000_0000) by (nonlinear_arith);
}

/// A 512MB-aligned address in the address field leaves room for its block.
proof fn lemma_block_fits(a: u64)
    requires
        a % L2_REGION == 0,
        a < PA_LIMIT,
    ensures
        a + L2_REGION <= PA_LIMIT,
        a % PAGE_SIZE == 0,
{
    assert(a % 0x2000_0000 == 0 && a < 0x1_0000_0000_0000 ==> a + 0x2000_0000 <= 0x1_0000_0000_0000
        && a % 0x1_0000 == 0) by (bit_vector);
}

impl TableArena {
    /// `other` is `self` with one table added and at most root entry `i` changed.
    pub closed spec fn grown_at(&self, other: &TableArena, i: int) -> bool {
        &&& other.tables@.len() == self.tables@.len() + 1
        &&& other.base == self.base
        &&& other.capacity == self.capacity
        &&& forall|kk: int| 1 <= kk < self.len() ==> #[trigger] other.tables@[kk] == self.tables@[kk]
        &&& other.tables@[0]@ == self.tables@[0]@.update(i, other.entry(0, i))
    }

    /// Every page translates alike in both.
    proof fn lemma_same_view(&self, other: &TableArena)
        requires
            forall|p: int| 0 <= p < va_pages() ==> #[trigger] self.translate(p) == other.translate(p),
        ensures
            self@ == other@,
    {
        assert(self@ =~= other@);
    }
}

impl PteMut {
    /// The level-3 table that this level-2 entry points to.
    pub fn as_table_mut(&self, arena: &TableArena) -> (r: PageTableMut)
        requires
            self.valid(arena),
            self.level == START_LEVEL,
            type_of(self.raw(arena)) == TYPE_TABLE,
        ensures
            r == (PageTableMut { index: arena.target(self.raw(arena)) as usize, level: END_LEVEL }),
            r.index == arena.target(self.raw(arena)),
            r.valid(arena),
    {
        let k = arena.table_of(self.as_raw(arena));
        PageTableMut { index: k, level: self.level + 1 }
    }

    /// Puts a new, empty level-3 table in place of this invalid level-2
    /// entry; fails, changing nothing, when no page is left.
    pub fn create_table(&self, arena: &mut TableArena, m: Mapping) -> (r: Result<PageTableMut, MapError>)
        requires
            self.valid(old(arena)),
            self.level == START_LEVEL,
            type_of(self.raw(old(arena))) == TYPE_INVALID,
            attrs_fit(m.attr),
        ensures
            r is Err <==> old(arena).len() == old(arena).cap(),
            r is Err ==> *final(arena) == *old(arena),
            r matches Ok(t) ==> {
                &&& final(arena).wf()
                &&& t == (PageTableMut { index: old(arena).len() as usize, level: END_LEVEL })
                &&& old(arena).grown_at(final(arena), self.index as int)
                &&& type_of(self.raw(final(arena))) == TYPE_TABLE
                &&& attrs_of(self.raw(final(arena))) == m.attr
                &&& final(arena).target(self.raw(final(arena))) == t.index
                &&& forall|i: int| 0 <= i < ENTRIES ==> #[trigger] final(arena).entry(t.index as int, i) == 0
                &&& final(arena)@ == old(arena)@
            },
    {
        let k = match arena.alloc_table() {
            Some(k) => k,
            None => return Err(MapError::OutOfPages),
        };
        let ghost mid = *arena;
        let a = arena.table_address(k);
        let e = make_entry(a, m.attr, TYPE_TABLE);
        arena.set_entry(0, self.index, e);
        proof {
            let i = self.index as int;
            assert(arena.tables@[0]@ =~= old(arena).tables@[0]@.update(i, arena.entry(0, i)));
            assert forall|kk: int| 1 <= kk < old(arena).len() implies #[trigger] arena.tables@[kk] == old(arena).tables@[kk] by {
                assert(mid.tables@.take(k as int)[kk] == old(arena).tables@[kk]);
            }
            assert(mid.tables@.take(k as int)[0] == old(arena).tables@[0]);
            assert(arena.tables@[k as int] == mid.tables@[k as int]);
            assert forall|j: int| 0 <= j < ENTRIES implies #[trigger] arena.entry(k as int, j) == 0 by {
                assert(mid.entry(k as int, j) == 0);
            }
            assert(arena.target(e) == k);
            old(arena).lemma_wf_root_set(arena, i);
            assert forall|p: int| 0 <= p < va_pages() implies #[trigger] old(arena).translate(p) == arena.translate(p) by {
                lemma_page_split(p);
                let q = p / (ENTRIES as int);
                if q == i {
                    lemma_zero_invalid();
                    assert(arena.tables@[k as int] == mid.tables@[k as int]);
                    assert(arena.entry(k as int, p % (ENTRIES as int)) == 0);
                } else {
                    assert(arena.entry(0, q) == old(arena).entry(0, q));
                    assert(old(arena).root_slot_wf(q));
                }
            }
            old(arena).lemma_same_view(arena);
        }
        Ok(PageTableMut { index: k, level: self.level + 1 })
    }

    /// Replaces this level-2 block entry by a new level-3 table that maps
    /// the same 512MB, page by page, with the block's attributes; the table
    /// is filled before the entry points to it. Fails, changing nothing,
    /// when no page is left.
    pub fn expand_to_table(&self, arena: &mut TableArena) -> (r: Result<PageTableMut, MapError>)
        requires
            self.valid(old(arena)),
            self.level == START_LEVEL,
            type_of(self.raw(old(arena))) != TYPE_INVALID,
            type_of(self.raw(old(arena))) != TYPE_TABLE,
        ensures
            r is Err <==> old(arena).len() == old(arena).cap(),
            r is Err ==> *final(arena) == *old(arena),
            r matches Ok(t) ==> {
                &&& final(arena).wf()
                &&& t == (PageTableMut { index: old(arena).len() as usize, level: END_LEVEL })
                &&& old(arena).grown_at(final(arena), self.index as int)
                &&& type_of(self.raw(final(arena))) == TYPE_TABLE
                &&& attrs_of(self.raw(final(arena))) == attrs_of(self.raw(old(arena)))
                &&& final(arena).target(self.raw(final(arena))) == t.index
                &&& forall|i: int|
                    0 <= i < ENTRIES ==> #[trigger] final(arena).entry(t.index as int, i) == encode(
                        (addr_of(self.raw(old(arena))) + i * PAGE_SIZE) as u64,
                        attrs_of(self.raw(old(arena))),
                        TYPE_PAGE,
                    )
                &&& final(arena)@ == old(arena)@
            },
    {
        let old_raw = self.as_raw(arena);
        proof {
            assert(old(arena).root_slot_wf(self.index as int));
            assert(old_raw & 3u64 <= 3u64) by (bit_vector);
        }
        let k = match arena.alloc_table() {
            Some(k) => k,
            None => return Err(MapError::OutOfPages),
        };
        let ghost mid = *arena;
        let block_pa = entry_addr(old_raw);
        let block_attr = entry_attrs(old_raw);
        proof {
            lemma_block_fits(block_pa);
            assert(self.index * L2_REGION < 0x400_0000_0000) by (nonlinear_arith)
                requires self.index < 8192;
            assert((self.index * L2_REGION) % (L2_REGION as int) == 0) by (nonlinear_arith);
            assert(mid.tables@.take(k as int)[0] == old(arena).tables@[0]);
            assert(mid.entry(0, self.index as int) == old_raw);
            assert forall|kk: int| 0 <= kk < k implies #[trigger] mid.tables@[kk] == old(arena).tables@[kk] by {
                assert(mid.tables@.take(k as int)[kk] == old(arena).tables@[kk]);
            }
        }
        let old_mapping = Mapping {
            va: self.index as u64 * L2_REGION,
            pa: block_pa,
            size: L2_REGION,
            attr: block_attr,
        };
        let table = PageTableMut { index: k, level: END_LEVEL };
        table.map_leaves(arena, old_mapping);
        let ghost filled = *arena;
        let a = arena.table_address(k);
        let e = make_entry(a, block_attr, TYPE_TABLE);
        arena.set_entry(0, self.index, e);
        proof {
            let i = self.index as int;
            assert(arena.tables@[0]@ =~= old(arena).tables@[0]@.update(i, arena.entry(0, i)));
            assert forall|kk: int| 1 <= kk < old(arena).len() implies #[trigger] arena.tables@[kk] == old(arena).tables@[kk] by {
                assert(filled.tables@[kk] == mid.tables@[kk]);
            }
            assert forall|j: int| 0 <= j < ENTRIES implies #[trigger] arena.entry(k as int, j) == encode(
                (block_pa + j * PAGE_SIZE) as u64, block_attr, TYPE_PAGE) by {
                assert(arena.tables@[k as int] == filled.tables@[k as int]);
                assert(old_mapping.va % L2_REGION == 0);
                assert(filled.entry(k as int, j) == run_entry(old_mapping, j));
                assert(j * PAGE_SIZE < L2_REGION) by (nonlinear_arith) requires 0 <= j < 8192;
                assert(in_run(old_mapping, j));
            }
            assert(arena.target(e) == k);
            old(arena).lemma_wf_root_set(arena, i);
            assert forall|p: int| 0 <= p < va_pages() implies #[trigger] old(arena).translate(p) == arena.translate(p) by {
                lemma_page_split(p);
                let q = p / (ENTRIES as int);
                let j = p % (ENTRIES as int);
                if q == i {
                    let pg = (block_pa + j * PAGE_SIZE) as u64;
                    assert(pg % PAGE_SIZE == 0) by (nonlinear_arith)
                        requires pg == block_pa + j * PAGE_SIZE, block_pa % PAGE_SIZE == 0;
                    crate::descriptor::lemma_encode_fields(pg, block_attr, TYPE_PAGE);
                } else {
                    assert(arena.entry(0, q) == old(arena).entry(0, q));
                    assert(old(arena).root_slot_wf(q));
                }
            }
            old(arena).lemma_same_view(arena);
        }
        Ok(table)
    }
}

/// The part of `m` that the mapper has installed after `done` bytes.
pub open spec fn prefix(m: Mapping, done: int) -> Mapping {
    Mapping { va: m.va, pa: m.pa, size: done as u64, attr: m.attr }
}

/// The piece of `m` of `c` bytes that starts `done` bytes in.
pub open spec fn piece(m: Mapping, done: int, c: int) -> Mapping {
    Mapping { va: (m.va + done) as u64, pa: (m.pa + done) as u64, size: c as u64, attr: m.attr }
}

/// Installing two requests that continue each other is installing their union.
proof fn lemma_apply_extend(v: Map<int, Leaf>, m: Mapping, done: int, c: int)
    requires
        0 <= done,
        0 <= c,
        m.va + done + c <= u64::MAX,
        m.pa + done + c <= u64::MAX,
    ensures
        apply_mapping(apply_mapping(v, prefix(m, done)), piece(m, done, c))
            == apply_mapping(v, prefix(m, done + c)),
{
    assert(apply_mapping(apply_mapping(v, prefix(m, done)), piece(m, done, c)) =~= apply_mapping(
        v,
        prefix(m, done + c),
    ));
}

/// Where a request `c` inside level-2 region `c.va / L2_REGION` meets page `p`.
proof fn lemma_covers_split(c: Mapping, p: int)
    requires
        0 <= p < va_pages(),
        c.va % L2_REGION + c.size <= L2_REGION,
    ensures
        covers(c, p) <==> (p / (ENTRIES as int) == c.va / L2_REGION && in_run(c, p % (ENTRIES as int))),
        p / (ENTRIES as int) == c.va / L2_REGION ==> leaf_of(c, p).pa == c.pa + (p % (ENTRIES as int)) * PAGE_SIZE - c.va % L2_REGION,
{
    lemma_page_split(p);
    vstd::arithmetic::div_mod::lemma_fundamental_div_mod(p, ENTRIES as int);
    vstd::arithmetic::div_mod::lemma_fundamental_div_mod(c.va as int, L2_REGION as int);
    let q = p / (ENTRIES as int);
    let j = p % (ENTRIES as int);
    let i = (c.va / L2_REGION) as int;
    let o = (c.va % L2_REGION) as int;
    assert(p * PAGE_SIZE == q * L2_REGION + j * PAGE_SIZE);
    assert(c.va == i * L2_REGION + o);
    if q < i {
        assert(q * L2_REGION + L2_REGION <= i * L2_REGION);
    } else if q > i {
        assert(i * L2_REGION + L2_REGION <= q * L2_REGION);
    }
}

impl TableArena {
    /// After table `t`, the one that root slot `i` points to, took the run
    /// of request `c` inside region `i`, the translation is `c` installed.
    proof fn lemma_leaves_view(&self, after: &TableArena, t: int, c: Mapping)
        requires
            self.wf(),
            after.wf(),
            self.only_table_changed(after, t),
            c.va < VA_LIMIT,
            c.va % L2_REGION + c.size <= L2_REGION,
            c.pa + c.size <= PA_LIMIT,
            c.pa % PAGE_SIZE == 0,
            c.va % PAGE_SIZE == 0,
            attrs_fit(c.attr),
            self.is_table_slot((c.va / L2_REGION) as int),
            self.target(self.entry(0, (c.va / L2_REGION) as int)) == t,
            forall|i: int|
                0 <= i < ENTRIES ==> #[trigger] after.entry(t, i) == if in_run(c, i) {
                    run_entry(c, i)
                } else {
                    self.entry(t, i)
                },
        ensures
            after@ == apply_mapping(self@, c),
    {
        let ri = (c.va / L2_REGION) as int;
        let cva = c.va;
        assert(cva < 0x400_0000_0000 ==> cva / 0x2000_0000 < 8192) by (bit_vector);
        assert(self.root_slot_wf(ri));
        assert(t >= 1);
        assert(cva % 0x1_0000 == 0 ==> (cva % 0x2000_0000) % 0x1_0000 == 0) by (bit_vector);
        assert(after.tables@[0] == self.tables@[0]);
        assert forall|p: int| 0 <= p < va_pages() implies #[trigger] after.translate(p) == if covers(c, p) {
            Some(leaf_of(c, p))
        } else {
            self.translate(p)
        } by {
            lemma_page_split(p);
            lemma_covers_split(c, p);
            let q = p / (ENTRIES as int);
            let j = p % (ENTRIES as int);
            assert(after.entry(0, q) == self.entry(0, q));
            if q == ri {
                if in_run(c, j) {
                    let a = (c.pa + j * PAGE_SIZE - c.va % L2_REGION) as u64;
                    assert(0 <= j * PAGE_SIZE - c.va % L2_REGION < c.size);
                    assert(a % PAGE_SIZE == 0) by (nonlinear_arith)
                        requires
                            a == c.pa + j * PAGE_SIZE - c.va % L2_REGION,
                            c.pa % PAGE_SIZE == 0,
                            c.va % PAGE_SIZE == 0,
                            (c.va % L2_REGION) % PAGE_SIZE == 0,
                    {
                    }
                    crate::descriptor::lemma_encode_fields(a, c.attr, TYPE_PAGE);
                }
            } else {
                assert(self.root_slot_wf(q));
                if self.is_table_slot(q) {
                    assert(self.target(self.entry(0, q)) != self.target(self.entry(0, ri)));
                    assert(after.tables@[self.target(self.entry(0, q))] == self.tables@[self.target(self.entry(0, q))]);
                }
            }
        }
        assert forall|p: int| covers(c, p) implies 0 <= p < va_pages() by {
            assert(c.va + c.size <= VA_LIMIT) by {
                assert(cva < 0x400_0000_0000 ==> cva - cva % 0x2000_0000 + 0x2000_0000 <= 0x400_0000_0000) by (bit_vector);
            }
        }
        assert(after@ =~= apply_mapping(self@, c));
    }
}

impl TableArena {
    /// After root slot `c.va / L2_REGION` became a block for the whole
    /// region-sized request `c`, the translation is `c` installed.
    proof fn lemma_block_view(&self, after: &TableArena, c: Mapping)
        requires
            self.wf(),
            after.wf(),
            self.only_changed(after, 0, (c.va / L2_REGION) as int),
            c.va < VA_LIMIT,
            c.va % L2_REGION == 0,
            c.size == L2_REGION,
            c.pa % L2_REGION == 0,
            addr_fits(c.pa),
            attrs_fit(c.attr),
            after.entry(0, (c.va / L2_REGION) as int) == encode(c.pa, c.attr, TYPE_BLOCK),
        ensures
            after@ == apply_mapping(self@, c),
    {
        let ri = (c.va / L2_REGION) as int;
        let cva = c.va;
        assert(cva < 0x400_0000_0000 ==> cva / 0x2000_0000 < 8192) by (bit_vector);
        crate::descriptor::lemma_encode_fields(c.pa, c.attr, TYPE_BLOCK);
        assert forall|p: int| 0 <= p < va_pages() implies #[trigger] after.translate(p) == if covers(c, p) {
            Some(leaf_of(c, p))
        } else {
            self.translate(p)
        } by {
            lemma_page_split(p);
            lemma_covers_split(c, p);
            let q = p / (ENTRIES as int);
            if q != ri {
                assert(after.entry(0, q) == self.entry(0, q));
                assert(self.root_slot_wf(q));
                if self.is_table_slot(q) {
                    assert(after.tables@[self.target(self.entry(0, q))] == self.tables@[self.target(self.entry(0, q))]);
                }
            } else {
                assert(in_run(c, p % (ENTRIES as int)));
            }
        }
        assert forall|p: int| covers(c, p) implies 0 <= p < va_pages() by {
            assert(cva < 0x400_0000_0000 && cva % 0x2000_0000 == 0 ==> cva + 0x2000_0000 <= 0x400_0000_0000) by (bit_vector);
        }
        assert(after@ =~= apply_mapping(self@, c));
    }
}

/// An aligned address at or after `v` is at or after the first boundary from `v`.
proof fn lemma_aligned_past_align_up(v: u64, x: u64)
    requires
        x % L2_REGION == 0,
        x >= v,
        x < VA_LIMIT,
    ensures
        x >= align_up(v),
{
    assert(x % 0x2000_0000 == 0 && x >= v && x < 0x400_0000_0000 ==> x >= v + (0x2000_0000 - v % 0x2000_0000) % 0x2000_0000) by (bit_vector);
}

/// Addresses congruent modulo 512MB stay so when moved by the same amount.
proof fn lemma_congruent_offset(va0: u64, pa0: u64, d: int)
    requires
        va0 % L2_REGION == pa0 % L2_REGION,
        d >= 0,
        (va0 + d) % (L2_REGION as int) == 0,
    ensures
        (pa0 + d) % (L2_REGION as int) == 0,
{
    vstd::arithmetic::div_mod::lemma_add_mod_noop(va0 as int, d, L2_REGION as int);
    vstd::arithmetic::div_mod::lemma_add_mod_noop(pa0 as int, d, L2_REGION as int);
}

impl PageTableMut {
    /// Installs request `m` into this root table: each piece of it inside
    /// one level-2 region becomes a block where it fills a region whose
    /// entry holds no table, and page entries in a level-3 table otherwise,
    /// creating that table, or splitting a block into one, where needed.
    /// Fails when a new table is needed and no page is left.
    #[verifier::rlimit(60)]
    pub fn map(&self, arena: &mut TableArena, m: Mapping) -> (r: Result<(), MapError>)
        requires
            self.valid(old(arena)),
            self.level == START_LEVEL,
            valid_request(m),
        ensures
            final(arena).wf(),
            final(arena).cap() == old(arena).cap(),
            r is Ok <==> old(arena).len() + old(arena).tables_needed(m) <= old(arena).cap(),
            r is Ok ==> final(arena)@ == apply_mapping(old(arena)@, m),
            r is Ok ==> final(arena).len() == old(arena).len() + old(arena).tables_needed(m),
            r is Ok ==> final(arena).tables_needed(m) == 0,
            r is Ok ==> forall|q: int|
                0 <= q < ENTRIES && touches(m, q) && !fills(m, q) ==> #[trigger] final(arena).is_table_slot(q),
            r is Ok ==> forall|q: int|
                0 <= q < ENTRIES && fills(m, q) && !old(arena).is_table_slot(q) ==> #[trigger] final(arena).entry(0, q)
                    == block_entry(m, q),
            forall|q: int| 0 <= q < ENTRIES && !touches(m, q) ==> #[trigger] final(arena).entry(0, q) == old(arena).entry(0, q),
            forall|q: int| 0 <= q < ENTRIES && old(arena).is_table_slot(q) ==> #[trigger] final(arena).entry(0, q) == old(arena).entry(0, q),
            forall|q: int|
                0 <= q < ENTRIES && old(arena).is_table_slot(q) && !touches(m, q) ==> #[trigger] final(arena).table_words(
                    old(arena).target(old(arena).entry(0, q)),
                ) == old(arena).table_words(old(arena).target(old(arena).entry(0, q))),
            forall|q: int|
                0 <= q < ENTRIES && final(arena).is_table_slot(q) && !old(arena).is_table_slot(q) ==> old(arena).len()
                    <= #[trigger] final(arena).target(final(arena).entry(0, q)) < final(arena).len(),
            r is Err ==> final(arena).len() == final(arena).cap(),
            r is Err ==> forall|p: int| !covers(m, p) ==> (#[trigger] final(arena)@.dom().contains(p)
                <==> old(arena)@.dom().contains(p)),
            r is Err ==> forall|p: int| !covers(m, p) && old(arena)@.dom().contains(p) ==> #[trigger] final(arena)@[p]
                == old(arena)@[p],
    {
        let region = region_size(self.level);
        let mut va = m.va;
        let mut pa = m.pa;
        let mut left = m.size;
        proof {
            assert(old(arena)@ =~= apply_mapping(old(arena)@, prefix(m, 0)));
        }
        while left > 0
            invariant
                self.valid(arena),
                self.level == START_LEVEL,
                valid_request(m),
                region == L2_REGION,
                va - m.va == pa - m.pa,
                va + left == m.va + m.size,
                va >= m.va,
                va % PAGE_SIZE == 0,
                pa % PAGE_SIZE == 0,
                left % PAGE_SIZE == 0,
                arena.cap() == old(arena).cap(),
                arena@ == apply_mapping(old(arena)@, prefix(m, va - m.va)),
                arena.len() + old(arena).tables_added(va as int, left as int) == old(arena).len()
                    + old(arena).tables_needed(m),
                left > 0 ==> forall|q: int| (va / L2_REGION) as int <= q < ENTRIES ==> #[trigger] arena.entry(0, q)
                    == old(arena).entry(0, q),
                old(arena).wf(),
                arena.base == old(arena).base,
                forall|q: int|
                    0 <= q < ENTRIES && touches(m, q) && !fills(m, q) && q * L2_REGION < va && (left == 0 || q
                        * L2_REGION + L2_REGION <= va) ==> #[trigger] arena.is_table_slot(q),
                left > 0 ==> va == m.va || va % L2_REGION == 0,
                arena.len() >= old(arena).len(),
                forall|q: int|
                    0 <= q < ENTRIES && fills(m, q) && !old(arena).is_table_slot(q) && q * L2_REGION + L2_REGION <= va
                        ==> #[trigger] arena.entry(0, q) == block_entry(m, q),
                forall|q: int| 0 <= q < ENTRIES && !touches(m, q) ==> #[trigger] arena.entry(0, q) == old(arena).entry(0, q),
                forall|q: int| 0 <= q < ENTRIES && old(arena).is_table_slot(q) ==> #[trigger] arena.entry(0, q) == old(arena).entry(0, q),
                forall|q: int|
                    0 <= q < ENTRIES && old(arena).is_table_slot(q) && !touches(m, q) ==> #[trigger] arena.tables@[old(arena).target(old(arena).entry(0, q))]
                        == old(arena).tables@[old(arena).target(old(arena).entry(0, q))],
                forall|q: int|
                    0 <= q < ENTRIES && arena.is_table_slot(q) && !old(arena).is_table_slot(q) ==> old(arena).len()
                        <= #[trigger] arena.target(arena.entry(0, q)) < arena.len(),
            decreases left,
        {
            let size = region_chunk(va, left, region);
            let idx = l2_index(va);
            let sub = Mapping { va, pa, size, attr: m.attr };
            let ghost before = *arena;
            proof {
                assert(va % 0x1_0000 == 0 ==> (va % 0x2000_0000) % 0x1_0000 == 0
                    && (0x2000_0000 - va % 0x2000_0000) % 0x1_0000 == 0) by (bit_vector);
                assert(sub == piece(m, va - m.va, size as int));
            }
            proof {
                assert(arena.entry(0, idx as int) == old(arena).entry(0, idx as int));
                assert(chunk_len(va as int, left as int) == size);
                assert(old(arena).tables_added(va as int, left as int) == (if size < L2_REGION
                    && !old(arena).is_table_slot(idx as int) { 1nat } else { 0nat })
                    + old(arena).tables_added(va + size, left - size));
            }
            let ghost mut changed: int = 0;
            proof {
                vstd::arithmetic::div_mod::lemma_fundamental_div_mod(va as int, L2_REGION as int);
                assert(touches(m, idx as int));
            }
            let pte = self.pte(idx);
            if pte.is_table(arena) {
                let table = pte.as_table_mut(arena);
                table.map_leaves(arena, sub);
                proof {
                    changed = table.index as int;
                    assert(old(arena).is_table_slot(idx as int));
                    assert forall|kk: int| 1 <= kk < before.len() && kk != changed implies #[trigger] arena.tables@[kk] == before.tables@[kk] by {}
                    before.lemma_leaves_view(arena, table.index as int, sub);
                    assert forall|q: int| 0 <= q < ENTRIES && q != idx implies #[trigger] arena.entry(0, q) == before.entry(0, q) by {
                        assert(arena.tables@[0] == before.tables@[0]);
                    }
                }
            } else if size == region {
                proof {
                    assert(va % L2_REGION == 0);
                    lemma_aligned_past_align_up(m.va, va);
                    lemma_congruent_offset(m.va, m.pa, va - m.va);
                }
                pte.write(arena, sub);
                proof {
                    crate::descriptor::lemma_encode_fields(sub.pa, sub.attr, TYPE_BLOCK);
                    assert(!arena.is_table_slot(idx as int));
                    assert forall|kk: int| 1 <= kk < before.len() && kk != changed implies #[trigger] arena.tables@[kk] == before.tables@[kk] by {}
                    before.lemma_block_view(arena, sub);
                    assert forall|q: int| 0 <= q < ENTRIES && q != idx implies #[trigger] arena.entry(0, q) == before.entry(0, q) by {
                        assert(arena.tables@[0]@ == before.tables@[0]@.update(idx as int, arena.entry(0, idx as int)));
                    }
                }
            } else if pte.is_valid(arena) {
                match pte.expand_to_table(arena) {
                    Ok(table) => {
                        let ghost split = *arena;
                        table.map_leaves(arena, sub);
                        proof {
                            assert forall|kk: int| 0 <= kk < split.len() && kk != table.index implies #[trigger] arena.tables@[kk] == split.tables@[kk] by {}
                            changed = table.index as int;
                            assert forall|kk: int| 1 <= kk < before.len() && kk != changed implies #[trigger] arena.tables@[kk] == before.tables@[kk] by {
                                assert(split.tables@[kk] == before.tables@[kk]);
                            }
                            assert(arena.entry(0, idx as int) == split.entry(0, idx as int));
                            assert(arena.target(arena.entry(0, idx as int)) == changed);
                            split.lemma_leaves_view(arena, table.index as int, sub);
                        assert forall|q: int| 0 <= q < ENTRIES && q != idx implies #[trigger] arena.entry(0, q) == before.entry(0, q) by {
                        assert(arena.tables@[0] == split.tables@[0]);
                    }

                        }
                    },
                    Err(e) => {
                        proof { lemma_prefix_frame(old(arena)@, m, va - m.va); }
                        return Err(e);
                    },
                }
            } else {
                match pte.create_table(arena, sub) {
                    Ok(table) => {
                        let ghost made = *arena;
                        table.map_leaves(arena, sub);
                        proof {
                            changed = table.index as int;
                            assert forall|kk: int| 1 <= kk < before.len() && kk != changed implies #[trigger] arena.tables@[kk] == before.tables@[kk] by {
                                assert(made.tables@[kk] == before.tables@[kk]);
                            }
                            assert(arena.entry(0, idx as int) == made.entry(0, idx as int));
                            assert(arena.target(arena.entry(0, idx as int)) == changed);
                            made.lemma_leaves_view(arena, table.index as int, sub);
                        assert forall|q: int| 0 <= q < ENTRIES && q != idx implies #[trigger] arena.entry(0, q) == before.entry(0, q) by {
                        assert(arena.tables@[0] == made.tables@[0]);
                    }

                        }
                    },
                    Err(e) => {
                        proof { lemma_prefix_frame(old(arena)@, m, va - m.va); }
                        return Err(e);
                    },
                }
            }
            proof {
                lemma_apply_extend(old(arena)@, m, va - m.va, size as int);
                if size < left {
                    assert((va + size) / (L2_REGION as int) == idx + 1);
                }
                assert forall|q: int|
                    0 <= q < ENTRIES && old(arena).is_table_slot(q) && !touches(m, q) implies #[trigger] arena.tables@[old(arena).target(old(arena).entry(0, q))]
                        == old(arena).tables@[old(arena).target(old(arena).entry(0, q))] by {
                    assert(old(arena).root_slot_wf(q));
                    let kk = old(arena).target(old(arena).entry(0, q));
                    if changed == before.target(before.entry(0, idx as int)) && changed < before.len() && changed != 0 {
                        assert(old(arena).is_table_slot(idx as int));
                        assert(old(arena).target(old(arena).entry(0, q)) != old(arena).target(old(arena).entry(0, idx as int)));
                    }
                    assert(arena.tables@[kk] == before.tables@[kk]);
                }
                assert forall|q: int|
                    0 <= q < ENTRIES && touches(m, q) && !fills(m, q) && q * L2_REGION < va + size && (left - size == 0 || q
                        * L2_REGION + L2_REGION <= va + size) implies #[trigger] arena.is_table_slot(q) by {
                    if q != idx {
                        assert(arena.entry(0, q) == before.entry(0, q));
                        assert(before.is_table_slot(q));
                    } else if size == L2_REGION {
                        assert(fills(m, q));
                    }
                }
                assert forall|q: int|
                    0 <= q < ENTRIES && arena.is_table_slot(q) && !old(arena).is_table_slot(q) implies old(arena).len()
                        <= #[trigger] arena.target(arena.entry(0, q)) < arena.len() by {
                    if q != idx {
                        assert(arena.entry(0, q) == before.entry(0, q));
                        assert(before.is_table_slot(q));
                        assert(old(arena).len() <= before.target(before.entry(0, q)) < before.len());
                        assert(arena.base == before.base);
                        assert(arena.len() >= before.len());
                    } else {
                        assert(arena.root_slot_wf(q));
                        assert(!old(arena).is_table_slot(idx as int));
                        assert(arena.target(arena.entry(0, q)) == changed);
                        assert(changed >= before.len());
                    }
                }
            }
            left = left - size;
            va = va + size;
            pa = pa + size;
        }
        proof {
            assert forall|q: int|
                m.size > 0 && q * L2_REGION < m.va + m.size && m.va < q * L2_REGION + L2_REGION && !(m.va <= q * L2_REGION
                    && q * L2_REGION + L2_REGION <= m.va + m.size) implies #[trigger] arena.is_table_slot(q) by {
                assert(touches(m, q));
                assert(0 <= q < ENTRIES) by {
                    assert(q * L2_REGION < VA_LIMIT);
                }
            }
            arena.lemma_added_zero(m.va as int, m.size as int);
        }
        Ok(())
    }
}

/// The request meets level-2 region `q`.
pub open spec fn touches(m: Mapping, q: int) -> bool {
    m.size > 0 && q * L2_REGION < m.va + m.size && m.va < q * L2_REGION + L2_REGION
}

/// The request covers the whole of level-2 region `q`.
pub open spec fn fills(m: Mapping, q: int) -> bool {
    m.va <= q * L2_REGION && q * L2_REGION + L2_REGION <= m.va + m.size
}

/// The block entry that request `m` writes for a level-2 region `q` it fills.
pub open spec fn block_entry(m: Mapping, q: int) -> u64 {
    encode((m.pa + q * L2_REGION - m.va) as u64, m.attr, TYPE_BLOCK)
}

/// Length of the piece of `[va, va + left)` inside the level-2 region of `va`.
pub open spec fn chunk_len(va: int, left: int) -> int {
    if left < L2_REGION - va % (L2_REGION as int) {
        left
    } else {
        L2_REGION - va % (L2_REGION as int)
    }
}

impl TableArena {
    /// Number of level-3 tables that installing `[va, va + left)` creates:
    /// one for each piece smaller than its region whose root slot holds no table.
    pub closed spec fn tables_added(&self, va: int, left: int) -> nat
        decreases left,
    {
        if left <= 0 {
            0
        } else {
            let c = chunk_len(va, left);
            let here: nat = if c < L2_REGION && !self.is_table_slot(va / (L2_REGION as int)) {
                1
            } else {
                0
            };
            if c <= 0 {
                here
            } else {
                here + self.tables_added(va + c, left - c)
            }
        }
    }

    /// Number of level-3 tables that installing `m` creates.
    pub open spec fn tables_needed(&self, m: Mapping) -> nat {
        self.tables_added(m.va as int, m.size as int)
    }
}

impl TableArena {
    /// Where every level-2 region that `[va, va + left)` meets without
    /// filling it already holds a table, installing that range needs none.
    proof fn lemma_added_zero(&self, va: int, left: int)
        requires
            va >= 0,
            forall|q: int|
                left > 0 && q * L2_REGION < va + left && va < q * L2_REGION + L2_REGION && !(va <= q * L2_REGION
                    && q * L2_REGION + L2_REGION <= va + left) ==> #[trigger] self.is_table_slot(q),
        ensures
            self.tables_added(va, left) == 0,
        decreases left,
    {
        if left > 0 {
            let c = chunk_len(va, left);
            let q0 = va / (L2_REGION as int);
            vstd::arithmetic::div_mod::lemma_fundamental_div_mod(va, L2_REGION as int);
            assert(c > 0);
            if c < L2_REGION {
                assert(self.is_table_slot(q0));
            }
            if c == left {
                assert(self.tables_added(va + c, left - c) == 0);
            } else {
                let k = (va + c) / (L2_REGION as int);
                vstd::arithmetic::div_mod::lemma_fundamental_div_mod(va + c, L2_REGION as int);
                assert(va + c == (q0 + 1) * L2_REGION);
                assert forall|q: int|
                    left - c > 0 && q * L2_REGION < va + c + (left - c) && va + c < q * L2_REGION + L2_REGION && !(va + c <= q
                        * L2_REGION && q * L2_REGION + L2_REGION <= va + c + (left - c)) implies #[trigger] self.is_table_slot(q) by {
                    assert(q >= q0 + 1);
                }
                self.lemma_added_zero(va + c, left - c);
            }
        }
    }
}

/// A prefix of `m` leaves the pages that `m` does not cover as they were.
proof fn lemma_prefix_frame(v: Map<int, Leaf>, m: Mapping, done: int)
    requires
        0 <= done <= m.size,
    ensures
        forall|p: int| !covers(m, p) ==> (#[trigger] apply_mapping(v, prefix(m, done)).dom().contains(p)
            <==> v.dom().contains(p)),
        forall|p: int| !covers(m, p) && v.dom().contains(p) ==> #[trigger] apply_mapping(v, prefix(m, done))[p]
            == v[p],
{
}

/// Every table of a well-formed arena has `ENTRIES` entries of
/// `ENTRY_BYTES` bytes, and so fills exactly one `PAGE_SIZE` page.
pub proof fn lemma_table_fills_page(a: &TableArena, k: int)
    requires
        a.wf(),
        0 <= k < a.len(),
    ensures
        a.table_entries(k) == ENTRIES,
        a.table_entries(k) * ENTRY_BYTES == PAGE_SIZE,
{
}

/// What `only_changed` leaves as it was: every other entry, the number of
/// tables and the capacity.
pub proof fn lemma_only_changed(a: &TableArena, b: &TableArena, k: int, i: int)
    requires
        a.wf(),
        a.only_changed(b, k, i),
        0 <= k < a.len(),
        0 <= i < ENTRIES,
    ensures
        b.len() == a.len(),
        b.cap() == a.cap(),
        forall|kk: int, ii: int|
            0 <= kk < a.len() && 0 <= ii < ENTRIES && (kk != k || ii != i) ==> #[trigger] b.entry(kk, ii) == a.entry(kk, ii),
{
    assert forall|kk: int, ii: int|
        0 <= kk < a.len() && 0 <= ii < ENTRIES && (kk != k || ii != i) implies #[trigger] b.entry(kk, ii) == a.entry(kk, ii) by {
        if kk != k {
            assert(b.tables@[kk] == a.tables@[kk]);
        } else {
            assert(a.tables@[k]@.len() == ENTRIES);
            assert(b.tables@[k]@[ii] == a.tables@[k]@.update(i, b.entry(k, i))[ii]);
        }
    }
}

/// What `only_table_changed` leaves as it was: every entry of the other
/// tables, the number of tables and the capacity.
pub proof fn lemma_only_table_changed(a: &TableArena, b: &TableArena, k: int)
    requires
        a.only_table_changed(b, k),
    ensures
        b.len() == a.len(),
        b.cap() == a.cap(),
        forall|kk: int, ii: int| 0 <= kk < a.len() && kk != k ==> #[trigger] b.entry(kk, ii) == a.entry(kk, ii),
{
    assert forall|kk: int, ii: int| 0 <= kk < a.len() && kk != k implies #[trigger] b.entry(kk, ii) == a.entry(kk, ii) by {
        assert(b.tables@[kk] == a.tables@[kk]);
    }
}

/// What `grown_at` leaves as it was: one more table, the same capacity,
/// the other root entries and every entry of the earlier level-3 tables.
pub proof fn lemma_grown_at(a: &TableArena, b: &TableArena, i: int)
    requires
        a.wf(),
        a.grown_at(b, i),
        0 <= i < ENTRIES,
    ensures
        b.len() == a.len() + 1,
        b.cap() == a.cap(),
        forall|ii: int| 0 <= ii < ENTRIES && ii != i ==> #[trigger] b.entry(0, ii) == a.entry(0, ii),
        forall|kk: int, ii: int| 1 <= kk < a.len() ==> #[trigger] b.entry(kk, ii) == a.entry(kk, ii),
{
    assert forall|kk: int, ii: int| 1 <= kk < a.len() implies #[trigger] b.entry(kk, ii) == a.entry(kk, ii) by {
        assert(b.tables@[kk] == a.tables@[kk]);
    }
    assert forall|ii: int| 0 <= ii < ENTRIES && ii != i implies #[trigger] b.entry(0, ii) == a.entry(0, ii) by {
        assert(a.tables@[0]@.len() == ENTRIES);
        assert(b.tables@[0]@[ii] == a.tables@[0]@.update(i, b.entry(0, i))[ii]);
    }
}

/// Tables needed to install `[va, va + left)`, stated directly: one for the
/// first piece and one for the last, each where it does not fill its
/// level-2 region and that region's root slot holds no table.
pub open spec fn ends_needing_tables(a: &TableArena, va: int, left: int) -> nat {
    let c = chunk_len(va, left);
    let first: nat = if left > 0 && c < L2_REGION && !a.is_table_slot(va / (L2_REGION as int)) {
        1
    } else {
        0
    };
    let last: nat = if c < left && (va + left) % (L2_REGION as int) != 0 && !a.is_table_slot(
        (va + left - 1) / (L2_REGION as int),
    ) {
        1
    } else {
        0
    };
    first + last
}

proof fn lemma_added_aligned(a: &TableArena, x: int, l: int)
    requires
        x >= 0,
        x % (L2_REGION as int) == 0,
        l > 0,
    ensures
        a.tables_added(x, l) == if l % (L2_REGION as int) != 0 && !a.is_table_slot((x + l - 1) / (L2_REGION as int)) {
            1nat
        } else {
            0nat
        },
    decreases l,
{
    assert(chunk_len(x, l) == if l < L2_REGION { l } else { L2_REGION as int });
    if l < L2_REGION {
        assert((x + l - 1) / (L2_REGION as int) == x / (L2_REGION as int));
        assert(a.tables_added(x + l, 0) == 0);
    } else if l == L2_REGION {
        assert(a.tables_added(x + l, 0) == 0);
    } else {
        lemma_added_aligned(a, x + L2_REGION, l - L2_REGION);
        assert((l - L2_REGION) % (L2_REGION as int) == l % (L2_REGION as int));
    }
}

/// The number of tables that installing a range needs is the direct count
/// of its first and last pieces.
pub proof fn lemma_tables_needed_ends(a: &TableArena, m: Mapping)
    ensures
        a.tables_needed(m) == ends_needing_tables(a, m.va as int, m.size as int),
{
    let va = m.va as int;
    let left = m.size as int;
    if left > 0 {
        let c = chunk_len(va, left);
        vstd::arithmetic::div_mod::lemma_fundamental_div_mod(va, L2_REGION as int);
        if c < left {
            assert((va + c) % (L2_REGION as int) == 0);
            lemma_added_aligned(a, va + c, left - c);
            assert(va + c + (left - c) - 1 == va + left - 1);
            assert((left - c) % (L2_REGION as int) == (va + left) % (L2_REGION as int));
        } else {
            assert(a.tables_added(va + c, left - c) == 0);
        }
    }
}

/// A well-formed arena holds the root and at most its capacity of tables.
pub proof fn lemma_wf_len(a: &TableArena)
    requires
        a.wf(),
    ensures
        1 <= a.len() <= a.cap(),
{
}

/// After `m` is installed, each virtual page that `m` covers translates to
/// the physical page at the same offset from `m.pa`, with `m.attr`.
pub proof fn lemma_round_trip(v: Map<int, Leaf>, m: Mapping, p: int)
    requires
        covers(m, p),
    ensures
        apply_mapping(v, m).contains_key(p),
        apply_mapping(v, m)[p] == (Leaf { pa: m.pa + (p * PAGE_SIZE - m.va), attr: m.attr }),
{
}

/// Installing a request a second time changes no translation.
pub proof fn lemma_map_idempotent(v: Map<int, Leaf>, m: Mapping)
    ensures
        apply_mapping(apply_mapping(v, m), m) == apply_mapping(v, m),
{
    assert(apply_mapping(apply_mapping(v, m), m) =~= apply_mapping(v, m));
}

/// A request that fills one 512MB region whose root slot holds no table
/// needs no new table (and `map` then writes one block entry for it).
pub proof fn lemma_fast_path(a: &TableArena, m: Mapping)
    requires
        m.va % L2_REGION == 0,
        m.size == L2_REGION,
        !a.is_table_slot((m.va / L2_REGION) as int),
    ensures
        a.tables_needed(m) == 0,
{
    assert(chunk_len(m.va as int, m.size as int) == L2_REGION);
    assert(a.tables_added(m.va + L2_REGION, 0) == 0);
}

/// Over a block entry written for request `big`, a 64KB request `small`
/// inside the same region needs exactly one new table, and the pages of
/// `big` other than the one `small` covers keep what `big` gave them.
pub proof fn lemma_split(a: &TableArena, v: Map<int, Leaf>, big: Mapping, small: Mapping)
    requires
        big.va % L2_REGION == 0,
        big.size == L2_REGION,
        addr_fits(big.pa),
        attrs_fit(big.attr),
        a.entry(0, (big.va / L2_REGION) as int) == encode(big.pa, big.attr, TYPE_BLOCK),
        small.size == PAGE_SIZE,
        small.va % PAGE_SIZE == 0,
        big.va <= small.va < big.va + big.size,
    ensures
        a.tables_needed(small) == 1,
        forall|p: int|
            covers(big, p) && !covers(small, p) ==> #[trigger] apply_mapping(apply_mapping(v, big), small)[p]
                == leaf_of(big, p),
        forall|p: int| covers(small, p) ==> #[trigger] apply_mapping(apply_mapping(v, big), small)[p] == leaf_of(small, p),
{
    crate::descriptor::lemma_encode_fields(big.pa, big.attr, TYPE_BLOCK);
    let sva = small.va;
    let bva = big.va;
    assert(sva % 0x1_0000 == 0 && bva % 0x2000_0000 == 0 && bva <= sva && sva < bva + 0x2000_0000
        ==> sva / 0x2000_0000 == bva / 0x2000_0000 && sva % 0x2000_0000 <= 0x2000_0000 - 0x1_0000) by (bit_vector);
    assert(chunk_len(small.va as int, small.size as int) == PAGE_SIZE);
    assert(a.tables_added(small.va + PAGE_SIZE, 0) == 0);
}

impl TableArena {
    /// The entry words of table `k`.
    pub closed spec fn table_words(&self, k: int) -> Seq<u64> {
        self.tables@[k]@
    }

    /// Number of entries in table `k`.
    pub closed spec fn table_entries(&self, k: int) -> int {
        self.tables@[k]@.len() as int
    }
}

} // verus!
