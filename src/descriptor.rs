use vstd::prelude::*;

verus! {

/// Number of entries in one translation table.
pub const ENTRIES: usize = 8192;

/// Size of one translation granule, and of one table page, in bytes.
pub const PAGE_SIZE: u64 = 0x1_0000;

/// Bytes of one entry word.
pub const ENTRY_BYTES: usize = 8;

/// First level of translation, whose table is the root.
pub const START_LEVEL: u8 = 2;

/// Last (leaf) level of translation.
pub const END_LEVEL: u8 = 3;

/// Span of virtual addresses described by one level-2 entry (512MB).
pub const L2_REGION: u64 = 0x2000_0000;

/// Span of virtual addresses described by one level-3 entry (64KB).
pub const L3_REGION: u64 = 0x1_0000;

/// First virtual address past the translated range: addresses are 42 bits wide.
pub const VA_LIMIT: u64 = 0x400_0000_0000;

/// First physical address past what the address field can hold.
pub const PA_LIMIT: u64 = 0x1_0000_0000_0000;

/// Bits [1:0]: the type tag.
pub const TYPE_MASK: u64 = 0x3;

pub const TYPE_INVALID: u64 = 0x0;

/// Tag that no entry of these tables carries.
pub const TYPE_RESERVED: u64 = 0x2;

/// Tag of a block entry at a non-leaf level.
pub const TYPE_BLOCK: u64 = 0x1;

/// Tag of a table pointer at a non-leaf level.
pub const TYPE_TABLE: u64 = 0x3;

/// Tag of a page entry at the leaf level.
pub const TYPE_PAGE: u64 = 0x3;

/// Bits [47:16]: the physical or next-level address.
pub const ADDR_MASK: u64 = 0x0000_ffff_ffff_0000;

/// Upper attribute group, bits [63:48].
pub const HATTRS_MASK: u64 = 0xffff_0000_0000_0000;

/// Lower attribute group, bits [15:2].
pub const LATTRS_MASK: u64 = 0x0000_0000_0000_fffc;

/// Both attribute groups.
pub const ATTRS_MASK: u64 = 0xffff_0000_0000_fffc;

/// Shift of the access-permission field.
pub const AP_SHIFT: u64 = 6;

/// Access permission: read/write.
pub const AP_RW: u64 = 0x1;

/// Shift of the execute-never bit.
pub const XN_SHIFT: u64 = 54;

/// Attributes of device memory: never executable.
pub const ATTRS_MMIO: u64 = 1 << XN_SHIFT;

/// Attributes of ordinary memory: readable and writable.
pub const ATTRS_RAM: u64 = AP_RW << AP_SHIFT;

/// Bits [41:29] of a virtual address: the level-2 index.
pub const L2_IDX_MASK: u64 = 0x0000_03ff_e000_0000;

pub const L2_IDX_SHIFT: u64 = 29;

/// Bits [28:16] of a virtual address: the level-3 index.
pub const L3_IDX_MASK: u64 = 0x0000_0000_1fff_0000;

pub const L3_IDX_SHIFT: u64 = 16;

pub open spec fn type_of(e: u64) -> u64 {
    e & TYPE_MASK
}

pub open spec fn addr_of(e: u64) -> u64 {
    e & ADDR_MASK
}

pub open spec fn attrs_of(e: u64) -> u64 {
    e & ATTRS_MASK
}

/// An attribute word holds bits of the two attribute groups only.
pub open spec fn attrs_fit(attr: u64) -> bool {
    attr & !ATTRS_MASK == 0
}

/// An address that the address field holds exactly.
pub open spec fn addr_fits(a: u64) -> bool {
    a % PAGE_SIZE == 0 && a < PA_LIMIT
}

/// The entry word made of an address, attributes and a type tag.
pub open spec fn encode(a: u64, attr: u64, tag: u64) -> u64 {
    a | attr | tag
}

/// The fields of an encoded word read back as they were written.
pub proof fn lemma_encode_fields(a: u64, attr: u64, tag: u64)
    requires
        addr_fits(a),
        attrs_fit(attr),
        tag <= TYPE_MASK,
    ensures
        type_of(encode(a, attr, tag)) == tag,
        addr_of(encode(a, attr, tag)) == a,
        attrs_of(encode(a, attr, tag)) == attr,
{
    assert(a % 0x1_0000 == 0 && a < 0x1_0000_0000_0000 ==> a & !0x0000_ffff_ffff_0000u64 == 0) by (bit_vector);
    assert(a & !0x0000_ffff_ffff_0000u64 == 0 && attr & !0xffff_0000_0000_fffcu64 == 0 && tag <= 3
        ==> (a | attr | tag) & 3 == tag
        && (a | attr | tag) & 0x0000_ffff_ffff_0000u64 == a
        && (a | attr | tag) & 0xffff_0000_0000_fffcu64 == attr) by (bit_vector);
}

/// The zero word is an invalid entry.
pub proof fn lemma_zero_invalid()
    ensures
        type_of(0) == TYPE_INVALID,
{
    assert(0u64 & 3 == 0) by (bit_vector);
}

/// The type tag of an entry word.
pub fn entry_type(e: u64) -> (r: u64)
    ensures
        r == type_of(e),
{
    e & TYPE_MASK
}

/// The address field of an entry word.
pub fn entry_addr(e: u64) -> (r: u64)
    ensures
        r == addr_of(e),
        addr_fits(r),
{
    assert(e & 0x0000_ffff_ffff_0000u64 < 0x1_0000_0000_0000
        && (e & 0x0000_ffff_ffff_0000u64) % 0x1_0000 == 0) by (bit_vector);
    e & ADDR_MASK
}

/// The attribute groups of an entry word.
pub fn entry_attrs(e: u64) -> (r: u64)
    ensures
        r == attrs_of(e),
        attrs_fit(r),
{
    assert((e & 0xffff_0000_0000_fffcu64) & !0xffff_0000_0000_fffcu64 == 0) by (bit_vector);
    e & ATTRS_MASK
}

/// Builds an entry word from its address, attributes and type tag.
pub fn make_entry(a: u64, attr: u64, tag: u64) -> (r: u64)
    requires
        addr_fits(a),
        attrs_fit(attr),
        tag <= TYPE_MASK,
    ensures
        r == encode(a, attr, tag),
        type_of(r) == tag,
        addr_of(r) == a,
        attrs_of(r) == attr,
{
    proof {
        lemma_encode_fields(a, attr, tag);
    }
    a | attr | tag
}

} // verus!
