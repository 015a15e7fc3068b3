use pagetable::descriptor::{
    entry_addr, entry_attrs, entry_type, make_entry, ATTRS_MMIO, ATTRS_RAM, ENTRIES, L2_REGION,
    PAGE_SIZE, TYPE_BLOCK, TYPE_INVALID, TYPE_PAGE, TYPE_TABLE,
};
use pagetable::table::{region_chunk, region_size, MapError, Mapping, TableArena};

const BASE: u64 = 0x1000_0000;

fn arena(capacity: usize) -> TableArena {
    TableArena::new(BASE, capacity).unwrap()
}

/// Entry word at level-2 slot `i` of the root.
fn root_entry(a: &TableArena, i: usize) -> u64 {
    a.root().pte(i).as_raw()
}

/// Entry word `j` of the level-3 table behind root slot `i`.
fn leaf_entry(a: &TableArena, i: usize, j: usize) -> u64 {
    let root = a.root();
    let slot = root.pte(i);
    assert!(slot.is_table());
    slot.as_table().pte(j).as_raw()
}

/// Every entry word reachable from the root, table by table.
fn snapshot(a: &TableArena) -> Vec<u64> {
    let mut out = Vec::new();
    let root = a.root();
    for i in 0..ENTRIES {
        let slot = root.pte(i);
        let e = slot.as_raw();
        out.push(e);
        if entry_type(e) == TYPE_TABLE {
            let t = slot.as_table();
            for j in 0..ENTRIES {
                out.push(t.pte(j).as_raw());
            }
        }
    }
    out
}

#[test]
fn page_table_size() {
    assert_eq!(std::mem::size_of::<[u64; ENTRIES]>(), PAGE_SIZE as usize);
    assert_eq!(ENTRIES * 8, 8192 * 8);
}

#[test]
fn scenario_two_megabytes_of_ram() {
    let mut a = arena(8);
    let root = a.root_mut();
    let m = Mapping::new(0x4000_0000, 0x8000_0000, 0x20_0000, ATTRS_RAM);
    assert_eq!(root.map(&mut a, m), Ok(()));
    assert_eq!(a.table_count(), 2);
    let slot = root_entry(&a, 2);
    assert_eq!(entry_type(slot), TYPE_TABLE);
    assert_eq!(entry_addr(slot), BASE + PAGE_SIZE);
    for i in 0..32usize {
        let e = leaf_entry(&a, 2, i);
        assert_eq!(entry_type(e), TYPE_PAGE);
        assert_eq!(entry_addr(e), 0x8000_0000 + i as u64 * 0x10000);
        assert_eq!(entry_attrs(e), ATTRS_RAM);
    }
    assert_eq!(entry_type(leaf_entry(&a, 2, 32)), TYPE_INVALID);
    for i in 0..ENTRIES {
        if i != 2 {
            assert_eq!(root_entry(&a, i), 0);
        }
    }
}

#[test]
fn round_trip_leaves() {
    let mut a = arena(8);
    let root = a.root_mut();
    let m = Mapping::new(0x1234_0000, 0x9876_0000, 0x5_0000, ATTRS_MMIO);
    assert_eq!(root.map(&mut a, m), Ok(()));
    let first = (0x1234_0000u64 % L2_REGION / PAGE_SIZE) as usize;
    for k in 0..5usize {
        let e = leaf_entry(&a, 0, first + k);
        assert_eq!(entry_addr(e), 0x9876_0000 + k as u64 * PAGE_SIZE);
        assert_eq!(entry_attrs(e), ATTRS_MMIO);
    }
    assert_eq!(leaf_entry(&a, 0, first - 1), 0);
    assert_eq!(leaf_entry(&a, 0, first + 5), 0);
}

#[test]
fn mapping_twice_is_mapping_once() {
    let m = Mapping::new(0x1fff_0000, 0x3fff_0000, 0x2002_0000, ATTRS_RAM);
    let mut once = arena(8);
    let r1 = once.root_mut();
    assert_eq!(r1.map(&mut once, m), Ok(()));
    let mut twice = arena(8);
    let r2 = twice.root_mut();
    assert_eq!(r2.map(&mut twice, m), Ok(()));
    assert_eq!(r2.map(&mut twice, m), Ok(()));
    assert_eq!(once.table_count(), twice.table_count());
    assert_eq!(snapshot(&once), snapshot(&twice));
}

#[test]
fn fast_path_writes_one_block() {
    let mut a = arena(4);
    let root = a.root_mut();
    let m = Mapping::new(0x6000_0000, 0xc000_0000, L2_REGION, ATTRS_RAM);
    assert_eq!(root.map(&mut a, m), Ok(()));
    assert_eq!(a.table_count(), 1);
    let e = root_entry(&a, 3);
    assert_eq!(e, 0xc000_0000 | ATTRS_RAM | TYPE_BLOCK);
    let blocks = (0..ENTRIES).filter(|&i| root_entry(&a, i) != 0).count();
    assert_eq!(blocks, 1);
}

#[test]
fn split_block_for_smaller_mapping() {
    let mut a = arena(4);
    let root = a.root_mut();
    let big = Mapping::new(0x2000_0000, 0x6000_0000, L2_REGION, ATTRS_RAM);
    assert_eq!(root.map(&mut a, big), Ok(()));
    assert_eq!(a.table_count(), 1);
    let small = Mapping::new(0x2005_0000, 0x6005_0000, PAGE_SIZE, ATTRS_MMIO);
    assert_eq!(root.map(&mut a, small), Ok(()));
    assert_eq!(a.table_count(), 2);
    let slot = root_entry(&a, 1);
    assert_eq!(entry_type(slot), TYPE_TABLE);
    assert_eq!(entry_attrs(slot), ATTRS_RAM);
    for j in 0..ENTRIES {
        let e = leaf_entry(&a, 1, j);
        assert_eq!(entry_type(e), TYPE_PAGE);
        assert_eq!(entry_addr(e), 0x6000_0000 + j as u64 * PAGE_SIZE);
        if j == 5 {
            assert_eq!(entry_attrs(e), ATTRS_MMIO);
        } else {
            assert_eq!(entry_attrs(e), ATTRS_RAM);
        }
    }
}

#[test]
fn crossing_a_region_boundary() {
    let mut a = arena(4);
    let root = a.root_mut();
    let m = Mapping::new(0x1ffe_0000, 0x3ffe_0000, 0x4_0000, ATTRS_RAM);
    assert_eq!(root.map(&mut a, m), Ok(()));
    assert_eq!(a.table_count(), 3);
    assert_eq!(entry_addr(leaf_entry(&a, 0, 8190)), 0x3ffe_0000);
    assert_eq!(entry_addr(leaf_entry(&a, 0, 8191)), 0x3fff_0000);
    assert_eq!(entry_addr(leaf_entry(&a, 1, 0)), 0x4000_0000);
    assert_eq!(entry_addr(leaf_entry(&a, 1, 1)), 0x4001_0000);
    assert_eq!(leaf_entry(&a, 1, 2), 0);
    assert_eq!(leaf_entry(&a, 0, 8189), 0);
}

#[test]
fn boundary_and_full_region_mix() {
    let mut a = arena(4);
    let root = a.root_mut();
    let m = Mapping::new(0x1fff_0000, 0x3fff_0000, 0x2002_0000, ATTRS_RAM);
    assert_eq!(root.map(&mut a, m), Ok(()));
    assert_eq!(a.table_count(), 3);
    assert_eq!(root_entry(&a, 1), 0x4000_0000 | ATTRS_RAM | TYPE_BLOCK);
    assert_eq!(entry_addr(leaf_entry(&a, 0, 8191)), 0x3fff_0000);
    assert_eq!(entry_addr(leaf_entry(&a, 2, 0)), 0x6000_0000);
    assert_eq!(leaf_entry(&a, 2, 1), 0);
}

#[test]
fn chunk_stops_at_region_boundary() {
    assert_eq!(region_chunk(0x1ffe_0000, 0x4_0000, L2_REGION), 0x2_0000);
    assert_eq!(region_chunk(0x2000_0000, 0x4_0000, L2_REGION), 0x4_0000);
    assert_eq!(region_chunk(0x2000_0000, 0x8000_0000, L2_REGION), L2_REGION);
    assert_eq!(region_chunk(0x2000_0000, 0, L2_REGION), 0);
    assert_eq!(region_size(2), L2_REGION);
    assert_eq!(region_size(3), PAGE_SIZE);
}

#[test]
fn out_of_pages_is_reported() {
    let mut a = arena(1);
    let root = a.root_mut();
    let m = Mapping::new(0x4000_0000, 0x8000_0000, PAGE_SIZE, ATTRS_RAM);
    assert_eq!(root.map(&mut a, m), Err(MapError::OutOfPages));
    assert_eq!(a.table_count(), 1);
    assert_eq!(root_entry(&a, 2), 0);
    let block = Mapping::new(0x4000_0000, 0x8000_0000, L2_REGION, ATTRS_RAM);
    assert_eq!(root.map(&mut a, block), Ok(()));
    assert_eq!(a.table_count(), 1);
}

#[test]
fn arena_rejects_bad_layout() {
    assert!(TableArena::new(0x1000, 4).is_none());
    assert!(TableArena::new(BASE, 0).is_none());
    assert!(TableArena::new(0xffff_ffff_0000, 2).is_none());
    assert!(TableArena::new(0xffff_ffff_0000, 1).is_some());
    let a = arena(3);
    assert_eq!(a.capacity(), 3);
    assert_eq!(a.table_count(), 1);
}

#[test]
fn entry_codec_round_trip() {
    let e = make_entry(0x8000_0000, ATTRS_MMIO | ATTRS_RAM, TYPE_PAGE);
    assert_eq!(e, 0x0040_0000_8000_0043);
    assert_eq!(entry_type(e), TYPE_PAGE);
    assert_eq!(entry_addr(e), 0x8000_0000);
    assert_eq!(entry_attrs(e), ATTRS_MMIO | ATTRS_RAM);
}

#[test]
fn entry_handles_classify() {
    let mut a = arena(4);
    let root = a.root_mut();
    let slot = root.pte(5);
    assert!(slot.can_be_table());
    assert!(!slot.is_valid(&a));
    assert!(!slot.is_table(&a));
    let block = Mapping::new(5 * L2_REGION, 0, L2_REGION, ATTRS_RAM);
    slot.write(&mut a, block);
    assert!(slot.is_valid(&a));
    assert!(!slot.is_table(&a));
    assert_eq!(slot.as_raw(&a), ATTRS_RAM | TYPE_BLOCK);
    let table = slot.expand_to_table(&mut a).unwrap();
    assert!(slot.is_table(&a));
    assert_eq!(table.index, 1);
    let leaf = table.pte(7);
    assert!(!leaf.can_be_table());
    assert!(leaf.is_table(&a));
    assert_eq!(leaf.as_raw(&a), 7 * PAGE_SIZE | ATTRS_RAM | TYPE_PAGE);
    leaf.clear(&mut a);
    assert!(!leaf.is_valid(&a));
    assert_eq!(slot.as_table_mut(&a).index, 1);
    let other = root.pte(6);
    let fresh = other.create_table(&mut a, block).unwrap();
    assert_eq!(fresh.index, 2);
    assert_eq!(entry_addr(other.as_raw(&a)), BASE + 2 * PAGE_SIZE);
    assert_eq!(fresh.pte(0).as_raw(&a), 0);
    let picked = root.with_pte(6, |p| p.index);
    assert_eq!(picked, 6);
}

#[test]
fn read_only_views() {
    let mut a = arena(4);
    let root = a.root_mut();
    let m = Mapping::new(0x4000_0000, 0x8000_0000, PAGE_SIZE, ATTRS_RAM);
    assert_eq!(root.map(&mut a, m), Ok(()));
    let view = a.root();
    let slot = view.pte(2);
    assert!(slot.can_be_table());
    assert!(slot.is_valid());
    assert!(slot.is_table());
    let t = slot.as_table();
    assert_eq!(t.level, 3);
    assert!(t.pte(0).is_valid());
    assert!(!t.pte(1).is_valid());
    assert!(t.pte(1).is_table());
}

#[test]
fn repeat_needs_no_new_table() {
    let mut a = arena(3);
    let root = a.root_mut();
    let m = Mapping::new(0x1ffe_0000, 0x3ffe_0000, 0x4_0000, ATTRS_RAM);
    assert_eq!(root.map(&mut a, m), Ok(()));
    assert_eq!(a.table_count(), a.capacity());
    let before = snapshot(&a);
    assert_eq!(root.map(&mut a, m), Ok(()));
    assert_eq!(a.table_count(), 3);
    assert_eq!(snapshot(&a), before);
}

#[test]
fn untouched_tables_keep_their_words() {
    let mut a = arena(4);
    let root = a.root_mut();
    let first = Mapping::new(0x4000_0000, 0x8000_0000, 0x2_0000, ATTRS_RAM);
    assert_eq!(root.map(&mut a, first), Ok(()));
    let slot2 = root_entry(&a, 2);
    let leaves: Vec<u64> = (0..ENTRIES).map(|j| leaf_entry(&a, 2, j)).collect();
    let block = Mapping::new(0x6000_0000, 0xc000_0000, L2_REGION, ATTRS_MMIO);
    assert_eq!(root.map(&mut a, block), Ok(()));
    assert_eq!(a.table_count(), 2);
    assert_eq!(root_entry(&a, 2), slot2);
    let after: Vec<u64> = (0..ENTRIES).map(|j| leaf_entry(&a, 2, j)).collect();
    assert_eq!(after, leaves);
    assert_eq!(root_entry(&a, 3), 0xc000_0000 | ATTRS_MMIO | TYPE_BLOCK);
}
