//! Pages: raw bytes with a typed header projection.
//!
//! A page is `page_size` bytes.  Its header begins at byte 100 on page 1
//! (the first 100 bytes are the database file header) and at byte 0
//! elsewhere.  Only table-leaf pages (type byte 13) are functional; the
//! other recognized types are reserved.  A table-leaf holds a cell-pointer
//! array growing up from the header and cell payloads growing down from
//! the page's end; the gap between them is the free space.

use crate::record::ColumnV;
use crate::record_read::spec_read_record;
use crate::serialise::{be_bytes, be_val, pow256, to_integer, write_be};
use crate::DbError;
use vstd::prelude::*;

verus! {

/// The parsed header of a table-leaf page.
#[derive(Debug, Clone, Copy, PartialEq, Eq, Structural)]
pub struct TableLeaf {
    pub freeblock_index: u16,
    pub cell_count: u16,
    pub cell_content_start: u16,
    pub fragmented_bytes_count: u8,
}

/// The typed view of a page, by its type byte: 2 index-interior,
/// 5 table-interior, 10 index-leaf, 13 table-leaf.
#[derive(Debug)]
pub enum PageType {
    TableLeaf(TableLeaf),
    TableInterior,
    IndexLeaf,
    IndexInterior,
}

/// A page: its bytes and their typed header projection, kept in lockstep.
#[derive(Debug)]
pub struct Page {
    pub data: Vec<u8>,
    pub page_type: PageType,
}

/// Where a page's header starts: byte 100 on page 1, byte 0 elsewhere.
pub open spec fn header_start_of(page_number: u32) -> int {
    if page_number == 1 {
        100
    } else {
        0
    }
}

pub fn header_start_for(page_number: u32) -> (r: usize)
    ensures
        r == header_start_of(page_number),
{
    if page_number == 1 {
        100
    } else {
        0
    }
}

/// The page-type byte.
pub open spec fn spec_page_type_byte(d: Seq<u8>, hs: int) -> u8 {
    d[hs]
}

/// The freeblock index stored at `hs + 1`.
pub open spec fn spec_freeblock(d: Seq<u8>, hs: int) -> nat {
    be_val(d.subrange(hs + 1, hs + 3))
}

/// The number of cells, stored at `hs + 3`.
pub open spec fn spec_cell_count(d: Seq<u8>, hs: int) -> nat {
    be_val(d.subrange(hs + 3, hs + 5))
}

/// The recorded cell-content start, stored at `hs + 5`; 0 means "no cells
/// yet".
pub open spec fn spec_cc_start(d: Seq<u8>, hs: int) -> nat {
    be_val(d.subrange(hs + 5, hs + 7))
}

/// The fragmented-bytes count at `hs + 7`.
pub open spec fn spec_frag(d: Seq<u8>, hs: int) -> nat {
    d[hs + 7] as nat
}

/// The `i`-th cell pointer, stored in the packed array after the header.
pub open spec fn spec_cell_ptr(d: Seq<u8>, hs: int, i: int) -> nat {
    be_val(d.subrange(hs + 8 + 2 * i, hs + 8 + 2 * i + 2))
}

/// The effective cell-content start: the page's end while no cell exists.
pub open spec fn spec_eff_cc(d: Seq<u8>, hs: int) -> int {
    if spec_cc_start(d, hs) == 0 {
        d.len() as int
    } else {
        spec_cc_start(d, hs) as int
    }
}

/// The free space of a table-leaf: the gap between the pointer array and
/// the cell-content region.
pub open spec fn spec_free_space(d: Seq<u8>, hs: int) -> int {
    spec_eff_cc(d, hs) - (hs + 8 + 2 * spec_cell_count(d, hs))
}

/// Structural sanity of a table-leaf: the pointer array ends at or before
/// the cell-content region, which lies within the page.
pub open spec fn leaf_space_wf(d: Seq<u8>, hs: int) -> bool {
    &&& 0 <= hs
    &&& hs + 8 <= d.len() <= 0xFFFF
    &&& hs + 8 + 2 * spec_cell_count(d, hs) <= spec_eff_cc(d, hs)
    &&& spec_eff_cc(d, hs) <= d.len()
}

/// Every cell pointer points into the cell-content region.
pub open spec fn leaf_ptrs_wf(d: Seq<u8>, hs: int) -> bool {
    forall|i: int|
        0 <= i < spec_cell_count(d, hs)
            ==> #[trigger] spec_cell_ptr(d, hs, i) >= spec_eff_cc(d, hs)
}

/// The header projection agrees with the bytes.
pub open spec fn page_wf(p: Page, hs: int) -> bool {
    &&& hs + 8 <= p.data@.len()
    &&& 0 <= hs
    &&& match p.page_type {
        PageType::TableLeaf(l) => {
            &&& spec_page_type_byte(p.data@, hs) == 13
            &&& l.freeblock_index == spec_freeblock(p.data@, hs)
            &&& l.cell_count == spec_cell_count(p.data@, hs)
            &&& l.cell_content_start == spec_cc_start(p.data@, hs)
            &&& l.fragmented_bytes_count == spec_frag(p.data@, hs)
        },
        PageType::TableInterior => spec_page_type_byte(p.data@, hs) == 5,
        PageType::IndexLeaf => spec_page_type_byte(p.data@, hs) == 10,
        PageType::IndexInterior => spec_page_type_byte(p.data@, hs) == 2,
    }
}

/// The rows of the first `n` cells, oldest first; `None` when any cell
/// fails to decode.
pub open spec fn leaf_rows_upto(d: Seq<u8>, hs: int, n: int) -> Option<Seq<Seq<ColumnV>>>
    decreases n,
{
    if n <= 0 {
        Some(Seq::empty())
    } else {
        match leaf_rows_upto(d, hs, n - 1) {
            None => None,
            Some(rows) => {
                match spec_read_record(d, spec_cell_ptr(d, hs, n - 1) as int) {
                    None => None,
                    Some((row, _)) => Some(rows.push(row)),
                }
            },
        }
    }
}

/// The rows stored on a table-leaf, in insertion order; `None` when the
/// pointer array overruns the page or any cell fails to decode.
pub open spec fn leaf_rows(d: Seq<u8>, hs: int) -> Option<Seq<Seq<ColumnV>>> {
    if hs + 8 + 2 * spec_cell_count(d, hs) > d.len() {
        None
    } else {
        leaf_rows_upto(d, hs, spec_cell_count(d, hs) as int)
    }
}

impl TableLeaf {
    /// The free space of this leaf on a page of `page_size` bytes whose
    /// header starts at `header_start`.
    pub fn free_space(self, header_start: usize, page_size: usize) -> (r: usize)
        requires
            header_start + 8 + 2 * self.cell_count
                <= (if self.cell_content_start == 0 { page_size as int } else {
                    self.cell_content_start as int
                }),
            self.cell_content_start <= page_size <= 0xFFFF,
        ensures
            r == (if self.cell_content_start == 0 { page_size as int } else {
                self.cell_content_start as int
            }) - (header_start + 8 + 2 * self.cell_count),
    {
        let eff: usize = if self.cell_content_start == 0 {
            page_size
        } else {
            self.cell_content_start as usize
        };
        eff - (header_start + 8 + 2 * (self.cell_count as usize))
    }
}

impl Page {
    /// An independent copy of this page.
    pub fn duplicate(&self) -> (p: Page)
        ensures
            p.data@ == self.data@,
            p.page_type == self.page_type,
    {
        let data = crate::record::copy_bytes(&self.data);
        let page_type = match &self.page_type {
            PageType::TableLeaf(l) => PageType::TableLeaf(*l),
            PageType::TableInterior => PageType::TableInterior,
            PageType::IndexLeaf => PageType::IndexLeaf,
            PageType::IndexInterior => PageType::IndexInterior,
        };
        Page { data, page_type }
    }
}

/// Projects the typed header out of a page's bytes.  The type byte decides
/// the variant; `Corruption` means it is not a recognized type.
pub fn read_page(page: Vec<u8>, header_start: usize) -> (r: Result<Page, DbError>)
    requires
        header_start + 8 <= page@.len(),
    ensures
        match r {
            Ok(p) => {
                &&& p.data@ == page@
                &&& page_wf(p, header_start as int)
                &&& p.page_type is TableLeaf
                &&& spec_page_type_byte(page@, header_start as int) == 13
            },
            Err(e) => {
                &&& !(spec_page_type_byte(page@, header_start as int) == 13)
                &&& (e == DbError::Unsupported) == (spec_page_type_byte(
                    page@,
                    header_start as int,
                ) == 2 || spec_page_type_byte(page@, header_start as int) == 5
                    || spec_page_type_byte(page@, header_start as int) == 10)
                &&& (e == DbError::Corruption || e == DbError::Unsupported)
            },
        },
{
    let n = page.len();
    let type_byte = page[header_start];
    if type_byte == 13 {
        proof {
            crate::serialise::lemma_be_val_bound(
                page@.subrange(header_start + 1, header_start + 3),
            );
            crate::serialise::lemma_be_val_bound(
                page@.subrange(header_start + 3, header_start + 5),
            );
            crate::serialise::lemma_be_val_bound(
                page@.subrange(header_start + 5, header_start + 7),
            );
            assert(pow256(2) == 0x1_0000) by {
                reveal_with_fuel(pow256, 3);
            }
        }
        let freeblock_index = to_integer(page.as_slice(), header_start + 1, 2) as u16;
        let cell_count = to_integer(page.as_slice(), header_start + 3, 2) as u16;
        let cell_content_start = to_integer(page.as_slice(), header_start + 5, 2) as u16;
        let fragmented_bytes_count = page[header_start + 7];
        let leaf = TableLeaf { freeblock_index, cell_count, cell_content_start, fragmented_bytes_count };
        Ok(Page { data: page, page_type: PageType::TableLeaf(leaf) })
    } else if type_byte == 2 || type_byte == 5 || type_byte == 10 {
        Err(DbError::Unsupported)
    } else {
        Err(DbError::Corruption)
    }
}

/// Adds one cell to a table-leaf page: writes the record at the new
/// cell-content start, appends its pointer, and updates the header fields
/// and the projection together.  Fails with `PageFull`, leaving the page
/// unchanged, exactly when the record and its pointer do not fit the free
/// space.
pub fn add_cell(page: &mut Page, header_start: usize, record: &Vec<u8>) -> (r: Result<
    (),
    DbError,
>)
    requires
        page_wf(*old(page), header_start as int),
        old(page).page_type is TableLeaf,
        leaf_space_wf(old(page).data@, header_start as int),
    ensures
        ({
            let d0 = old(page).data@;
            let hs = header_start as int;
            let c = spec_cell_count(d0, hs) as int;
            let e = spec_eff_cc(d0, hs);
            let l = record@.len() as int;
            let ncc = e - l;
            match r {
                Ok(()) => {
                    &&& l + 2 <= spec_free_space(d0, hs)
                    &&& final(page).data@.len() == d0.len()
                    &&& page_wf(*final(page), hs)
                    &&& final(page).page_type is TableLeaf
                    &&& leaf_space_wf(final(page).data@, hs)
                    &&& spec_cell_count(final(page).data@, hs) == c + 1
                    &&& spec_cc_start(final(page).data@, hs) == ncc
                    &&& spec_eff_cc(final(page).data@, hs) == ncc
                    &&& spec_cell_ptr(final(page).data@, hs, c) == ncc
                    &&& final(page).data@.subrange(ncc, e) == record@
                    &&& spec_free_space(final(page).data@, hs)
                        == spec_free_space(d0, hs) - l - 2
                    &&& forall|j: int|
                        0 <= j < d0.len() && !(ncc <= j < e) && !(hs + 3 <= j < hs + 7)
                            && !(hs + 8 + 2 * c <= j < hs + 8 + 2 * c + 2)
                            ==> final(page).data@[j] == d0[j]
                },
                Err(err) => {
                    &&& err == DbError::PageFull
                    &&& l + 2 > spec_free_space(d0, hs)
                    &&& *final(page) == *old(page)
                },
            }
        }),
{
    let leaf: TableLeaf = match &page.page_type {
        PageType::TableLeaf(l) => *l,
        _ => {
            proof {
                assert(false);
            }
            return Err(DbError::PageFull);
        },
    };
    let page_size = page.data.len();
    let eff: usize = if leaf.cell_content_start == 0 {
        page_size
    } else {
        leaf.cell_content_start as usize
    };
    let record_size = record.len();
    let needed = header_start + 8 + 2 * (leaf.cell_count as usize) + 2;
    // the record and its pointer must both fit between the pointer array
    // and the cell-content region
    if record_size > eff || eff - record_size < needed {
        return Err(DbError::PageFull);
    }
    let new_cc = eff - record_size;
    let ghost d0 = page.data@;
    let ghost hs = header_start as int;
    let ghost c = spec_cell_count(d0, hs) as int;
    // the record bytes
    let mut i: usize = 0;
    while i < record_size
        invariant
            i <= record_size,
            new_cc + record_size <= page_size,
            page_size == page.data@.len(),
            page.data@.len() == d0.len(),
            record@.len() == record_size,
            forall|j: int| 0 <= j < i ==> page.data@[new_cc + j] == record@[j],
            forall|j: int|
                0 <= j < d0.len() && !(new_cc <= j < new_cc + i) ==> page.data@[j] == d0[j],
        decreases record_size - i,
    {
        let b = record[i];
        page.data.set(new_cc + i, b);
        i = i + 1;
    }
    proof {
        assert(pow256(2) == 0x1_0000) by {
            reveal_with_fuel(pow256, 3);
        }
    }
    // the new cell pointer
    write_be(&mut page.data, header_start + 8 + 2 * (leaf.cell_count as usize), new_cc as u64, 2);
    // the cell count
    write_be(&mut page.data, header_start + 3, (leaf.cell_count + 1) as u64, 2);
    // the cell-content start
    write_be(&mut page.data, header_start + 5, new_cc as u64, 2);
    let new_leaf = TableLeaf {
        freeblock_index: leaf.freeblock_index,
        cell_count: leaf.cell_count + 1,
        cell_content_start: new_cc as u16,
        fragmented_bytes_count: leaf.fragmented_bytes_count,
    };
    page.page_type = PageType::TableLeaf(new_leaf);
    proof {
        let d1 = final(page).data@;
        crate::serialise::lemma_be_val_of_bytes(new_cc as nat, 2);
        crate::serialise::lemma_be_val_of_bytes((leaf.cell_count + 1) as nat, 2);
        crate::serialise::lemma_be_bytes_len(new_cc as nat, 2);
        crate::serialise::lemma_be_bytes_len((leaf.cell_count + 1) as nat, 2);
        assert(d1.subrange(hs + 5, hs + 7) =~= be_bytes(new_cc as nat, 2));
        assert(d1.subrange(hs + 3, hs + 5) =~= be_bytes((leaf.cell_count + 1) as nat, 2));
        assert(d1.subrange(hs + 8 + 2 * c, hs + 8 + 2 * c + 2) =~= be_bytes(new_cc as nat, 2));
        assert(d1.subrange(hs + 1, hs + 3) =~= d0.subrange(hs + 1, hs + 3));
        assert(d1.subrange(new_cc as int, new_cc + record_size) =~= record@);
        assert(spec_cell_count(d1, hs) == c + 1);
        assert(spec_cc_start(d1, hs) == new_cc);
        assert(spec_cell_ptr(d1, hs, c) == new_cc);
        assert(spec_freeblock(d1, hs) == spec_freeblock(d0, hs));
        assert(spec_frag(d1, hs) == spec_frag(d0, hs));
        assert(spec_page_type_byte(d1, hs) == 13);
    }
    Ok(())
}

/// The law of the leaf: adding a cell appends exactly one row.  If every
/// cell of the old page decoded and lay inside the cell-content region,
/// then after `add_cell` with the encoding of `row`, the page's rows are
/// the old rows with `row` appended — none is lost, changed or reordered.
#[verifier::rlimit(100)]
pub proof fn lemma_add_cell_rows(d0: Seq<u8>, d1: Seq<u8>, hs: int, row: Seq<ColumnV>)
    requires
        leaf_space_wf(d0, hs),
        leaf_ptrs_wf(d0, hs),
        leaf_rows(d0, hs) is Some,
        crate::record::row_storable(row),
        crate::record::row_encodable(row),
        d1.len() == d0.len(),
        ({
            let c = spec_cell_count(d0, hs) as int;
            let e = spec_eff_cc(d0, hs);
            let l = crate::record::record_len(row) as int;
            let ncc = e - l;
            &&& l + 2 <= spec_free_space(d0, hs)
            &&& spec_cell_count(d1, hs) == c + 1
            &&& spec_cc_start(d1, hs) == ncc
            &&& spec_cell_ptr(d1, hs, c) == ncc
            &&& d1.subrange(ncc, e) == crate::record::record_bytes(row)
            &&& forall|j: int|
                hs + 8 <= j < d0.len() && !(ncc <= j < e) && !(hs + 3 <= j < hs + 7)
                    && !(hs + 8 + 2 * c <= j < hs + 8 + 2 * c + 2) ==> d1[j] == d0[j]
        }),
    ensures
        leaf_rows(d1, hs) == Some(leaf_rows(d0, hs)->Some_0.push(row)),
        leaf_ptrs_wf(d1, hs),
{
    let c = spec_cell_count(d0, hs) as int;
    let e = spec_eff_cc(d0, hs);
    let l = crate::record::record_len(row) as int;
    let ncc = e - l;
    // old cell pointers are unchanged
    assert forall|i: int| 0 <= i < c implies spec_cell_ptr(d1, hs, i) == spec_cell_ptr(
        d0,
        hs,
        i,
    ) by {
        assert(d1.subrange(hs + 8 + 2 * i, hs + 8 + 2 * i + 2)
            =~= d0.subrange(hs + 8 + 2 * i, hs + 8 + 2 * i + 2)) by {
            assert forall|j: int| hs + 8 + 2 * i <= j < hs + 8 + 2 * i + 2 implies d1[j]
                == d0[j] by {
                assert(j < hs + 8 + 2 * c);
                assert(j < e && !(ncc <= j));
            }
        }
    }
    // old cells decode unchanged
    let rows0 = leaf_rows(d0, hs)->Some_0;
    assert forall|i: int| 0 <= i < c implies {
        &&& #[trigger] spec_read_record(d1, spec_cell_ptr(d1, hs, i) as int)
            == spec_read_record(d0, spec_cell_ptr(d0, hs, i) as int)
        &&& spec_cell_ptr(d1, hs, i) >= ncc
    } by {
        let ptr = spec_cell_ptr(d0, hs, i) as int;
        assert(ptr >= e);
        lemma_leaf_rows_upto_decodes(d0, hs, c, i);
        let (r0, e0) = spec_read_record(d0, ptr)->Some_0;
        crate::record_read::lemma_read_record_bounds(d0, ptr);
        assert forall|j: int| ptr <= j < e0 implies #[trigger] d1[j] == d0[j] by {
            assert(j >= e);
            assert(!(ncc <= j < e));
            assert(!(hs + 3 <= j < hs + 7) && !(hs + 8 + 2 * c <= j < hs + 8 + 2 * c + 2)) by {
                assert(hs + 8 + 2 * c + 2 <= ncc);
            }
        }
        crate::record_read::lemma_read_record_frame(d0, d1, ptr, r0, e0);
    }
    // the new cell decodes to the inserted row
    crate::record_read::lemma_record_round_trip(d1, ncc, row);
    // assemble: the first c rows are the old rows
    lemma_leaf_rows_upto_frame(d0, d1, hs, c);
    assert(leaf_rows_upto(d1, hs, c) == Some(rows0));
    assert(spec_read_record(d1, spec_cell_ptr(d1, hs, c) as int) == Some(
        (row, ncc + l),
    ));
    assert(leaf_rows_upto(d1, hs, c + 1) == Some(rows0.push(row)));
    assert(hs + 8 + 2 * spec_cell_count(d1, hs) <= d1.len());
}

/// A write below the leaf header leaves every leaf-header reading intact.
pub proof fn lemma_leaf_header_frame(d1: Seq<u8>, d2: Seq<u8>, hs: int)
    requires
        d1.len() == d2.len(),
        0 <= hs,
        hs + 8 <= d1.len(),
        forall|j: int| hs <= j < d1.len() ==> #[trigger] d2[j] == d1[j],
    ensures
        spec_page_type_byte(d2, hs) == spec_page_type_byte(d1, hs),
        spec_freeblock(d2, hs) == spec_freeblock(d1, hs),
        spec_cell_count(d2, hs) == spec_cell_count(d1, hs),
        spec_cc_start(d2, hs) == spec_cc_start(d1, hs),
        spec_frag(d2, hs) == spec_frag(d1, hs),
        spec_eff_cc(d2, hs) == spec_eff_cc(d1, hs),
        spec_free_space(d2, hs) == spec_free_space(d1, hs),
        leaf_space_wf(d2, hs) == leaf_space_wf(d1, hs),
        forall|i: int|
            0 <= i && hs + 8 + 2 * i + 2 <= d1.len() ==> #[trigger] spec_cell_ptr(d2, hs, i)
                == spec_cell_ptr(d1, hs, i),
{
    assert(d2.subrange(hs + 1, hs + 3) =~= d1.subrange(hs + 1, hs + 3));
    assert(d2.subrange(hs + 3, hs + 5) =~= d1.subrange(hs + 3, hs + 5));
    assert(d2.subrange(hs + 5, hs + 7) =~= d1.subrange(hs + 5, hs + 7));
    assert forall|i: int| 0 <= i && hs + 8 + 2 * i + 2 <= d1.len() implies
        #[trigger] spec_cell_ptr(d2, hs, i) == spec_cell_ptr(d1, hs, i) by {
        assert(d2.subrange(hs + 8 + 2 * i, hs + 8 + 2 * i + 2)
            =~= d1.subrange(hs + 8 + 2 * i, hs + 8 + 2 * i + 2));
    }
}

/// Once one cell fails to decode, every longer prefix fails too.
pub proof fn lemma_leaf_rows_upto_none(d: Seq<u8>, hs: int, m: int, n: int)
    requires
        m <= n,
        leaf_rows_upto(d, hs, m) is None,
    ensures
        leaf_rows_upto(d, hs, n) is None,
    decreases n,
{
    if n > m {
        lemma_leaf_rows_upto_none(d, hs, m, n - 1);
    }
}

/// Every prefix of a decodable leaf decodes, cell by cell.
proof fn lemma_leaf_rows_upto_decodes(d: Seq<u8>, hs: int, n: int, i: int)
    requires
        leaf_rows_upto(d, hs, n) is Some,
        0 <= i < n,
    ensures
        spec_read_record(d, spec_cell_ptr(d, hs, i) as int) is Some,
    decreases n,
{
    if i < n - 1 {
        lemma_leaf_rows_upto_decodes(d, hs, n - 1, i);
    }
}

/// If the pointers and their cells read the same in two buffers, the rows
/// agree.
proof fn lemma_leaf_rows_upto_frame(d0: Seq<u8>, d1: Seq<u8>, hs: int, n: int)
    requires
        leaf_rows_upto(d0, hs, n) is Some,
        forall|i: int| 0 <= i < n ==> #[trigger] spec_cell_ptr(d1, hs, i) == spec_cell_ptr(
            d0,
            hs,
            i,
        ),
        forall|i: int|
            0 <= i < n ==> #[trigger] spec_read_record(d1, spec_cell_ptr(d1, hs, i) as int)
                == spec_read_record(d0, spec_cell_ptr(d0, hs, i) as int),
    ensures
        leaf_rows_upto(d1, hs, n) == leaf_rows_upto(d0, hs, n),
    decreases n,
{
    if n > 0 {
        lemma_leaf_rows_upto_frame(d0, d1, hs, n - 1);
    }
}

} // verus!
