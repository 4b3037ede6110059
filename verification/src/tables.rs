//! The query surface: creating tables, inserting rows, selecting rows.
//!
//! The schema catalog lives on page 1: one row per user table, shaped
//! `[Integer(1), Text(name), Integer(root_page), Blob(column list)]`.
//! `create_table` allocates a fresh leaf page and adds such a row;
//! `describe_table` finds the single row for a name; inserts and selects
//! resolve the root page through the catalog and work on its leaf.

use crate::catalog::{catalog_bytes, catalog_encode, catalog_decode, schema_view, ColumnType};
use crate::database::{
    create_page, insert_record as insert_record_raw, read_leaf_rows, spec_hdr_page_count,
    Database,
};
use crate::page::{
    header_start_of, leaf_ptrs_wf, leaf_rows, leaf_space_wf, spec_cell_count, spec_free_space,
    spec_page_type_byte, Page, PageType,
};
use crate::record::{
    col_payload, create_record, record_bytes, record_len, row_encodable, row_storable, row_view,
    rows_view, Column, ColumnV,
};
use crate::serialise::{be_bytes, pow256, write_be};
use crate::values::{create_row, pairs_view, spec_row_of};
use crate::DbError;
use vstd::prelude::*;
use vstd::utf8::encode_utf8;

verus! {

/// Whether a catalog row names this table: four columns, the second the
/// table's name as text.
pub open spec fn row_matches_name(r: Seq<ColumnV>, name: Seq<char>) -> bool {
    r.len() == 4 && r[1] == ColumnV::Text(name)
}

/// How many catalog rows name the table.
pub open spec fn count_matches(rows: Seq<Seq<ColumnV>>, name: Seq<char>) -> nat
    decreases rows.len(),
{
    if rows.len() == 0 {
        0
    } else {
        count_matches(rows.drop_last(), name) + (if row_matches_name(rows.last(), name) {
            1nat
        } else {
            0nat
        })
    }
}

/// The first catalog row naming the table, if any.
pub open spec fn first_match(rows: Seq<Seq<ColumnV>>, name: Seq<char>) -> Option<Seq<ColumnV>>
    decreases rows.len(),
{
    if rows.len() == 0 {
        None
    } else {
        match first_match(rows.drop_last(), name) {
            Some(r) => Some(r),
            None => if row_matches_name(rows.last(), name) {
                Some(rows.last())
            } else {
                None
            },
        }
    }
}

/// What `describe_table` decides, from the handle's state alone: the root
/// page and column list of the single catalog row naming the table, or
/// the error mandated for its absence, ambiguity or malformation.
pub open spec fn spec_describe(db: Database, name: Seq<char>) -> Result<
    (u32, Seq<(Seq<char>, ColumnType)>),
    DbError,
> {
    let d = db.spec_page_view(1);
    let tb = spec_page_type_byte(d, 100);
    if tb != 13 {
        if tb == 2 || tb == 5 || tb == 10 {
            Err(DbError::Unsupported)
        } else {
            Err(DbError::Corruption)
        }
    } else {
        match leaf_rows(d, 100) {
            None => Err(DbError::Corruption),
            Some(rows) => {
                let m = count_matches(rows, name);
                if m == 0 {
                    Err(DbError::NoSuchTable)
                } else if m >= 2 {
                    Err(DbError::AmbiguousTable)
                } else {
                    let r = first_match(rows, name)->Some_0;
                    if r[2] is Integer && 1 <= r[2]->Integer_0 <= db.page_count && r[3] is Blob
                        && crate::catalog::spec_read_catalog(r[3]->Blob_0) is Some {
                        Ok(
                            (
                                r[2]->Integer_0 as u32,
                                crate::catalog::spec_read_catalog(r[3]->Blob_0)->Some_0,
                            ),
                        )
                    } else {
                        Err(DbError::Corruption)
                    }
                }
            },
        }
    }
}

impl Database {
    /// Resolves a table name through the catalog on page 1: its root page
    /// and declared columns.  `NoSuchTable` and `AmbiguousTable` report
    /// zero and more than one matching row; `Corruption` a matching row of
    /// the wrong shape.
    pub fn describe_table(&self, table_name: String) -> (r: Result<
        (u32, Vec<(String, ColumnType)>),
        DbError,
    >)
        requires
            self.wf(),
        ensures
            ({
                match r {
                    Ok((root, cols)) => spec_describe(*self, table_name@) == Ok::<
                        (u32, Seq<(Seq<char>, ColumnType)>),
                        DbError,
                    >((root, schema_view(cols@))),
                    Err(e) => spec_describe(*self, table_name@) == Err::<
                        (u32, Seq<(Seq<char>, ColumnType)>),
                        DbError,
                    >(e),
                }
            }),
    {
        let page = match self.read_page(1) {
            Ok(p) => p,
            Err(e) => {
                return Err(e);
            },
        };
        let rows = match read_leaf_rows(&page.data, 100) {
            Ok(v) => v,
            Err(e) => {
                return Err(e);
            },
        };
        let ghost rv = rows_view(rows@);
        let ghost nm = table_name@;
        let rlen = rows.len();
        let mut cnt: usize = 0;
        let mut found: Option<usize> = None;
        let mut i: usize = 0;
        proof {
            assert(rv.take(0) =~= Seq::<Seq<ColumnV>>::empty());
        }
        while i < rlen
            invariant
                i <= rlen,
                rlen == rows@.len(),
                rv == rows_view(rows@),
                nm == table_name@,
                cnt == count_matches(rv.take(i as int), nm),
                cnt <= i,
                (found is None) == (cnt == 0),
                match found {
                    Some(k) => k < i && row_matches_name(rv[k as int], nm) && first_match(
                        rv.take(i as int),
                        nm,
                    ) == Some(rv[k as int]),
                    None => first_match(rv.take(i as int), nm) is None,
                },
            decreases rlen - i,
        {
            let row = &rows[i];
            let matched: bool = if row.len() == 4 {
                match &row[1] {
                    Column::Text(t) => *t == table_name,
                    _ => false,
                }
            } else {
                false
            };
            proof {
                assert(rv[i as int] == row_view(rows@[i as int]@));
                assert(matched == row_matches_name(rv[i as int], nm));
                assert(rv.take(i + 1).drop_last() =~= rv.take(i as int));
                assert(rv.take(i + 1).last() == rv[i as int]);
            }
            if matched {
                cnt = cnt + 1;
                if found.is_none() {
                    found = Some(i);
                }
            }
            i = i + 1;
        }
        proof {
            assert(rv.take(rlen as int) =~= rv);
        }
        if cnt == 0 {
            return Err(DbError::NoSuchTable);
        }
        if cnt >= 2 {
            return Err(DbError::AmbiguousTable);
        }
        let k = match found {
            Some(k) => k,
            None => {
                proof {
                    assert(false);
                }
                return Err(DbError::NoSuchTable);
            },
        };
        let mrow = &rows[k];
        let root: u32 = match &mrow[2] {
            Column::Integer(v) => {
                if 1 <= *v && *v <= self.page_count as i128 {
                    *v as u32
                } else {
                    return Err(DbError::Corruption);
                }
            },
            _ => {
                return Err(DbError::Corruption);
            },
        };
        match &mrow[3] {
            Column::Blob(data) => {
                match catalog_decode(data) {
                    Ok(cols) => Ok((root, cols)),
                    Err(e) => Err(e),
                }
            },
            _ => Err(DbError::Corruption),
        }
    }
}

/// No matches means no first match.
proof fn lemma_no_match_when_count_zero(rows: Seq<Seq<ColumnV>>, name: Seq<char>)
    requires
        count_matches(rows, name) == 0,
    ensures
        first_match(rows, name) is None,
    decreases rows.len(),
{
    if rows.len() > 0 {
        lemma_no_match_when_count_zero(rows.drop_last(), name);
    }
}

/// The catalog law: a newly recorded table resolves.  When page 1 ends
/// with the catalog row for `name`, no earlier row names it, and the
/// root lies within the file, `describe` yields exactly that root and
/// column list — the blob read back is the schema that was written.
pub proof fn lemma_describe_finds_new_table(
    db: Database,
    rows0: Seq<Seq<ColumnV>>,
    name: Seq<char>,
    root: u32,
    schema: Seq<(Seq<char>, ColumnType)>,
)
    requires
        spec_page_type_byte(db.spec_page_view(1), 100) == 13,
        leaf_rows(db.spec_page_view(1), 100) == Some(
            rows0.push(spec_table_row(name, root as int, schema)),
        ),
        count_matches(rows0, name) == 0,
        crate::catalog::schema_encodable(schema),
        1 <= root <= db.page_count,
    ensures
        spec_describe(db, name) == Ok::<(u32, Seq<(Seq<char>, ColumnType)>), DbError>(
            (root, schema),
        ),
{
    let tr = spec_table_row(name, root as int, schema);
    let rows = rows0.push(tr);
    assert(rows.drop_last() =~= rows0);
    assert(rows.last() == tr);
    assert(row_matches_name(tr, name)) by {
        assert(tr[1] == ColumnV::Text(name));
    }
    assert(count_matches(rows, name) == 1);
    lemma_no_match_when_count_zero(rows0, name);
    assert(first_match(rows, name) == Some(tr));
    assert(tr[2] == ColumnV::Integer(root as int));
    assert(tr[3] == ColumnV::Blob(catalog_bytes(schema)));
    crate::catalog::lemma_catalog_round_trip(schema);
}

/// The catalog row that records a table.
pub open spec fn spec_table_row(
    name: Seq<char>,
    root: int,
    schema: Seq<(Seq<char>, ColumnType)>,
) -> Seq<ColumnV> {
    seq![
        ColumnV::Integer(1),
        ColumnV::Text(name),
        ColumnV::Integer(root),
        ColumnV::Blob(catalog_bytes(schema)),
    ]
}

/// What `create_table` decides, in the order its checks run: the page
/// count must have room, the names must fit their length fields, page 1
/// must be a sound table-leaf, and the catalog row must fit its free
/// space.
pub open spec fn spec_create_outcome(
    db: Database,
    name: Seq<char>,
    schema: Seq<(Seq<char>, ColumnType)>,
) -> Result<(), DbError> {
    if db.page_count == 0xFFFF_FFFFu32 {
        Err(DbError::IntegerOverflow)
    } else if encode_utf8(name).len() > 0xFFFF || schema.len() > 0xFFFF || (exists|j: int|
        0 <= j < schema.len() && (#[trigger] encode_utf8(schema[j].0)).len() > 0xFFFF)
        || catalog_bytes(schema).len() > 0xFFFF {
        Err(DbError::PageFull)
    } else {
        let d = db.spec_page_view(1);
        let tb = spec_page_type_byte(d, 100);
        if tb != 13 {
            if tb == 2 || tb == 5 || tb == 10 {
                Err(DbError::Unsupported)
            } else {
                Err(DbError::Corruption)
            }
        } else if !leaf_space_wf(d, 100) {
            Err(DbError::Corruption)
        } else if record_len(spec_table_row(name, db.page_count + 1, schema)) + 2
            > spec_free_space(d, 100) {
            Err(DbError::PageFull)
        } else {
            Ok(())
        }
    }
}

/// The tail of `create_table`'s decision, once the counts and lengths
/// fit: page 1 must be a sound table-leaf with room for the catalog row.
pub open spec fn spec_create_inner(
    db: Database,
    name: Seq<char>,
    schema: Seq<(Seq<char>, ColumnType)>,
) -> Result<(), DbError> {
    let d = db.spec_page_view(1);
    let tb = spec_page_type_byte(d, 100);
    if tb != 13 {
        if tb == 2 || tb == 5 || tb == 10 {
            Err(DbError::Unsupported)
        } else {
            Err(DbError::Corruption)
        }
    } else if !leaf_space_wf(d, 100) {
        Err(DbError::Corruption)
    } else if record_len(spec_table_row(name, db.page_count + 1, schema)) + 2
        > spec_free_space(d, 100) {
        Err(DbError::PageFull)
    } else {
        Ok(())
    }
}

/// The success and failure facts `create_table` guarantees.
pub open spec fn create_table_post(
    db0: Database,
    dbf: Database,
    name: Seq<char>,
    schema: Seq<(Seq<char>, ColumnType)>,
    r: Result<(), DbError>,
) -> bool {
    let root = db0.page_count + 1;
    let d0 = db0.spec_page_view(1);
    match r {
        Ok(()) => {
            &&& dbf.wf()
            &&& dbf.committed()
            &&& dbf.page_size == db0.page_size
            &&& dbf.page_count == db0.page_count + 1
            &&& dbf.file@.len() == db0.file@.len() + db0.page_size
            &&& spec_hdr_page_count(dbf.file@) == db0.page_count + 1
            &&& dbf.file@.subrange(0, 2) == d0.subrange(0, 2)
            // the new root page: an empty table-leaf of the full page size
            &&& spec_page_type_byte(dbf.spec_page_view(root as u32), 0) == 13
            &&& spec_cell_count(dbf.spec_page_view(root as u32), 0) == 0
            &&& crate::page::spec_cc_start(dbf.spec_page_view(root as u32), 0) == 0
            &&& dbf.spec_page_view(root as u32).len() == db0.page_size
            &&& spec_free_space(dbf.spec_page_view(root as u32), 0) == db0.page_size - 8
            &&& leaf_space_wf(dbf.spec_page_view(root as u32), 0)
            &&& leaf_ptrs_wf(dbf.spec_page_view(root as u32), 0)
            &&& leaf_rows(dbf.spec_page_view(root as u32), 0) == Some(
                Seq::<Seq<ColumnV>>::empty(),
            )
            // page 1 gains exactly the catalog row: one more cell, and the
            // free space shrinks by the record and its pointer
            &&& spec_page_type_byte(dbf.spec_page_view(1), 100) == 13
            &&& leaf_space_wf(dbf.spec_page_view(1), 100)
            &&& spec_cell_count(dbf.spec_page_view(1), 100) == spec_cell_count(d0, 100) + 1
            &&& crate::page::spec_cc_start(dbf.spec_page_view(1), 100)
                == crate::page::spec_eff_cc(d0, 100) - record_len(
                spec_table_row(name, root as int, schema),
            )
            &&& spec_free_space(dbf.spec_page_view(1), 100) == spec_free_space(d0, 100)
                - record_len(spec_table_row(name, root as int, schema)) - 2
            &&& (leaf_ptrs_wf(d0, 100) && (leaf_rows(d0, 100) is Some) ==> leaf_rows(
                dbf.spec_page_view(1),
                100,
            ) == Some(
                leaf_rows(d0, 100)->Some_0.push(spec_table_row(name, root as int, schema)),
            ) && leaf_ptrs_wf(dbf.spec_page_view(1), 100))
            // every other page keeps its bytes
            &&& forall|m: u32|
                2 <= m <= db0.page_count ==> dbf.spec_page_view(m) == db0.spec_page_view(m)
        },
        Err(_) => {
            &&& dbf.page_size == db0.page_size
            &&& dbf.page_count == db0.page_count
            &&& dbf.file@ == db0.file@
            &&& dbf.committed()
            &&& dbf.wf()
        },
    }
}

/// A run of successful `create_table` calls, state by state: `dbs[0]` is
/// the starting handle and each later entry is the handle after the next
/// call, with the facts `create_table_post` gives a success.
pub open spec fn create_chain(
    dbs: Seq<Database>,
    names: Seq<Seq<char>>,
    schemas: Seq<Seq<(Seq<char>, ColumnType)>>,
) -> bool {
    &&& dbs.len() >= 1
    &&& names.len() == dbs.len() - 1
    &&& schemas.len() == dbs.len() - 1
    &&& forall|i: int|
        0 <= i < names.len() ==> create_table_post(
            #[trigger] dbs[i],
            dbs[i + 1],
            names[i],
            schemas[i],
            Ok(()),
        )
}

/// Along a chain, each call raises the page count by one.
proof fn lemma_chain_page_count(
    dbs: Seq<Database>,
    names: Seq<Seq<char>>,
    schemas: Seq<Seq<(Seq<char>, ColumnType)>>,
    i: int,
)
    requires
        create_chain(dbs, names, schemas),
        0 <= i < dbs.len(),
    ensures
        dbs[i].page_count == dbs[0].page_count + i,
    decreases i,
{
    if i > 0 {
        lemma_chain_page_count(dbs, names, schemas, i - 1);
        assert(create_table_post(dbs[i - 1], dbs[i], names[i - 1], schemas[i - 1], Ok(())));
    }
}

/// The allocation law over a whole run: the `i`-th of `k` successful
/// `create_table` calls roots its table at `page_count(start) + i + 1`,
/// so the roots are pairwise distinct — and from a fresh one-page handle
/// they are exactly 2, 3, ..., k+1.
pub proof fn lemma_create_chain_roots(
    dbs: Seq<Database>,
    names: Seq<Seq<char>>,
    schemas: Seq<Seq<(Seq<char>, ColumnType)>>,
)
    requires
        create_chain(dbs, names, schemas),
    ensures
        forall|i: int|
            0 <= i < names.len() ==> (#[trigger] dbs[i].page_count) + 1 == dbs[0].page_count
                + i + 1,
        forall|i: int, j: int|
            0 <= i < j < names.len() ==> (#[trigger] dbs[i].page_count) + 1 != (
            #[trigger] dbs[j].page_count) + 1,
        dbs[0].page_count == 1 ==> forall|i: int|
            0 <= i < names.len() ==> 2 <= (#[trigger] dbs[i].page_count) + 1 <= names.len()
                + 1,
{
    assert forall|i: int| 0 <= i < names.len() implies (#[trigger] dbs[i].page_count) + 1
        == dbs[0].page_count + i + 1 by {
        lemma_chain_page_count(dbs, names, schemas, i);
    }
}

impl Database {
    /// Creates a table: allocates a fresh leaf page as its root, appends
    /// the catalog row to page 1, records the new page count in the file
    /// header, and commits.  On any error the handle is unchanged.
    pub fn create_table(&mut self, table_name: String, columns: Vec<(String, ColumnType)>) -> (r:
        Result<(), DbError>)
        requires
            old(self).wf(),
            old(self).committed(),
        ensures
            r == spec_create_outcome(*old(self), table_name@, schema_view(columns@)),
            create_table_post(
                *old(self),
                *final(self),
                table_name@,
                schema_view(columns@),
                r,
            ),
    {
        let ghost name = table_name@;
        let ghost schema = schema_view(columns@);
        if self.page_count == 0xFFFF_FFFFu32 {
            return Err(DbError::IntegerOverflow);
        }
        // length fields are 16 bits on the page, 32 in the catalog blob
        let name_bytes_probe = table_name.as_str().as_bytes_vec();
        if name_bytes_probe.len() > 0xFFFF {
            return Err(DbError::PageFull);
        }
        proof {
            assert(encode_utf8(table_name@).len() <= 0xFFFF);
        }
        if columns.len() > 0xFFFF {
            return Err(DbError::PageFull);
        }
        let ncols = columns.len();
        let mut j: usize = 0;
        while j < ncols
            invariant
                j <= ncols,
                ncols == columns@.len(),
                self == old(self),
                old(self).wf(),
                old(self).committed(),
                old(self).page_count != 0xFFFF_FFFFu32,
                name == table_name@,
                encode_utf8(table_name@).len() <= 0xFFFF,
                schema == schema_view(columns@),
                schema.len() <= 0xFFFF,
                forall|t: int|
                    0 <= t < j ==> (#[trigger] encode_utf8(schema[t].0)).len() <= 0xFFFF,
            decreases ncols - j,
        {
            proof {
                assert(schema[j as int] == (columns@[j as int].0@, columns@[j as int].1));
            }
            let col_probe = columns[j].0.as_str().as_bytes_vec();
            if col_probe.len() > 0xFFFF {
                proof {
                    assert(encode_utf8(schema[j as int].0).len() > 0xFFFF);
                }
                return Err(DbError::PageFull);
            }
            j = j + 1;
        }
        let blob = catalog_encode(&columns);
        if blob.len() > 0xFFFF {
            return Err(DbError::PageFull);
        }
        self.create_table_inner(table_name, Ghost(schema_view(columns@)), blob)
    }

    /// The working half of `create_table`, entered once the lengths fit.
    #[verifier::rlimit(100)]
    fn create_table_inner(
        &mut self,
        table_name: String,
        Ghost(schema): Ghost<Seq<(Seq<char>, ColumnType)>>,
        blob: Vec<u8>,
    ) -> (r: Result<(), DbError>)
        requires
            old(self).wf(),
            old(self).committed(),
            old(self).page_count != 0xFFFF_FFFFu32,
            blob@ == catalog_bytes(schema),
            blob@.len() <= 0xFFFF,
            encode_utf8(table_name@).len() <= 0xFFFF,
        ensures
            r == spec_create_inner(*old(self), table_name@, schema),
            create_table_post(*old(self), *final(self), table_name@, schema, r),
    {
        let ghost name = table_name@;
        let ghost db0 = *old(self);
        // fetch page 1 and check its leaf header
        let mut page = match self.read_page(1) {
            Ok(p) => p,
            Err(e) => {
                return Err(e);
            },
        };
        let leaf = match &page.page_type {
            PageType::TableLeaf(l) => *l,
            _ => {
                proof {
                    assert(false);
                }
                return Err(DbError::Corruption);
            },
        };
        let ps = page.data.len();
        let eff: usize = if leaf.cell_content_start == 0 {
            ps
        } else {
            leaf.cell_content_start as usize
        };
        if !(100 + 8 + 2 * (leaf.cell_count as usize) <= eff && eff <= ps) {
            proof {
                assert(!leaf_space_wf(old(self).spec_page_view(1), 100));
            }
            return Err(DbError::Corruption);
        }
        // the catalog row and its record
        let root = self.page_count + 1;
        let row: Vec<Column> = vec![
            Column::Integer(1),
            Column::Text(table_name),
            Column::Integer(root as i128),
            Column::Blob(blob),
        ];
        let ghost rowv = spec_table_row(name, root as int, schema);
        proof {
            assert(row_view(row@) =~= rowv);
            assert(row_encodable(rowv)) by {
                assert(rowv[0] == ColumnV::Integer(1));
                assert(rowv[1] == ColumnV::Text(name));
                assert(rowv[2] == ColumnV::Integer(root as int));
                assert(rowv[3] == ColumnV::Blob(catalog_bytes(schema)));
            }
            assert(row_storable(rowv)) by {
                assert(rowv[0] == ColumnV::Integer(1));
                assert(rowv[2] == ColumnV::Integer(root as int));
            }
        }
        let record = match create_record(&row) {
            Ok(b) => b,
            Err(_) => {
                proof {
                    assert(false);
                }
                return Err(DbError::Corruption);
            },
        };
        let ghost d0 = old(self).spec_page_view(1);
        match crate::page::add_cell(&mut page, 100, &record) {
            Ok(()) => {},
            Err(e) => {
                return Err(e);
            },
        }
        proof {
            assert(page.data@.subrange(0, 2) =~= d0.subrange(0, 2));
        }
        self.create_table_finish(page, Ghost(name), Ghost(schema), Ghost(rowv));
        Ok(())
    }

    /// The commit phase of `create_table`: the catalog row is already on
    /// the dirty copy of page 1; allocate the root page, record the new
    /// page count in the copy's file header, cache it and commit.
    #[verifier::rlimit(100)]
    fn create_table_finish(
        &mut self,
        page: Page,
        Ghost(name): Ghost<Seq<char>>,
        Ghost(schema): Ghost<Seq<(Seq<char>, ColumnType)>>,
        Ghost(rowv): Ghost<Seq<ColumnV>>,
    )
        requires
            old(self).wf(),
            old(self).committed(),
            old(self).page_count != 0xFFFF_FFFFu32,
            rowv == spec_table_row(name, old(self).page_count + 1, schema),
            crate::record::row_storable(rowv),
            crate::record::row_encodable(rowv),
            page.data@.len() == old(self).page_size,
            old(self).spec_page_view(1).len() == old(self).page_size,
            crate::page::page_wf(page, 100),
            page.page_type is TableLeaf,
            ({
                let d0 = old(self).spec_page_view(1);
                let d1 = page.data@;
                let c = spec_cell_count(d0, 100) as int;
                let e = crate::page::spec_eff_cc(d0, 100);
                let l = record_len(rowv) as int;
                let ncc = e - l;
                &&& spec_page_type_byte(d0, 100) == 13
                &&& leaf_space_wf(d0, 100)
                &&& l + 2 <= spec_free_space(d0, 100)
                &&& leaf_space_wf(d1, 100)
                &&& spec_cell_count(d1, 100) == c + 1
                &&& crate::page::spec_cc_start(d1, 100) == ncc
                &&& crate::page::spec_eff_cc(d1, 100) == ncc
                &&& crate::page::spec_cell_ptr(d1, 100, c) == ncc
                &&& d1.subrange(ncc, e) == record_bytes(rowv)
                &&& d1.subrange(0, 2) == d0.subrange(0, 2)
                &&& forall|j: int|
                    108 <= j < d0.len() && !(ncc <= j < e) && !(103 <= j < 107) && !(108 + 2
                        * c <= j < 108 + 2 * c + 2) ==> d1[j] == d0[j]
            }),
        ensures
            create_table_post(*old(self), *final(self), name, schema, Ok(())),
    {
        let ghost db0 = *old(self);
        let ghost d0 = old(self).spec_page_view(1);
        let ghost d1 = page.data@;
        let mut page = page;
        // allocate the table's root page
        let root = match create_page(self) {
            Ok(n) => n,
            Err(_) => {
                proof {
                    assert(false);
                }
                0
            },
        };
        let ghost db_a = *self;
        // record the new page count in the file header, on the dirty copy
        proof {
            assert(pow256(4) == 0x1_0000_0000) by {
                reveal_with_fuel(pow256, 5);
            }
        }
        write_be(&mut page.data, 2, root as u64, 4);
        let ghost d2 = page.data@;
        proof {
            assert(d2.subrange(2, 6) =~= be_bytes(root as nat, 4));
            lemma_leaf_region_frame(d1, d2, 100);
            crate::page::lemma_leaf_header_frame(d1, d2, 100);
            assert(crate::page::page_wf(page, 100));
            assert(d2.subrange(0, 2) =~= d1.subrange(0, 2));
        }
        self.store_page(1, page);
        let ghost db_b = *self;
        match self.commit() {
            Ok(()) => {},
            Err(_) => {
                proof {
                    assert(false);
                }
            },
        }
        proof {
            let dbf = *self;
            let psn = db0.page_size as int;
            // the committed view of page 1 is the dirty copy
            assert(db_b.spec_page_view(1) == d2);
            assert(dbf.spec_page_view(1) == d2);
            assert(dbf.spec_file_page(1) == d2);
            // the header records the new page count, the page size bytes stay
            assert(dbf.file@.subrange(2, 6) =~= be_bytes(root as nat, 4)) by {
                assert forall|t: int| 2 <= t < 6 implies dbf.file@[t] == d2[t] by {
                    assert(dbf.spec_file_page(1)[t] == dbf.file@[(1 - 1) * psn + t]);
                }
            }
            crate::serialise::lemma_be_val_of_bytes(root as nat, 4);
            assert(dbf.file@.subrange(0, 2) =~= d2.subrange(0, 2)) by {
                assert forall|t: int| 0 <= t < 2 implies dbf.file@[t] == d2[t] by {
                    assert(dbf.spec_file_page(1)[t] == dbf.file@[(1 - 1) * psn + t]);
                }
            }
            // the fresh root page
            assert(db_b.spec_page_view(root) == db_a.spec_file_page(root)) by {
                assert(db_a.spec_page_view(root) == db_a.spec_file_page(root));
            }
            assert(dbf.spec_page_view(root) == db_a.spec_file_page(root));
            let rootp = dbf.spec_page_view(root);
            assert(rootp.len() == db0.page_size);
            assert(rootp[0] == 13);
            assert(spec_cell_count(rootp, 0) == 0) by {
                crate::serialise::lemma_be_val_zero(rootp.subrange(3, 5));
            }
            assert(crate::page::spec_cc_start(rootp, 0) == 0) by {
                crate::serialise::lemma_be_val_zero(rootp.subrange(5, 7));
            }
            assert(leaf_rows(rootp, 0) == Some(Seq::<Seq<ColumnV>>::empty()));
            // page 1 gains exactly the catalog row
            if leaf_ptrs_wf(d0, 100) && leaf_rows(d0, 100) is Some {
                let c = spec_cell_count(d0, 100) as int;
                let e = crate::page::spec_eff_cc(d0, 100);
                let l = record_len(rowv) as int;
                let ncc = e - l;
                assert(108 + 2 * c + 2 <= ncc);
                assert(d2.subrange(ncc, e) =~= d1.subrange(ncc, e)) by {
                    assert forall|t: int| 0 <= t < e - ncc implies
                        #[trigger] d2.subrange(ncc, e)[t] == d1.subrange(ncc, e)[t] by {
                        assert(d2[ncc + t] == d1[ncc + t]);
                    }
                }
                assert forall|j: int|
                    108 <= j < d0.len() && !(ncc <= j < e) && !(103 <= j < 107) && !(108 + 2
                        * c <= j < 108 + 2 * c + 2) implies #[trigger] d2[j] == d0[j] by {
                    assert(d2[j] == d1[j]);
                    assert(d1[j] == d0[j]);
                }
                crate::page::lemma_add_cell_rows(d0, d2, 100, rowv);
            }
            // other pages keep their bytes
            assert forall|m: u32| 2 <= m <= db0.page_count implies dbf.spec_page_view(m)
                == db0.spec_page_view(m) by {
                assert(dbf.spec_page_view(m) == db_b.spec_page_view(m));
                assert(db_b.spec_page_view(m) == db_a.spec_page_view(m));
                assert(db_a.spec_page_view(m) == db_a.spec_file_page(m));
                crate::database::lemma_mul_mono(m as int, db0.page_count as int, psn);
                assert((m as int - 1) * psn + psn == (m as int) * psn) by (nonlinear_arith);
                assert(db_a.spec_file_page(m) =~= db0.spec_file_page(m)) by {
                    assert forall|t: int| 0 <= t < psn implies #[trigger] db_a.file@[(m - 1)
                        * psn + t] == db0.file@[(m - 1) * psn + t] by {
                        assert(db_a.file@.subrange(0, db0.file@.len() as int) == db0.file@);
                        assert(db_a.file@.subrange(0, db0.file@.len() as int)[(m - 1) * psn
                            + t] == db_a.file@[(m - 1) * psn + t]);
                    }
                }
                assert(db0.spec_page_view(m) == db0.spec_file_page(m));
            }
        }
    }
}

/// Bytes at or after a leaf header are untouched by a file-header write.
proof fn lemma_leaf_region_frame(d1: Seq<u8>, d2: Seq<u8>, hs: int)
    requires
        d1.len() == d2.len(),
        hs >= 6,
        forall|j: int| 0 <= j < d1.len() && !(2 <= j < 6) ==> d2[j] == d1[j],
    ensures
        forall|j: int| hs <= j < d1.len() ==> d2[j] == d1[j],
{
}


/// Some column's payload cannot fit any page's 16-bit geometry.
pub open spec fn row_oversized(rv: Seq<ColumnV>) -> bool {
    exists|j: int| 0 <= j < rv.len() && (#[trigger] col_payload(rv[j])).len() > 0xFFFF
}

/// What inserting one row into a leaf decides, in the order the checks
/// run, given the leaf's free space, type byte and header sanity: the
/// values must parse, fit their fields, and the record must fit the free
/// space.
pub open spec fn spec_row_outcome_at(
    schema: Seq<(Seq<char>, ColumnType)>,
    pairs: Seq<(Seq<char>, Seq<char>)>,
    free: int,
    tb: u8,
    space_ok: bool,
) -> Result<(), DbError> {
    match spec_row_of(schema, pairs) {
        None => Err(DbError::BadValue),
        Some(rv) => if row_oversized(rv) {
            Err(DbError::PageFull)
        } else if !row_storable(rv) {
            Err(DbError::IntegerOverflow)
        } else if tb != 13 {
            if tb == 2 || tb == 5 || tb == 10 {
                Err(DbError::Unsupported)
            } else {
                Err(DbError::Corruption)
            }
        } else if !space_ok {
            Err(DbError::Corruption)
        } else if record_len(rv) + 2 > free {
            Err(DbError::PageFull)
        } else {
            Ok(())
        },
    }
}

/// What `insert_record` decides: the table must resolve, then the row's
/// own outcome against the root page.
pub open spec fn spec_insert_outcome(
    db: Database,
    name: Seq<char>,
    pairs: Seq<(Seq<char>, Seq<char>)>,
) -> Result<(), DbError> {
    match spec_describe(db, name) {
        Err(e) => Err(e),
        Ok((root, schema)) => {
            let d = db.spec_page_view(root);
            let hs = header_start_of(root);
            spec_row_outcome_at(
                schema,
                pairs,
                spec_free_space(d, hs),
                spec_page_type_byte(d, hs),
                leaf_space_wf(d, hs),
            )
        },
    }
}

/// The success facts `insert_record` guarantees: the row is appended to
/// the resolved table's leaf and committed; nothing else moves.
pub open spec fn insert_record_post(
    db0: Database,
    dbf: Database,
    name: Seq<char>,
    pairs: Seq<(Seq<char>, Seq<char>)>,
    r: Result<(), DbError>,
) -> bool {
    match r {
        Ok(()) => {
            let (root, schema) = spec_describe(db0, name)->Ok_0;
            let rv = spec_row_of(schema, pairs)->Some_0;
            let d0 = db0.spec_page_view(root);
            let hs = header_start_of(root);
            &&& dbf.wf()
            &&& dbf.committed()
            &&& dbf.page_size == db0.page_size
            &&& dbf.page_count == db0.page_count
            &&& dbf.file@.len() == db0.file@.len()
            // the root leaf after: one more cell, the free space smaller by
            // the record and its pointer
            &&& dbf.spec_page_view(root).len() == d0.len()
            &&& spec_page_type_byte(dbf.spec_page_view(root), hs) == 13
            &&& leaf_space_wf(dbf.spec_page_view(root), hs)
            &&& spec_cell_count(dbf.spec_page_view(root), hs) == spec_cell_count(d0, hs) + 1
            &&& crate::page::spec_cc_start(dbf.spec_page_view(root), hs)
                == crate::page::spec_eff_cc(d0, hs) - record_len(rv)
            &&& spec_free_space(dbf.spec_page_view(root), hs) == spec_free_space(d0, hs)
                - record_len(rv) - 2
            &&& dbf.spec_page_view(root).subrange(
                crate::page::spec_eff_cc(d0, hs) - record_len(rv),
                crate::page::spec_eff_cc(d0, hs),
            ) == record_bytes(rv)
            &&& crate::page::spec_cell_ptr(
                dbf.spec_page_view(root),
                hs,
                spec_cell_count(d0, hs) as int,
            ) == crate::page::spec_eff_cc(d0, hs) - record_len(rv)
            &&& forall|m: u32|
                1 <= m <= db0.page_count && m != root ==> dbf.spec_page_view(m)
                    == db0.spec_page_view(m)
            &&& (leaf_ptrs_wf(d0, hs) && (leaf_rows(d0, hs) is Some) ==> leaf_rows(
                dbf.spec_page_view(root),
                hs,
            ) == Some(leaf_rows(d0, hs)->Some_0.push(rv)) && leaf_ptrs_wf(
                dbf.spec_page_view(root),
                hs,
            ))
        },
        Err(_) => {
            &&& dbf.page_size == db0.page_size
            &&& dbf.page_count == db0.page_count
            &&& dbf.file@ == db0.file@
            &&& dbf.committed()
            &&& dbf.wf()
        },
    }
}

impl Database {
    /// Inserts one row, given as `(column name, value string)` pairs, into
    /// the named table, and commits.  Values parse into the declared
    /// column types; missing columns become `Null`.  On any error the
    /// handle is unchanged.
    pub fn insert_record(&mut self, table_name: String, row_hash: Vec<(String, String)>) -> (r:
        Result<(), DbError>)
        requires
            old(self).wf(),
            old(self).committed(),
        ensures
            r == spec_insert_outcome(*old(self), table_name@, pairs_view(row_hash@)),
            insert_record_post(
                *old(self),
                *final(self),
                table_name@,
                pairs_view(row_hash@),
                r,
            ),
    {
        self.insert_record_by_ref(&table_name, &row_hash)
    }

    /// `insert_record`, borrowing its arguments; the batch insert shares
    /// its resolution step.
    fn insert_record_by_ref(&mut self, table_name: &String, row_hash: &Vec<(String, String)>) -> (r:
        Result<(), DbError>)
        requires
            old(self).wf(),
            old(self).committed(),
        ensures
            r == spec_insert_outcome(*old(self), table_name@, pairs_view(row_hash@)),
            insert_record_post(
                *old(self),
                *final(self),
                table_name@,
                pairs_view(row_hash@),
                r,
            ),
    {
        let ghost name = table_name@;
        let ghost db0 = *old(self);
        let (root, columns) = match self.describe_table(table_name.clone()) {
            Ok(v) => v,
            Err(e) => {
                return Err(e);
            },
        };
        let ghost schema = schema_view(columns@);
        proof {
            assert(schema.len() <= 0xFFFF_FFFF) by {
                let mr = first_match(
                    leaf_rows(db0.spec_page_view(1), 100)->Some_0,
                    name,
                )->Some_0;
                crate::catalog::lemma_read_catalog_len(mr[3]->Blob_0);
            }
        }
        match self.insert_parsed_row(root, &columns, row_hash) {
            Ok(()) => {},
            Err(e) => {
                return Err(e);
            },
        }
        match self.commit() {
            Ok(()) => {},
            Err(_) => {
                proof {
                    assert(false);
                }
            },
        }
        Ok(())
    }

    /// Parses one row against the declared columns and places it on the
    /// leaf at `root`, dirtying the page; the caller commits.  The result
    /// is the row's own outcome against that leaf's current state; on any
    /// error the handle is unchanged.
    #[verifier::rlimit(100)]
    fn insert_parsed_row(
        &mut self,
        root: u32,
        columns: &Vec<(String, ColumnType)>,
        row_hash: &Vec<(String, String)>,
    ) -> (r: Result<(), DbError>)
        requires
            old(self).wf(),
            1 <= root <= old(self).page_count,
            columns@.len() <= 0xFFFF_FFFF,
        ensures
            ({
                let schema = schema_view(columns@);
                let pairs = pairs_view(row_hash@);
                let d0 = old(self).spec_page_view(root);
                let hs = header_start_of(root);
                let d1 = final(self).spec_page_view(root);
                &&& r == spec_row_outcome_at(
                    schema,
                    pairs,
                    spec_free_space(d0, hs),
                    spec_page_type_byte(d0, hs),
                    leaf_space_wf(d0, hs),
                )
                &&& match r {
                    Ok(()) => {
                        let rv = spec_row_of(schema, pairs)->Some_0;
                        &&& final(self).wf()
                        &&& final(self).page_size == old(self).page_size
                        &&& final(self).page_count == old(self).page_count
                        &&& final(self).file@ == old(self).file@
                        &&& d1.len() == d0.len()
                        &&& spec_page_type_byte(d1, hs) == 13
                        &&& leaf_space_wf(d1, hs)
                        &&& spec_cell_count(d1, hs) == spec_cell_count(d0, hs) + 1
                        &&& crate::page::spec_cc_start(d1, hs)
                            == crate::page::spec_eff_cc(d0, hs) - record_len(rv)
                        &&& spec_free_space(d1, hs) == spec_free_space(d0, hs)
                            - record_len(rv) - 2
                        &&& d1.subrange(
                            crate::page::spec_eff_cc(d0, hs) - record_len(rv),
                            crate::page::spec_eff_cc(d0, hs),
                        ) == record_bytes(rv)
                        &&& crate::page::spec_cell_ptr(d1, hs, spec_cell_count(d0, hs) as int)
                            == crate::page::spec_eff_cc(d0, hs) - record_len(rv)
                        &&& forall|m: u32|
                            1 <= m <= old(self).page_count && m != root
                                ==> final(self).spec_page_view(m) == old(
                                self,
                            ).spec_page_view(m)
                        &&& (leaf_ptrs_wf(d0, hs) && (leaf_rows(d0, hs) is Some)
                            ==> leaf_rows(d1, hs) == Some(
                            leaf_rows(d0, hs)->Some_0.push(rv),
                        ) && leaf_ptrs_wf(d1, hs))
                    },
                    Err(_) => *final(self) == *old(self),
                }
            }),
    {
        let ghost schema = schema_view(columns@);
        let ghost pairs = pairs_view(row_hash@);
        let row = match create_row(columns, row_hash) {
            Ok(v) => v,
            Err(e) => {
                return Err(e);
            },
        };
        let ghost rv = spec_row_of(schema, pairs)->Some_0;
        proof {
            assert(row_view(row@) == rv);
            crate::values::lemma_row_of_len(schema, pairs);
        }
        // each payload must fit the page's 16-bit offsets
        let rlen = row.len();
        let mut j: usize = 0;
        while j < rlen
            invariant
                j <= rlen,
                rlen == row@.len(),
                rv == row_view(row@),
                self == old(self),
                old(self).wf(),
                schema == schema_view(columns@),
                pairs == pairs_view(row_hash@),
                spec_row_of(schema, pairs) == Some(rv),
                forall|t: int| 0 <= t < j ==> (#[trigger] col_payload(rv[t])).len() <= 0xFFFF,
            decreases rlen - j,
        {
            proof {
                assert(rv[j as int] == row@[j as int]@);
            }
            let too_big: bool = match &row[j] {
                Column::Text(t) => {
                    let probe = t.as_str().as_bytes_vec();
                    probe.len() > 0xFFFF
                },
                Column::Blob(b) => b.len() > 0xFFFF,
                _ => {
                    proof {
                        match rv[j as int] {
                            ColumnV::Integer(iv) => {
                                if iv != 0 && iv != 1 {
                                    crate::serialise::lemma_be_bytes_len(
                                        (iv % (pow256(crate::record::int_width(iv)) as int))
                                            as nat,
                                        crate::record::int_width(iv),
                                    );
                                }
                            },
                            ColumnV::Real(bits) => {
                                crate::serialise::lemma_be_bytes_len(bits as nat, 8);
                            },
                            _ => {},
                        }
                    }
                    false
                },
            };
            if too_big {
                proof {
                    assert(col_payload(rv[j as int]).len() > 0xFFFF);
                    assert(row_oversized(rv));
                }
                return Err(DbError::PageFull);
            }
            j = j + 1;
        }
        proof {
            assert(!row_oversized(rv));
            crate::values::lemma_row_of_len(schema, pairs);
            assert forall|t: int| 0 <= t < rv.len() implies crate::record::col_encodable(
                #[trigger] rv[t],
            ) by {
                assert(col_payload(rv[t]).len() <= 0xFFFF);
            }
            assert(row_encodable(rv));
        }
        let record = match create_record(&row) {
            Ok(b) => b,
            Err(e) => {
                return Err(e);
            },
        };
        match insert_record_raw(self, record, root) {
            Ok(()) => {},
            Err(e) => {
                return Err(e);
            },
        }
        Ok(())
    }
}


/// The rows a batch denotes under a schema, assuming each parses.
pub open spec fn parsed_prefix(
    schema: Seq<(Seq<char>, ColumnType)>,
    batch: Seq<Vec<(String, String)>>,
    k: int,
) -> Seq<Seq<ColumnV>> {
    Seq::new(k as nat, |i: int| spec_row_of(schema, pairs_view(batch[i]@))->Some_0)
}

/// One pass over a batch against a leaf: how many rows go in and what
/// the first failure is, threading the leaf's free space.  The type byte
/// and header sanity cannot change while inserts fail, so they ride along
/// as constants.
pub open spec fn spec_batch_scan(
    schema: Seq<(Seq<char>, ColumnType)>,
    batch: Seq<Vec<(String, String)>>,
    i: int,
    free: int,
    tb: u8,
    space_ok: bool,
) -> (int, Result<(), DbError>)
    decreases batch.len() - i,
{
    if i < 0 || i >= batch.len() {
        (i, Ok(()))
    } else {
        match spec_row_outcome_at(schema, pairs_view(batch[i]@), free, tb, space_ok) {
            Err(e) => (i, Err(e)),
            Ok(()) => spec_batch_scan(
                schema,
                batch,
                i + 1,
                free - record_len(spec_row_of(schema, pairs_view(batch[i]@))->Some_0) - 2,
                tb,
                space_ok,
            ),
        }
    }
}

impl Database {
    /// Inserts several rows into the named table, in order, and commits.
    /// The result is the first failing row's outcome, or success when
    /// every row parses and fits; rows before a failure remain inserted
    /// and committed.
    #[verifier::rlimit(100)]
    pub fn insert_records(
        &mut self,
        table_name: String,
        row_hashs: Vec<Vec<(String, String)>>,
    ) -> (r: Result<(), DbError>)
        requires
            old(self).wf(),
            old(self).committed(),
        ensures
            final(self).wf(),
            final(self).committed(),
            final(self).page_size == old(self).page_size,
            final(self).page_count == old(self).page_count,
            ({
                match spec_describe(*old(self), table_name@) {
                    Err(e) => r == Err::<(), DbError>(e) && final(self).file@ == old(
                        self,
                    ).file@,
                    Ok((root, schema)) => {
                        let d0 = old(self).spec_page_view(root);
                        let hs = header_start_of(root);
                        let scan = spec_batch_scan(
                            schema,
                            row_hashs@,
                            0,
                            spec_free_space(d0, hs),
                            spec_page_type_byte(d0, hs),
                            leaf_space_wf(d0, hs),
                        );
                        &&& r == scan.1
                        &&& forall|m: u32|
                            1 <= m <= old(self).page_count && m != root
                                ==> final(self).spec_page_view(m) == old(
                                self,
                            ).spec_page_view(m)
                        &&& (leaf_ptrs_wf(d0, hs) && (leaf_rows(d0, hs) is Some)
                            ==> leaf_rows(final(self).spec_page_view(root), hs) == Some(
                            leaf_rows(d0, hs)->Some_0 + parsed_prefix(
                                schema,
                                row_hashs@,
                                scan.0,
                            ),
                        ) && leaf_ptrs_wf(final(self).spec_page_view(root), hs))
                    },
                }
            }),
    {
        let ghost name = table_name@;
        let ghost db0 = *old(self);
        let (root, columns) = match self.describe_table(table_name) {
            Ok(v) => v,
            Err(e) => {
                return Err(e);
            },
        };
        let ghost schema = schema_view(columns@);
        let ghost d0 = db0.spec_page_view(root);
        let ghost hs = header_start_of(root);
        let ghost tb0 = spec_page_type_byte(d0, hs);
        let ghost sp0 = leaf_space_wf(d0, hs);
        let ghost free0 = spec_free_space(d0, hs);
        proof {
            assert(schema.len() <= 0xFFFF_FFFF) by {
                let mr = first_match(leaf_rows(db0.spec_page_view(1), 100)->Some_0, name)->Some_0;
                crate::catalog::lemma_read_catalog_len(mr[3]->Blob_0);
            }
            assert(parsed_prefix(schema, row_hashs@, 0) =~= Seq::<Seq<ColumnV>>::empty());
        }
        let count = row_hashs.len();
        let mut i: usize = 0;
        while i < count
            invariant
                i <= count,
                count == row_hashs@.len(),
                db0 == *old(self),
                old(self).wf(),
                old(self).committed(),
                name == table_name@,
                spec_describe(db0, name) == Ok::<(u32, Seq<(Seq<char>, ColumnType)>), DbError>(
                    (root, schema),
                ),
                schema == schema_view(columns@),
                schema.len() <= 0xFFFF_FFFF,
                1 <= root <= db0.page_count,
                d0 == db0.spec_page_view(root),
                hs == header_start_of(root),
                tb0 == spec_page_type_byte(d0, hs),
                sp0 == leaf_space_wf(d0, hs),
                free0 == spec_free_space(d0, hs),
                self.wf(),
                self.page_size == db0.page_size,
                self.page_count == db0.page_count,
                self.file@ == db0.file@,
                spec_page_type_byte(self.spec_page_view(root), hs) == tb0,
                leaf_space_wf(self.spec_page_view(root), hs) == sp0,
                spec_batch_scan(schema, row_hashs@, 0, free0, tb0, sp0) == spec_batch_scan(
                    schema,
                    row_hashs@,
                    i as int,
                    spec_free_space(self.spec_page_view(root), hs),
                    tb0,
                    sp0,
                ),
                forall|t: int|
                    0 <= t < i ==> (#[trigger] spec_row_of(
                        schema,
                        pairs_view(row_hashs@[t]@),
                    )) is Some,
                forall|m: u32|
                    1 <= m <= db0.page_count && m != root ==> self.spec_page_view(m)
                        == db0.spec_page_view(m),
                leaf_ptrs_wf(d0, hs) && (leaf_rows(d0, hs) is Some) ==> leaf_rows(
                    self.spec_page_view(root),
                    hs,
                ) == Some(
                    leaf_rows(d0, hs)->Some_0 + parsed_prefix(schema, row_hashs@, i as int),
                ) && leaf_ptrs_wf(self.spec_page_view(root), hs),
            decreases count - i,
        {
            let ghost db_pre = *self;
            let ghost free_pre = spec_free_space(db_pre.spec_page_view(root), hs);
            match self.insert_parsed_row(root, &columns, &row_hashs[i]) {
                Ok(()) => {
                    proof {
                        let rv = spec_row_of(schema, pairs_view(row_hashs@[i as int]@))->Some_0;
                        assert(spec_batch_scan(schema, row_hashs@, i as int, free_pre, tb0, sp0)
                            == spec_batch_scan(
                            schema,
                            row_hashs@,
                            i + 1,
                            free_pre - record_len(rv) - 2,
                            tb0,
                            sp0,
                        ));
                        assert(parsed_prefix(schema, row_hashs@, i + 1) =~= parsed_prefix(
                            schema,
                            row_hashs@,
                            i as int,
                        ).push(rv));
                        if leaf_ptrs_wf(d0, hs) && leaf_rows(d0, hs) is Some {
                            assert(leaf_rows(db_pre.spec_page_view(root), hs)->Some_0.push(rv)
                                =~= leaf_rows(d0, hs)->Some_0 + parsed_prefix(
                                schema,
                                row_hashs@,
                                i + 1,
                            ));
                        }
                    }
                    i = i + 1;
                },
                Err(e) => {
                    proof {
                        assert(spec_batch_scan(schema, row_hashs@, i as int, free_pre, tb0, sp0)
                            == (i as int, Err::<(), DbError>(e)));
                    }
                    match self.commit() {
                        Ok(()) => {},
                        Err(_) => {
                            proof {
                                assert(false);
                            }
                        },
                    }
                    return Err(e);
                },
            }
        }
        proof {
            assert(spec_batch_scan(schema, row_hashs@, count as int, spec_free_space(
                self.spec_page_view(root), hs), tb0, sp0)
                == (count as int, Ok::<(), DbError>(())));
        }
        match self.commit() {
            Ok(()) => {},
            Err(_) => {
                proof {
                    assert(false);
                }
            },
        }
        Ok(())
    }
}


/// How many of the first `j` verdicts accepted their row.
pub open spec fn keep_count(keeps: Seq<bool>, j: int) -> int
    decreases j,
{
    if j <= 0 {
        0
    } else {
        keep_count(keeps, j - 1) + (if keeps[j - 1] {
            1int
        } else {
            0int
        })
    }
}

proof fn lemma_keep_count_nonneg(keeps: Seq<bool>, j: int)
    ensures
        keep_count(keeps, j) >= 0,
    decreases j,
{
    if j > 0 {
        lemma_keep_count_nonneg(keeps, j - 1);
    }
}

proof fn lemma_keep_count_le(keeps: Seq<bool>, i: int, j: int)
    requires
        0 <= i <= j,
    ensures
        keep_count(keeps, i) <= keep_count(keeps, j),
    decreases j,
{
    if i < j {
        lemma_keep_count_le(keeps, i, j - 1);
    }
}

/// The count of a prefix does not see what is pushed behind it.
proof fn lemma_keep_count_push(keeps: Seq<bool>, b: bool, j: int)
    requires
        0 <= j <= keeps.len(),
    ensures
        keep_count(keeps.push(b), j) == keep_count(keeps, j),
    decreases j,
{
    if j > 0 {
        lemma_keep_count_push(keeps, b, j - 1);
    }
}

/// What one filtered scan produces.  `ins` holds the row values handed to
/// the filters, one per stored row, and `keeps` the record filter's
/// verdict on each; the output holds, in stored order, the column
/// filter's image of exactly the accepted rows — the `j`-th accepted row
/// lands at output position `keep_count(keeps, j)`.
pub open spec fn spec_filtered<
    RecF: Fn(&Vec<Column>) -> bool,
    ColF: Fn(Vec<Column>) -> Vec<Column>,
>(
    rf: RecF,
    cf: ColF,
    rows: Seq<Seq<ColumnV>>,
    keeps: Seq<bool>,
    ins: Seq<Vec<Column>>,
    out: Seq<Vec<Column>>,
) -> bool {
    &&& keeps.len() == rows.len()
    &&& ins.len() == rows.len()
    &&& forall|j: int|
        #![trigger ins[j]]
        0 <= j < rows.len() ==> row_view(ins[j]@) == rows[j] && call_ensures(
            rf,
            (&ins[j],),
            keeps[j],
        )
    &&& out.len() == keep_count(keeps, rows.len() as int)
    &&& forall|j: int|
        #![trigger keeps[j]]
        0 <= j < rows.len() && keeps[j] ==> call_ensures(
            cf,
            (ins[j],),
            out[keep_count(keeps, j)],
        )
}

/// Reads every row of the leaf at `page_number`, in insertion order, and
/// keeps the survivors: rows the record filter accepts, each transformed
/// by the column filter.  The output is, in stored order, the column
/// filter's image of exactly the accepted rows, as `spec_filtered` states
/// over the verdicts of this run.
#[verifier::rlimit(100)]
pub fn select_records<RecF: Fn(&Vec<Column>) -> bool, ColF: Fn(Vec<Column>) -> Vec<Column>>(
    database: &Database,
    page_number: u32,
    record_filter: RecF,
    column_filter: ColF,
) -> (r: Result<Vec<Vec<Column>>, DbError>)
    requires
        database.wf(),
        1 <= page_number <= database.page_count,
        forall|row: &Vec<Column>| call_requires(record_filter, (row,)),
        forall|row: Vec<Column>| call_requires(column_filter, (row,)),
    ensures
        ({
            let d = database.spec_page_view(page_number);
            let hs = header_start_of(page_number);
            match r {
                Ok(out) => {
                    &&& leaf_rows(d, hs) is Some
                    &&& out@.len() <= leaf_rows(d, hs)->Some_0.len()
                    &&& exists|keeps: Seq<bool>, ins: Seq<Vec<Column>>|
                        spec_filtered(
                            record_filter,
                            column_filter,
                            leaf_rows(d, hs)->Some_0,
                            keeps,
                            ins,
                            out@,
                        )
                },
                Err(e) => {
                    &&& (spec_page_type_byte(d, hs) == 13 ==> e == DbError::Corruption
                        && leaf_rows(d, hs) is None)
                    &&& (spec_page_type_byte(d, hs) != 13 ==> (e == DbError::Unsupported || e
                        == DbError::Corruption))
                },
            }
        }),
{
    let page = match database.read_page(page_number) {
        Ok(p) => p,
        Err(e) => {
            return Err(e);
        },
    };
    let hs = crate::page::header_start_for(page_number);
    let rows = match read_leaf_rows(&page.data, hs) {
        Ok(v) => v,
        Err(e) => {
            return Err(e);
        },
    };
    let ghost rv = rows_view(rows@);
    let ghost d = database.spec_page_view(page_number);
    let rlen = rows.len();
    let mut out: Vec<Vec<Column>> = Vec::new();
    let ghost mut keeps: Seq<bool> = Seq::empty();
    let ghost mut ins: Seq<Vec<Column>> = Seq::empty();
    let mut rest = rows;
    // take rows from the front so each can be given to the column filter;
    // the ghost sequences record each row and the verdict on it
    let mut taken: usize = 0;
    while taken < rlen
        invariant
            taken <= rlen,
            rlen == rv.len(),
            rest@.len() == rlen - taken,
            forall|t: int|
                0 <= t < rest@.len() ==> row_view(#[trigger] rest@[t]@) == rv[taken + t],
            keeps.len() == taken,
            ins.len() == taken,
            forall|row: &Vec<Column>| call_requires(record_filter, (row,)),
            forall|row: Vec<Column>| call_requires(column_filter, (row,)),
            forall|j: int|
                #![trigger ins[j]]
                0 <= j < taken ==> row_view(ins[j]@) == rv[j] && call_ensures(
                    record_filter,
                    (&ins[j],),
                    keeps[j],
                ),
            out@.len() == keep_count(keeps, taken as int),
            forall|j: int|
                #![trigger keeps[j]]
                0 <= j < taken && keeps[j] ==> call_ensures(
                    column_filter,
                    (ins[j],),
                    out@[keep_count(keeps, j)],
                ),
        decreases rlen - taken,
    {
        let ghost rest0 = rest@;
        let row = rest.remove(0);
        proof {
            assert forall|t: int| 0 <= t < rest@.len() implies row_view(
                #[trigger] rest@[t]@,
            ) == rv[taken + 1 + t] by {
                assert(rest@[t] == rest0[t + 1]);
                assert(row_view(rest0[t + 1]@) == rv[taken + (t + 1)]);
            }
            assert(row_view(row@) == rv[taken as int]);
        }
        let ghost vin = row;
        let keep = record_filter(&row);
        let ghost keeps0 = keeps;
        let ghost out0 = out@;
        proof {
            keeps = keeps.push(keep);
            ins = ins.push(vin);
        }
        if keep {
            let transformed = column_filter(row);
            out.push(transformed);
            proof {
                lemma_select_step(
                    keeps0,
                    keep,
                    taken as int,
                    out0,
                    out@,
                    keeps,
                );
            }
        } else {
            proof {
                lemma_select_step(keeps0, keep, taken as int, out0, out@, keeps);
            }
        }
        proof {
            assert forall|j: int| #![trigger keeps[j]] 0 <= j < taken + 1 && keeps[j] implies
                call_ensures(column_filter, (ins[j],), out@[keep_count(keeps, j)]) by {
                lemma_keep_count_push(keeps0, keep, j);
                if j < taken {
                    assert(ins[j] == ins.drop_last()[j]);
                    assert(keeps0[j]);
                    lemma_keep_count_nonneg(keeps0, j);
                    lemma_keep_count_le(keeps0, j + 1, taken as int);
                    assert(keep_count(keeps0, j) < out0.len());
                    assert(out@[keep_count(keeps0, j)] == out0[keep_count(keeps0, j)]);
                } else {
                    assert(keeps[taken as int]);
                    assert(ins[taken as int] == vin);
                    assert(keep_count(keeps, taken as int) == keep_count(
                        keeps0,
                        taken as int,
                    ));
                }
            }
        }
        taken = taken + 1;
    }
    proof {
        assert(leaf_rows(d, hs as int) == Some(rv));
        assert(spec_filtered(record_filter, column_filter, rv, keeps, ins, out@));
        lemma_keep_count_le(keeps, 0, rlen as int);
        lemma_keep_count_bound(keeps, rlen as int);
    }
    Ok(out)
}

/// At most one output row per stored row.
proof fn lemma_keep_count_bound(keeps: Seq<bool>, j: int)
    requires
        0 <= j,
    ensures
        keep_count(keeps, j) <= j,
    decreases j,
{
    if j > 0 {
        lemma_keep_count_bound(keeps, j - 1);
    }
}

/// One verdict extends the output by one accepted row or none.
proof fn lemma_select_step(
    keeps0: Seq<bool>,
    keep: bool,
    taken: int,
    out0: Seq<Vec<Column>>,
    out1: Seq<Vec<Column>>,
    keeps1: Seq<bool>,
)
    requires
        0 <= taken,
        keeps0.len() == taken,
        keeps1 == keeps0.push(keep),
        out0.len() == keep_count(keeps0, taken),
        out1.len() == out0.len() + (if keep {
            1int
        } else {
            0int
        }),
    ensures
        out1.len() == keep_count(keeps1, taken + 1),
{
    lemma_keep_count_push(keeps0, keep, taken);
    assert(keeps1[taken] == keep);
}

impl Database {
    /// Every row of the named table, in insertion order.
    pub fn select_all_records(&self, table_name: String) -> (r: Result<Vec<Vec<Column>>, DbError>)
        requires
            self.wf(),
        ensures
            ({
                match r {
                    Ok(out) => {
                        let (root, _) = spec_describe(*self, table_name@)->Ok_0;
                        &&& spec_describe(*self, table_name@) is Ok
                        &&& leaf_rows(
                            self.spec_page_view(root),
                            header_start_of(root),
                        ) == Some(rows_view(out@))
                    },
                    Err(e) => {
                        &&& (spec_describe(*self, table_name@) is Err ==> spec_describe(
                            *self,
                            table_name@,
                        )->Err_0 == e)
                        &&& (spec_describe(*self, table_name@) is Ok ==> {
                            let (root, _) = spec_describe(*self, table_name@)->Ok_0;
                            let d = self.spec_page_view(root);
                            let hs = header_start_of(root);
                            &&& (spec_page_type_byte(d, hs) == 13 ==> e == DbError::Corruption
                                && leaf_rows(d, hs) is None)
                            &&& (spec_page_type_byte(d, hs) != 13 ==> (e
                                == DbError::Unsupported || e == DbError::Corruption))
                        })
                    },
                }
            }),
    {
        let (root, _columns) = match self.describe_table(table_name) {
            Ok(v) => v,
            Err(e) => {
                return Err(e);
            },
        };
        let page = match self.read_page(root) {
            Ok(p) => p,
            Err(e) => {
                return Err(e);
            },
        };
        let hs = crate::page::header_start_for(root);
        read_leaf_rows(&page.data, hs)
    }

    /// The rows of the named table that the record filter accepts, each
    /// transformed by the column filter, in insertion order.
    pub fn select_records<
        RecF: Fn(&Vec<Column>) -> bool,
        ColF: Fn(Vec<Column>) -> Vec<Column>,
    >(&self, table_name: String, record_filter: RecF, column_filter: ColF) -> (r: Result<
        Vec<Vec<Column>>,
        DbError,
    >)
        requires
            self.wf(),
            forall|row: &Vec<Column>| call_requires(record_filter, (row,)),
            forall|row: Vec<Column>| call_requires(column_filter, (row,)),
        ensures
            ({
                match r {
                    Ok(out) => {
                        let (root, _) = spec_describe(*self, table_name@)->Ok_0;
                        let rows = leaf_rows(
                            self.spec_page_view(root),
                            header_start_of(root),
                        )->Some_0;
                        &&& spec_describe(*self, table_name@) is Ok
                        &&& leaf_rows(self.spec_page_view(root), header_start_of(root)) is Some
                        &&& out@.len() <= rows.len()
                        &&& exists|keeps: Seq<bool>, ins: Seq<Vec<Column>>|
                            spec_filtered(
                                record_filter,
                                column_filter,
                                rows,
                                keeps,
                                ins,
                                out@,
                            )
                    },
                    Err(e) => {
                        &&& (spec_describe(*self, table_name@) is Err ==> spec_describe(
                            *self,
                            table_name@,
                        )->Err_0 == e)
                        &&& (spec_describe(*self, table_name@) is Ok ==> {
                            let (root, _) = spec_describe(*self, table_name@)->Ok_0;
                            let d = self.spec_page_view(root);
                            let hs = header_start_of(root);
                            &&& (spec_page_type_byte(d, hs) == 13 ==> e == DbError::Corruption
                                && leaf_rows(d, hs) is None)
                            &&& (spec_page_type_byte(d, hs) != 13 ==> (e
                                == DbError::Unsupported || e == DbError::Corruption))
                        })
                    },
                }
            }),
    {
        let (root, _columns) = match self.describe_table(table_name) {
            Ok(v) => v,
            Err(e) => {
                return Err(e);
            },
        };
        select_records(self, root, record_filter, column_filter)
    }
}


} // verus!
