//! The page manager: the database image, the dirty-page cache, commit.
//!
//! A database handle owns the image of the file as plain bytes, split into
//! `page_count` pages of `page_size` bytes.  Bytes 0..2 of the image hold
//! the page size, bytes 2..6 the page count, both big-endian; page 1's
//! leaf header starts at byte 100.  Mutations go to an in-memory cache of
//! dirty pages; `commit` writes them into the image and empties the cache.
//! An embedding program loads the image from disk before constructing the
//! handle and persists it again after `commit`.

use crate::page::{
    add_cell, header_start_of, header_start_for, leaf_ptrs_wf, leaf_rows, leaf_space_wf,
    lemma_add_cell_rows, page_wf, spec_cc_start, spec_cell_count, spec_cell_ptr, spec_eff_cc,
    spec_free_space, spec_page_type_byte, Page, PageType,
};
use crate::record::{record_bytes, record_len, row_encodable, row_storable, rows_view, Column, ColumnV};
use crate::record_read::fetch_record;
use crate::serialise::{be_bytes, be_val, pow256, to_integer, write_be};
use crate::DbError;
use vstd::prelude::*;

verus! {

/// An open database: its image, shape, and dirty pages.
#[derive(Debug)]
pub struct Database {
    pub page_size: u16,
    pub page_count: u32,
    pub file: Vec<u8>,
    pub page_cache: Vec<(u32, Page)>,
}

/// The page size recorded in the image's header.
pub open spec fn spec_hdr_page_size(d: Seq<u8>) -> nat {
    be_val(d.subrange(0, 2))
}

/// The page count recorded in the image's header.
pub open spec fn spec_hdr_page_count(d: Seq<u8>) -> nat {
    be_val(d.subrange(2, 6))
}

/// The first cached page with number `n` among the first `i` entries.
pub open spec fn find_cached(c: Seq<(u32, Page)>, n: u32, i: int) -> Option<Page>
    decreases i,
{
    if i <= 0 {
        None
    } else {
        match find_cached(c, n, i - 1) {
            Some(p) => Some(p),
            None => if c[i - 1].0 == n {
                Some(c[i - 1].1)
            } else {
                None
            },
        }
    }
}

impl Database {
    /// The bytes of page `n` in the image, ignoring the cache.
    pub open spec fn spec_file_page(self, n: u32) -> Seq<u8> {
        self.file@.subrange(
            (n as int - 1) * (self.page_size as int),
            (n as int) * (self.page_size as int),
        )
    }

    /// The current bytes of page `n`: the cached page if one is dirty,
    /// else the image's.
    pub open spec fn spec_page_view(self, n: u32) -> Seq<u8> {
        match find_cached(self.page_cache@, n, self.page_cache@.len() as int) {
            Some(p) => p.data@,
            None => self.spec_file_page(n),
        }
    }

    /// One cache entry is sound: a dirty table-leaf page of the right
    /// size, for a page that exists, with its projection true to its bytes.
    pub open spec fn cache_entry_wf(self, e: (u32, Page)) -> bool {
        &&& 1 <= e.0 <= self.page_count
        &&& e.1.data@.len() == self.page_size
        &&& page_wf(e.1, header_start_of(e.0))
        &&& e.1.page_type is TableLeaf
    }

    /// The handle's invariant: the image is exactly `page_count` pages of
    /// `page_size` bytes, and the cache holds sound entries with distinct
    /// page numbers.
    pub open spec fn wf(self) -> bool {
        &&& 108 <= self.page_size
        &&& 1 <= self.page_count
        &&& self.file@.len() == (self.page_count as nat) * (self.page_size as nat)
        &&& forall|i: int|
            0 <= i < self.page_cache@.len() ==> self.cache_entry_wf(
                #[trigger] self.page_cache@[i],
            )
        &&& forall|i: int, j: int|
            0 <= i < j < self.page_cache@.len() ==> (#[trigger] self.page_cache@[i].0)
                != (#[trigger] self.page_cache@[j].0)
    }

    /// No dirty pages: the image is the whole state.
    pub open spec fn committed(self) -> bool {
        self.page_cache@.len() == 0
    }
}

/// Multiplying by the page size keeps page ranges apart.
pub(crate) proof fn lemma_mul_mono(a: int, b: int, p: int)
    requires
        a <= b,
        0 <= p,
    ensures
        a * p <= b * p,
{
    assert(a * p <= b * p) by (nonlinear_arith)
        requires
            a <= b,
            0 <= p,
    ;
}

/// A cache scan that passed `i` entries without finding `n` has found
/// nothing among them.
proof fn lemma_find_cached_miss(c: Seq<(u32, Page)>, n: u32, i: int)
    requires
        forall|k: int| 0 <= k < i ==> (#[trigger] c[k].0) != n,
    ensures
        find_cached(c, n, i) is None,
    decreases i,
{
    if i > 0 {
        lemma_find_cached_miss(c, n, i - 1);
    }
}

/// If entry `i` is the first with number `n`, every longer scan returns it.
proof fn lemma_find_cached_hit(c: Seq<(u32, Page)>, n: u32, i: int, j: int)
    requires
        forall|k: int| 0 <= k < i ==> (#[trigger] c[k].0) != n,
        0 <= i < j,
        c[i].0 == n,
    ensures
        find_cached(c, n, j) == Some(c[i].1),
    decreases j,
{
    if j - 1 > i {
        lemma_find_cached_hit(c, n, i, j - 1);
    } else {
        lemma_find_cached_miss(c, n, i);
    }
}

/// Copies `len` bytes out of `src` starting at `start`.
fn copy_range(src: &Vec<u8>, start: usize, len: usize) -> (out: Vec<u8>)
    requires
        start + len <= src@.len(),
    ensures
        out@ == src@.subrange(start as int, start + len),
{
    let n = src.len();
    let mut out: Vec<u8> = Vec::new();
    let mut i: usize = 0;
    while i < len
        invariant
            i <= len,
            start + len <= n,
            n == src@.len(),
            out@ =~= src@.subrange(start as int, start + i),
        decreases len - i,
    {
        out.push(src[start + i]);
        proof {
            assert(out@ =~= src@.subrange(start as int, start + i + 1));
        }
        i = i + 1;
    }
    out
}

/// Overwrites `file[off .. off + bytes.len())` with `bytes`.
fn splice_bytes(file: &mut Vec<u8>, off: usize, bytes: &Vec<u8>)
    requires
        off + bytes@.len() <= old(file)@.len(),
    ensures
        final(file)@.len() == old(file)@.len(),
        final(file)@.subrange(off as int, off + bytes@.len()) == bytes@,
        forall|j: int|
            0 <= j < old(file)@.len() && !(off <= j < off + bytes@.len())
                ==> final(file)@[j] == old(file)@[j],
{
    let len = bytes.len();
    let total = file.len();
    let mut i: usize = 0;
    while i < len
        invariant
            i <= len,
            len == bytes@.len(),
            off + len <= total,
            total == file@.len(),
            file@.len() == old(file)@.len(),
            forall|j: int| 0 <= j < i ==> file@[off + j] == bytes@[j],
            forall|j: int|
                0 <= j < old(file)@.len() && !(off <= j < off + i) ==> file@[j] == old(
                    file,
                )@[j],
        decreases len - i,
    {
        let b = bytes[i];
        file.set(off + i, b);
        i = i + 1;
    }
    proof {
        assert(file@.subrange(off as int, off + len) =~= bytes@);
    }
}

/// Creates a fresh one-page database image: the page size and a page
/// count of 1 in the header, page 1 an empty table-leaf, everything else
/// zero.
pub fn create_new_database(page_size: u16) -> (db: Database)
    requires
        page_size >= 108,
    ensures
        db.wf(),
        db.committed(),
        db.page_size == page_size,
        db.page_count == 1,
        db.file@.len() == page_size,
        spec_hdr_page_size(db.file@) == page_size,
        spec_hdr_page_count(db.file@) == 1,
        db.file@[100] == 13,
        forall|j: int|
            0 <= j < page_size && !(0 <= j < 6) && j != 100 ==> db.file@[j] == 0,
{
    let ps = page_size as usize;
    let mut file: Vec<u8> = Vec::new();
    let mut i: usize = 0;
    while i < ps
        invariant
            i <= ps,
            file@.len() == i,
            forall|j: int| 0 <= j < i ==> file@[j] == 0,
        decreases ps - i,
    {
        file.push(0);
        i = i + 1;
    }
    proof {
        assert(pow256(2) == 0x1_0000) by {
            reveal_with_fuel(pow256, 3);
        }
        assert(pow256(4) == 0x1_0000_0000) by {
            reveal_with_fuel(pow256, 5);
        }
    }
    write_be(&mut file, 0, page_size as u64, 2);
    write_be(&mut file, 2, 1, 4);
    file.set(100, 13);
    proof {
        crate::serialise::lemma_be_val_of_bytes(page_size as nat, 2);
        crate::serialise::lemma_be_val_of_bytes(1, 4);
        crate::serialise::lemma_be_bytes_len(page_size as nat, 2);
        crate::serialise::lemma_be_bytes_len(1, 4);
        assert(file@.subrange(0, 2) =~= be_bytes(page_size as nat, 2));
        assert(file@.subrange(2, 6) =~= be_bytes(1, 4));
    }
    Database { page_size, page_count: 1, file, page_cache: Vec::new() }
}

/// Whether an image can be opened: its header's page size is sane and its
/// length is exactly the header's page count times the page size.
pub open spec fn spec_openable(b: Seq<u8>) -> bool {
    &&& b.len() >= 108
    &&& 108 <= spec_hdr_page_size(b)
    &&& 1 <= spec_hdr_page_count(b)
    &&& b.len() == spec_hdr_page_count(b) * spec_hdr_page_size(b)
}

/// Opens a database: from the bytes of an existing image, or, given none,
/// as a fresh image with the default page size.  Rejects with `Corruption`
/// exactly the images whose header does not describe their length.
pub fn load(existing: Option<Vec<u8>>, default_page_size: u16) -> (r: Result<Database, DbError>)
    requires
        existing is None ==> default_page_size >= 108,
    ensures
        match existing {
            None => match r {
                Ok(db) => db.wf() && db.committed() && db.page_count == 1
                    && db.page_size == default_page_size && db.file@.len()
                    == default_page_size && spec_hdr_page_size(db.file@) == default_page_size
                    && spec_hdr_page_count(db.file@) == 1 && db.file@[100] == 13
                    && (forall|j: int|
                        0 <= j < default_page_size && !(0 <= j < 6) && j != 100
                            ==> db.file@[j] == 0),
                Err(_) => false,
            },
            Some(bytes) => match r {
                Ok(db) => spec_openable(bytes@) && db.wf() && db.committed()
                    && db.file@ == bytes@ && db.page_size == spec_hdr_page_size(bytes@)
                    && db.page_count == spec_hdr_page_count(bytes@),
                Err(e) => e == DbError::Corruption && !spec_openable(bytes@),
            },
        },
{
    match existing {
        None => Ok(create_new_database(default_page_size)),
        Some(bytes) => {
            let n = bytes.len();
            if n < 108 {
                return Err(DbError::Corruption);
            }
            proof {
                crate::serialise::lemma_be_val_bound(bytes@.subrange(0, 2));
                crate::serialise::lemma_be_val_bound(bytes@.subrange(2, 6));
                assert(pow256(2) == 0x1_0000) by {
                    reveal_with_fuel(pow256, 3);
                }
                assert(pow256(4) == 0x1_0000_0000) by {
                    reveal_with_fuel(pow256, 5);
                }
            }
            let page_size = to_integer(bytes.as_slice(), 0, 2) as u16;
            let page_count = to_integer(bytes.as_slice(), 2, 4) as u32;
            if page_size < 108 || page_count < 1 {
                return Err(DbError::Corruption);
            }
            proof {
                assert((page_count as int) * (page_size as int) < 0x1_0000_0000_0000_0000)
                    by (nonlinear_arith)
                    requires
                        page_count <= 0xFFFF_FFFF,
                        page_size <= 0xFFFF,
                ;
            }
            if (n as u64) != (page_count as u64) * (page_size as u64) {
                return Err(DbError::Corruption);
            }
            Ok(Database { page_size, page_count, file: bytes, page_cache: Vec::new() })
        },
    }
}

impl Database {
    /// Fetches page `n`: the dirty copy if one is cached, else the image's
    /// bytes, with the typed header projected out.  Reserved page types
    /// surface `Unsupported`, unknown ones `Corruption`.
    pub fn read_page(&self, page_number: u32) -> (r: Result<Page, DbError>)
        requires
            self.wf(),
            1 <= page_number <= self.page_count,
        ensures
            ({
                let view = self.spec_page_view(page_number);
                let hs = header_start_of(page_number);
                match r {
                    Ok(p) => {
                        &&& p.data@ == view
                        &&& p.data@.len() == self.page_size
                        &&& page_wf(p, hs)
                        &&& p.page_type is TableLeaf
                        &&& spec_page_type_byte(view, hs) == 13
                    },
                    Err(e) => {
                        &&& spec_page_type_byte(view, hs) != 13
                        &&& (e == DbError::Unsupported) == (spec_page_type_byte(view, hs) == 2
                            || spec_page_type_byte(view, hs) == 5
                            || spec_page_type_byte(view, hs) == 10)
                        &&& (e == DbError::Corruption || e == DbError::Unsupported)
                    },
                }
            }),
    {
        let clen = self.page_cache.len();
        let mut i: usize = 0;
        while i < clen
            invariant
                i <= clen,
                clen == self.page_cache@.len(),
                self.wf(),
                1 <= page_number <= self.page_count,
                forall|k: int| 0 <= k < i ==> (#[trigger] self.page_cache@[k].0) != page_number,
            decreases clen - i,
        {
            if self.page_cache[i].0 == page_number {
                proof {
                    lemma_find_cached_hit(
                        self.page_cache@,
                        page_number,
                        i as int,
                        clen as int,
                    );
                }
                let p = self.page_cache[i].1.duplicate();
                return Ok(p);
            }
            i = i + 1;
        }
        proof {
            lemma_find_cached_miss(self.page_cache@, page_number, clen as int);
        }
        let ps = self.page_size as usize;
        let flen = self.file.len();
        proof {
            let psi = self.page_size as int;
            lemma_mul_mono(page_number as int, self.page_count as int, psi);
            assert((page_number as int) * psi == (page_number as int - 1) * psi + psi)
                by (nonlinear_arith);
        }
        let off64 = (page_number as u64 - 1) * (self.page_size as u64);
        proof {
            assert(off64 + self.page_size <= flen);
        }
        let off = off64 as usize;
        let bytes = copy_range(&self.file, off, ps);
        let hs = header_start_for(page_number);
        crate::page::read_page(bytes, hs)
    }

    /// Writes `page` bytes straight into the image at page `n`, bypassing
    /// the cache.
    pub fn save_page(&mut self, page: Vec<u8>, page_number: u32) -> (r: Result<(), DbError>)
        requires
            old(self).wf(),
            1 <= page_number <= old(self).page_count,
            page@.len() == old(self).page_size,
        ensures
            r is Ok,
            final(self).wf(),
            final(self).page_size == old(self).page_size,
            final(self).page_count == old(self).page_count,
            final(self).page_cache@ == old(self).page_cache@,
            final(self).spec_file_page(page_number) == page@,
            forall|n: u32|
                1 <= n <= old(self).page_count && n != page_number
                    ==> final(self).spec_file_page(n) == old(self).spec_file_page(n),
    {
        let flen = self.file.len();
        proof {
            let psi = self.page_size as int;
            lemma_mul_mono(page_number as int, self.page_count as int, psi);
            assert((page_number as int) * psi == (page_number as int - 1) * psi + psi)
                by (nonlinear_arith);
        }
        let off64 = (page_number as u64 - 1) * (self.page_size as u64);
        proof {
            assert(off64 + self.page_size <= flen);
        }
        let off = off64 as usize;
        splice_bytes(&mut self.file, off, &page);
        proof {
            let ps = self.page_size as int;
            assert(self.spec_file_page(page_number) =~= page@);
            assert forall|n: u32|
                1 <= n <= old(self).page_count && n != page_number implies self.spec_file_page(
                n,
            ) =~= old(self).spec_file_page(n) by {
                lemma_page_slices_disjoint(
                    n as int,
                    page_number as int,
                    ps,
                    old(self).page_count as int,
                );
                assert((n as int - 1) * ps + ps == (n as int) * ps) by (nonlinear_arith);
                assert((page_number as int - 1) * ps + ps == (page_number as int) * ps)
                    by (nonlinear_arith);
                lemma_mul_mono(n as int, old(self).page_count as int, ps);
                assert forall|t: int| 0 <= t < ps implies #[trigger] self.file@[(n - 1) * ps
                    + t] == old(self).file@[(n - 1) * ps + t] by {
                    assert(!(off <= (n - 1) * ps + t < off + ps));
                }
            }
        }
        Ok(())
    }
}

/// Distinct pages occupy disjoint byte ranges of the image.
pub(crate) proof fn lemma_page_slices_disjoint(n: int, m: int, ps: int, pc: int)
    requires
        1 <= n <= pc,
        1 <= m <= pc,
        n != m,
        0 < ps,
    ensures
        n * ps <= (m - 1) * ps || m * ps <= (n - 1) * ps,
{
    if n < m {
        lemma_mul_mono(n, m - 1, ps);
    } else {
        lemma_mul_mono(m, n - 1, ps);
    }
}

impl Database {
    /// Flushes every dirty page into the image and empties the cache.
    /// Afterwards the image holds, for each page, exactly what the handle
    /// showed for it before the call.
    pub fn commit(&mut self) -> (r: Result<(), DbError>)
        requires
            old(self).wf(),
        ensures
            r is Ok,
            final(self).wf(),
            final(self).committed(),
            final(self).page_size == old(self).page_size,
            final(self).page_count == old(self).page_count,
            final(self).file@.len() == old(self).file@.len(),
            forall|n: u32|
                1 <= n <= old(self).page_count ==> final(self).spec_file_page(n) == old(
                    self,
                ).spec_page_view(n),
            forall|n: u32|
                1 <= n <= old(self).page_count ==> final(self).spec_page_view(n) == old(
                    self,
                ).spec_page_view(n),
    {
        let clen = self.page_cache.len();
        let mut i: usize = 0;
        while i < clen
            invariant
                i <= clen,
                clen == self.page_cache@.len(),
                self.page_cache@ == old(self).page_cache@,
                self.page_size == old(self).page_size,
                self.page_count == old(self).page_count,
                old(self).wf(),
                self.file@.len() == old(self).file@.len(),
                forall|n: u32|
                    1 <= n <= self.page_count ==> self.spec_file_page(n) == (match find_cached(
                        self.page_cache@,
                        n,
                        i as int,
                    ) {
                        Some(p) => p.data@,
                        None => old(self).spec_file_page(n),
                    }),
            decreases clen - i,
        {
            let ghost db0 = *self;
            let key = self.page_cache[i].0;
            let flen = self.file.len();
            proof {
                assert(old(self).cache_entry_wf(old(self).page_cache@[i as int]));
                let psi = self.page_size as int;
                lemma_mul_mono(key as int, self.page_count as int, psi);
                assert((key as int) * psi == (key as int - 1) * psi + psi)
                    by (nonlinear_arith);
            }
            let off64 = (key as u64 - 1) * (self.page_size as u64);
            proof {
                assert(off64 + self.page_size <= flen);
            }
            let off = off64 as usize;
            splice_bytes_entry(self, i, off);
            proof {
                let ps = self.page_size as int;
                let c = self.page_cache@;
                let pc = self.page_count as int;
                assert forall|n: u32| 1 <= n <= self.page_count implies self.spec_file_page(n)
                    == (match find_cached(c, n, i + 1) {
                    Some(p) => p.data@,
                    None => old(self).spec_file_page(n),
                }) by {
                    assert(db0.spec_file_page(n) == (match find_cached(c, n, i as int) {
                        Some(p) => p.data@,
                        None => old(self).spec_file_page(n),
                    }));
                    assert((key as int - 1) * ps + ps == (key as int) * ps)
                        by (nonlinear_arith);
                    if n == key {
                        lemma_find_cached_miss_unique(c, n, i as int);
                        assert(self.spec_file_page(n) =~= c[i as int].1.data@);
                        assert(find_cached(c, n, i + 1) == Some(c[i as int].1));
                    } else {
                        lemma_page_slices_disjoint(n as int, key as int, ps, pc);
                        assert((n as int - 1) * ps + ps == (n as int) * ps) by (nonlinear_arith);
                        lemma_mul_mono(n as int, pc, ps);
                        assert(self.spec_file_page(n) =~= db0.spec_file_page(n)) by {
                            assert forall|t: int| 0 <= t < ps implies #[trigger] self.file@[(n
                                - 1) * ps + t] == db0.file@[(n - 1) * ps + t] by {
                                assert(!(off <= (n - 1) * ps + t < off + ps));
                            }
                        }
                        assert(find_cached(c, n, i + 1) == find_cached(c, n, i as int));
                    }
                }
            }
            i = i + 1;
        }
        let ghost db1 = *self;
        self.page_cache.clear();
        proof {
            assert forall|n: u32| 1 <= n <= old(self).page_count implies self.spec_page_view(n)
                == old(self).spec_page_view(n) by {
                assert(db1.spec_file_page(n) == (match find_cached(
                    db1.page_cache@,
                    n,
                    clen as int,
                ) {
                    Some(p) => p.data@,
                    None => old(self).spec_file_page(n),
                }));
                assert(find_cached(self.page_cache@, n, 0) is None);
                assert(self.spec_file_page(n) =~= db1.spec_file_page(n));
            }
        }
        Ok(())
    }
}

/// In a cache with distinct keys, nothing before entry `i` has its key.
proof fn lemma_find_cached_miss_unique(c: Seq<(u32, Page)>, n: u32, i: int)
    requires
        0 <= i < c.len(),
        c[i].0 == n,
        forall|a: int, b: int|
            0 <= a < b < c.len() ==> (#[trigger] c[a].0) != (#[trigger] c[b].0),
    ensures
        find_cached(c, n, i) is None,
{
    assert forall|k: int| 0 <= k < i implies (#[trigger] c[k].0) != n by {
        assert(c[k].0 != c[i].0);
    }
    lemma_find_cached_miss(c, n, i);
}

/// Writes cache entry `i` into the image at `off`.  A helper so the cache
/// and the image can be borrowed apart.
fn splice_bytes_entry(db: &mut Database, i: usize, off: usize)
    requires
        i < old(db).page_cache@.len(),
        off + old(db).page_cache@[i as int].1.data@.len() <= old(db).file@.len(),
    ensures
        final(db).page_cache@ == old(db).page_cache@,
        final(db).page_size == old(db).page_size,
        final(db).page_count == old(db).page_count,
        final(db).file@.len() == old(db).file@.len(),
        final(db).file@.subrange(
            off as int,
            off + old(db).page_cache@[i as int].1.data@.len(),
        ) == old(db).page_cache@[i as int].1.data@,
        forall|j: int|
            0 <= j < old(db).file@.len() && !(off <= j < off + old(db).page_cache@[
                i as int
            ].1.data@.len()) ==> final(db).file@[j] == old(db).file@[j],
{
    let len = db.page_cache[i].1.data.len();
    let total = db.file.len();
    let mut t: usize = 0;
    while t < len
        invariant
            t <= len,
            i < db.page_cache@.len(),
            db.page_cache@ == old(db).page_cache@,
            db.page_size == old(db).page_size,
            db.page_count == old(db).page_count,
            len == db.page_cache@[i as int].1.data@.len(),
            off + len <= total,
            total == db.file@.len(),
            db.file@.len() == old(db).file@.len(),
            forall|j: int|
                0 <= j < t ==> db.file@[off + j] == db.page_cache@[i as int].1.data@[j],
            forall|j: int|
                0 <= j < old(db).file@.len() && !(off <= j < off + t) ==> db.file@[j] == old(
                    db,
                ).file@[j],
        decreases len - t,
    {
        let b = db.page_cache[i].1.data[t];
        db.file.set(off + t, b);
        t = t + 1;
    }
    proof {
        assert(db.file@.subrange(off as int, off + len) =~= db.page_cache@[i as int].1.data@);
    }
}

/// Appends one fresh, zero-filled table-leaf page to the image and counts
/// it.  The new page's number is returned; every existing page keeps its
/// bytes.  Fails only when the page count would overflow its 32-bit field.
pub fn create_page(database: &mut Database) -> (r: Result<u32, DbError>)
    requires
        old(database).wf(),
    ensures
        match r {
            Ok(n) => {
                &&& n == old(database).page_count + 1
                &&& final(database).wf()
                &&& final(database).page_size == old(database).page_size
                &&& final(database).page_count == old(database).page_count + 1
                &&& final(database).page_cache@ == old(database).page_cache@
                &&& final(database).file@.len() == old(database).file@.len()
                    + old(database).page_size
                &&& final(database).file@.subrange(
                    0,
                    old(database).file@.len() as int,
                ) == old(database).file@
                &&& final(database).spec_file_page(n).len() == old(database).page_size
                &&& final(database).spec_file_page(n)[0] == 13
                &&& forall|t: int|
                    1 <= t < old(database).page_size
                        ==> final(database).spec_file_page(n)[t] == 0
            },
            Err(e) => {
                &&& e == DbError::IntegerOverflow
                &&& old(database).page_count == 0xFFFF_FFFFu32
                &&& *final(database) == *old(database)
            },
        },
{
    if database.page_count == 0xFFFF_FFFFu32 {
        return Err(DbError::IntegerOverflow);
    }
    let ps = database.page_size as usize;
    let old_len = database.file.len();
    let mut i: usize = 0;
    while i < ps
        invariant
            i <= ps,
            database.page_size == old(database).page_size,
            database.page_count == old(database).page_count,
            database.page_cache@ == old(database).page_cache@,
            database.file@.len() == old_len + i,
            old_len == old(database).file@.len(),
            database.file@.subrange(0, old_len as int) =~= old(database).file@,
            forall|j: int| old_len <= j < old_len + i ==> database.file@[j] == 0,
        decreases ps - i,
    {
        database.file.push(0);
        proof {
            assert(database.file@.subrange(0, old_len as int) =~= old(database).file@);
        }
        i = i + 1;
    }
    database.file.set(old_len, 13);
    let n = database.page_count + 1;
    database.page_count = n;
    proof {
        let ps_i = database.page_size as int;
        let pc0 = old(database).page_count as int;
        assert((pc0 + 1) * ps_i == pc0 * ps_i + ps_i) by (nonlinear_arith);
        assert(database.file@.subrange(0, old_len as int) =~= old(database).file@);
        assert(database.spec_file_page(n) =~= database.file@.subrange(
            pc0 * ps_i,
            (pc0 + 1) * ps_i,
        ));
    }
    Ok(n)
}


/// Every page of a well-formed handle is a full page: reading page `n`'s
/// range of the image yields exactly `page_size` bytes, for every
/// `n` from 1 to `page_count`.
pub proof fn lemma_every_page_full(db: Database)
    requires
        db.wf(),
    ensures
        forall|n: u32|
            1 <= n <= db.page_count ==> (#[trigger] db.spec_file_page(n)).len()
                == db.page_size,
{
    assert forall|n: u32| 1 <= n <= db.page_count implies (#[trigger] db.spec_file_page(
        n,
    )).len() == db.page_size by {
        let ps = db.page_size as int;
        lemma_mul_mono(n as int, db.page_count as int, ps);
        assert((n as int - 1) * ps + ps == (n as int) * ps) by (nonlinear_arith);
    }
}

/// Two caches that agree on their first `i` entries find the same page
/// among them.
proof fn lemma_find_cached_prefix(c1: Seq<(u32, Page)>, c2: Seq<(u32, Page)>, n: u32, i: int)
    requires
        forall|k: int| 0 <= k < i ==> #[trigger] c1[k] == c2[k],
        i <= c1.len(),
        i <= c2.len(),
    ensures
        find_cached(c1, n, i) == find_cached(c2, n, i),
    decreases i,
{
    if i > 0 {
        lemma_find_cached_prefix(c1, c2, n, i - 1);
    }
}

impl Database {
    /// Puts a dirty page into the cache, replacing any older copy of the
    /// same page.  Afterwards the handle shows `page`'s bytes for `n` and
    /// everything else unchanged.
    pub(crate) fn store_page(&mut self, n: u32, page: Page)
        requires
            old(self).wf(),
            1 <= n <= old(self).page_count,
            page.data@.len() == old(self).page_size,
            page_wf(page, header_start_of(n)),
            page.page_type is TableLeaf,
        ensures
            final(self).wf(),
            final(self).page_size == old(self).page_size,
            final(self).page_count == old(self).page_count,
            final(self).file@ == old(self).file@,
            final(self).spec_page_view(n) == page.data@,
            forall|m: u32|
                1 <= m <= old(self).page_count && m != n ==> final(self).spec_page_view(m)
                    == old(self).spec_page_view(m),
    {
        let clen = self.page_cache.len();
        let mut i: usize = 0;
        while i < clen
            invariant
                i <= clen,
                clen == self.page_cache@.len(),
                self == old(self),
                old(self).wf(),
                1 <= n <= old(self).page_count,
                page.data@.len() == old(self).page_size,
                page_wf(page, header_start_of(n)),
                page.page_type is TableLeaf,
                forall|k: int| 0 <= k < i ==> (#[trigger] self.page_cache@[k].0) != n,
            decreases clen - i,
        {
            if self.page_cache[i].0 == n {
                let ghost c0 = self.page_cache@;
                let ghost pg = page;
                self.page_cache.set(i, (n, page));
                proof {
                    let c1 = self.page_cache@;
                    assert(c1 =~= c0.update(i as int, (n, page)));
                    assert(self.page_count == old(self).page_count);
                    assert(self.page_size == old(self).page_size);
                    assert forall|k: int| 0 <= k < c1.len() implies self.cache_entry_wf(
                        #[trigger] c1[k],
                    ) by {
                        if k != i {
                            assert(c1[k] == c0[k]);
                            assert(old(self).cache_entry_wf(c0[k]));
                            assert(self.cache_entry_wf(c0[k]));
                        } else {
                            assert(c1[k] == (n, pg));
                            assert(1 <= n <= self.page_count);
                            assert(pg.data@.len() == self.page_size);
                            assert(page_wf(pg, header_start_of(n)));
                            assert(pg.page_type is TableLeaf);
                            assert(self.cache_entry_wf((n, pg)));
                        }
                    }
                    lemma_find_cached_hit(c1, n, i as int, clen as int);
                    assert forall|m: u32|
                        1 <= m <= old(self).page_count && m != n implies self.spec_page_view(m)
                            == old(self).spec_page_view(m) by {
                        assert forall|k: int| 0 <= k < clen implies
                            (c1[k].0 == m) == (c0[k].0 == m) by {}
                        lemma_find_cached_same_keys(c0, c1, m, clen as int);
                    }
                }
                return ;
            }
            i = i + 1;
        }
        let ghost c0 = self.page_cache@;
        let ghost pg = page;
        self.page_cache.push((n, page));
        proof {
            assert(self.page_cache@.last() == (n, pg));
            let c1 = self.page_cache@;
            lemma_find_cached_miss(c0, n, clen as int);
            lemma_find_cached_hit(c1, n, clen as int, clen + 1);
            assert forall|m: u32|
                1 <= m <= old(self).page_count && m != n implies self.spec_page_view(m) == old(
                    self,
                ).spec_page_view(m) by {
                lemma_find_cached_prefix(c0, c1, m, clen as int);
                assert(find_cached(c1, m, clen + 1) == find_cached(c1, m, clen as int));
            }
        }
    }
}

/// Two caches whose entries match on a key agree about that key.
proof fn lemma_find_cached_same_keys(c0: Seq<(u32, Page)>, c1: Seq<(u32, Page)>, m: u32, i: int)
    requires
        i <= c0.len(),
        i <= c1.len(),
        forall|k: int| 0 <= k < i ==> ((#[trigger] c0[k].0 == m) ==> c0[k] == c1[k]),
        forall|k: int| 0 <= k < i ==> ((#[trigger] c1[k].0 == m) ==> c0[k] == c1[k]),
    ensures
        find_cached(c0, m, i) == find_cached(c1, m, i),
    decreases i,
{
    if i > 0 {
        lemma_find_cached_same_keys(c0, c1, m, i - 1);
    }
}

/// Reads every row stored on a table-leaf page, in insertion order.
/// Fails with `Corruption` exactly when the pointer array overruns the
/// page or some cell does not decode.
pub fn read_leaf_rows(page_content: &Vec<u8>, header_start: usize) -> (r: Result<
    Vec<Vec<Column>>,
    DbError,
>)
    requires
        header_start + 8 <= page_content@.len(),
        page_content@.len() <= 0xFFFF,
    ensures
        match r {
            Ok(rows) => leaf_rows(page_content@, header_start as int) == Some(rows_view(rows@)),
            Err(e) => e == DbError::Corruption && leaf_rows(
                page_content@,
                header_start as int,
            ) is None,
        },
{
    let n = page_content.len();
    let ghost d = page_content@;
    let ghost hs = header_start as int;
    proof {
        crate::serialise::lemma_be_val_bound(d.subrange(hs + 3, hs + 5));
        assert(pow256(2) == 0x1_0000) by {
            reveal_with_fuel(pow256, 3);
        }
    }
    let count = to_integer(page_content.as_slice(), header_start + 3, 2) as usize;
    if count > (n - header_start - 8) / 2 {
        proof {
            assert(hs + 8 + 2 * spec_cell_count(d, hs) > d.len());
        }
        return Err(DbError::Corruption);
    }
    let mut rows: Vec<Vec<Column>> = Vec::new();
    let mut i: usize = 0;
    proof {
        assert(rows_view(rows@) =~= Seq::<Seq<ColumnV>>::empty());
    }
    while i < count
        invariant
            i <= count,
            d == page_content@,
            hs == header_start as int,
            count == spec_cell_count(d, hs),
            hs + 8 + 2 * count <= n <= 0xFFFF,
            n == d.len(),
            crate::page::leaf_rows_upto(d, hs, i as int) == Some(rows_view(rows@)),
        decreases count - i,
    {
        proof {
            crate::serialise::lemma_be_val_bound(
                d.subrange(hs + 8 + 2 * i, hs + 8 + 2 * i + 2),
            );
            assert(pow256(2) == 0x1_0000) by {
                reveal_with_fuel(pow256, 3);
            }
        }
        let ptr = to_integer(page_content.as_slice(), header_start + 8 + 2 * i, 2) as usize;
        proof {
            assert(ptr == spec_cell_ptr(d, hs, i as int));
        }
        let (row, _end) = match fetch_record(page_content, ptr) {
            Ok(v) => v,
            Err(e) => {
                proof {
                    crate::page::lemma_leaf_rows_upto_none(d, hs, i + 1, count as int);
                }
                return Err(e);
            },
        };
        let ghost old_rows = rows_view(rows@);
        rows.push(row);
        proof {
            assert(rows_view(rows@) =~= old_rows.push(crate::record::row_view(row@)));
        }
        i = i + 1;
    }
    Ok(rows)
}

/// Places one encoded record on the given root page.  The page is fetched
/// through the cache, the cell is added, and the mutated page becomes
/// dirty; nothing is written to the image until `commit`.  On any error
/// the handle is unchanged.
pub fn insert_record(database: &mut Database, record: Vec<u8>, rootpage: u32) -> (r: Result<
    (),
    DbError,
>)
    requires
        old(database).wf(),
        1 <= rootpage <= old(database).page_count,
    ensures
        ({
            let d0 = old(database).spec_page_view(rootpage);
            let hs = header_start_of(rootpage);
            let c = spec_cell_count(d0, hs) as int;
            let e = spec_eff_cc(d0, hs);
            let l = record@.len() as int;
            let ncc = e - l;
            let d1 = final(database).spec_page_view(rootpage);
            match r {
                Ok(()) => {
                    &&& spec_page_type_byte(d0, hs) == 13
                    &&& leaf_space_wf(d0, hs)
                    &&& record@.len() + 2 <= spec_free_space(d0, hs)
                    &&& final(database).wf()
                    &&& final(database).page_size == old(database).page_size
                    &&& final(database).page_count == old(database).page_count
                    &&& final(database).file@ == old(database).file@
                    // the mutated page, dirty in the cache: the record sits at
                    // the new cell-content start, its pointer is appended, the
                    // header counts it
                    &&& d1.len() == d0.len()
                    &&& spec_page_type_byte(d1, hs) == 13
                    &&& leaf_space_wf(d1, hs)
                    &&& spec_cell_count(d1, hs) == c + 1
                    &&& spec_cc_start(d1, hs) == ncc
                    &&& spec_eff_cc(d1, hs) == ncc
                    &&& spec_cell_ptr(d1, hs, c) == ncc
                    &&& d1.subrange(ncc, e) == record@
                    &&& spec_free_space(d1, hs) == spec_free_space(d0, hs) - l - 2
                    &&& forall|j: int|
                        0 <= j < d0.len() && !(ncc <= j < e) && !(hs + 3 <= j < hs + 7)
                            && !(hs + 8 + 2 * c <= j < hs + 8 + 2 * c + 2) ==> d1[j] == d0[j]
                    &&& forall|m: u32|
                        1 <= m <= old(database).page_count && m != rootpage
                            ==> final(database).spec_page_view(m) == old(
                            database,
                        ).spec_page_view(m)
                    &&& forall|rv: Seq<ColumnV>|
                        record@ == record_bytes(rv) && row_storable(rv) && row_encodable(rv)
                            && leaf_ptrs_wf(d0, hs) && (leaf_rows(d0, hs) is Some)
                            ==> leaf_rows(final(database).spec_page_view(rootpage), hs)
                            == Some(leaf_rows(d0, hs)->Some_0.push(rv)) && leaf_ptrs_wf(
                            final(database).spec_page_view(rootpage),
                            hs,
                        )
                },
                Err(e) => {
                    &&& *final(database) == *old(database)
                    &&& (e == DbError::PageFull) == (spec_page_type_byte(d0, hs) == 13
                        && leaf_space_wf(d0, hs) && record@.len() + 2 > spec_free_space(d0, hs))
                    &&& (e == DbError::Unsupported) == (spec_page_type_byte(d0, hs) == 2
                        || spec_page_type_byte(d0, hs) == 5 || spec_page_type_byte(d0, hs)
                        == 10)
                    &&& (e == DbError::Corruption) == ((spec_page_type_byte(d0, hs) != 13
                        && spec_page_type_byte(d0, hs) != 2 && spec_page_type_byte(d0, hs) != 5
                        && spec_page_type_byte(d0, hs) != 10) || (spec_page_type_byte(d0, hs)
                        == 13 && !leaf_space_wf(d0, hs)))
                    &&& (spec_page_type_byte(d0, hs) == 13 && leaf_space_wf(d0, hs)
                        && record@.len() + 2 <= spec_free_space(d0, hs) ==> r is Ok)
                },
            }
        }),
{
    let ghost d0 = old(database).spec_page_view(rootpage);
    let ghost hs_g = header_start_of(rootpage);
    let mut page = match database.read_page(rootpage) {
        Ok(p) => p,
        Err(e) => {
            return Err(e);
        },
    };
    let hs = header_start_for(rootpage);
    let leaf = match &page.page_type {
        PageType::TableLeaf(l) => *l,
        _ => {
            proof {
                assert(false);
            }
            return Err(DbError::Corruption);
        },
    };
    // reject a header whose regions overlap before touching the page
    let ps = page.data.len();
    let eff: usize = if leaf.cell_content_start == 0 {
        ps
    } else {
        leaf.cell_content_start as usize
    };
    if !(hs + 8 + 2 * (leaf.cell_count as usize) <= eff && eff <= ps) {
        proof {
            assert(!leaf_space_wf(d0, hs_g));
        }
        return Err(DbError::Corruption);
    }
    proof {
        assert(leaf_space_wf(d0, hs_g));
    }
    let ghost page_before = page;
    match add_cell(&mut page, hs, &record) {
        Ok(()) => {},
        Err(e) => {
            return Err(e);
        },
    }
    let ghost d1 = page.data@;
    database.store_page(rootpage, page);
    proof {
        assert(database.spec_page_view(rootpage) == d1);
        assert forall|rv: Seq<ColumnV>|
            record@ == record_bytes(rv) && row_storable(rv) && row_encodable(rv)
                && leaf_ptrs_wf(d0, hs_g) && (leaf_rows(d0, hs_g) is Some) implies leaf_rows(
            database.spec_page_view(rootpage),
            hs_g,
        ) == Some(leaf_rows(d0, hs_g)->Some_0.push(rv)) && leaf_ptrs_wf(
            database.spec_page_view(rootpage),
            hs_g,
        ) by {
            lemma_add_cell_rows(d0, d1, hs_g, rv);
        }
    }
    Ok(())
}

} // verus!
