//! The database handle and the B-tree walks: full table scan, lookup by rowid,
//! and equality lookup in an index.
use vstd::prelude::*;
use vstd::utf8::encode_utf8;

use crate::codec::{be_uint, compare_bytes, lex_cmp, read_u16};
use crate::error::DbError;
use crate::page::{decode_page, entries_view, Page, PageModel, PageType};
use crate::record::{
    is_prefix, lemma_prefix_append, lemma_prefix_refl, lemma_prefix_trans, lemma_prepend_append,
    lemma_prepend_empty, prepend, records_view, Record, RecordModel,
};

verus! {

/// Size of the file header that precedes page 1's own header.
pub const DB_HEADER_SIZE: usize = 100;

/// A page size this library reads: a power of two from 512 to 32768.
pub open spec fn valid_page_size(ps: u16) -> bool {
    ps == 512 || ps == 1024 || ps == 2048 || ps == 4096 || ps == 8192 || ps == 16384 || ps == 32768
}

/// The page size that the file header holds in bytes 16 and 17.
pub open spec fn header_page_size(file: Seq<u8>) -> u16 {
    be_uint(file, 16, 2) as u16
}

/// Opening a file: its page size and its decoded page 1.
pub open spec fn open_file(file: Seq<u8>) -> Result<(u16, PageModel), DbError> {
    let ps = header_page_size(file);
    if file.len() < DB_HEADER_SIZE || !valid_page_size(ps) || file.len() < ps {
        Err(DbError::MalformedHeader)
    } else {
        match decode_page(ps, file.subrange(DB_HEADER_SIZE as int, ps as int)) {
            Ok(m) => Ok((ps, m)),
            Err(e) => Err(e),
        }
    }
}

/// Rowids of an index leaf's entries, in order: skipping keys below `key`,
/// taking those equal to it, and stopping at the first key above it.
pub open spec fn leaf_matches(es: Seq<(Seq<char>, u64)>, key: Seq<u8>) -> Seq<u64>
    decreases es.len(),
{
    if es.len() == 0 {
        seq![]
    } else {
        let c = lex_cmp(encode_utf8(es[0].0), key);
        if c < 0 {
            leaf_matches(es.drop_first(), key)
        } else if c == 0 {
            seq![es[0].1] + leaf_matches(es.drop_first(), key)
        } else {
            seq![]
        }
    }
}

/// The position of the first table-interior entry from `i` on whose rowid key
/// is at least `target`; the number of entries if there is none.
pub open spec fn descend_index(es: Seq<(u32, u64)>, target: u64, i: int) -> int
    decreases es.len() - i,
{
    if i >= es.len() {
        es.len() as int
    } else if target <= es[i].1 {
        i
    } else {
        descend_index(es, target, i + 1)
    }
}

/// The first record with rowid `id`.
pub open spec fn first_with_id(rs: Seq<RecordModel>, id: u64) -> Option<RecordModel>
    decreases rs.len(),
{
    if rs.len() == 0 {
        None
    } else if rs[0].id == id {
        Some(rs[0])
    } else {
        first_with_id(rs.drop_first(), id)
    }
}

/// The model of an optional record.
pub open spec fn option_view(o: Option<Record>) -> Option<RecordModel> {
    match o {
        Some(r) => Some(r@),
        None => None,
    }
}

/// The value of an option as a sequence of zero or one items.
pub open spec fn option_seq<T>(o: Option<T>) -> Seq<T> {
    match o {
        Some(x) => seq![x],
        None => seq![],
    }
}

/// An open database: its page size, its decoded page 1 (the catalog), and
/// the bytes of the file.
#[derive(Debug)]
pub struct Database {
    pub page_size: u16,
    pub root_page: Page,
    pub file: Vec<u8>,
}

impl Database {
    /// A readable page size, a file at least one page long, and a well-formed page 1.
    pub open spec fn wf(&self) -> bool {
        &&& valid_page_size(self.page_size)
        &&& self.file@.len() >= self.page_size
        &&& self.root_page.wf()
    }

    /// The number of whole pages in the file.
    pub open spec fn page_count(&self) -> nat {
        (self.file@.len() as int / (self.page_size as int)) as nat
    }

    /// The bytes of page `n` that the page decoder reads.
    pub open spec fn page_bytes(&self, n: int) -> Seq<u8> {
        let ps = self.page_size as int;
        if n == 1 {
            self.file@.subrange(DB_HEADER_SIZE as int, ps)
        } else {
            self.file@.subrange((n - 1) * ps, n * ps)
        }
    }

    /// Page `n` decoded, for `1 <= n <= page_count()`.
    pub open spec fn page_at(&self, n: int) -> Result<PageModel, DbError> {
        if n < 1 || n > self.page_count() {
            Err(DbError::InvalidPageNumber)
        } else {
            decode_page(self.page_size, self.page_bytes(n))
        }
    }

    /// The records of the table B-tree rooted at page `n`, in traversal order.
    /// Each page visited costs one unit of `fuel`; running out means a chain
    /// of child links longer than the file, which only a cycle can make.
    pub open spec fn table_rows(&self, n: int, fuel: nat) -> Result<Seq<RecordModel>, DbError>
        decreases fuel, 0int,
    {
        if fuel == 0 {
            Err(DbError::CorruptLink)
        } else {
            match self.page_at(n) {
                Err(e) => Err(e),
                Ok(pg) => if pg.kind == PageType::TableLeaf {
                    pg.records()
                } else if pg.kind == PageType::TableInterior {
                    match pg.child_pages() {
                        Err(e) => Err(e),
                        Ok(kids) => self.children_rows(kids, 0, (fuel - 1) as nat),
                    }
                } else {
                    Err(DbError::CorruptLink)
                },
            }
        }
    }

    /// The records under child pages `kids[i..]`, in order; page 0 is skipped.
    pub open spec fn children_rows(&self, kids: Seq<u32>, i: int, fuel: nat) -> Result<
        Seq<RecordModel>,
        DbError,
    >
        decreases fuel, kids.len() + 1 - i,
    {
        if i < 0 || i >= kids.len() {
            Ok(seq![])
        } else if kids[i] == 0 {
            self.children_rows(kids, i + 1, fuel)
        } else {
            match self.table_rows(kids[i] as int, fuel) {
                Err(e) => Err(e),
                Ok(a) => prepend(a, self.children_rows(kids, i + 1, fuel)),
            }
        }
    }

    /// The record with rowid `target` in the table B-tree rooted at page `n`,
    /// found by descending into the first child whose key is at least `target`.
    pub open spec fn row_by_id(&self, n: int, target: u64, fuel: nat) -> Result<
        Option<RecordModel>,
        DbError,
    >
        decreases fuel,
    {
        if fuel == 0 {
            Err(DbError::CorruptLink)
        } else {
            match self.page_at(n) {
                Err(e) => Err(e),
                Ok(pg) => if pg.kind == PageType::TableLeaf {
                    match pg.records() {
                        Err(e) => Err(e),
                        Ok(rs) => Ok(first_with_id(rs, target)),
                    }
                } else if pg.kind == PageType::TableInterior {
                    match pg.table_interior_entries() {
                        Err(e) => Err(e),
                        Ok(es) => {
                            let j = descend_index(es, target, 0);
                            if 0 <= j < es.len() {
                                self.row_by_id(es[j].0 as int, target, (fuel - 1) as nat)
                            } else {
                                match pg.right {
                                    Some(r) => self.row_by_id(r as int, target, (fuel - 1) as nat),
                                    None => Ok(None),
                                }
                            }
                        },
                    }
                } else {
                    Err(DbError::CorruptLink)
                },
            }
        }
    }

    /// The records with rowids `ids`, in that order, skipping rowids not found.
    pub open spec fn rows_by_ids(&self, root: int, ids: Seq<u64>, fuel: nat) -> Result<
        Seq<RecordModel>,
        DbError,
    >
        decreases ids.len(),
    {
        if ids.len() == 0 {
            Ok(seq![])
        } else {
            match self.row_by_id(root, ids[0], fuel) {
                Err(e) => Err(e),
                Ok(o) => prepend(option_seq(o), self.rows_by_ids(root, ids.drop_first(), fuel)),
            }
        }
    }

    /// The rowids that the index B-tree rooted at page `n` holds under `key`,
    /// by the walk that the index's order permits.
    pub open spec fn index_rowids(&self, n: int, key: Seq<u8>, fuel: nat) -> Result<Seq<u64>, DbError>
        decreases fuel, 0int,
    {
        if fuel == 0 {
            Err(DbError::CorruptLink)
        } else {
            match self.page_at(n) {
                Err(e) => Err(e),
                Ok(pg) => if pg.kind == PageType::IndexLeaf {
                    match pg.index_leaf_entries() {
                        Err(e) => Err(e),
                        Ok(es) => Ok(leaf_matches(es, key)),
                    }
                } else if pg.kind == PageType::IndexInterior {
                    match pg.index_interior_entries() {
                        Err(e) => Err(e),
                        Ok(es) => self.interior_rowids(es, pg.right, key, 0, (fuel - 1) as nat),
                    }
                } else {
                    Err(DbError::CorruptLink)
                },
            }
        }
    }

    /// The walk of an index-interior page from its `i`-th entry on: descend
    /// left of the first separator above `key`; on a separator equal to `key`,
    /// descend on both of its sides; past the last separator, descend right.
    pub open spec fn interior_rowids(
        &self,
        es: Seq<(Seq<char>, u32)>,
        right: Option<u32>,
        key: Seq<u8>,
        i: int,
        fuel: nat,
    ) -> Result<Seq<u64>, DbError>
        decreases fuel, if i <= es.len() { es.len() + 1 - i } else { 1 },
    {
        if i < 0 || i >= es.len() {
            match right {
                Some(r) => self.index_rowids(r as int, key, fuel),
                None => Ok(seq![]),
            }
        } else {
            let c = lex_cmp(key, encode_utf8(es[i].0));
            if c < 0 {
                self.index_rowids(es[i].1 as int, key, fuel)
            } else if c == 0 {
                match self.index_rowids(es[i].1 as int, key, fuel) {
                    Err(e) => Err(e),
                    Ok(a) => if i + 1 < es.len() {
                        prepend(a, self.index_rowids(es[i + 1].1 as int, key, fuel))
                    } else {
                        match right {
                            Some(r) => prepend(a, self.index_rowids(r as int, key, fuel)),
                            None => Ok(a),
                        }
                    },
                }
            } else {
                self.interior_rowids(es, right, key, i + 1, fuel)
            }
        }
    }

    /// Opens a database from the bytes of its file: reads the page size from
    /// the file header and decodes page 1.
    pub fn from_bytes(file: Vec<u8>) -> (r: Result<Database, DbError>)
        ensures
            match open_file(file@) {
                Ok((ps, m)) => r is Ok && r->Ok_0.page_size == ps && r->Ok_0.root_page@ == m
                    && r->Ok_0.file@ == file@ && r->Ok_0.wf(),
                Err(e) => r == Err::<Database, DbError>(e),
            },
    {
        if file.len() < DB_HEADER_SIZE {
            return Err(DbError::MalformedHeader);
        }
        let ps = read_u16(file.as_slice(), 16);
        let valid = ps == 512 || ps == 1024 || ps == 2048 || ps == 4096 || ps == 8192 || ps == 16384
            || ps == 32768;
        if !valid || file.len() < ps as usize {
            return Err(DbError::MalformedHeader);
        }
        let raw = vstd::slice::slice_to_vec(&file.as_slice()[DB_HEADER_SIZE..ps as usize]);
        let root_page = match Page::from_data(ps, raw) {
            Ok(p) => p,
            Err(e) => return Err(e),
        };
        Ok(Database { page_size: ps, root_page, file })
    }

    /// The number of catalog entries on page 1.
    pub fn object_count(&self) -> (r: usize)
        ensures
            r == self.root_page@.cells.len(),
    {
        self.root_page.cell_pointers.len()
    }

    /// The catalog rows on page 1: `[type, name, tbl_name, rootpage, sql]`.
    pub fn catalog(&self) -> (r: Result<Vec<Record>, DbError>)
        requires
            self.wf(),
        ensures
            match self.root_page@.records() {
                Ok(rs) => r is Ok && records_view(r->Ok_0@) == rs,
                Err(e) => r == Err::<Vec<Record>, DbError>(e),
            },
    {
        self.root_page.records()
    }

    /// Loads and decodes page `page_number`; pages are numbered from 1.
    pub fn load_page(&self, page_number: usize) -> (r: Result<Page, DbError>)
        requires
            self.wf(),
        ensures
            match self.page_at(page_number as int) {
                Ok(m) => r is Ok && r->Ok_0@ == m && r->Ok_0.wf(),
                Err(e) => r == Err::<Page, DbError>(e),
            },
    {
        let ps = self.page_size as usize;
        if page_number == 0 || page_number > self.file.len() / ps {
            return Err(DbError::InvalidPageNumber);
        }
        let bytes = if page_number == 1 {
            vstd::slice::slice_to_vec(&self.file.as_slice()[DB_HEADER_SIZE..ps])
        } else {
            let len = self.file.len();
            assert(page_number * ps <= len) by (nonlinear_arith)
                requires
                    page_number <= len / ps,
                    ps > 0,
            ;
            assert((page_number - 1) * ps <= page_number * ps) by (nonlinear_arith)
                requires
                    page_number >= 1,
                    ps > 0,
            ;
            vstd::slice::slice_to_vec(&self.file.as_slice()[(page_number - 1) * ps..page_number * ps])
        };
        let r = Page::from_data(self.page_size, bytes);
        r
    }

    fn traverse_btree(&self, page_num: usize, fuel: usize, records: &mut Vec<Record>) -> (r: Result<(), DbError>)
        requires
            self.wf(),
        ensures
            is_prefix(old(records)@, final(records)@),
            match self.table_rows(page_num as int, fuel as nat) {
                Ok(rs) => r is Ok && records_view(final(records)@) == records_view(old(records)@) + rs,
                Err(e) => r == Err::<(), DbError>(e),
            },
        decreases fuel,
    {
        proof {
            lemma_prefix_refl(records@);
        }
        if fuel == 0 {
            return Err(DbError::CorruptLink);
        }
        let page = match self.load_page(page_num) {
            Ok(p) => p,
            Err(e) => return Err(e),
        };
        if page.typ == PageType::TableLeaf {
            let mut rs = match page.records() {
                Ok(v) => v,
                Err(e) => return Err(e),
            };
            let ghost before = records@;
            let ghost added = rs@;
            records.append(&mut rs);
            assert(records_view(records@) =~= records_view(before) + records_view(added));
            proof {
                lemma_prefix_append(before, added);
            }
            Ok(())
        } else if page.typ == PageType::TableInterior {
            let kids = match page.get_child_pages() {
                Ok(k) => k,
                Err(e) => return Err(e),
            };
            let ghost start = records_view(records@);
            let ghost f = (fuel - 1) as nat;
            let mut i: usize = 0;
            while i < kids.len()
                invariant
                    self.wf(),
                    1 <= fuel,
                    f == fuel - 1,
                    i <= kids@.len(),
                    start == records_view(old(records)@),
                    is_prefix(old(records)@, records@),
                    self.table_rows(page_num as int, fuel as nat) == self.children_rows(kids@, 0, f),
                    prepend(start, self.children_rows(kids@, 0, f)) == prepend(
                        records_view(records@),
                        self.children_rows(kids@, i as int, f),
                    ),
                decreases kids@.len() - i,
            {
                let k = kids[i];
                if k != 0 {
                    let ghost cur = records_view(records@);
                    let ghost cur_raw = records@;
                    let res = self.traverse_btree(k as usize, fuel - 1, records);
                    proof {
                        lemma_prefix_trans(old(records)@, cur_raw, records@);
                    }
                    match res {
                        Ok(()) => {},
                        Err(e) => return Err(e),
                    }
                    proof {
                        lemma_prepend_append(
                            cur,
                            self.table_rows(k as int, f)->Ok_0,
                            self.children_rows(kids@, i + 1, f),
                        );
                    }
                }
                i = i + 1;
            }
            proof {
                assert(records_view(records@) + seq![] =~= records_view(records@));
            }
            Ok(())
        } else {
            Err(DbError::CorruptLink)
        }
    }

    /// Every record of the table B-tree rooted at `root_page_num`, in rowid order.
    pub fn get_all_records(&self, root_page_num: usize) -> (r: Result<Vec<Record>, DbError>)
        requires
            self.wf(),
        ensures
            match self.table_rows(root_page_num as int, self.page_count()) {
                Ok(rs) => r is Ok && records_view(r->Ok_0@) == rs,
                Err(e) => r == Err::<Vec<Record>, DbError>(e),
            },
    {
        let mut all: Vec<Record> = Vec::new();
        assert(records_view(all@) =~= seq![]);
        let fuel = self.file.len() / self.page_size as usize;
        match self.traverse_btree(root_page_num, fuel, &mut all) {
            Ok(()) => {
                assert(seq![] + self.table_rows(root_page_num as int, self.page_count())->Ok_0
                    =~= self.table_rows(root_page_num as int, self.page_count())->Ok_0);
                Ok(all)
            },
            Err(e) => Err(e),
        }
    }

    fn search_table_btree(&self, page_num: usize, target_rowid: u64, fuel: usize) -> (r: Result<
        Option<Record>,
        DbError,
    >)
        requires
            self.wf(),
        ensures
            match self.row_by_id(page_num as int, target_rowid, fuel as nat) {
                Ok(o) => r is Ok && option_view(r->Ok_0) == o,
                Err(e) => r == Err::<Option<Record>, DbError>(e),
            },
        decreases fuel,
    {
        if fuel == 0 {
            return Err(DbError::CorruptLink);
        }
        let page = match self.load_page(page_num) {
            Ok(p) => p,
            Err(e) => return Err(e),
        };
        if page.typ == PageType::TableLeaf {
            let mut rs = match page.records() {
                Ok(v) => v,
                Err(e) => return Err(e),
            };
            let ghost rv = records_view(rs@);
            assert(rv.subrange(0, rv.len() as int) =~= rv);
            let mut i: usize = 0;
            while i < rs.len()
                invariant
                    rv == records_view(rs@),
                    i <= rs@.len(),
                    self.row_by_id(page_num as int, target_rowid, fuel as nat) == Ok::<Option<RecordModel>, DbError>(first_with_id(rv, target_rowid)),
                    first_with_id(rv, target_rowid) == first_with_id(rv.subrange(i as int, rv.len() as int), target_rowid),
                decreases rs@.len() - i,
            {
                assert(rv.subrange(i as int, rv.len() as int).drop_first() =~= rv.subrange(i + 1, rv.len() as int));
                assert(rv[i as int] == rs@[i as int]@);
                if rs[i].id == target_rowid {
                    let rec = rs.remove(i);
                    return Ok(Some(rec));
                }
                i = i + 1;
            }
            Ok(None)
        } else if page.typ == PageType::TableInterior {
            let es = match page.table_interior_entries() {
                Ok(v) => v,
                Err(e) => return Err(e),
            };
            let mut i: usize = 0;
            while i < es.len()
                invariant
                    self.wf(),
                    1 <= fuel,
                    i <= es@.len(),
                    self.page_at(page_num as int) == Ok::<PageModel, DbError>(page@),
                    page@.table_interior_entries() == Ok::<Seq<(u32, u64)>, DbError>(es@),
                    page@.kind == PageType::TableInterior,
                    descend_index(es@, target_rowid, 0) == descend_index(es@, target_rowid, i as int),
                decreases es@.len() - i,
            {
                if target_rowid <= es[i].1 {
                    return self.search_table_btree(es[i].0 as usize, target_rowid, fuel - 1);
                }
                i = i + 1;
            }
            match page.right_most_child {
                Some(right) => self.search_table_btree(right as usize, target_rowid, fuel - 1),
                None => Ok(None),
            }
        } else {
            Err(DbError::CorruptLink)
        }
    }

    /// The record with rowid `rowid` in the table B-tree rooted at
    /// `table_root_page`, found by descending one path from the root.
    pub fn fetch_record_by_rowid(&self, table_root_page: usize, rowid: u64) -> (r: Result<
        Option<Record>,
        DbError,
    >)
        requires
            self.wf(),
        ensures
            match self.row_by_id(table_root_page as int, rowid, self.page_count()) {
                Ok(o) => r is Ok && option_view(r->Ok_0) == o,
                Err(e) => r == Err::<Option<Record>, DbError>(e),
            },
    {
        self.search_table_btree(table_root_page, rowid, self.file.len() / self.page_size as usize)
    }

    /// The records with the given rowids, in the order of `rowids`; a rowid
    /// that the table does not hold is skipped.
    pub fn fetch_records_by_rowids(&self, table_root_page: usize, rowids: &[u64]) -> (r: Result<
        Vec<Record>,
        DbError,
    >)
        requires
            self.wf(),
        ensures
            match self.rows_by_ids(table_root_page as int, rowids@, self.page_count()) {
                Ok(rs) => r is Ok && records_view(r->Ok_0@) == rs,
                Err(e) => r == Err::<Vec<Record>, DbError>(e),
            },
    {
        let ghost ids = rowids@;
        let ghost root = table_root_page as int;
        let ghost fuel = self.page_count();
        let mut results: Vec<Record> = Vec::new();
        assert(records_view(results@) =~= seq![]);
        assert(ids.subrange(0, ids.len() as int) =~= ids);
        proof {
            lemma_prepend_empty(self.rows_by_ids(root, ids, fuel));
        }
        let mut i: usize = 0;
        while i < rowids.len()
            invariant
                self.wf(),
                ids == rowids@,
                root == table_root_page as int,
                fuel == self.page_count(),
                i <= ids.len(),
                self.rows_by_ids(root, ids, fuel) == prepend(
                    records_view(results@),
                    self.rows_by_ids(root, ids.subrange(i as int, ids.len() as int), fuel),
                ),
            decreases ids.len() - i,
        {
            let ghost rest = ids.subrange(i + 1, ids.len() as int);
            assert(ids.subrange(i as int, ids.len() as int).drop_first() =~= rest);
            let found = match self.fetch_record_by_rowid(table_root_page, rowids[i]) {
                Ok(o) => o,
                Err(e) => return Err(e),
            };
            let ghost cur = records_view(results@);
            match found {
                Some(rec) => {
                    proof {
                        crate::record::lemma_prepend_push(cur, rec@, self.rows_by_ids(root, rest, fuel));
                    }
                    results.push(rec);
                    assert(records_view(results@) =~= cur.push(rec@));
                },
                None => {
                    proof {
                        lemma_prepend_append(cur, seq![], self.rows_by_ids(root, rest, fuel));
                        assert(cur + seq![] =~= cur);
                    }
                },
            }
            i = i + 1;
        }
        assert(ids.subrange(ids.len() as int, ids.len() as int) =~= Seq::<u64>::empty());
        assert(records_view(results@) + seq![] =~= records_view(results@));
        Ok(results)
    }

    /// Walks the subtree left of a separator equal to the key, then the one
    /// right of it, if any.
    #[verifier::rlimit(30)]
    fn traverse_both_sides(
        &self,
        left: u32,
        next: Option<u32>,
        target: &[u8],
        fuel: usize,
        rowids: &mut Vec<u64>,
    ) -> (r: Result<(), DbError>)
        requires
            self.wf(),
        ensures
            is_prefix(old(rowids)@, final(rowids)@),
            match self.index_rowids(left as int, target@, fuel as nat) {
                Err(e) => r == Err::<(), DbError>(e),
                Ok(a) => match next {
                    None => r is Ok && final(rowids)@ == old(rowids)@ + a,
                    Some(n) => match self.index_rowids(n as int, target@, fuel as nat) {
                        Ok(b) => r is Ok && final(rowids)@ == old(rowids)@ + (a + b),
                        Err(e) => r == Err::<(), DbError>(e),
                    },
                },
            },
        decreases fuel, 2int,
    {
        match self.traverse_index(left as usize, target, fuel, rowids) {
            Ok(()) => {},
            Err(e) => return Err(e),
        }
        let ghost mid = rowids@;
        match next {
            Some(child) => {
                let r = self.traverse_index(child as usize, target, fuel, rowids);
                proof {
                    lemma_prefix_trans(old(rowids)@, mid, rowids@);
                    if r is Ok {
                        let a = self.index_rowids(left as int, target@, fuel as nat)->Ok_0;
                        let b = self.index_rowids(child as int, target@, fuel as nat)->Ok_0;
                        assert(old(rowids)@ + (a + b) =~= mid + b);
                    }
                }
                r
            },
            None => Ok(()),
        }
    }

    fn traverse_index(&self, page_num: usize, target: &[u8], fuel: usize, rowids: &mut Vec<u64>) -> (r:
        Result<(), DbError>)
        requires
            self.wf(),
        ensures
            is_prefix(old(rowids)@, final(rowids)@),
            match self.index_rowids(page_num as int, target@, fuel as nat) {
                Ok(s) => r is Ok && final(rowids)@ == old(rowids)@ + s,
                Err(e) => r == Err::<(), DbError>(e),
            },
        decreases fuel, 1int,
    {
        proof {
            lemma_prefix_refl(rowids@);
        }
        if fuel == 0 {
            return Err(DbError::CorruptLink);
        }
        let page = match self.load_page(page_num) {
            Ok(p) => p,
            Err(e) => return Err(e),
        };
        let ghost key = target@;
        if page.typ == PageType::IndexLeaf {
            let es = match page.index_leaf_entries() {
                Ok(v) => v,
                Err(e) => return Err(e),
            };
            let ghost ev = entries_view(es@);
            let ghost start = rowids@;
            assert(ev.subrange(0, ev.len() as int) =~= ev);
            assert(start + leaf_matches(ev, key) =~= rowids@ + leaf_matches(ev, key));
            let mut i: usize = 0;
            while i < es.len()
                invariant
                    ev == entries_view(es@),
                    key == target@,
                    i <= ev.len(),
                    start == old(rowids)@,
                    is_prefix(old(rowids)@, rowids@),
                    self.index_rowids(page_num as int, key, fuel as nat) == Ok::<Seq<u64>, DbError>(leaf_matches(ev, key)),
                    start + leaf_matches(ev, key) == rowids@ + leaf_matches(
                        ev.subrange(i as int, ev.len() as int),
                        key,
                    ),
                decreases ev.len() - i,
            {
                let ghost tail = ev.subrange(i + 1, ev.len() as int);
                assert(ev.subrange(i as int, ev.len() as int).drop_first() =~= tail);
                assert(ev[i as int] == (es@[i as int].0@, es@[i as int].1));
                let c = compare_bytes(es[i].0.as_str().as_bytes(), target);
                if c == 0 {
                    let ghost cur = rowids@;
                    rowids.push(es[i].1);
                    proof {
                        lemma_prefix_append(cur, seq![es@[i as int].1]);
                        assert(cur + seq![es@[i as int].1] =~= rowids@);
                        lemma_prefix_trans(old(rowids)@, cur, rowids@);
                    }
                    assert(cur + (seq![es@[i as int].1] + leaf_matches(tail, key)) =~= rowids@ + leaf_matches(tail, key));
                    i = i + 1;
                } else if c < 0 {
                    i = i + 1;
                } else {
                    assert(ev.subrange(es.len() as int, ev.len() as int) =~= Seq::<(Seq<char>, u64)>::empty());
                    i = es.len();
                }
            }
            assert(ev.subrange(ev.len() as int, ev.len() as int) =~= Seq::<(Seq<char>, u64)>::empty());
            assert(rowids@ + seq![] =~= rowids@);
            Ok(())
        } else if page.typ == PageType::IndexInterior {
            let es = match page.index_interior_entries() {
                Ok(v) => v,
                Err(e) => return Err(e),
            };
            let ghost ev = entries_view(es@);
            let ghost f = (fuel - 1) as nat;
            let mut i: usize = 0;
            while i < es.len()
                invariant
                    self.wf(),
                    ev == entries_view(es@),
                    key == target@,
                    1 <= fuel,
                    f == fuel - 1,
                    i <= ev.len(),
                    rowids@ == old(rowids)@,
                    self.index_rowids(page_num as int, key, fuel as nat) == self.interior_rowids(
                        ev,
                        page.right_most_child,
                        key,
                        i as int,
                        f,
                    ),
                decreases ev.len() - i,
            {
                assert(ev[i as int] == (es@[i as int].0@, es@[i as int].1));
                let c = compare_bytes(target, es[i].0.as_str().as_bytes());
                if c < 0 {
                    return self.traverse_index(es[i].1 as usize, target, fuel - 1, rowids);
                }
                if c == 0 {
                    let next = if i + 1 < es.len() {
                        assert(ev[i + 1] == (es@[i + 1].0@, es@[i + 1].1));
                        Some(es[i + 1].1)
                    } else {
                        page.right_most_child
                    };
                    return self.traverse_both_sides(es[i].1, next, target, fuel - 1, rowids);
                }
                i = i + 1;
            }
            match page.right_most_child {
                Some(right) => self.traverse_index(right as usize, target, fuel - 1, rowids),
                None => {
                    assert(rowids@ + seq![] =~= rowids@);
                    Ok(())
                },
            }
        } else {
            Err(DbError::CorruptLink)
        }
    }

    /// The rowids that the index B-tree rooted at `index_root_page` holds under
    /// the text key `target_country`, in the index's order.
    pub fn lookup_rowids_by_country(&self, index_root_page: usize, target_country: &str) -> (r:
        Result<Vec<u64>, DbError>)
        requires
            self.wf(),
        ensures
            match self.index_rowids(index_root_page as int, encode_utf8(target_country@), self.page_count()) {
                Ok(s) => r is Ok && r->Ok_0@ == s,
                Err(e) => r == Err::<Vec<u64>, DbError>(e),
            },
    {
        let mut rowids: Vec<u64> = Vec::new();
        let fuel = self.file.len() / self.page_size as usize;
        match self.traverse_index(index_root_page, target_country.as_bytes(), fuel, &mut rowids) {
            Ok(()) => {
                assert(rowids@ =~= seq![] + rowids@);
                Ok(rowids)
            },
            Err(e) => Err(e),
        }
    }

    /// Index-assisted equality query: the records of the table rooted at
    /// `table_root_page` whose rowids the index rooted at `index_root_page`
    /// holds under `value`, in the index's order.
    pub fn find_by_index(&self, table_root_page: usize, index_root_page: usize, value: &str) -> (r:
        Result<Vec<Record>, DbError>)
        requires
            self.wf(),
        ensures
            match self.index_rowids(index_root_page as int, encode_utf8(value@), self.page_count()) {
                Err(e) => r == Err::<Vec<Record>, DbError>(e),
                Ok(ids) => match self.rows_by_ids(table_root_page as int, ids, self.page_count()) {
                    Ok(rs) => r is Ok && records_view(r->Ok_0@) == rs,
                    Err(e) => r == Err::<Vec<Record>, DbError>(e),
                },
            },
    {
        let rowids = match self.lookup_rowids_by_country(index_root_page, value) {
            Ok(ids) => ids,
            Err(e) => return Err(e),
        };
        self.fetch_records_by_rowids(table_root_page, rowids.as_slice())
    }
}

} // verus!
