//! Decoding of one B-tree page: its header, cell pointers and cells.
use vstd::prelude::*;

use crate::codec::{be_uint, lemma_varint_size, read_u16, read_u32, read_varint, varint_at};
use crate::error::DbError;
use crate::record::{
    prepend, read_record_values, record_values, records_view, values_view, Record, RecordModel,
    RecordValue, ValueModel,
};

verus! {

/// The four kinds of B-tree page.
#[derive(Debug, Clone, Copy, PartialEq, Eq, Structural)]
pub enum PageType {
    TableLeaf,
    TableInterior,
    IndexLeaf,
    IndexInterior,
}

/// The page kind that a page's first byte names.
pub open spec fn kind_of(b: u8) -> Option<PageType> {
    if b == 13 {
        Some(PageType::TableLeaf)
    } else if b == 5 {
        Some(PageType::TableInterior)
    } else if b == 10 {
        Some(PageType::IndexLeaf)
    } else if b == 2 {
        Some(PageType::IndexInterior)
    } else {
        None
    }
}

pub open spec fn is_interior(k: PageType) -> bool {
    k == PageType::TableInterior || k == PageType::IndexInterior
}

/// Length of the page header: interior pages carry a rightmost child pointer.
pub open spec fn header_len(k: PageType) -> int {
    if is_interior(k) {
        12
    } else {
        8
    }
}

/// A decoded page. `cells` index into `payload`, which starts right after
/// the cell-pointer array.
pub struct PageModel {
    pub kind: PageType,
    pub cells: Seq<usize>,
    pub right: Option<u32>,
    pub payload: Seq<u8>,
}

/// The `i`-th raw cell pointer, measured from the start of the page.
pub open spec fn cell_pointer(r: Seq<u8>, h: int, i: int) -> int {
    be_uint(r, h + 2 * i, 2)
}

/// Decodes a page of a database with pages of `ps` bytes. `r` runs from the
/// page header to the end of the page (on page 1 it starts after the file header).
pub open spec fn decode_page(ps: u16, r: Seq<u8>) -> Result<PageModel, DbError> {
    if r.len() == 0 || r.len() > ps {
        Err(DbError::MalformedPage)
    } else {
        match kind_of(r[0]) {
            None => Err(DbError::BadPageKind),
            Some(k) => {
                let h = header_len(k);
                let count = be_uint(r, 3, 2);
                let start = h + 2 * count;
                let base = ps - r.len() + start;
                if r.len() < h || start > r.len() {
                    Err(DbError::MalformedPage)
                } else if exists|i: int|
                    0 <= i < count && !(base <= #[trigger] cell_pointer(r, h, i) < ps) {
                    Err(DbError::MalformedPage)
                } else {
                    Ok(
                        PageModel {
                            kind: k,
                            cells: Seq::new(count as nat, |i: int| (cell_pointer(r, h, i) - base) as usize),
                            right: if is_interior(k) {
                                Some(be_uint(r, 8, 4) as u32)
                            } else {
                                None
                            },
                            payload: r.subrange(start, r.len() as int),
                        },
                    )
                }
            },
        }
    }
}

/// The values of `s` if every result is `Ok`; otherwise its first error.
pub open spec fn collect_ok<T>(s: Seq<Result<T, DbError>>) -> Result<Seq<T>, DbError>
    decreases s.len(),
{
    if s.len() == 0 {
        Ok(seq![])
    } else {
        match s[0] {
            Err(e) => Err(e),
            Ok(x) => prepend(seq![x], collect_ok(s.drop_first())),
        }
    }
}

pub proof fn lemma_collect_step<T>(s: Seq<Result<T, DbError>>, i: int)
    requires
        0 <= i < s.len(),
    ensures
        collect_ok(s.subrange(i, s.len() as int)) == match s[i] {
            Err(e) => Err(e),
            Ok(x) => prepend(seq![x], collect_ok(s.subrange(i + 1, s.len() as int))),
        },
{
    assert(s.subrange(i, s.len() as int).drop_first() =~= s.subrange(i + 1, s.len() as int));
}

pub proof fn lemma_collect_start<T>(s: Seq<Result<T, DbError>>)
    ensures
        collect_ok(s) == prepend(seq![], collect_ok(s.subrange(0, s.len() as int))),
{
    assert(s.subrange(0, s.len() as int) =~= s);
    crate::record::lemma_prepend_empty(collect_ok(s));
}

pub proof fn lemma_collect_end<T>(acc: Seq<T>, s: Seq<Result<T, DbError>>)
    ensures
        prepend(acc, collect_ok(s.subrange(s.len() as int, s.len() as int))) == Ok::<Seq<T>, DbError>(acc),
{
    assert(s.subrange(s.len() as int, s.len() as int) =~= Seq::<Result<T, DbError>>::empty());
    assert(acc + seq![] =~= acc);
}

// ------------------------------------------------------------------- cells

/// A table-leaf cell: payload size, rowid, then the record.
pub open spec fn table_leaf_cell(d: Seq<u8>, p: int) -> Result<RecordModel, DbError> {
    match varint_at(d, d.len() as int, p) {
        None => Err(DbError::MalformedVarint),
        Some((size, l1)) => match varint_at(d, d.len() as int, p + l1) {
            None => Err(DbError::MalformedVarint),
            Some((rowid, l2)) => {
                let b = p + l1 + l2;
                if size > d.len() - b {
                    Err(DbError::UnsupportedOverflow)
                } else {
                    match record_values(d, b, b + size) {
                        Ok(vs) => Ok(RecordModel { id: rowid, values: vs }),
                        Err(e) => Err(e),
                    }
                }
            },
        },
    }
}

/// A table-interior cell: left child page, then the rowid key.
pub open spec fn table_interior_cell(d: Seq<u8>, p: int) -> Result<(u32, u64), DbError> {
    if p + 4 > d.len() {
        Err(DbError::MalformedRecord)
    } else {
        match varint_at(d, d.len() as int, p + 4) {
            None => Err(DbError::MalformedVarint),
            Some((key, _)) => Ok((be_uint(d, p, 4) as u32, key)),
        }
    }
}

/// The record of `size` bytes after a payload-size varint that ends at `b`.
pub open spec fn index_record(d: Seq<u8>, b: int, size: u64) -> Result<Seq<ValueModel>, DbError> {
    if size > d.len() - b {
        Err(DbError::UnsupportedOverflow)
    } else {
        record_values(d, b, b + size)
    }
}

/// An index-leaf cell: payload size, then the record `(TEXT key, INTEGER rowid)`.
pub open spec fn index_leaf_cell(d: Seq<u8>, p: int) -> Result<(Seq<char>, u64), DbError> {
    match varint_at(d, d.len() as int, p) {
        None => Err(DbError::MalformedVarint),
        Some((size, l)) => match index_record(d, p + l, size) {
            Err(e) => Err(e),
            Ok(vs) => if vs.len() == 2 && vs[0] is Text && vs[1] is Int {
                Ok((vs[0]->Text_0, vs[1]->Int_0 as u64))
            } else {
                Err(DbError::MalformedRecord)
            },
        },
    }
}

/// An index-interior cell: left child page, payload size, then a record whose
/// first column is the separator key.
pub open spec fn index_interior_cell(d: Seq<u8>, p: int) -> Result<(Seq<char>, u32), DbError> {
    if p + 4 > d.len() {
        Err(DbError::MalformedRecord)
    } else {
        match varint_at(d, d.len() as int, p + 4) {
            None => Err(DbError::MalformedVarint),
            Some((size, l)) => match index_record(d, p + 4 + l, size) {
                Err(e) => Err(e),
                Ok(vs) => if vs.len() >= 1 && vs[0] is Text {
                    Ok((vs[0]->Text_0, be_uint(d, p, 4) as u32))
                } else {
                    Err(DbError::MalformedRecord)
                },
            },
        }
    }
}

/// The left child page of the interior cell at `p`: its first four bytes; a
/// cell too short to hold them is malformed.
pub open spec fn left_child(d: Seq<u8>, p: int) -> Result<u32, DbError> {
    if p + 4 > d.len() {
        Err(DbError::MalformedRecord)
    } else {
        Ok(be_uint(d, p, 4) as u32)
    }
}

impl PageModel {
    /// Every cell offset lies inside the payload, and exactly the interior
    /// pages have a rightmost child.
    pub open spec fn wf(self) -> bool {
        &&& forall|i: int| 0 <= i < self.cells.len() ==> #[trigger] self.cells[i] < self.payload.len()
        &&& (self.right is Some) == is_interior(self.kind)
    }

    pub open spec fn record_results(self) -> Seq<Result<RecordModel, DbError>> {
        self.cells.map_values(|c: usize| table_leaf_cell(self.payload, c as int))
    }

    /// The page's cells read as table-leaf records.
    pub open spec fn records(self) -> Result<Seq<RecordModel>, DbError> {
        collect_ok(self.record_results())
    }

    pub open spec fn table_interior_results(self) -> Seq<Result<(u32, u64), DbError>> {
        self.cells.map_values(|c: usize| table_interior_cell(self.payload, c as int))
    }

    pub open spec fn table_interior_entries(self) -> Result<Seq<(u32, u64)>, DbError> {
        collect_ok(self.table_interior_results())
    }

    pub open spec fn index_leaf_results(self) -> Seq<Result<(Seq<char>, u64), DbError>> {
        self.cells.map_values(|c: usize| index_leaf_cell(self.payload, c as int))
    }

    pub open spec fn index_leaf_entries(self) -> Result<Seq<(Seq<char>, u64)>, DbError> {
        collect_ok(self.index_leaf_results())
    }

    pub open spec fn index_interior_results(self) -> Seq<Result<(Seq<char>, u32), DbError>> {
        self.cells.map_values(|c: usize| index_interior_cell(self.payload, c as int))
    }

    pub open spec fn index_interior_entries(self) -> Result<Seq<(Seq<char>, u32)>, DbError> {
        collect_ok(self.index_interior_results())
    }

    pub open spec fn left_child_results(self) -> Seq<Result<u32, DbError>> {
        self.cells.map_values(|c: usize| left_child(self.payload, c as int))
    }

    /// Child page numbers of an interior page: each cell's left child, then
    /// the rightmost child; the first malformed cell is an error. A leaf has none.
    pub open spec fn child_pages(self) -> Result<Seq<u32>, DbError> {
        if is_interior(self.kind) {
            match collect_ok(self.left_child_results()) {
                Err(e) => Err(e),
                Ok(ls) => Ok(
                    ls + match self.right {
                        Some(r) => seq![r],
                        None => seq![],
                    },
                ),
            }
        } else {
            Ok(seq![])
        }
    }
}

/// Every page that decodes is well formed: each cell offset `c` satisfies
/// `0 <= c <= payload.len() - 1`, so every cell is read from inside the
/// payload, which is the page after its cell-pointer array.
pub proof fn lemma_decode_page_wf(ps: u16, r: Seq<u8>)
    requires
        decode_page(ps, r) is Ok,
    ensures
        decode_page(ps, r)->Ok_0.wf(),
        forall|i: int|
            0 <= i < decode_page(ps, r)->Ok_0.cells.len() ==> 0 <= #[trigger] decode_page(ps, r)->Ok_0.cells[i]
                <= decode_page(ps, r)->Ok_0.payload.len() - 1,
        decode_page(ps, r)->Ok_0.payload == r.subrange(
            r.len() - decode_page(ps, r)->Ok_0.payload.len(),
            r.len() as int,
        ),
{
    let m = decode_page(ps, r)->Ok_0;
    crate::codec::lemma_be_uint_bound(r, 3, 2);
    let k = m.kind;
    let h = header_len(k);
    let count = be_uint(r, 3, 2);
    let start = h + 2 * count;
    let base = ps - r.len() + start;
    assert forall|i: int| 0 <= i < m.cells.len() implies #[trigger] m.cells[i] < m.payload.len() by {
        assert(base <= cell_pointer(r, h, i) < ps);
    }
}

/// Index entries with their keys seen as character sequences.
pub open spec fn entries_view<K: View, T>(v: Seq<(K, T)>) -> Seq<(K::V, T)> {
    v.map_values(|e: (K, T)| (e.0@, e.1))
}

/// One decoded page.
#[derive(Debug)]
pub struct Page {
    pub typ: PageType,
    pub cell_pointers: Vec<usize>,
    pub right_most_child: Option<u32>,
    /// The page bytes after the cell-pointer array; cell offsets index into it.
    pub data: Vec<u8>,
}

impl View for Page {
    type V = PageModel;

    open spec fn view(&self) -> PageModel {
        PageModel {
            kind: self.typ,
            cells: self.cell_pointers@,
            right: self.right_most_child,
            payload: self.data@,
        }
    }
}

impl Page {
    pub open spec fn wf(&self) -> bool {
        self@.wf()
    }

    /// Decodes a page of a database with pages of `page_size` bytes; `data` runs
    /// from the page header to the end of the page.
    pub fn from_data(page_size: u16, data: Vec<u8>) -> (r: Result<Page, DbError>)
        ensures
            match decode_page(page_size, data@) {
                Ok(m) => r is Ok && r->Ok_0@ == m && r->Ok_0.wf(),
                Err(e) => r == Err::<Page, DbError>(e),
            },
    {
        let len = data.len();
        if len == 0 || len > page_size as usize {
            return Err(DbError::MalformedPage);
        }
        let typ = match data[0] {
            13 => PageType::TableLeaf,
            5 => PageType::TableInterior,
            10 => PageType::IndexLeaf,
            2 => PageType::IndexInterior,
            _ => return Err(DbError::BadPageKind),
        };
        let interior = typ == PageType::TableInterior || typ == PageType::IndexInterior;
        let h: usize = if interior {
            12
        } else {
            8
        };
        if len < h {
            return Err(DbError::MalformedPage);
        }
        let count = read_u16(data.as_slice(), 3) as usize;
        if count > (len - h) / 2 {
            return Err(DbError::MalformedPage);
        }
        let start = h + 2 * count;
        let base = page_size as usize - len + start;
        let ghost ps = page_size as int;
        let mut cells: Vec<usize> = Vec::new();
        let mut i: usize = 0;
        while i < count
            invariant
                len == data@.len(),
                ps == page_size as int,
                0 < len <= page_size,
                kind_of(data@[0]) == Some(typ),
                interior == is_interior(typ),
                h == header_len(typ),
                count == be_uint(data@, 3, 2),
                start == h + 2 * count,
                start <= len,
                base == page_size - len + start,
                i <= count,
                cells@.len() == i,
                forall|j: int|
                    0 <= j < i ==> base <= #[trigger] cell_pointer(data@, h as int, j) < ps,
                forall|j: int|
                    0 <= j < i ==> #[trigger] cells@[j] == (cell_pointer(data@, h as int, j)
                        - base) as usize,
            decreases count - i,
        {
            let raw16 = read_u16(data.as_slice(), h + 2 * i);
            assert(raw16 as int == cell_pointer(data@, h as int, i as int));
            let raw = raw16 as usize;
            if raw < base || raw >= page_size as usize {
                assert(!(base <= cell_pointer(data@, h as int, i as int) < ps));
                return Err(DbError::MalformedPage);
            }
            cells.push(raw - base);
            i = i + 1;
        }
        let right_most_child = if interior {
            Some(read_u32(data.as_slice(), 8))
        } else {
            None
        };
        let payload = vstd::slice::slice_to_vec(&data.as_slice()[start..len]);
        let page = Page { typ, cell_pointers: cells, right_most_child, data: payload };
        proof {
            let m = decode_page(page_size, data@);
            assert(!exists|j: int|
                0 <= j < count && !(base <= #[trigger] cell_pointer(data@, h as int, j) < ps));
            assert(m is Ok);
            assert(page@.cells =~= m->Ok_0.cells);
            assert(page@ == m->Ok_0);
            lemma_decode_page_wf(page_size, data@);
        }
        Ok(page)
    }

    pub fn is_leaf(&self) -> (r: bool)
        ensures
            r == (self.typ == PageType::TableLeaf || self.typ == PageType::IndexLeaf),
    {
        self.typ == PageType::TableLeaf || self.typ == PageType::IndexLeaf
    }

    /// The table-leaf record in the cell at payload offset `p`.
    fn get_record(&self, p: usize) -> (r: Result<Record, DbError>)
        requires
            self.wf(),
            p < self@.payload.len(),
        ensures
            match table_leaf_cell(self@.payload, p as int) {
                Ok(m) => r is Ok && r->Ok_0@ == m,
                Err(e) => r == Err::<Record, DbError>(e),
            },
    {
        let d = self.data.as_slice();
        let len = d.len();
        let (size, l1) = match read_varint(d, len, p) {
            Ok(v) => v,
            Err(e) => return Err(e),
        };
        proof {
            lemma_varint_size(d@, len as int, p as int, 0);
        }
        let (id, l2) = match read_varint(d, len, p + l1) {
            Ok(v) => v,
            Err(e) => return Err(e),
        };
        proof {
            lemma_varint_size(d@, len as int, p + l1, 0);
        }
        let b = p + l1 + l2;
        if size > (len - b) as u64 {
            return Err(DbError::UnsupportedOverflow);
        }
        let values = match read_record_values(d, b, b + size as usize) {
            Ok(v) => v,
            Err(e) => return Err(e),
        };
        Ok(Record { id, values })
    }

    /// The cells of the page read as table-leaf records, in cell order.
    pub fn records(&self) -> (r: Result<Vec<Record>, DbError>)
        requires
            self.wf(),
        ensures
            match self@.records() {
                Ok(rs) => r is Ok && records_view(r->Ok_0@) == rs,
                Err(e) => r == Err::<Vec<Record>, DbError>(e),
            },
    {
        let ghost s = self@.record_results();
        proof {
            lemma_collect_start(s);
        }
        let mut out: Vec<Record> = Vec::new();
        assert(records_view(out@) =~= seq![]);
        let mut i: usize = 0;
        while i < self.cell_pointers.len()
            invariant
                self.wf(),
                s == self@.record_results(),
                s.len() == self.cell_pointers@.len(),
                i <= s.len(),
                self@.records() == prepend(records_view(out@), collect_ok(s.subrange(i as int, s.len() as int))),
            decreases s.len() - i,
        {
            proof {
                lemma_collect_step(s, i as int);
            }
            let rec = match self.get_record(self.cell_pointers[i]) {
                Ok(x) => x,
                Err(e) => return Err(e),
            };
            proof {
                crate::record::lemma_prepend_push(records_view(out@), rec@, collect_ok(s.subrange(i + 1, s.len() as int)));
            }
            let ghost prev = out@;
            out.push(rec);
            assert(records_view(out@) =~= records_view(prev).push(rec@));
            i = i + 1;
        }
        proof {
            lemma_collect_end(records_view(out@), s);
        }
        Ok(out)
    }

    /// Child page numbers: each cell's left child, then the rightmost child.
    /// A leaf page has none; a cell too short to hold a child is an error.
    pub fn get_child_pages(&self) -> (r: Result<Vec<u32>, DbError>)
        requires
            self.wf(),
        ensures
            match self@.child_pages() {
                Ok(cs) => r is Ok && r->Ok_0@ == cs,
                Err(e) => r == Err::<Vec<u32>, DbError>(e),
            },
    {
        let mut out: Vec<u32> = Vec::new();
        if !(self.typ == PageType::TableInterior || self.typ == PageType::IndexInterior) {
            return Ok(out);
        }
        let d = self.data.as_slice();
        let len = d.len();
        let ghost s = self@.left_child_results();
        proof {
            lemma_collect_start(s);
        }
        let mut i: usize = 0;
        while i < self.cell_pointers.len()
            invariant
                self.wf(),
                d@ == self.data@,
                len == d@.len(),
                s == self@.left_child_results(),
                is_interior(self@.kind),
                s.len() == self.cell_pointers@.len(),
                i <= s.len(),
                collect_ok(s) == prepend(out@, collect_ok(s.subrange(i as int, s.len() as int))),
            decreases s.len() - i,
        {
            proof {
                lemma_collect_step(s, i as int);
            }
            let p = self.cell_pointers[i];
            assert(self@.cells[i as int] < self@.payload.len());
            assert(s[i as int] == left_child(self@.payload, p as int));
            if len - p < 4 {
                return Err(DbError::MalformedRecord);
            }
            let child = read_u32(d, p);
            proof {
                crate::record::lemma_prepend_push(out@, child, collect_ok(s.subrange(i + 1, s.len() as int)));
            }
            out.push(child);
            i = i + 1;
        }
        proof {
            lemma_collect_end(out@, s);
        }
        let ghost lefts = out@;
        if let Some(right) = self.right_most_child {
            out.push(right);
            assert(out@ =~= lefts + seq![right]);
        } else {
            assert(out@ =~= lefts + Seq::<u32>::empty());
        }
        Ok(out)
    }

    /// The record of `size` bytes that starts at payload offset `b`.
    fn read_index_record(&self, b: usize, size: u64) -> (r: Result<Vec<RecordValue>, DbError>)
        requires
            b <= self@.payload.len(),
        ensures
            match index_record(self@.payload, b as int, size) {
                Ok(vs) => r is Ok && values_view(r->Ok_0@) == vs,
                Err(e) => r == Err::<Vec<RecordValue>, DbError>(e),
            },
    {
        let d = self.data.as_slice();
        if size > (d.len() - b) as u64 {
            return Err(DbError::UnsupportedOverflow);
        }
        read_record_values(d, b, b + size as usize)
    }

    /// The `(child_page, rowid_key)` of the table-interior cell at payload offset `p`.
    fn get_table_interior_entry(&self, p: usize) -> (r: Result<(u32, u64), DbError>)
        requires
            p < self@.payload.len(),
        ensures
            r == table_interior_cell(self@.payload, p as int),
    {
        let d = self.data.as_slice();
        let len = d.len();
        if len - p < 4 {
            return Err(DbError::MalformedRecord);
        }
        let child = read_u32(d, p);
        let (key, _) = match read_varint(d, len, p + 4) {
            Ok(v) => v,
            Err(e) => return Err(e),
        };
        Ok((child, key))
    }

    /// The `(key, rowid)` of the index-leaf cell at payload offset `p`.
    fn get_index_leaf_entry(&self, p: usize) -> (r: Result<(String, u64), DbError>)
        requires
            p < self@.payload.len(),
        ensures
            match index_leaf_cell(self@.payload, p as int) {
                Ok(e) => r is Ok && r->Ok_0.0@ == e.0 && r->Ok_0.1 == e.1,
                Err(e) => r == Err::<(String, u64), DbError>(e),
            },
    {
        let d = self.data.as_slice();
        let len = d.len();
        let (size, l) = match read_varint(d, len, p) {
            Ok(v) => v,
            Err(e) => return Err(e),
        };
        proof {
            lemma_varint_size(d@, len as int, p as int, 0);
        }
        let vals = match self.read_index_record(p + l, size) {
            Ok(v) => v,
            Err(e) => return Err(e),
        };
        if vals.len() != 2 {
            return Err(DbError::MalformedRecord);
        }
        assert(vals@[0]@ == values_view(vals@)[0] && vals@[1]@ == values_view(vals@)[1]);
        match (&vals[0], &vals[1]) {
            (RecordValue::Text(key), RecordValue::Int(rowid)) => Ok((key.clone(), *rowid as u64)),
            _ => Err(DbError::MalformedRecord),
        }
    }

    /// The `(key, child_page)` of the index-interior cell at payload offset `p`.
    fn get_index_interior_entry(&self, p: usize) -> (r: Result<(String, u32), DbError>)
        requires
            p < self@.payload.len(),
        ensures
            match index_interior_cell(self@.payload, p as int) {
                Ok(e) => r is Ok && r->Ok_0.0@ == e.0 && r->Ok_0.1 == e.1,
                Err(e) => r == Err::<(String, u32), DbError>(e),
            },
    {
        let d = self.data.as_slice();
        let len = d.len();
        if len - p < 4 {
            return Err(DbError::MalformedRecord);
        }
        let child = read_u32(d, p);
        let (size, l) = match read_varint(d, len, p + 4) {
            Ok(v) => v,
            Err(e) => return Err(e),
        };
        proof {
            lemma_varint_size(d@, len as int, p + 4, 0);
        }
        let vals = match self.read_index_record(p + 4 + l, size) {
            Ok(v) => v,
            Err(e) => return Err(e),
        };
        if vals.len() < 1 {
            return Err(DbError::MalformedRecord);
        }
        assert(vals@[0]@ == values_view(vals@)[0]);
        match &vals[0] {
            RecordValue::Text(key) => Ok((key.clone(), child)),
            _ => Err(DbError::MalformedRecord),
        }
    }

    /// The `(child_page, rowid_key)` entries of a table-interior page, in cell order.
    pub fn table_interior_entries(&self) -> (r: Result<Vec<(u32, u64)>, DbError>)
        requires
            self.wf(),
            self.typ == PageType::TableInterior,
        ensures
            match self@.table_interior_entries() {
                Ok(es) => r is Ok && r->Ok_0@ == es,
                Err(e) => r == Err::<Vec<(u32, u64)>, DbError>(e),
            },
    {
        let ghost s = self@.table_interior_results();
        proof {
            lemma_collect_start(s);
        }
        let mut out: Vec<(u32, u64)> = Vec::new();
        let mut i: usize = 0;
        while i < self.cell_pointers.len()
            invariant
                self.wf(),
                s == self@.table_interior_results(),
                s.len() == self.cell_pointers@.len(),
                i <= s.len(),
                self@.table_interior_entries() == prepend(out@, collect_ok(s.subrange(i as int, s.len() as int))),
            decreases s.len() - i,
        {
            proof {
                lemma_collect_step(s, i as int);
            }
            let e = match self.get_table_interior_entry(self.cell_pointers[i]) {
                Ok(x) => x,
                Err(e) => return Err(e),
            };
            proof {
                crate::record::lemma_prepend_push(out@, e, collect_ok(s.subrange(i + 1, s.len() as int)));
            }
            out.push(e);
            i = i + 1;
        }
        proof {
            lemma_collect_end(out@, s);
        }
        Ok(out)
    }

    /// The `(key, rowid)` entries of an index-leaf page, in cell order.
    pub fn index_leaf_entries(&self) -> (r: Result<Vec<(String, u64)>, DbError>)
        requires
            self.wf(),
            self.typ == PageType::IndexLeaf,
        ensures
            match self@.index_leaf_entries() {
                Ok(es) => r is Ok && entries_view(r->Ok_0@) == es,
                Err(e) => r == Err::<Vec<(String, u64)>, DbError>(e),
            },
    {
        let ghost s = self@.index_leaf_results();
        proof {
            lemma_collect_start(s);
        }
        let mut out: Vec<(String, u64)> = Vec::new();
        assert(entries_view(out@) =~= seq![]);
        let mut i: usize = 0;
        while i < self.cell_pointers.len()
            invariant
                self.wf(),
                s == self@.index_leaf_results(),
                s.len() == self.cell_pointers@.len(),
                i <= s.len(),
                self@.index_leaf_entries() == prepend(entries_view(out@), collect_ok(s.subrange(i as int, s.len() as int))),
            decreases s.len() - i,
        {
            proof {
                lemma_collect_step(s, i as int);
            }
            let e = match self.get_index_leaf_entry(self.cell_pointers[i]) {
                Ok(x) => x,
                Err(e) => return Err(e),
            };
            proof {
                crate::record::lemma_prepend_push(entries_view(out@), (e.0@, e.1), collect_ok(s.subrange(i + 1, s.len() as int)));
            }
            let ghost prev = out@;
            out.push(e);
            assert(entries_view(out@) =~= entries_view(prev).push((e.0@, e.1)));
            i = i + 1;
        }
        proof {
            lemma_collect_end(entries_view(out@), s);
        }
        Ok(out)
    }

    /// The `(key, child_page)` entries of an index-interior page, in cell order.
    pub fn index_interior_entries(&self) -> (r: Result<Vec<(String, u32)>, DbError>)
        requires
            self.wf(),
            self.typ == PageType::IndexInterior,
        ensures
            match self@.index_interior_entries() {
                Ok(es) => r is Ok && entries_view(r->Ok_0@) == es,
                Err(e) => r == Err::<Vec<(String, u32)>, DbError>(e),
            },
    {
        let ghost s = self@.index_interior_results();
        proof {
            lemma_collect_start(s);
        }
        let mut out: Vec<(String, u32)> = Vec::new();
        assert(entries_view(out@) =~= seq![]);
        let mut i: usize = 0;
        while i < self.cell_pointers.len()
            invariant
                self.wf(),
                s == self@.index_interior_results(),
                s.len() == self.cell_pointers@.len(),
                i <= s.len(),
                self@.index_interior_entries() == prepend(entries_view(out@), collect_ok(s.subrange(i as int, s.len() as int))),
            decreases s.len() - i,
        {
            proof {
                lemma_collect_step(s, i as int);
            }
            let e = match self.get_index_interior_entry(self.cell_pointers[i]) {
                Ok(x) => x,
                Err(e) => return Err(e),
            };
            proof {
                crate::record::lemma_prepend_push(entries_view(out@), (e.0@, e.1), collect_ok(s.subrange(i + 1, s.len() as int)));
            }
            let ghost prev = out@;
            out.push(e);
            assert(entries_view(out@) =~= entries_view(prev).push((e.0@, e.1)));
            i = i + 1;
        }
        proof {
            lemma_collect_end(entries_view(out@), s);
        }
        Ok(out)
    }
}

} // verus!
