//! What the key order of a table B-tree guarantees: a full scan yields
//! strictly increasing rowids, and every scanned record is found again by
//! the one-path descent of a rowid lookup.
use vstd::prelude::*;

use crate::database::{descend_index, first_with_id, Database};
use crate::error::DbError;
use crate::page::PageType;
use crate::record::RecordModel;

verus! {

pub open spec fn ids_increasing(rs: Seq<RecordModel>) -> bool {
    forall|i: int, j: int| 0 <= i < j < rs.len() ==> #[trigger] rs[i].id < #[trigger] rs[j].id
}

pub open spec fn ids_within(rs: Seq<RecordModel>, lo: int, hi: int) -> bool {
    forall|i: int| 0 <= i < rs.len() ==> lo < #[trigger] rs[i].id <= hi
}

pub open spec fn entry_children(es: Seq<(u32, u64)>) -> Seq<u32> {
    es.map_values(|e: (u32, u64)| e.0)
}

/// The child that a rowid lookup for `t` descends into from entry `i` on.
pub open spec fn descend_from(es: Seq<(u32, u64)>, right: u32, t: u64, i: int) -> u32
    decreases es.len() - i,
{
    if i < 0 || i >= es.len() {
        right
    } else if t <= es[i].1 {
        es[i].0
    } else {
        descend_from(es, right, t, i + 1)
    }
}

impl Database {
    /// The table B-tree rooted at page `n` decodes within `fuel` levels, and
    /// its keys are in order: a leaf's rowids increase strictly and lie in
    /// `(lo, hi]`; an interior page's keys do not decrease, each left child
    /// holds rowids up to its key and above the previous one, and the
    /// rightmost child holds those above the last key.
    pub open spec fn table_ordered(&self, n: int, fuel: nat, lo: int, hi: int) -> bool
        decreases fuel, 0int,
    {
        if fuel == 0 {
            false
        } else {
            match self.page_at(n) {
                Err(_) => false,
                Ok(pg) => if pg.kind == PageType::TableLeaf {
                    match pg.records() {
                        Err(_) => false,
                        Ok(rs) => ids_increasing(rs) && ids_within(rs, lo, hi),
                    }
                } else if pg.kind == PageType::TableInterior {
                    match (pg.table_interior_entries(), pg.right) {
                        (Ok(es), Some(right)) => pg.child_pages() == Ok::<Seq<u32>, DbError>(entry_children(es).push(right))
                            && self.children_ordered(es, right, 0, lo, hi, (fuel - 1) as nat),
                        _ => false,
                    }
                } else {
                    false
                },
            }
        }
    }

    /// The children of an interior page from entry `i` on are ordered, with
    /// rowids above `lo` and up to `hi`.
    pub open spec fn children_ordered(
        &self,
        es: Seq<(u32, u64)>,
        right: u32,
        i: int,
        lo: int,
        hi: int,
        fuel: nat,
    ) -> bool
        decreases fuel, if i <= es.len() { es.len() + 1 - i } else { 1 },
    {
        if i < 0 {
            false
        } else if i >= es.len() {
            lo <= hi && self.table_ordered(right as int, fuel, lo, hi)
        } else {
            &&& lo <= es[i].1 <= hi
            &&& self.table_ordered(es[i].0 as int, fuel, lo, es[i].1 as int)
            &&& self.children_ordered(es, right, i + 1, es[i].1 as int, hi, fuel)
        }
    }
}

proof fn lemma_ordered_page_nonzero(db: &Database, n: int, fuel: nat, lo: int, hi: int)
    requires
        db.table_ordered(n, fuel, lo, hi),
    ensures
        n >= 1,
{
}

proof fn lemma_concat_sorted(a: Seq<RecordModel>, b: Seq<RecordModel>, lo: int, m: int, hi: int)
    requires
        ids_increasing(a),
        ids_within(a, lo, m),
        ids_increasing(b),
        ids_within(b, m, hi),
        lo <= m <= hi,
    ensures
        ids_increasing(a + b),
        ids_within(a + b, lo, hi),
{
    let s = a + b;
    assert forall|i: int, j: int| 0 <= i < j < s.len() implies #[trigger] s[i].id < #[trigger] s[j].id by {
        if j < a.len() {
            assert(s[i] == a[i] && s[j] == a[j]);
        } else if i >= a.len() {
            assert(s[i] == b[i - a.len()] && s[j] == b[j - a.len()]);
        } else {
            assert(s[i] == a[i] && s[j] == b[j - a.len()]);
        }
    }
    assert forall|i: int| 0 <= i < s.len() implies lo < #[trigger] s[i].id <= hi by {
        if i < a.len() {
            assert(s[i] == a[i]);
        } else {
            assert(s[i] == b[i - a.len()]);
        }
    }
}

/// In an ordered table B-tree the scan succeeds, and its rowids increase
/// strictly and lie in `(lo, hi]`.
pub proof fn lemma_table_rows_sorted(db: &Database, n: int, fuel: nat, lo: int, hi: int)
    requires
        db.table_ordered(n, fuel, lo, hi),
    ensures
        db.table_rows(n, fuel) is Ok,
        ids_increasing(db.table_rows(n, fuel)->Ok_0),
        ids_within(db.table_rows(n, fuel)->Ok_0, lo, hi),
    decreases fuel, 0int,
{
    let pg = db.page_at(n)->Ok_0;
    if pg.kind == PageType::TableInterior {
        let es = pg.table_interior_entries()->Ok_0;
        let right = pg.right->Some_0;
        lemma_children_rows_sorted(db, es, right, 0, lo, hi, (fuel - 1) as nat);
    }
}

proof fn lemma_children_rows_sorted(
    db: &Database,
    es: Seq<(u32, u64)>,
    right: u32,
    i: int,
    lo: int,
    hi: int,
    fuel: nat,
)
    requires
        0 <= i <= es.len(),
        db.children_ordered(es, right, i, lo, hi, fuel),
    ensures
        db.children_rows(entry_children(es).push(right), i, fuel) is Ok,
        ids_increasing(db.children_rows(entry_children(es).push(right), i, fuel)->Ok_0),
        ids_within(db.children_rows(entry_children(es).push(right), i, fuel)->Ok_0, lo, hi),
    decreases fuel, es.len() + 1 - i,
{
    let kids = entry_children(es).push(right);
    if i == es.len() {
        lemma_table_rows_sorted(db, right as int, fuel, lo, hi);
        lemma_ordered_page_nonzero(db, right as int, fuel, lo, hi);
        let a = db.table_rows(right as int, fuel)->Ok_0;
        assert(kids[i] == right);
        assert(db.children_rows(kids, i + 1, fuel) == Ok::<Seq<RecordModel>, crate::error::DbError>(seq![]));
        assert(a + seq![] =~= a);
    } else {
        let k = es[i].1 as int;
        assert(kids[i] == es[i].0);
        lemma_table_rows_sorted(db, es[i].0 as int, fuel, lo, k);
        lemma_ordered_page_nonzero(db, es[i].0 as int, fuel, lo, k);
        lemma_children_rows_sorted(db, es, right, i + 1, k, hi, fuel);
        let a = db.table_rows(es[i].0 as int, fuel)->Ok_0;
        let b = db.children_rows(kids, i + 1, fuel)->Ok_0;
        lemma_concat_sorted(a, b, lo, k, hi);
    }
}

/// A scan of a table B-tree whose keys are in order yields rowids in strictly
/// increasing order, so no rowid comes twice.
pub proof fn lemma_scan_strictly_increasing(db: &Database, root: int)
    requires
        db.table_ordered(root, db.page_count(), -1, u64::MAX as int),
    ensures
        db.table_rows(root, db.page_count()) is Ok,
        forall|i: int, j: int|
            0 <= i < j < db.table_rows(root, db.page_count())->Ok_0.len() ==> #[trigger] db.table_rows(
                root,
                db.page_count(),
            )->Ok_0[i].id < #[trigger] db.table_rows(root, db.page_count())->Ok_0[j].id,
{
    lemma_table_rows_sorted(db, root, db.page_count(), -1, u64::MAX as int);
}

proof fn lemma_first_with_id(rs: Seq<RecordModel>, r: RecordModel)
    requires
        ids_increasing(rs),
        rs.contains(r),
    ensures
        first_with_id(rs, r.id) == Some(r),
    decreases rs.len(),
{
    let k = choose|k: int| 0 <= k < rs.len() && rs[k] == r;
    if k > 0 {
        assert(rs[0].id < rs[k].id);
        let t = rs.drop_first();
        assert(t[k - 1] == r);
        assert forall|i: int, j: int| 0 <= i < j < t.len() implies #[trigger] t[i].id < #[trigger] t[j].id by {
            assert(t[i] == rs[i + 1] && t[j] == rs[j + 1]);
        }
        lemma_first_with_id(t, r);
    }
}

proof fn lemma_descend(es: Seq<(u32, u64)>, right: u32, t: u64, i: int)
    requires
        0 <= i <= es.len(),
    ensures
        i <= descend_index(es, t, i) <= es.len(),
        descend_index(es, t, i) < es.len() ==> descend_from(es, right, t, i) == es[descend_index(es, t, i)].0,
        descend_index(es, t, i) >= es.len() ==> descend_from(es, right, t, i) == right,
    decreases es.len() - i,
{
    if i < es.len() && t > es[i].1 {
        lemma_descend(es, right, t, i + 1);
    }
}

/// In an ordered table B-tree, looking up the rowid of any record that the
/// scan yields finds that very record.
pub proof fn lemma_find_scanned(db: &Database, n: int, fuel: nat, lo: int, hi: int, r: RecordModel)
    requires
        db.table_ordered(n, fuel, lo, hi),
        db.table_rows(n, fuel) is Ok,
        db.table_rows(n, fuel)->Ok_0.contains(r),
    ensures
        db.row_by_id(n, r.id, fuel) == Ok::<Option<RecordModel>, crate::error::DbError>(Some(r)),
    decreases fuel, 0int,
{
    let pg = db.page_at(n)->Ok_0;
    lemma_table_rows_sorted(db, n, fuel, lo, hi);
    if pg.kind == PageType::TableLeaf {
        lemma_first_with_id(pg.records()->Ok_0, r);
    } else {
        let es = pg.table_interior_entries()->Ok_0;
        let right = pg.right->Some_0;
        lemma_find_in_children(db, es, right, 0, lo, hi, (fuel - 1) as nat, r);
        lemma_descend(es, right, r.id, 0);
    }
}

proof fn lemma_find_in_children(
    db: &Database,
    es: Seq<(u32, u64)>,
    right: u32,
    i: int,
    lo: int,
    hi: int,
    fuel: nat,
    r: RecordModel,
)
    requires
        0 <= i <= es.len(),
        db.children_ordered(es, right, i, lo, hi, fuel),
        db.children_rows(entry_children(es).push(right), i, fuel) is Ok,
        db.children_rows(entry_children(es).push(right), i, fuel)->Ok_0.contains(r),
    ensures
        lo < r.id <= hi,
        db.row_by_id(descend_from(es, right, r.id, i) as int, r.id, fuel) == Ok::<
            Option<RecordModel>,
            crate::error::DbError,
        >(Some(r)),
    decreases fuel, es.len() + 1 - i,
{
    let kids = entry_children(es).push(right);
    lemma_children_rows_sorted(db, es, right, i, lo, hi, fuel);
    let all = db.children_rows(kids, i, fuel)->Ok_0;
    let w = choose|w: int| 0 <= w < all.len() && all[w] == r;
    assert(lo < all[w].id <= hi);
    if i == es.len() {
        lemma_ordered_page_nonzero(db, right as int, fuel, lo, hi);
        assert(kids[i] == right);
        let a = db.table_rows(right as int, fuel)->Ok_0;
        assert(db.children_rows(kids, i + 1, fuel) == Ok::<Seq<RecordModel>, crate::error::DbError>(seq![]));
        assert(a + seq![] =~= a);
        lemma_find_scanned(db, right as int, fuel, lo, hi, r);
    } else {
        let k = es[i].1 as int;
        assert(kids[i] == es[i].0);
        lemma_ordered_page_nonzero(db, es[i].0 as int, fuel, lo, k);
        lemma_table_rows_sorted(db, es[i].0 as int, fuel, lo, k);
        lemma_children_rows_sorted(db, es, right, i + 1, k, hi, fuel);
        let a = db.table_rows(es[i].0 as int, fuel)->Ok_0;
        let b = db.children_rows(kids, i + 1, fuel)->Ok_0;
        assert(all == a + b);
        if w < a.len() {
            assert(a[w] == r);
            assert(r.id <= k);
            lemma_find_scanned(db, es[i].0 as int, fuel, lo, k, r);
        } else {
            assert(b[w - a.len()] == r);
            assert(r.id > k);
            lemma_find_in_children(db, es, right, i + 1, k, hi, fuel, r);
        }
    }
}

/// Round trip: in a table B-tree whose keys are in order, the rowid lookup of
/// any record that the full scan yields returns a record with the same rowid
/// and the same values.
pub proof fn lemma_scan_then_find(db: &Database, root: int, r: RecordModel)
    requires
        db.table_ordered(root, db.page_count(), -1, u64::MAX as int),
        db.table_rows(root, db.page_count())->Ok_0.contains(r),
    ensures
        db.row_by_id(root, r.id, db.page_count()) == Ok::<Option<RecordModel>, crate::error::DbError>(
            Some(r),
        ),
{
    lemma_table_rows_sorted(db, root, db.page_count(), -1, u64::MAX as int);
    lemma_find_scanned(db, root, db.page_count(), -1, u64::MAX as int, r);
}

} // verus!
