//! What the key order of an index B-tree guarantees: the equality lookup
//! returns exactly the rowids of the stored entries whose key equals the
//! searched key, byte for byte, in the index's order.
use vstd::prelude::*;
use vstd::utf8::encode_utf8;

use crate::codec::{lemma_lex_cmp_eq, lex_cmp};
use crate::database::{leaf_matches, Database};
use crate::error::DbError;
use crate::page::PageType;
use crate::record::prepend;

verus! {

/// `k` lies between the bounds, inclusive; `None` leaves a side open.
pub open spec fn key_in(k: Seq<u8>, lo: Option<Seq<u8>>, hi: Option<Seq<u8>>) -> bool {
    &&& match lo {
        Some(l) => lex_cmp(l, k) <= 0,
        None => true,
    }
    &&& match hi {
        Some(h) => lex_cmp(k, h) <= 0,
        None => true,
    }
}

pub open spec fn keys_within(es: Seq<(Seq<char>, u64)>, lo: Option<Seq<u8>>, hi: Option<Seq<u8>>) -> bool {
    forall|i: int| 0 <= i < es.len() ==> key_in(encode_utf8(#[trigger] es[i].0), lo, hi)
}

pub open spec fn keys_sorted(es: Seq<(Seq<char>, u64)>) -> bool {
    forall|i: int, j: int|
        0 <= i < j < es.len() ==> lex_cmp(encode_utf8(#[trigger] es[i].0), encode_utf8(#[trigger] es[j].0))
            <= 0
}

/// The rowids of the entries whose key is `key`, in order.
pub open spec fn matching_rowids(es: Seq<(Seq<char>, u64)>, key: Seq<u8>) -> Seq<u64>
    decreases es.len(),
{
    if es.len() == 0 {
        seq![]
    } else {
        (if encode_utf8(es[0].0) == key {
            seq![es[0].1]
        } else {
            seq![]
        }) + matching_rowids(es.drop_first(), key)
    }
}

impl Database {
    /// The `(key, rowid)` entries that the leaves of the index B-tree rooted at
    /// page `n` hold, left to right.
    pub open spec fn index_entries(&self, n: int, fuel: nat) -> Result<Seq<(Seq<char>, u64)>, DbError>
        decreases fuel, 0int,
    {
        if fuel == 0 {
            Err(DbError::CorruptLink)
        } else {
            match self.page_at(n) {
                Err(e) => Err(e),
                Ok(pg) => if pg.kind == PageType::IndexLeaf {
                    pg.index_leaf_entries()
                } else if pg.kind == PageType::IndexInterior {
                    match pg.index_interior_entries() {
                        Err(e) => Err(e),
                        Ok(es) => self.index_children_entries(es, pg.right, 0, (fuel - 1) as nat),
                    }
                } else {
                    Err(DbError::CorruptLink)
                },
            }
        }
    }

    pub open spec fn index_children_entries(
        &self,
        es: Seq<(Seq<char>, u32)>,
        right: Option<u32>,
        i: int,
        fuel: nat,
    ) -> Result<Seq<(Seq<char>, u64)>, DbError>
        decreases fuel, if i <= es.len() { es.len() + 1 - i } else { 1 },
    {
        if i < 0 || i >= es.len() {
            match right {
                Some(r) => self.index_entries(r as int, fuel),
                None => Ok(seq![]),
            }
        } else {
            match self.index_entries(es[i].1 as int, fuel) {
                Err(e) => Err(e),
                Ok(a) => prepend(a, self.index_children_entries(es, right, i + 1, fuel)),
            }
        }
    }

    /// The index B-tree rooted at page `n` decodes within `fuel` levels and its
    /// keys are in order: a leaf's keys do not decrease and lie between `lo`
    /// and `hi`; an interior page's separators strictly increase, each left
    /// child's keys lie between the previous separator and its own, and the
    /// rightmost child's keys lie from the last separator on.
    pub open spec fn index_ordered(&self, n: int, fuel: nat, lo: Option<Seq<u8>>, hi: Option<Seq<u8>>) -> bool
        decreases fuel, 0int,
    {
        if fuel == 0 {
            false
        } else {
            match self.page_at(n) {
                Err(_) => false,
                Ok(pg) => if pg.kind == PageType::IndexLeaf {
                    match pg.index_leaf_entries() {
                        Err(_) => false,
                        Ok(es) => keys_sorted(es) && keys_within(es, lo, hi),
                    }
                } else if pg.kind == PageType::IndexInterior {
                    match (pg.index_interior_entries(), pg.right) {
                        (Ok(es), Some(right)) => self.index_children_ordered(es, right, 0, lo, hi, (fuel - 1) as nat),
                        _ => false,
                    }
                } else {
                    false
                },
            }
        }
    }

    pub open spec fn index_children_ordered(
        &self,
        es: Seq<(Seq<char>, u32)>,
        right: u32,
        i: int,
        lo: Option<Seq<u8>>,
        hi: Option<Seq<u8>>,
        fuel: nat,
    ) -> bool
        decreases fuel, if i <= es.len() { es.len() + 1 - i } else { 1 },
    {
        if i < 0 {
            false
        } else if i >= es.len() {
            self.index_ordered(right as int, fuel, lo, hi)
        } else {
            let s = encode_utf8(es[i].0);
            &&& key_in(s, lo, hi)
            &&& i + 1 < es.len() ==> lex_cmp(s, encode_utf8(es[i + 1].0)) < 0
            &&& self.index_ordered(es[i].1 as int, fuel, lo, Some(s))
            &&& self.index_children_ordered(es, right, i + 1, Some(s), hi, fuel)
        }
    }
}

pub proof fn lemma_lex_antisym(a: Seq<u8>, b: Seq<u8>)
    ensures
        lex_cmp(a, b) == -lex_cmp(b, a),
    decreases a.len(),
{
    if a.len() > 0 && b.len() > 0 && a[0] == b[0] {
        lemma_lex_antisym(a.drop_first(), b.drop_first());
    }
}

pub proof fn lemma_lex_trans(a: Seq<u8>, b: Seq<u8>, c: Seq<u8>)
    requires
        lex_cmp(a, b) <= 0,
        lex_cmp(b, c) <= 0,
    ensures
        lex_cmp(a, c) <= 0,
    decreases a.len(),
{
    if a.len() > 0 && b.len() > 0 && c.len() > 0 && a[0] == b[0] && b[0] == c[0] {
        lemma_lex_trans(a.drop_first(), b.drop_first(), c.drop_first());
    }
}

proof fn lemma_matching_concat(a: Seq<(Seq<char>, u64)>, b: Seq<(Seq<char>, u64)>, key: Seq<u8>)
    ensures
        matching_rowids(a + b, key) == matching_rowids(a, key) + matching_rowids(b, key),
    decreases a.len(),
{
    if a.len() == 0 {
        assert(a + b =~= b);
        assert(seq![] + matching_rowids(b, key) =~= matching_rowids(b, key));
    } else {
        assert((a + b).drop_first() =~= a.drop_first() + b);
        assert((a + b)[0] == a[0]);
        lemma_matching_concat(a.drop_first(), b, key);
        let h = if encode_utf8(a[0].0) == key {
            seq![a[0].1]
        } else {
            seq![]
        };
        assert(h + (matching_rowids(a.drop_first(), key) + matching_rowids(b, key)) =~= (h
            + matching_rowids(a.drop_first(), key)) + matching_rowids(b, key));
    }
}

proof fn lemma_matching_none(es: Seq<(Seq<char>, u64)>, key: Seq<u8>)
    requires
        forall|i: int| 0 <= i < es.len() ==> encode_utf8(#[trigger] es[i].0) != key,
    ensures
        matching_rowids(es, key) == Seq::<u64>::empty(),
    decreases es.len(),
{
    if es.len() > 0 {
        assert forall|i: int| 0 <= i < es.drop_first().len() implies encode_utf8(
            #[trigger] es.drop_first()[i].0,
        ) != key by {
            assert(es.drop_first()[i] == es[i + 1]);
        }
        lemma_matching_none(es.drop_first(), key);
        assert(encode_utf8(es[0].0) != key);
        assert(seq![] + Seq::<u64>::empty() =~= Seq::<u64>::empty());
    }
}

/// No entry above `lo`-bounded keys equals a key below `lo`.
proof fn lemma_none_below(es: Seq<(Seq<char>, u64)>, s: Seq<u8>, hi: Option<Seq<u8>>, key: Seq<u8>)
    requires
        keys_within(es, Some(s), hi),
        lex_cmp(key, s) < 0,
    ensures
        matching_rowids(es, key) == Seq::<u64>::empty(),
{
    assert forall|i: int| 0 <= i < es.len() implies encode_utf8(#[trigger] es[i].0) != key by {
        lemma_lex_antisym(key, s);
        assert(key_in(encode_utf8(es[i].0), Some(s), hi));
    }
    lemma_matching_none(es, key);
}

/// No entry below `hi`-bounded keys equals a key above `hi`.
proof fn lemma_none_above(es: Seq<(Seq<char>, u64)>, lo: Option<Seq<u8>>, s: Seq<u8>, key: Seq<u8>)
    requires
        keys_within(es, lo, Some(s)),
        lex_cmp(key, s) > 0,
    ensures
        matching_rowids(es, key) == Seq::<u64>::empty(),
{
    assert forall|i: int| 0 <= i < es.len() implies encode_utf8(#[trigger] es[i].0) != key by {
        assert(key_in(encode_utf8(es[i].0), lo, Some(s)));
    }
    lemma_matching_none(es, key);
}

proof fn lemma_within_concat(
    a: Seq<(Seq<char>, u64)>,
    b: Seq<(Seq<char>, u64)>,
    lo: Option<Seq<u8>>,
    s: Seq<u8>,
    hi: Option<Seq<u8>>,
)
    requires
        keys_within(a, lo, Some(s)),
        keys_within(b, Some(s), hi),
        key_in(s, lo, hi),
    ensures
        keys_within(a + b, lo, hi),
{
    let c = a + b;
    assert forall|i: int| 0 <= i < c.len() implies key_in(encode_utf8(#[trigger] c[i].0), lo, hi) by {
        let k = encode_utf8(c[i].0);
        if i < a.len() {
            assert(c[i] == a[i]);
            if let Some(h) = hi {
                lemma_lex_trans(k, s, h);
            }
        } else {
            assert(c[i] == b[i - a.len()]);
            if let Some(l) = lo {
                lemma_lex_trans(l, s, k);
            }
        }
    }
}

proof fn lemma_index_entries_within(db: &Database, n: int, fuel: nat, lo: Option<Seq<u8>>, hi: Option<Seq<u8>>)
    requires
        db.index_ordered(n, fuel, lo, hi),
    ensures
        db.index_entries(n, fuel) is Ok,
        keys_within(db.index_entries(n, fuel)->Ok_0, lo, hi),
    decreases fuel, 0int,
{
    let pg = db.page_at(n)->Ok_0;
    if pg.kind == PageType::IndexInterior {
        let es = pg.index_interior_entries()->Ok_0;
        lemma_children_entries_within(db, es, pg.right->Some_0, 0, lo, hi, (fuel - 1) as nat);
    }
}

proof fn lemma_children_entries_within(
    db: &Database,
    es: Seq<(Seq<char>, u32)>,
    right: u32,
    i: int,
    lo: Option<Seq<u8>>,
    hi: Option<Seq<u8>>,
    fuel: nat,
)
    requires
        0 <= i <= es.len(),
        db.index_children_ordered(es, right, i, lo, hi, fuel),
    ensures
        db.index_children_entries(es, Some(right), i, fuel) is Ok,
        keys_within(db.index_children_entries(es, Some(right), i, fuel)->Ok_0, lo, hi),
    decreases fuel, es.len() + 1 - i,
{
    if i == es.len() {
        lemma_index_entries_within(db, right as int, fuel, lo, hi);
    } else {
        let s = encode_utf8(es[i].0);
        lemma_index_entries_within(db, es[i].1 as int, fuel, lo, Some(s));
        lemma_children_entries_within(db, es, right, i + 1, Some(s), hi, fuel);
        lemma_within_concat(
            db.index_entries(es[i].1 as int, fuel)->Ok_0,
            db.index_children_entries(es, Some(right), i + 1, fuel)->Ok_0,
            lo,
            s,
            hi,
        );
    }
}

proof fn lemma_leaf_matches(es: Seq<(Seq<char>, u64)>, key: Seq<u8>)
    requires
        keys_sorted(es),
    ensures
        leaf_matches(es, key) == matching_rowids(es, key),
    decreases es.len(),
{
    if es.len() > 0 {
        let k0 = encode_utf8(es[0].0);
        let rest = es.drop_first();
        assert forall|i: int, j: int| 0 <= i < j < rest.len() implies lex_cmp(
            encode_utf8(#[trigger] rest[i].0),
            encode_utf8(#[trigger] rest[j].0),
        ) <= 0 by {
            assert(rest[i] == es[i + 1] && rest[j] == es[j + 1]);
        }
        lemma_lex_cmp_eq(k0, key);
        let c = lex_cmp(k0, key);
        if c > 0 {
            assert forall|j: int| 0 <= j < es.len() implies encode_utf8(#[trigger] es[j].0) != key by {
                if j > 0 {
                    assert(lex_cmp(k0, encode_utf8(es[j].0)) <= 0);
                }
            }
            lemma_matching_none(es, key);
        } else {
            lemma_leaf_matches(rest, key);
            if c < 0 {
                assert(seq![] + matching_rowids(rest, key) =~= matching_rowids(rest, key));
            }
        }
    }
}

/// In an ordered index B-tree the lookup of `key` from page `n` returns the
/// rowids of exactly the stored entries whose key is `key`, in order.
pub proof fn lemma_index_rowids_exact(
    db: &Database,
    n: int,
    fuel: nat,
    lo: Option<Seq<u8>>,
    hi: Option<Seq<u8>>,
    key: Seq<u8>,
)
    requires
        db.index_ordered(n, fuel, lo, hi),
    ensures
        db.index_entries(n, fuel) is Ok,
        db.index_rowids(n, key, fuel) == Ok::<Seq<u64>, DbError>(
            matching_rowids(db.index_entries(n, fuel)->Ok_0, key),
        ),
    decreases fuel, 0int,
{
    let pg = db.page_at(n)->Ok_0;
    if pg.kind == PageType::IndexLeaf {
        lemma_leaf_matches(pg.index_leaf_entries()->Ok_0, key);
    } else {
        let es = pg.index_interior_entries()->Ok_0;
        lemma_interior_rowids_exact(db, es, pg.right->Some_0, 0, lo, hi, (fuel - 1) as nat, key);
    }
}

proof fn lemma_interior_rowids_exact(
    db: &Database,
    es: Seq<(Seq<char>, u32)>,
    right: u32,
    i: int,
    lo: Option<Seq<u8>>,
    hi: Option<Seq<u8>>,
    fuel: nat,
    key: Seq<u8>,
)
    requires
        0 <= i <= es.len(),
        db.index_children_ordered(es, right, i, lo, hi, fuel),
    ensures
        db.index_children_entries(es, Some(right), i, fuel) is Ok,
        db.interior_rowids(es, Some(right), key, i, fuel) == Ok::<Seq<u64>, DbError>(
            matching_rowids(db.index_children_entries(es, Some(right), i, fuel)->Ok_0, key),
        ),
    decreases fuel, es.len() + 1 - i,
{
    if i == es.len() {
        lemma_index_rowids_exact(db, right as int, fuel, lo, hi, key);
    } else {
        let s = encode_utf8(es[i].0);
        let c = lex_cmp(key, s);
        lemma_index_entries_within(db, es[i].1 as int, fuel, lo, Some(s));
        lemma_children_entries_within(db, es, right, i + 1, Some(s), hi, fuel);
        lemma_index_rowids_exact(db, es[i].1 as int, fuel, lo, Some(s), key);
        let a = db.index_entries(es[i].1 as int, fuel)->Ok_0;
        let rest = db.index_children_entries(es, Some(right), i + 1, fuel)->Ok_0;
        lemma_matching_concat(a, rest, key);
        lemma_lex_cmp_eq(key, s);
        if c < 0 {
            lemma_none_below(rest, s, hi, key);
            assert(matching_rowids(a, key) + seq![] =~= matching_rowids(a, key));
        } else if c == 0 {
            assert(db.index_children_ordered(es, right, i + 1, Some(s), hi, fuel));
            if i + 1 < es.len() {
                let s2 = encode_utf8(es[i + 1].0);
                lemma_index_rowids_exact(db, es[i + 1].1 as int, fuel, Some(s), Some(s2), key);
                lemma_index_entries_within(db, es[i + 1].1 as int, fuel, Some(s), Some(s2));
                lemma_children_entries_within(db, es, right, i + 2, Some(s2), hi, fuel);
                let a2 = db.index_entries(es[i + 1].1 as int, fuel)->Ok_0;
                let rest2 = db.index_children_entries(es, Some(right), i + 2, fuel)->Ok_0;
                assert(rest == a2 + rest2);
                lemma_matching_concat(a2, rest2, key);
                assert(lex_cmp(s, s2) < 0);
                lemma_none_below(rest2, s2, hi, key);
                assert(matching_rowids(a2, key) + seq![] =~= matching_rowids(a2, key));
            } else {
                lemma_index_rowids_exact(db, right as int, fuel, Some(s), hi, key);
            }
        } else {
            lemma_none_above(a, lo, s, key);
            lemma_interior_rowids_exact(db, es, right, i + 1, Some(s), hi, fuel, key);
            assert(seq![] + matching_rowids(rest, key) =~= matching_rowids(rest, key));
        }
    }
}

/// Index lookup: in an index B-tree whose keys are in order, looking up a key
/// returns the rowids of all and only the stored entries whose key equals it
/// byte for byte, in the order the index stores them.
pub proof fn lemma_index_lookup_exact(db: &Database, root: int, key: Seq<u8>)
    requires
        db.index_ordered(root, db.page_count(), None, None),
    ensures
        db.index_entries(root, db.page_count()) is Ok,
        db.index_rowids(root, key, db.page_count()) == Ok::<Seq<u64>, DbError>(
            matching_rowids(db.index_entries(root, db.page_count())->Ok_0, key),
        ),
{
    lemma_index_rowids_exact(db, root, db.page_count(), None, None, key);
}

} // verus!
