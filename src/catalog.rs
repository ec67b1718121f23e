//! Lookups in the catalog on page 1, whose rows are
//! `[type, name, tbl_name, rootpage, sql]`.
use vstd::prelude::*;
use vstd::utf8::encode_utf8;

use crate::codec::{compare_bytes, lemma_lex_cmp_eq};
use crate::record::{text_from_bytes, utf8_lossy, Record, RecordModel, RecordValue, ValueModel};

verus! {

/// `v` is text whose bytes are those of `s`.
pub open spec fn is_text(v: ValueModel, s: Seq<char>) -> bool {
    v is Text && encode_utf8(v->Text_0) == encode_utf8(s)
}

/// The catalog row names the object `name` in its second column.
pub open spec fn names_object(r: RecordModel, name: Seq<char>) -> bool {
    r.values.len() > 1 && is_text(r.values[1], name)
}

/// Whether `v` is the text `s`, compared byte for byte.
pub fn text_is(v: &RecordValue, s: &str) -> (r: bool)
    ensures
        r == is_text(v@, s@),
{
    match v {
        RecordValue::Text(t) => {
            let c = compare_bytes(t.as_str().as_bytes(), s.as_bytes());
            proof {
                lemma_lex_cmp_eq(encode_utf8(t@), encode_utf8(s@));
            }
            c == 0
        },
        _ => false,
    }
}

/// The position of the first catalog row that names `name`.
pub fn find_table(catalog: &Vec<Record>, name: &str) -> (r: Option<usize>)
    ensures
        match r {
            Some(i) => i < catalog@.len() && names_object(catalog@[i as int]@, name@) && forall|j: int|
                0 <= j < i ==> !names_object(#[trigger] catalog@[j]@, name@),
            None => forall|j: int|
                0 <= j < catalog@.len() ==> !names_object(#[trigger] catalog@[j]@, name@),
        },
{
    let mut i: usize = 0;
    while i < catalog.len()
        invariant
            i <= catalog@.len(),
            forall|j: int| 0 <= j < i ==> !names_object(#[trigger] catalog@[j]@, name@),
        decreases catalog@.len() - i,
    {
        let values = &catalog[i].values;
        if values.len() > 1 {
            assert(catalog@[i as int]@.values[1] == values@[1]@);
            if text_is(&values[1], name) {
                return Some(i);
            }
        }
        i = i + 1;
    }
    None
}

/// The text that `str::to_lowercase` makes of `s`.
pub uninterp spec fn lower_of(s: Seq<char>) -> Seq<char>;

/// Relies on `str::to_lowercase`: the lower-case form of the text by
/// Unicode's case rules; it depends on the characters alone.
#[verifier::external_body]
fn lowercase(s: &str) -> (r: String)
    ensures
        r@ == lower_of(s@),
{
    s.to_lowercase()
}

/// The bytes of the catalog type `index`.
pub open spec fn index_type() -> Seq<u8> {
    seq![0x69u8, 0x6e, 0x64, 0x65, 0x78]
}

/// The catalog row describes an index whose name, in lower case, is `name`.
pub open spec fn names_index(r: RecordModel, name: Seq<char>) -> bool {
    &&& r.values.len() > 1
    &&& r.values[0] is Text && encode_utf8(r.values[0]->Text_0) == index_type()
    &&& r.values[1] is Text && encode_utf8(lower_of(r.values[1]->Text_0)) == encode_utf8(name)
}

/// The position of the first catalog row of type `index` whose name, in
/// lower case, is `name`.
pub fn find_index(catalog: &Vec<Record>, name: &str) -> (r: Option<usize>)
    ensures
        match r {
            Some(i) => i < catalog@.len() && names_index(catalog@[i as int]@, name@) && forall|j: int|
                0 <= j < i ==> !names_index(#[trigger] catalog@[j]@, name@),
            None => forall|j: int|
                0 <= j < catalog@.len() ==> !names_index(#[trigger] catalog@[j]@, name@),
        },
{
    let kind: [u8; 5] = [0x69, 0x6e, 0x64, 0x65, 0x78];
    assert(kind@ =~= index_type());
    let mut i: usize = 0;
    while i < catalog.len()
        invariant
            kind@ == index_type(),
            i <= catalog@.len(),
            forall|j: int| 0 <= j < i ==> !names_index(#[trigger] catalog@[j]@, name@),
        decreases catalog@.len() - i,
    {
        let values = &catalog[i].values;
        if values.len() > 1 {
            assert(catalog@[i as int]@.values[0] == values@[0]@);
            assert(catalog@[i as int]@.values[1] == values@[1]@);
            if let (RecordValue::Text(t), RecordValue::Text(n)) = (&values[0], &values[1]) {
                let c = compare_bytes(t.as_str().as_bytes(), kind.as_slice());
                proof {
                    lemma_lex_cmp_eq(encode_utf8(t@), index_type());
                }
                if c == 0 {
                    let lower = lowercase(n.as_str());
                    let d = compare_bytes(lower.as_str().as_bytes(), name.as_bytes());
                    proof {
                        lemma_lex_cmp_eq(encode_utf8(lower_of(n@)), encode_utf8(name@));
                    }
                    if d == 0 {
                        return Some(i);
                    }
                }
            }
        }
        i = i + 1;
    }
    None
}

/// The root page that a catalog row gives in its fourth column, when that is
/// a positive integer.
pub fn root_page_number(row: &Record) -> (r: Option<usize>)
    ensures
        match r {
            Some(n) => row@.values.len() > 3 && row@.values[3] is Int && row@.values[3]->Int_0 > 0
                && n == row@.values[3]->Int_0 as usize,
            None => !(row@.values.len() > 3 && row@.values[3] is Int && row@.values[3]->Int_0 > 0),
        },
{
    if row.values.len() <= 3 {
        return None;
    }
    assert(row@.values[3] == row.values@[3]@);
    match &row.values[3] {
        RecordValue::Int(n) => if *n > 0 {
            Some(*n as usize)
        } else {
            None
        },
        _ => None,
    }
}

// ------------------------------------------------- column names of a table

/// ASCII white space: space, tab, line feed, vertical tab, form feed, return.
pub open spec fn is_space(b: u8) -> bool {
    b == 0x20 || (0x09 <= b && b <= 0x0d)
}

/// The first position from `i` on, before `e`, that is not white space.
pub open spec fn skip_space(s: Seq<u8>, i: int, e: int) -> int
    decreases e - i,
{
    if i >= e || !is_space(s[i]) {
        i
    } else {
        skip_space(s, i + 1, e)
    }
}

/// The first position from `i` on, before `e`, that is white space.
pub open spec fn skip_word(s: Seq<u8>, i: int, e: int) -> int
    decreases e - i,
{
    if i >= e || is_space(s[i]) {
        i
    } else {
        skip_word(s, i + 1, e)
    }
}

/// The first position from `i` on, before `e`, that holds `c`; `e` if none does.
pub open spec fn find_byte(s: Seq<u8>, c: u8, i: int, e: int) -> int
    decreases e - i,
{
    if i >= e || s[i] == c {
        i
    } else {
        find_byte(s, c, i + 1, e)
    }
}

/// The first white-space-delimited word of `s[i..e]`; empty if there is none.
pub open spec fn first_word(s: Seq<u8>, i: int, e: int) -> Seq<u8> {
    let a = skip_space(s, i, e);
    s.subrange(a, skip_word(s, a, e))
}

/// The first word of each comma-separated field of `s[i..e]`.
pub open spec fn field_words(s: Seq<u8>, i: int, e: int) -> Seq<Seq<u8>>
    decreases e - i + 1,
{
    let c = find_byte(s, 0x2c, i, e);
    if i > e || c >= e {
        seq![first_word(s, i, e)]
    } else {
        proof {
            lemma_find_byte(s, 0x2c, i, e);
        }
        seq![first_word(s, i, c)] + field_words(s, c + 1, e)
    }
}

/// The column names of a `CREATE TABLE` statement: after its first `(`, the
/// first word of each comma-separated field. `None` without a `(`.
pub open spec fn column_names_of(sql: Seq<u8>) -> Option<Seq<Seq<u8>>> {
    let p = find_byte(sql, 0x28, 0, sql.len() as int);
    if p >= sql.len() {
        None
    } else {
        Some(field_words(sql, p + 1, sql.len() as int))
    }
}

pub proof fn lemma_find_byte(s: Seq<u8>, c: u8, i: int, e: int)
    requires
        i <= e,
    ensures
        i <= find_byte(s, c, i, e) <= e,
    decreases e - i,
{
    if i < e && s[i] != c {
        lemma_find_byte(s, c, i + 1, e);
    }
}

fn space_byte(b: u8) -> (r: bool)
    ensures
        r == is_space(b),
{
    b == 0x20 || (0x09 <= b && b <= 0x0d)
}

fn find_byte_from(s: &[u8], c: u8, i: usize, e: usize) -> (r: usize)
    requires
        i <= e <= s@.len(),
    ensures
        r == find_byte(s@, c, i as int, e as int),
        i <= r <= e,
{
    let mut k = i;
    while k < e && s[k] != c
        invariant
            i <= k <= e <= s@.len(),
            find_byte(s@, c, i as int, e as int) == find_byte(s@, c, k as int, e as int),
        decreases e - k,
    {
        k = k + 1;
    }
    k
}

fn first_word_bounds(s: &[u8], i: usize, e: usize) -> (r: (usize, usize))
    requires
        i <= e <= s@.len(),
    ensures
        r.0 == skip_space(s@, i as int, e as int),
        r.1 == skip_word(s@, r.0 as int, e as int),
        i <= r.0 <= r.1 <= e,
{
    let mut a = i;
    while a < e && space_byte(s[a])
        invariant
            i <= a <= e <= s@.len(),
            skip_space(s@, i as int, e as int) == skip_space(s@, a as int, e as int),
        decreases e - a,
    {
        a = a + 1;
    }
    let mut b = a;
    while b < e && !space_byte(s[b])
        invariant
            a <= b <= e <= s@.len(),
            skip_word(s@, a as int, e as int) == skip_word(s@, b as int, e as int),
        decreases e - b,
    {
        b = b + 1;
    }
    (a, b)
}

/// The column names of a `CREATE TABLE` statement: after its first `(`, the
/// first word of each comma-separated field; `None` if it has no `(`.
pub fn column_names(sql: &str) -> (r: Option<Vec<String>>)
    ensures
        match column_names_of(encode_utf8(sql@)) {
            None => r is None,
            Some(ws) => r is Some && r->Some_0@.len() == ws.len() && forall|k: int|
                0 <= k < ws.len() ==> (#[trigger] r->Some_0@[k])@ == utf8_lossy(ws[k]),
        },
{
    let s = sql.as_bytes();
    let e = s.len();
    let p = find_byte_from(s, 0x28, 0, e);
    if p >= e {
        return None;
    }
    let ghost all = field_words(s@, p + 1, e as int);
    let ghost mut acc: Seq<Seq<u8>> = seq![];
    let mut names: Vec<String> = Vec::new();
    let mut i = p + 1;
    let mut done = false;
    assert(all =~= acc + field_words(s@, i as int, e as int));
    while !done
        invariant
            e == s@.len(),
            p < e,
            p + 1 <= i <= e,
            all == field_words(s@, p + 1, e as int),
            done ==> all == acc,
            !done ==> all == acc + field_words(s@, i as int, e as int),
            names@.len() == acc.len(),
            forall|k: int| 0 <= k < acc.len() ==> (#[trigger] names@[k])@ == utf8_lossy(acc[k]),
        decreases e - i + (if done { 0int } else { 1int }),
    {
        let c = find_byte_from(s, 0x2c, i, e);
        let (a, b) = first_word_bounds(s, i, c);
        let word = text_from_bytes(&s[a..b]);
        let ghost w = s@.subrange(a as int, b as int);
        assert(w == first_word(s@, i as int, c as int));
        proof {
            if c < e {
                assert(field_words(s@, i as int, e as int) == seq![w] + field_words(s@, c + 1, e as int));
                assert(acc + (seq![w] + field_words(s@, c + 1, e as int)) =~= acc.push(w) + field_words(s@, c + 1, e as int));
            } else {
                assert(field_words(s@, i as int, e as int) == seq![w]);
                assert(acc + seq![w] =~= acc.push(w));
            }
            acc = acc.push(w);
        }
        names.push(word);
        if c >= e {
            done = true;
        } else {
            i = c + 1;
        }
    }
    Some(names)
}

} // verus!
