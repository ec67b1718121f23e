//! The parts of a `SELECT cols FROM table [WHERE column = value]` command.
use vstd::prelude::*;
use vstd::utf8::encode_utf8;

use crate::catalog::{find_byte, is_space, lemma_find_byte, skip_space, skip_word};
use crate::record::{text_from_bytes, utf8_lossy};

verus! {

/// The first position from `i` on where the bytes ` = ` start; `s.len()` if none.
pub open spec fn find_equals(s: Seq<u8>, i: int) -> int
    decreases s.len() - i,
{
    if i < 0 || i + 3 > s.len() {
        s.len() as int
    } else if s[i] == 0x20 && s[i + 1] == 0x3d && s[i + 2] == 0x20 {
        i
    } else {
        find_equals(s, i + 1)
    }
}

/// The end of `s[i..e]` once trailing white space is dropped.
pub open spec fn trim_end(s: Seq<u8>, i: int, e: int) -> int
    decreases e - i,
{
    if e <= i || !is_space(s[e - 1]) {
        e
    } else {
        trim_end(s, i, e - 1)
    }
}

/// `s[i..e]` without its leading and trailing white space.
pub open spec fn trimmed(s: Seq<u8>, i: int, e: int) -> Seq<u8> {
    let a = skip_space(s, i, e);
    s.subrange(a, trim_end(s, a, e))
}

/// `t` without one pair of enclosing single quotes, if it has them.
pub open spec fn unquoted(t: Seq<u8>) -> Seq<u8> {
    if t.len() >= 2 && t[0] == 0x27 && t[t.len() - 1] == 0x27 {
        t.subrange(1, t.len() - 1)
    } else {
        t
    }
}

/// A `WHERE` clause split at its first ` = `: the trimmed column name and
/// the trimmed value without enclosing quotes. `None` without a ` = `.
pub open spec fn where_parts(s: Seq<u8>) -> Option<(Seq<u8>, Seq<u8>)> {
    let q = find_equals(s, 0);
    if q >= s.len() {
        None
    } else {
        Some((trimmed(s, 0, q), unquoted(trimmed(s, q + 3, s.len() as int))))
    }
}

fn find_equals_from(s: &[u8]) -> (r: usize)
    ensures
        r == find_equals(s@, 0),
        r <= s@.len(),
        r < s@.len() ==> r + 3 <= s@.len(),
{
    let n = s.len();
    let mut i: usize = 0;
    while i < n && n - i >= 3 && !(s[i] == 0x20 && s[i + 1] == 0x3d && s[i + 2] == 0x20)
        invariant
            n == s@.len(),
            i <= n,
            find_equals(s@, 0) == find_equals(s@, i as int),
        decreases n - i,
    {
        i = i + 1;
    }
    if i < n && n - i >= 3 {
        i
    } else {
        n
    }
}

fn trimmed_bounds(s: &[u8], i: usize, e: usize) -> (r: (usize, usize))
    requires
        i <= e <= s@.len(),
    ensures
        s@.subrange(r.0 as int, r.1 as int) == trimmed(s@, i as int, e as int),
        i <= r.0 <= r.1 <= e,
{
    let mut a = i;
    while a < e && (s[a] == 0x20 || (0x09 <= s[a] && s[a] <= 0x0d))
        invariant
            i <= a <= e <= s@.len(),
            skip_space(s@, i as int, e as int) == skip_space(s@, a as int, e as int),
        decreases e - a,
    {
        a = a + 1;
    }
    let mut b = e;
    while b > a && (s[b - 1] == 0x20 || (0x09 <= s[b - 1] && s[b - 1] <= 0x0d))
        invariant
            a <= b <= e <= s@.len(),
            trim_end(s@, a as int, e as int) == trim_end(s@, a as int, b as int),
        decreases b - a,
    {
        b = b - 1;
    }
    (a, b)
}

/// Splits a `WHERE` clause at its first ` = ` into the trimmed column name
/// and the trimmed value, without enclosing single quotes; `None` if the
/// clause has no ` = `.
pub fn parse_where(clause: &str) -> (r: Option<(String, String)>)
    ensures
        match where_parts(encode_utf8(clause@)) {
            None => r is None,
            Some((c, v)) => r is Some && r->Some_0.0@ == utf8_lossy(c) && r->Some_0.1@ == utf8_lossy(v),
        },
{
    let s = clause.as_bytes();
    let n = s.len();
    let q = find_equals_from(s);
    if q >= n {
        return None;
    }
    let (ca, cb) = trimmed_bounds(s, 0, q);
    let (va, vb) = trimmed_bounds(s, q + 3, n);
    let ghost t = s@.subrange(va as int, vb as int);
    let (va, vb) = if vb - va >= 2 && s[va] == 0x27 && s[vb - 1] == 0x27 {
        assert(t[0] == s@[va as int] && t[t.len() - 1] == s@[vb - 1]);
        assert(t.subrange(1, t.len() - 1) =~= s@.subrange(va + 1, vb - 1));
        (va + 1, vb - 1)
    } else {
        assert(t.len() >= 2 ==> t[0] == s@[va as int] && t[t.len() - 1] == s@[vb - 1]);
        (va, vb)
    };
    let column = text_from_bytes(&s[ca..cb]);
    let value = text_from_bytes(&s[va..vb]);
    Some((column, value))
}

// ------------------------------------------------------------ SELECT words

/// Where the white-space scans stop.
pub proof fn lemma_skips(s: Seq<u8>, i: int, e: int)
    requires
        i <= e,
    ensures
        i <= skip_space(s, i, e) <= e,
        skip_space(s, i, e) < e ==> !is_space(s[skip_space(s, i, e)]),
        i <= skip_word(s, i, e) <= e,
        i < e && !is_space(s[i]) ==> skip_word(s, i, e) > i,
    decreases e - i,
{
    if i < e {
        lemma_skips(s, i + 1, e);
    }
}

/// The white-space-separated words of `s` from position `i` on.
pub open spec fn words_from(s: Seq<u8>, i: int) -> Seq<Seq<u8>>
    decreases s.len() - i + 1,
{
    if i < 0 || i > s.len() {
        seq![]
    } else {
        let a = skip_space(s, i, s.len() as int);
        if a >= s.len() {
            seq![]
        } else {
            let b = skip_word(s, a, s.len() as int);
            proof {
                lemma_skips(s, i, s.len() as int);
                lemma_skips(s, a, s.len() as int);
            }
            seq![s.subrange(a, b)] + words_from(s, b)
        }
    }
}

/// ASCII upper case letters to lower case; other bytes unchanged.
pub open spec fn lower(b: u8) -> u8 {
    if 0x41 <= b && b <= 0x5a {
        (b + 32) as u8
    } else {
        b
    }
}

/// `w` is the lower-case keyword `k`, ignoring ASCII case.
pub open spec fn is_keyword(w: Seq<u8>, k: Seq<u8>) -> bool {
    w.len() == k.len() && forall|i: int| 0 <= i < w.len() ==> lower(#[trigger] w[i]) == k[i]
}

/// The position of the first word from `i` on that is the keyword `k`.
pub open spec fn keyword_pos(ws: Seq<Seq<u8>>, k: Seq<u8>, i: int) -> int
    decreases ws.len() - i,
{
    if i < 0 || i >= ws.len() {
        ws.len() as int
    } else if is_keyword(ws[i], k) {
        i
    } else {
        keyword_pos(ws, k, i + 1)
    }
}

/// The words joined with single spaces.
pub open spec fn join_words(ws: Seq<Seq<u8>>) -> Seq<u8>
    decreases ws.len(),
{
    if ws.len() == 0 {
        seq![]
    } else if ws.len() == 1 {
        ws[0]
    } else {
        join_words(ws.drop_last()) + seq![0x20u8] + ws.last()
    }
}

/// Each comma-separated field of `s` from `i` on, trimmed.
pub open spec fn trimmed_fields(s: Seq<u8>, i: int) -> Seq<Seq<u8>>
    decreases s.len() - i + 1,
{
    let c = find_byte(s, 0x2c, i, s.len() as int);
    if i > s.len() || c >= s.len() {
        seq![trimmed(s, i, s.len() as int)]
    } else {
        proof {
            lemma_find_byte(s, 0x2c, i, s.len() as int);
        }
        seq![trimmed(s, i, c)] + trimmed_fields(s, c + 1)
    }
}

/// The keyword `select` in bytes.
pub open spec fn select_word() -> Seq<u8> {
    seq![0x73u8, 0x65, 0x6c, 0x65, 0x63, 0x74]
}

/// The keyword `from` in bytes.
pub open spec fn from_word() -> Seq<u8> {
    seq![0x66u8, 0x72, 0x6f, 0x6d]
}

/// The keyword `where` in bytes.
pub open spec fn where_word() -> Seq<u8> {
    seq![0x77u8, 0x68, 0x65, 0x72, 0x65]
}

/// A `SELECT` command split into the requested columns (the words between
/// `SELECT` and `FROM` joined with spaces, split at commas and trimmed), the
/// table (the word after `FROM`) and the `WHERE` clause (the words after
/// `WHERE` joined with spaces). `None` without `SELECT`, or without `FROM`
/// after it and a word after that.
pub open spec fn select_parts(cmd: Seq<u8>) -> Option<(Seq<Seq<u8>>, Seq<u8>, Option<Seq<u8>>)> {
    let ws = words_from(cmd, 0);
    let s = keyword_pos(ws, select_word(), 0);
    let f = keyword_pos(ws, from_word(), 0);
    let w = keyword_pos(ws, where_word(), 0);
    if s >= ws.len() || f >= ws.len() || f < s + 1 || f + 1 >= ws.len() {
        None
    } else {
        Some(
            (
                trimmed_fields(join_words(ws.subrange(s + 1, f)), 0),
                ws[f + 1],
                if w < ws.len() {
                    Some(join_words(ws.subrange(w + 1, ws.len() as int)))
                } else {
                    None
                },
            ),
        )
    }
}

/// The models of a sequence of byte strings.
pub open spec fn byte_words(v: Seq<Vec<u8>>) -> Seq<Seq<u8>> {
    v.map_values(|w: Vec<u8>| w@)
}

fn split_words(s: &[u8]) -> (r: Vec<Vec<u8>>)
    ensures
        byte_words(r@) == words_from(s@, 0),
{
    let n = s.len();
    let mut out: Vec<Vec<u8>> = Vec::new();
    let mut i: usize = 0;
    let mut done = false;
    assert(byte_words(out@) + words_from(s@, 0) =~= words_from(s@, 0));
    while !done
        invariant
            n == s@.len(),
            i <= n,
            done ==> byte_words(out@) == words_from(s@, 0),
            !done ==> byte_words(out@) + words_from(s@, i as int) == words_from(s@, 0),
        decreases n - i + (if done { 0int } else { 1int }),
    {
        let mut a = i;
        while a < n && (s[a] == 0x20 || (0x09 <= s[a] && s[a] <= 0x0d))
            invariant
                i <= a <= n == s@.len(),
                skip_space(s@, i as int, n as int) == skip_space(s@, a as int, n as int),
            decreases n - a,
        {
            a = a + 1;
        }
        if a >= n {
            assert(words_from(s@, i as int) =~= Seq::<Seq<u8>>::empty());
            assert(byte_words(out@) + seq![] =~= byte_words(out@));
            done = true;
        } else {
            let mut b = a;
            while b < n && !(s[b] == 0x20 || (0x09 <= s[b] && s[b] <= 0x0d))
                invariant
                    a <= b <= n == s@.len(),
                    skip_word(s@, a as int, n as int) == skip_word(s@, b as int, n as int),
                decreases n - b,
            {
                b = b + 1;
            }
            proof {
                lemma_skips(s@, a as int, n as int);
            }
            let word = vstd::slice::slice_to_vec(&s[a..b]);
            let ghost prev = out@;
            out.push(word);
            assert(byte_words(out@) =~= byte_words(prev).push(word@));
            assert(byte_words(prev) + (seq![word@] + words_from(s@, b as int)) =~= byte_words(out@)
                + words_from(s@, b as int));
            i = b;
        }
    }
    out
}

fn word_is(w: &Vec<u8>, k: &[u8]) -> (r: bool)
    ensures
        r == is_keyword(w@, k@),
{
    if w.len() != k.len() {
        return false;
    }
    let mut i: usize = 0;
    while i < w.len()
        invariant
            w@.len() == k@.len(),
            i <= w@.len(),
            forall|j: int| 0 <= j < i ==> lower(#[trigger] w@[j]) == k@[j],
        decreases w@.len() - i,
    {
        let b = w[i];
        let l = if 0x41 <= b && b <= 0x5a {
            b + 32
        } else {
            b
        };
        if l != k[i] {
            return false;
        }
        i = i + 1;
    }
    true
}

fn keyword_position(ws: &Vec<Vec<u8>>, k: &[u8]) -> (r: usize)
    ensures
        r == keyword_pos(byte_words(ws@), k@, 0),
        r <= ws@.len(),
{
    let ghost bw = byte_words(ws@);
    let mut i: usize = 0;
    while i < ws.len()
        invariant
            bw == byte_words(ws@),
            i <= ws@.len(),
            keyword_pos(bw, k@, 0) == keyword_pos(bw, k@, i as int),
        decreases ws@.len() - i,
    {
        assert(bw[i as int] == ws@[i as int]@);
        if word_is(&ws[i], k) {
            return i;
        }
        i = i + 1;
    }
    i
}

fn join_range(ws: &Vec<Vec<u8>>, a: usize, b: usize) -> (r: Vec<u8>)
    requires
        a <= b <= ws@.len(),
    ensures
        r@ == join_words(byte_words(ws@).subrange(a as int, b as int)),
{
    let ghost bw = byte_words(ws@);
    let mut out: Vec<u8> = Vec::new();
    let mut i = a;
    assert(bw.subrange(a as int, a as int) =~= Seq::<Seq<u8>>::empty());
    while i < b
        invariant
            bw == byte_words(ws@),
            a <= i <= b <= ws@.len(),
            out@ == join_words(bw.subrange(a as int, i as int)),
        decreases b - i,
    {
        let ghost prev = out@;
        assert(bw[i as int] == ws@[i as int]@);
        assert(bw.subrange(a as int, i + 1).drop_last() =~= bw.subrange(a as int, i as int));
        if i > a {
            out.push(0x20);
        }
        let mut j: usize = 0;
        let ghost mid = out@;
        while j < ws[i].len()
            invariant
                a <= i < b <= ws@.len(),
                j <= ws@[i as int]@.len(),
                out@ == mid + ws@[i as int]@.subrange(0, j as int),
            decreases ws@[i as int]@.len() - j,
        {
            out.push(ws[i][j]);
            assert(ws@[i as int]@.subrange(0, j + 1) =~= ws@[i as int]@.subrange(0, j as int).push(
                ws@[i as int]@[j as int],
            ));
            assert(out@ =~= mid + ws@[i as int]@.subrange(0, j + 1));
            j = j + 1;
        }
        assert(ws@[i as int]@.subrange(0, ws@[i as int]@.len() as int) =~= ws@[i as int]@);
        if i > a {
            assert(out@ =~= prev + seq![0x20u8] + bw[i as int]);
        } else {
            assert(out@ =~= bw[i as int]);
        }
        i = i + 1;
    }
    out
}

fn trimmed_field_strings(s: &[u8]) -> (r: Vec<String>)
    ensures
        r@.len() == trimmed_fields(s@, 0).len(),
        forall|k: int| 0 <= k < r@.len() ==> (#[trigger] r@[k])@ == utf8_lossy(trimmed_fields(s@, 0)[k]),
{
    let e = s.len();
    let ghost all = trimmed_fields(s@, 0);
    let ghost mut acc: Seq<Seq<u8>> = seq![];
    let mut out: Vec<String> = Vec::new();
    let mut i: usize = 0;
    let mut done = false;
    assert(all =~= acc + trimmed_fields(s@, 0));
    while !done
        invariant
            e == s@.len(),
            i <= e,
            all == trimmed_fields(s@, 0),
            done ==> all == acc,
            !done ==> all == acc + trimmed_fields(s@, i as int),
            out@.len() == acc.len(),
            forall|k: int| 0 <= k < acc.len() ==> (#[trigger] out@[k])@ == utf8_lossy(acc[k]),
        decreases e - i + (if done { 0int } else { 1int }),
    {
        let mut c = i;
        while c < e && s[c] != 0x2c
            invariant
                i <= c <= e == s@.len(),
                find_byte(s@, 0x2c, i as int, e as int) == find_byte(s@, 0x2c, c as int, e as int),
            decreases e - c,
        {
            c = c + 1;
        }
        let (a, b) = trimmed_bounds(s, i, c);
        let ghost t = s@.subrange(a as int, b as int);
        let field = text_from_bytes(&s[a..b]);
        proof {
            if c < e {
                assert(trimmed_fields(s@, i as int) == seq![t] + trimmed_fields(s@, c + 1));
                assert(acc + (seq![t] + trimmed_fields(s@, c + 1)) =~= acc.push(t) + trimmed_fields(s@, c + 1));
            } else {
                assert(trimmed_fields(s@, i as int) == seq![t]);
                assert(acc + seq![t] =~= acc.push(t));
            }
            acc = acc.push(t);
        }
        out.push(field);
        if c >= e {
            done = true;
        } else {
            i = c + 1;
        }
    }
    out
}

/// The parts of a `SELECT` command.
pub struct SelectQuery {
    pub columns: Vec<String>,
    pub table: String,
    pub where_clause: Option<String>,
}

/// Splits a `SELECT cols FROM table [WHERE ...]` command into its requested
/// columns, its table and its `WHERE` clause; keywords match in any ASCII
/// case. `None` without `SELECT`, or without `FROM` after it and a word after that.
pub fn parse_select(command: &str) -> (r: Option<SelectQuery>)
    ensures
        match select_parts(encode_utf8(command@)) {
            None => r is None,
            Some((cols, table, clause)) => r is Some && r->Some_0.columns@.len() == cols.len()
                && (forall|k: int|
                0 <= k < cols.len() ==> (#[trigger] r->Some_0.columns@[k])@ == utf8_lossy(cols[k]))
                && r->Some_0.table@ == utf8_lossy(table) && match clause {
                None => r->Some_0.where_clause is None,
                Some(c) => r->Some_0.where_clause is Some && r->Some_0.where_clause->Some_0@
                    == utf8_lossy(c),
            },
        },
{
    let ws = split_words(command.as_bytes());
    let select_kw: [u8; 6] = [0x73, 0x65, 0x6c, 0x65, 0x63, 0x74];
    let from_kw: [u8; 4] = [0x66, 0x72, 0x6f, 0x6d];
    let where_kw: [u8; 5] = [0x77, 0x68, 0x65, 0x72, 0x65];
    assert(select_kw@ =~= select_word());
    assert(from_kw@ =~= from_word());
    assert(where_kw@ =~= where_word());
    let s = keyword_position(&ws, select_kw.as_slice());
    let f = keyword_position(&ws, from_kw.as_slice());
    let w = keyword_position(&ws, where_kw.as_slice());
    let n = ws.len();
    if s >= n || f >= n || f < s + 1 || f + 1 >= n {
        return None;
    }
    let joined = join_range(&ws, s + 1, f);
    let columns = trimmed_field_strings(joined.as_slice());
    assert(byte_words(ws@)[f + 1] == ws@[f + 1]@);
    let table = text_from_bytes(ws[f + 1].as_slice());
    let where_clause = if w < n {
        let clause = join_range(&ws, w + 1, n);
        Some(text_from_bytes(clause.as_slice()))
    } else {
        None
    };
    Some(SelectQuery { columns, table, where_clause })
}

} // verus!
