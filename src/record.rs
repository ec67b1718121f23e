//! Record values and the serial-type record format.
use vstd::prelude::*;

use crate::codec::{
    be_uint, lemma_varint_size, read_be_int, read_be_uint, read_varint, signed_of, varint_at,
};
use crate::error::DbError;

verus! {

/// One stored value. A real number is kept as the bits of its IEEE 754
/// binary64 encoding; text is decoded with invalid UTF-8 replaced.
#[derive(Debug)]
pub enum RecordValue {
    Null,
    Int(i64),
    Real(u64),
    Text(String),
    Blob(Vec<u8>),
}

/// What a `RecordValue` holds, as mathematical values.
pub enum ValueModel {
    Null,
    Int(i64),
    Real(u64),
    Text(Seq<char>),
    Blob(Seq<u8>),
}

impl View for RecordValue {
    type V = ValueModel;

    open spec fn view(&self) -> ValueModel {
        match self {
            RecordValue::Null => ValueModel::Null,
            RecordValue::Int(i) => ValueModel::Int(*i),
            RecordValue::Real(b) => ValueModel::Real(*b),
            RecordValue::Text(s) => ValueModel::Text(s@),
            RecordValue::Blob(b) => ValueModel::Blob(b@),
        }
    }
}

/// A table row: its rowid and its column values in order.
#[derive(Debug)]
pub struct Record {
    pub id: u64,
    pub values: Vec<RecordValue>,
}

/// What a `Record` holds, as mathematical values.
pub struct RecordModel {
    pub id: u64,
    pub values: Seq<ValueModel>,
}

/// The models of a sequence of values.
pub open spec fn values_view(v: Seq<RecordValue>) -> Seq<ValueModel> {
    v.map_values(|x: RecordValue| x@)
}

impl View for Record {
    type V = RecordModel;

    open spec fn view(&self) -> RecordModel {
        RecordModel { id: self.id, values: values_view(self.values@) }
    }
}

/// The models of a sequence of records.
pub open spec fn records_view(v: Seq<Record>) -> Seq<RecordModel> {
    v.map_values(|x: Record| x@)
}

/// `a` is a prefix of `b`.
pub open spec fn is_prefix<T>(a: Seq<T>, b: Seq<T>) -> bool {
    a.len() <= b.len() && b.subrange(0, a.len() as int) == a
}

pub proof fn lemma_prefix_append<T>(a: Seq<T>, x: Seq<T>)
    ensures
        is_prefix(a, a + x),
{
    assert((a + x).subrange(0, a.len() as int) =~= a);
}

pub proof fn lemma_prefix_refl<T>(a: Seq<T>)
    ensures
        is_prefix(a, a),
{
    assert(a.subrange(0, a.len() as int) =~= a);
}

pub proof fn lemma_prefix_trans<T>(a: Seq<T>, b: Seq<T>, c: Seq<T>)
    requires
        is_prefix(a, b),
        is_prefix(b, c),
    ensures
        is_prefix(a, c),
{
    assert(c.subrange(0, a.len() as int) =~= c.subrange(0, b.len() as int).subrange(0, a.len() as int));
}

/// `acc` followed by what `r` holds, or the error of `r`.
pub open spec fn prepend<T>(acc: Seq<T>, r: Result<Seq<T>, DbError>) -> Result<Seq<T>, DbError> {
    match r {
        Ok(s) => Ok(acc + s),
        Err(e) => Err(e),
    }
}

pub proof fn lemma_prepend_push<T>(acc: Seq<T>, x: T, r: Result<Seq<T>, DbError>)
    ensures
        prepend(acc, prepend(seq![x], r)) == prepend(acc.push(x), r),
{
    if let Ok(s) = r {
        assert(acc + (seq![x] + s) =~= acc.push(x) + s);
    }
}

pub proof fn lemma_prepend_empty<T>(r: Result<Seq<T>, DbError>)
    ensures
        prepend(seq![], r) == r,
{
    if let Ok(s) = r {
        assert(seq![] + s =~= s);
    }
}

pub proof fn lemma_prepend_append<T>(acc: Seq<T>, a: Seq<T>, r: Result<Seq<T>, DbError>)
    ensures
        prepend(acc, prepend(a, r)) == prepend(acc + a, r),
{
    if let Ok(s) = r {
        assert(acc + (a + s) =~= (acc + a) + s);
    }
}

// ------------------------------------------------------------ serial types

/// The number of payload bytes of a serial type; `None` for the reserved 10 and 11.
pub open spec fn serial_size(t: u64) -> Option<nat> {
    if t == 0 || t == 8 || t == 9 {
        Some(0)
    } else if 1 <= t <= 4 {
        Some(t as nat)
    } else if t == 5 {
        Some(6)
    } else if t == 6 || t == 7 {
        Some(8)
    } else if t >= 12 {
        Some(((t - 12) / 2) as nat)
    } else {
        None
    }
}

/// The value of serial type `t` whose `n` payload bytes start at `pos`.
pub open spec fn value_at(d: Seq<u8>, pos: int, t: u64, n: nat) -> ValueModel {
    if t == 0 {
        ValueModel::Null
    } else if t <= 6 {
        ValueModel::Int(signed_of(be_uint(d, pos, n), n) as i64)
    } else if t == 7 {
        ValueModel::Real(be_uint(d, pos, 8) as u64)
    } else if t == 8 {
        ValueModel::Int(0)
    } else if t == 9 {
        ValueModel::Int(1)
    } else if t % 2 == 0 {
        ValueModel::Blob(d.subrange(pos, pos + n))
    } else {
        ValueModel::Text(utf8_lossy(d.subrange(pos, pos + n)))
    }
}

/// The text that `String::from_utf8_lossy` makes of a byte string.
pub uninterp spec fn utf8_lossy(b: Seq<u8>) -> Seq<char>;

/// Relies on `String::from_utf8_lossy`: the text that the bytes encode, each
/// invalid sequence replaced by U+FFFD; it depends on the bytes alone.
#[verifier::external_body]
pub(crate) fn text_from_bytes(b: &[u8]) -> (r: String)
    ensures
        r@ == utf8_lossy(b@),
{
    String::from_utf8_lossy(b).into_owned()
}

fn serial_size_of(t: u64) -> (r: Option<u64>)
    ensures
        match serial_size(t) {
            Some(n) => r == Some(n as u64),
            None => r is None,
        },
{
    if t == 0 || t == 8 || t == 9 {
        Some(0)
    } else if 1 <= t && t <= 4 {
        Some(t)
    } else if t == 5 {
        Some(6)
    } else if t == 6 || t == 7 {
        Some(8)
    } else if t >= 12 {
        Some((t - 12) / 2)
    } else {
        None
    }
}

/// Decodes the value of serial type `t` whose payload starts at `pos`.
pub fn decode_value(d: &[u8], pos: usize, t: u64, n: usize) -> (r: RecordValue)
    requires
        serial_size(t) == Some(n as nat),
        pos + n <= d@.len(),
    ensures
        r@ == value_at(d@, pos as int, t, n as nat),
{
    let len = d.len();
    assert(pos + n <= len);
    if t == 0 {
        RecordValue::Null
    } else if t <= 6 {
        RecordValue::Int(read_be_int(d, pos, n))
    } else if t == 7 {
        RecordValue::Real(read_be_uint(d, pos, 8))
    } else if t == 8 {
        RecordValue::Int(0)
    } else if t == 9 {
        RecordValue::Int(1)
    } else if t % 2 == 0 {
        RecordValue::Blob(vstd::slice::slice_to_vec(&d[pos..pos + n]))
    } else {
        RecordValue::Text(text_from_bytes(&d[pos..pos + n]))
    }
}

// ------------------------------------------------------------ record bodies

/// The values of a record whose serial types lie in `[hpos, hend)` and whose
/// payload runs from `vpos` up to `vend`.
pub open spec fn columns_from(d: Seq<u8>, hend: int, hpos: int, vpos: int, vend: int) -> Result<
    Seq<ValueModel>,
    DbError,
>
    decreases hend - hpos,
{
    if hpos >= hend {
        Ok(seq![])
    } else {
        match varint_at(d, hend, hpos) {
            None => Err(DbError::MalformedVarint),
            Some((t, l)) => match serial_size(t) {
                None => Err(DbError::MalformedRecord),
                Some(n) => if vpos + n > vend {
                    Err(DbError::MalformedRecord)
                } else {
                    proof {
                        lemma_varint_size(d, hend, hpos, 0);
                    }
                    prepend(seq![value_at(d, vpos, t, n)], columns_from(d, hend, hpos + l, vpos + n, vend))
                },
            },
        }
    }
}

/// The values of the record that occupies bytes `[b, e)`: a varint header
/// size (counting itself), the serial types, then the values.
pub open spec fn record_values(d: Seq<u8>, b: int, e: int) -> Result<Seq<ValueModel>, DbError> {
    match varint_at(d, e, b) {
        None => Err(DbError::MalformedVarint),
        Some((hs, l)) => if hs < l || hs > e - b {
            Err(DbError::MalformedRecord)
        } else {
            columns_from(d, b + hs, b + l, b + hs, e)
        },
    }
}

/// Decodes the record that occupies bytes `[b, e)` of `d`.
pub fn read_record_values(d: &[u8], b: usize, e: usize) -> (r: Result<Vec<RecordValue>, DbError>)
    requires
        b <= e <= d@.len(),
    ensures
        match record_values(d@, b as int, e as int) {
            Ok(vs) => r is Ok && values_view(r->Ok_0@) == vs,
            Err(x) => r == Err::<Vec<RecordValue>, DbError>(x),
        },
{
    let (hs, l) = match read_varint(d, e, b) {
        Ok(v) => v,
        Err(x) => return Err(x),
    };
    proof {
        lemma_varint_size(d@, e as int, b as int, 0);
    }
    if hs < l as u64 || hs > (e - b) as u64 {
        return Err(DbError::MalformedRecord);
    }
    let hend = b + hs as usize;
    let mut hpos = b + l;
    let mut vpos = hend;
    let mut vals: Vec<RecordValue> = Vec::new();
    assert(values_view(vals@) =~= seq![]);
    proof {
        lemma_prepend_empty(columns_from(d@, hend as int, hpos as int, vpos as int, e as int));
    }
    while hpos < hend
        invariant
            b <= e <= d@.len(),
            b <= hpos <= hend <= vpos <= e,
            hend == b + hs,
            record_values(d@, b as int, e as int) == prepend(
                values_view(vals@),
                columns_from(d@, hend as int, hpos as int, vpos as int, e as int),
            ),
        decreases hend - hpos,
    {
        let (t, l2) = match read_varint(d, hend, hpos) {
            Ok(v) => v,
            Err(x) => return Err(x),
        };
        proof {
            lemma_varint_size(d@, hend as int, hpos as int, 0);
        }
        let n = match serial_size_of(t) {
            Some(n) => n,
            None => return Err(DbError::MalformedRecord),
        };
        if n > (e - vpos) as u64 {
            return Err(DbError::MalformedRecord);
        }
        let n = n as usize;
        let v = decode_value(d, vpos, t, n);
        proof {
            lemma_prepend_push(
                values_view(vals@),
                v@,
                columns_from(d@, hend as int, hpos + l2, vpos + n, e as int),
            );
        }
        let ghost prev = vals@;
        vals.push(v);
        assert(values_view(vals@) =~= values_view(prev).push(v@));
        hpos = hpos + l2;
        vpos = vpos + n;
    }
    assert(prepend(values_view(vals@), Ok(seq![])) == Ok::<Seq<ValueModel>, DbError>(
        values_view(vals@),
    )) by {
        assert(values_view(vals@) + seq![] =~= values_view(vals@));
    }
    Ok(vals)
}

} // verus!
