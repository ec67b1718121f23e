//! Byte-level decoding: varints, big-endian integers, serial types and record bodies.
use vstd::prelude::*;

use crate::error::DbError;

verus! {

pub open spec fn pow128(n: nat) -> int
    decreases n,
{
    if n == 0 {
        1
    } else {
        128 * pow128((n - 1) as nat)
    }
}

pub open spec fn pow256(n: nat) -> int
    decreases n,
{
    if n == 0 {
        1
    } else {
        256 * pow256((n - 1) as nat)
    }
}

pub proof fn lemma_pow128_mono(a: nat, b: nat)
    requires
        a <= b,
    ensures
        1 <= pow128(a) <= pow128(b),
    decreases b,
{
    if a < b {
        lemma_pow128_mono(a, (b - 1) as nat);
    } else if a > 0 {
        lemma_pow128_mono((a - 1) as nat, (a - 1) as nat);
    }
}

pub proof fn lemma_pow256_mono(a: nat, b: nat)
    requires
        a <= b,
    ensures
        1 <= pow256(a) <= pow256(b),
    decreases b,
{
    if a < b {
        lemma_pow256_mono(a, (b - 1) as nat);
    } else if a > 0 {
        lemma_pow256_mono((a - 1) as nat, (a - 1) as nat);
    }
}

pub proof fn lemma_pow_values()
    ensures
        pow128(7) == 0x2_0000_0000_0000,
        pow128(8) == 0x100_0000_0000_0000,
        pow256(1) == 0x100,
        pow256(2) == 0x1_0000,
        pow256(3) == 0x100_0000,
        pow256(4) == 0x1_0000_0000,
        pow256(6) == 0x1_0000_0000_0000,
        pow256(7) == 0x100_0000_0000_0000,
        pow256(8) == 0x1_0000_0000_0000_0000,
{
    reveal_with_fuel(pow128, 9);
    reveal_with_fuel(pow256, 9);
}

// ---------------------------------------------------------------- varints

/// The number of bytes of the varint at `p` whose bytes must lie before `end`,
/// counting from its `i`-th byte on; `None` where the buffer ends first.
pub open spec fn varint_size_from(d: Seq<u8>, end: int, p: int, i: nat) -> Option<nat>
    decreases 9 - i,
{
    if i > 8 || p < 0 || p + i >= end {
        None
    } else if i == 8 {
        Some(9)
    } else if d[p + i] < 128 {
        Some(i + 1)
    } else {
        varint_size_from(d, end, p, i + 1)
    }
}

/// The low seven bits of the first `n` bytes at `p`, most significant first.
pub open spec fn varint_acc(d: Seq<u8>, p: int, n: nat) -> int
    decreases n,
{
    if n == 0 {
        0
    } else {
        varint_acc(d, p, (n - 1) as nat) * 128 + (d[p + n - 1] % 128)
    }
}

/// The value of an `n`-byte varint at `p`: a ninth byte gives all eight bits.
pub open spec fn varint_value(d: Seq<u8>, p: int, n: nat) -> int {
    if n == 9 {
        varint_acc(d, p, 8) * 256 + d[p + 8]
    } else {
        varint_acc(d, p, n)
    }
}

/// The varint that starts at `p` and ends before `end`: its value and its length.
pub open spec fn varint_at(d: Seq<u8>, end: int, p: int) -> Option<(u64, nat)> {
    match varint_size_from(d, end, p, 0) {
        Some(n) => Some((varint_value(d, p, n) as u64, n)),
        None => None,
    }
}

pub open spec fn varint_result(d: Seq<u8>, end: int, p: int) -> Result<(u64, usize), DbError> {
    match varint_at(d, end, p) {
        Some((v, n)) => Ok((v, n as usize)),
        None => Err(DbError::MalformedVarint),
    }
}

pub proof fn lemma_varint_size(d: Seq<u8>, end: int, p: int, i: nat)
    requires
        varint_size_from(d, end, p, i) is Some,
    ensures
        i + 1 <= varint_size_from(d, end, p, i)->Some_0 <= 9,
        p >= 0,
        p + varint_size_from(d, end, p, i)->Some_0 <= end,
    decreases 9 - i,
{
    if i < 8 && d[p + i] >= 128 {
        lemma_varint_size(d, end, p, i + 1);
    }
}

pub proof fn lemma_varint_acc_bound(d: Seq<u8>, p: int, n: nat)
    ensures
        0 <= varint_acc(d, p, n) < pow128(n),
    decreases n,
{
    if n > 0 {
        lemma_varint_acc_bound(d, p, (n - 1) as nat);
    }
}

pub proof fn lemma_varint_value_bound(d: Seq<u8>, p: int, n: nat)
    requires
        1 <= n <= 9,
    ensures
        0 <= varint_value(d, p, n) <= u64::MAX,
{
    lemma_pow_values();
    if n == 9 {
        lemma_varint_acc_bound(d, p, 8);
    } else {
        lemma_varint_acc_bound(d, p, n);
        lemma_pow128_mono(n, 8);
    }
}

/// Reads the varint at `p`, whose bytes must lie before `end`.
pub fn read_varint(d: &[u8], end: usize, p: usize) -> (r: Result<(u64, usize), DbError>)
    requires
        end <= d@.len(),
    ensures
        r == varint_result(d@, end as int, p as int),
        r is Ok ==> 1 <= r->Ok_0.1 <= 9 && p + r->Ok_0.1 <= end,
{
    if p >= end {
        return Err(DbError::MalformedVarint);
    }
    let mut value: u64 = 0;
    let mut i: usize = 0;
    while i < 8
        invariant
            end <= d@.len(),
            p < end,
            i <= 8,
            p + i <= end,
            value as int == varint_acc(d@, p as int, i as nat),
            varint_size_from(d@, end as int, p as int, 0) == varint_size_from(
                d@,
                end as int,
                p as int,
                i as nat,
            ),
        decreases 8 - i,
    {
        if i >= end - p {
            return Err(DbError::MalformedVarint);
        }
        let b = d[p + i];
        proof {
            lemma_varint_acc_bound(d@, p as int, i as nat);
            lemma_pow128_mono(i as nat, 7);
            lemma_pow_values();
        }
        value = value * 128 + (b % 128) as u64;
        if b < 128 {
            proof {
                lemma_varint_value_bound(d@, p as int, (i + 1) as nat);
            }
            return Ok((value, i + 1));
        }
        i = i + 1;
    }
    if 8 >= end - p {
        return Err(DbError::MalformedVarint);
    }
    proof {
        lemma_varint_acc_bound(d@, p as int, 8);
        lemma_pow_values();
        lemma_varint_value_bound(d@, p as int, 9);
    }
    value = value * 256 + d[p + 8] as u64;
    Ok((value, 9))
}

/// `n` base-128 digits of `x`, most significant first, each with its
/// continuation bit set.
pub open spec fn cont_digits(x: nat, n: nat) -> Seq<u8>
    decreases n,
{
    if n == 0 {
        seq![]
    } else {
        cont_digits(x / 128, (n - 1) as nat).push((x % 128 + 128) as u8)
    }
}

pub open spec fn varint_len_from(v: u64, n: nat) -> nat
    decreases 9 - n,
{
    if n >= 9 {
        9
    } else if v < pow128(n) {
        n
    } else {
        varint_len_from(v, n + 1)
    }
}

/// The number of bytes that encode `v`: the fewest that hold it seven bits
/// at a time, or nine, whose last byte holds eight.
pub open spec fn varint_len_of(v: u64) -> nat {
    varint_len_from(v, 1)
}

/// The shortest varint encoding of `v`.
pub open spec fn varint_encode(v: u64) -> Seq<u8> {
    let n = varint_len_of(v);
    if n == 9 {
        cont_digits(v as nat / 256, 8).push((v % 256) as u8)
    } else {
        cont_digits(v as nat / 128, (n - 1) as nat).push((v % 128) as u8)
    }
}

proof fn lemma_varint_len_from(v: u64, n: nat)
    requires
        1 <= n <= 9,
    ensures
        n <= varint_len_from(v, n) <= 9,
        varint_len_from(v, n) <= 8 ==> v < pow128(varint_len_from(v, n)),
    decreases 9 - n,
{
    if n < 9 && v >= pow128(n) {
        lemma_varint_len_from(v, n + 1);
    }
}

proof fn lemma_cont_len(x: nat, n: nat)
    ensures
        cont_digits(x, n).len() == n,
    decreases n,
{
    if n > 0 {
        lemma_cont_len(x / 128, (n - 1) as nat);
    }
}

proof fn lemma_cont_digits(x: nat, n: nat, s: Seq<u8>)
    requires
        n <= s.len(),
        forall|i: int| 0 <= i < n ==> s[i] == #[trigger] cont_digits(x, n)[i],
    ensures
        cont_digits(x, n).len() == n,
        forall|i: int| 0 <= i < n ==> #[trigger] cont_digits(x, n)[i] >= 128,
        varint_acc(s, 0, n) == (x as int) % pow128(n),
    decreases n,
{
    lemma_cont_len(x, n);
    if n > 0 {
        lemma_cont_len(x / 128, (n - 1) as nat);
        let prev = cont_digits(x / 128, (n - 1) as nat);
        let cur = cont_digits(x, n);
        assert(cur == prev.push((x % 128 + 128) as u8));
        assert forall|i: int| 0 <= i < n - 1 implies s[i] == #[trigger] prev[i] by {
            assert(cur[i] == prev[i]);
        }
        lemma_cont_digits(x / 128, (n - 1) as nat, s);
        assert(cur[n - 1] == (x % 128 + 128) as u8);
        assert(s[n - 1] == (x % 128 + 128) as u8);
        assert(s[n - 1] % 128 == x % 128);
        lemma_pow128_mono((n - 1) as nat, (n - 1) as nat);
        vstd::arithmetic::div_mod::lemma_breakdown(x as int, 128, pow128((n - 1) as nat));
    }
}

proof fn lemma_size_cont(s: Seq<u8>, end: int, k: nat, i: nat)
    requires
        i <= k <= 8,
        k < end,
        k < s.len(),
        forall|j: int| i <= j < k ==> s[j] >= 128,
        k < 8 ==> s[k as int] < 128,
    ensures
        varint_size_from(s, end, 0, i) == Some(k + 1),
    decreases k - i,
{
    if i < k {
        lemma_size_cont(s, end, k, i + 1);
    }
}

/// Varint round trip: decoding the encoding of any `v` gives back `v` and
/// consumes exactly the bytes of the encoding.
pub proof fn lemma_varint_round_trip(v: u64)
    ensures
        varint_at(varint_encode(v), varint_encode(v).len() as int, 0) == Some(
            (v, varint_encode(v).len()),
        ),
{
    let n = varint_len_of(v);
    let e = varint_encode(v);
    lemma_varint_len_from(v, 1);
    lemma_pow_values();
    if n == 9 {
        let x = v as nat / 256;
        lemma_cont_len(x, 8);
        assert forall|i: int| 0 <= i < 8 implies e[i] == #[trigger] cont_digits(x, 8)[i] by {}
        lemma_cont_digits(x, 8, e);
        lemma_size_cont(e, e.len() as int, 8, 0);
        assert(x < pow128(8));
        vstd::arithmetic::div_mod::lemma_small_mod(x, pow128(8) as nat);
        vstd::arithmetic::div_mod::lemma_fundamental_div_mod(v as int, 256);
        assert(varint_value(e, 0, 9) == v);
    } else {
        let x = v as nat / 128;
        let m = (n - 1) as nat;
        lemma_cont_len(x, m);
        assert forall|i: int| 0 <= i < m implies e[i] == #[trigger] cont_digits(x, m)[i] by {}
        lemma_cont_digits(x, m, e);
        assert(e[m as int] == (v % 128) as u8);
        lemma_size_cont(e, e.len() as int, m, 0);
        lemma_pow128_mono(m, m);
        assert(pow128(n) == 128 * pow128(m));
        vstd::arithmetic::div_mod::lemma_fundamental_div_mod(v as int, 128);
        assert(x < pow128(m)) by (nonlinear_arith)
            requires
                v < 128 * pow128(m),
                v == 128 * x + v % 128,
                0 <= v % 128,
        ;
        vstd::arithmetic::div_mod::lemma_small_mod(x, pow128(m) as nat);
        assert(varint_acc(e, 0, n) == varint_acc(e, 0, m) * 128 + e[m as int] % 128);
        assert(varint_value(e, 0, n) == v);
    }
}

// ------------------------------------------------------ big-endian integers

/// The unsigned big-endian value of the `n` bytes at `p`.
pub open spec fn be_uint(d: Seq<u8>, p: int, n: nat) -> int
    decreases n,
{
    if n == 0 {
        0
    } else {
        be_uint(d, p, (n - 1) as nat) * 256 + d[p + n - 1]
    }
}

/// Two's complement reading of an `n`-byte unsigned value.
pub open spec fn signed_of(u: int, n: nat) -> int {
    if u >= pow256(n) / 2 {
        u - pow256(n)
    } else {
        u
    }
}

pub proof fn lemma_be_uint_bound(d: Seq<u8>, p: int, n: nat)
    ensures
        0 <= be_uint(d, p, n) < pow256(n),
    decreases n,
{
    if n > 0 {
        lemma_be_uint_bound(d, p, (n - 1) as nat);
    }
}

/// Reads `n` bytes at `p` as an unsigned big-endian integer.
pub fn read_be_uint(d: &[u8], p: usize, n: usize) -> (r: u64)
    requires
        n <= 8,
        p + n <= d@.len(),
    ensures
        r as int == be_uint(d@, p as int, n as nat),
{
    let len = d.len();
    let mut acc: u64 = 0;
    let mut i: usize = 0;
    while i < n
        invariant
            len == d@.len(),
            n <= 8,
            p + n <= d@.len(),
            i <= n,
            acc as int == be_uint(d@, p as int, i as nat),
        decreases n - i,
    {
        proof {
            lemma_be_uint_bound(d@, p as int, i as nat);
            lemma_pow256_mono(i as nat, 7);
            lemma_pow_values();
        }
        acc = acc * 256 + d[p + i] as u64;
        i = i + 1;
    }
    acc
}

/// Reads the big-endian 16-bit integer at `p`.
pub fn read_u16(d: &[u8], p: usize) -> (r: u16)
    requires
        p + 2 <= d@.len(),
    ensures
        r as int == be_uint(d@, p as int, 2),
{
    let v = read_be_uint(d, p, 2);
    proof {
        lemma_be_uint_bound(d@, p as int, 2);
        lemma_pow_values();
    }
    v as u16
}

/// Reads the big-endian 32-bit integer at `p`.
pub fn read_u32(d: &[u8], p: usize) -> (r: u32)
    requires
        p + 4 <= d@.len(),
    ensures
        r as int == be_uint(d@, p as int, 4),
{
    let v = read_be_uint(d, p, 4);
    proof {
        lemma_be_uint_bound(d@, p as int, 4);
        lemma_pow_values();
    }
    v as u32
}

/// Reads `n` bytes at `p` as a sign-extended big-endian integer.
pub fn read_be_int(d: &[u8], p: usize, n: usize) -> (r: i64)
    requires
        n == 1 || n == 2 || n == 3 || n == 4 || n == 6 || n == 8,
        p + n <= d@.len(),
    ensures
        r as int == signed_of(be_uint(d@, p as int, n as nat), n as nat),
{
    let u = read_be_uint(d, p, n);
    proof {
        lemma_be_uint_bound(d@, p as int, n as nat);
        lemma_pow_values();
    }
    if n == 8 {
        if u >= 0x8000_0000_0000_0000 {
            (u - 0x8000_0000_0000_0000) as i64 - 0x7fff_ffff_ffff_ffff - 1
        } else {
            u as i64
        }
    } else {
        let full: u64 = if n == 1 {
            0x100
        } else if n == 2 {
            0x1_0000
        } else if n == 3 {
            0x100_0000
        } else if n == 4 {
            0x1_0000_0000
        } else {
            0x1_0000_0000_0000
        };
        if u >= full / 2 {
            (u as i64) - (full as i64)
        } else {
            u as i64
        }
    }
}

// ---------------------------------------------------------- byte ordering

/// Byte-wise lexicographic comparison: -1, 0 or 1.
pub open spec fn lex_cmp(a: Seq<u8>, b: Seq<u8>) -> int
    decreases a.len(),
{
    if a.len() == 0 {
        if b.len() == 0 {
            0
        } else {
            -1
        }
    } else if b.len() == 0 {
        1
    } else if a[0] < b[0] {
        -1
    } else if a[0] > b[0] {
        1
    } else {
        lex_cmp(a.drop_first(), b.drop_first())
    }
}

/// Compares two byte strings lexicographically: -1, 0 or 1.
pub fn compare_bytes(a: &[u8], b: &[u8]) -> (r: i8)
    ensures
        r as int == lex_cmp(a@, b@),
{
    let mut i: usize = 0;
    assert(a@.subrange(0, a@.len() as int) =~= a@);
    assert(b@.subrange(0, b@.len() as int) =~= b@);
    while i < a.len() && i < b.len()
        invariant
            i <= a@.len(),
            i <= b@.len(),
            lex_cmp(a@, b@) == lex_cmp(
                a@.subrange(i as int, a@.len() as int),
                b@.subrange(i as int, b@.len() as int),
            ),
        decreases a@.len() - i,
    {
        let x = a[i];
        let y = b[i];
        if x < y {
            return -1;
        }
        if x > y {
            return 1;
        }
        assert(a@.subrange(i as int, a@.len() as int).drop_first() =~= a@.subrange(
            i + 1,
            a@.len() as int,
        ));
        assert(b@.subrange(i as int, b@.len() as int).drop_first() =~= b@.subrange(
            i + 1,
            b@.len() as int,
        ));
        i = i + 1;
    }
    if i < a.len() {
        1
    } else if i < b.len() {
        -1
    } else {
        0
    }
}

/// Two byte strings compare equal exactly when they are the same string.
pub proof fn lemma_lex_cmp_eq(a: Seq<u8>, b: Seq<u8>)
    ensures
        (lex_cmp(a, b) == 0) <==> (a == b),
        -1 <= lex_cmp(a, b) <= 1,
    decreases a.len(),
{
    if a.len() > 0 && b.len() > 0 && a[0] == b[0] {
        lemma_lex_cmp_eq(a.drop_first(), b.drop_first());
        if a.drop_first() == b.drop_first() {
            assert(a =~= seq![a[0]] + a.drop_first());
            assert(b =~= seq![b[0]] + b.drop_first());
        }
    }
    if a.len() == 0 && b.len() == 0 {
        assert(a =~= b);
    }
}

} // verus!
