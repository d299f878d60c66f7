//! The length-tagged, self-describing binary encoding the wire messages use:
//! big-endian length fields behind one-byte markers for unsigned integers,
//! strings, binary blobs, arrays, maps, booleans and 32-bit floats (carried
//! here as their bit pattern).  Encoders emit the shortest form; decoders
//! accept every form.  A marker of the wrong family is a shape error
//! (`TypeMismatch`); a missing or truncated field is `Malformed`.

use vstd::prelude::*;
use vstd::arithmetic::div_mod::lemma_fundamental_div_mod;
use crate::messages::DecodeError;

verus! {

/// 256 to the n-th power: the number of values n bytes can carry.
pub open spec fn p256(n: nat) -> int
    decreases n,
{
    if n == 0 {
        1
    } else {
        256 * p256((n - 1) as nat)
    }
}

pub proof fn lemma_p256_values()
    ensures
        p256(0) == 1,
        p256(1) == 0x100,
        p256(2) == 0x10000,
        p256(4) == 0x100000000,
        p256(8) == 0x10000000000000000,
{
    reveal_with_fuel(p256, 9);
}

/// The value of the `n` bytes at `p`, big-endian.
pub open spec fn s_be(b: Seq<u8>, p: int, n: nat) -> int
    decreases n,
{
    if n == 0 {
        0
    } else {
        s_be(b, p, (n - 1) as nat) * 256 + b[p + n - 1]
    }
}

/// The `n` big-endian bytes of `v`.
pub open spec fn s_be_bytes(v: int, n: nat) -> Seq<u8>
    decreases n,
{
    if n == 0 {
        Seq::empty()
    } else {
        s_be_bytes(v / 256, (n - 1) as nat).push((v % 256) as u8)
    }
}

pub proof fn lemma_be_bytes_len(v: int, n: nat)
    ensures
        s_be_bytes(v, n).len() == n,
    decreases n,
{
    if n > 0 {
        lemma_be_bytes_len(v / 256, (n - 1) as nat);
    }
}

pub proof fn lemma_be_bound(b: Seq<u8>, p: int, n: nat)
    ensures
        0 <= s_be(b, p, n) < p256(n),
    decreases n,
{
    if n == 0 {
    } else {
        lemma_be_bound(b, p, (n - 1) as nat);
        assert(b[p + n - 1] < 256);
    }
}

/// Reading back the big-endian bytes of `v` yields `v`.
pub proof fn lemma_be_roundtrip(b: Seq<u8>, p: int, v: int, n: nat)
    requires
        0 <= v < p256(n),
        0 <= p,
        p + n <= b.len(),
        b.subrange(p, p + n) == s_be_bytes(v, n),
    ensures
        s_be(b, p, n) == v,
    decreases n,
{
    if n == 0 {
    } else {
        lemma_be_bytes_len(v / 256, (n - 1) as nat);
        lemma_fundamental_div_mod(v, 256);
        assert(0 <= v / 256 < p256((n - 1) as nat)) by {
            assert(v < 256 * p256((n - 1) as nat));
            assert(256 * (v / 256) <= v);
        };
        assert(b.subrange(p, p + n - 1) =~= s_be_bytes(v / 256, (n - 1) as nat)) by {
            assert(forall|i: int|
                0 <= i < n - 1 ==> #[trigger] b.subrange(p, p + n - 1)[i] == b.subrange(
                    p,
                    p + n,
                )[i]);
        };
        lemma_be_roundtrip(b, p, v / 256, (n - 1) as nat);
        assert(b[p + n - 1] == b.subrange(p, p + n)[n - 1]);
        assert(b[p + n - 1] == (v % 256) as u8);
    }
}

/// Reads the `n`-byte big-endian value at `p`.
pub fn read_be(b: &Vec<u8>, p: usize, n: usize) -> (r: u64)
    requires
        n <= 8,
        p + n <= b@.len(),
    ensures
        r as int == s_be(b@, p as int, n as nat),
{
    proof {
        lemma_p256_values();
        reveal_with_fuel(p256, 9);
    }
    let bl = b.len();
    let mut acc: u64 = 0;
    let mut i: usize = 0;
    while i < n
        invariant
            i <= n,
            n <= 8,
            p + n <= bl,
            bl == b@.len(),
            acc as int == s_be(b@, p as int, i as nat),
            acc < p256(i as nat),
            p256(8) == 0x10000000000000000,
            forall|m: nat| m < 8 ==> 256 * #[trigger] p256(m) == p256((m + 1) as nat),
        decreases n - i,
    {
        proof {
            assert(256 * p256(i as nat) == p256((i + 1) as nat));
            assert(p256((i + 1) as nat) <= p256(8)) by {
                lemma_p256_increases((i + 1) as nat, 8);
            };
        }
        acc = acc * 256 + (b[p + i] as u64);
        i += 1;
    }
    acc
}

pub proof fn lemma_p256_increases(m: nat, n: nat)
    requires
        m <= n,
    ensures
        p256(m) <= p256(n),
        p256(m) >= 1,
    decreases n,
{
    if n > 0 {
        if m == n {
            lemma_p256_increases((n - 1) as nat, (n - 1) as nat);
        } else {
            lemma_p256_increases(m, (n - 1) as nat);
        }
    }
}

/// Appends the `n`-byte big-endian form of `v`.
pub fn write_be(out: &mut Vec<u8>, v: u64, n: usize)
    requires
        n <= 8,
        (v as int) < p256(n as nat),
    ensures
        final(out)@ == old(out)@ + s_be_bytes(v as int, n as nat),
    decreases n,
{
    if n == 0 {
        proof {
            assert(out@ =~= out@ + s_be_bytes(v as int, 0));
        }
    } else {
        proof {
            lemma_fundamental_div_mod(v as int, 256);
            assert(256 * ((v as int) / 256) <= v as int);
            assert((v as int) / 256 < p256((n - 1) as nat));
        }
        write_be(out, v / 256, n - 1);
        out.push((v % 256) as u8);
        proof {
            assert(out@ =~= old(out)@ + s_be_bytes(v as int, n as nat));
        }
    }
}

// ---------------------------------------------------------------------------
// Unsigned integers
// ---------------------------------------------------------------------------

/// Shortest-form encoding of an unsigned integer.
pub open spec fn s_enc_uint(v: int) -> Seq<u8> {
    if v < 0x80 {
        seq![v as u8]
    } else if v < 0x100 {
        seq![0xccu8] + s_be_bytes(v, 1)
    } else if v < 0x10000 {
        seq![0xcdu8] + s_be_bytes(v, 2)
    } else if v < 0x100000000 {
        seq![0xceu8] + s_be_bytes(v, 4)
    } else {
        seq![0xcfu8] + s_be_bytes(v, 8)
    }
}

pub open spec fn s_dec_uint(b: Seq<u8>, p: int) -> Result<(u64, int), DecodeError> {
    if !(0 <= p < b.len()) {
        Err(DecodeError::Malformed)
    } else if b[p] < 0x80 {
        Ok((b[p] as u64, p + 1))
    } else if b[p] == 0xcc {
        if p + 2 <= b.len() {
            Ok((s_be(b, p + 1, 1) as u64, p + 2))
        } else {
            Err(DecodeError::Malformed)
        }
    } else if b[p] == 0xcd {
        if p + 3 <= b.len() {
            Ok((s_be(b, p + 1, 2) as u64, p + 3))
        } else {
            Err(DecodeError::Malformed)
        }
    } else if b[p] == 0xce {
        if p + 5 <= b.len() {
            Ok((s_be(b, p + 1, 4) as u64, p + 5))
        } else {
            Err(DecodeError::Malformed)
        }
    } else if b[p] == 0xcf {
        if p + 9 <= b.len() {
            Ok((s_be(b, p + 1, 8) as u64, p + 9))
        } else {
            Err(DecodeError::Malformed)
        }
    } else {
        Err(DecodeError::TypeMismatch)
    }
}

pub fn enc_uint(out: &mut Vec<u8>, v: u64)
    ensures
        final(out)@ == old(out)@ + s_enc_uint(v as int),
{
    proof {
        lemma_p256_values();
    }
    if v < 0x80 {
        out.push(v as u8);
        proof {
            assert(out@ =~= old(out)@ + s_enc_uint(v as int));
        }
    } else if v < 0x100 {
        out.push(0xcc);
        write_be(out, v, 1);
        proof {
            assert(out@ =~= old(out)@ + s_enc_uint(v as int));
        }
    } else if v < 0x10000 {
        out.push(0xcd);
        write_be(out, v, 2);
        proof {
            assert(out@ =~= old(out)@ + s_enc_uint(v as int));
        }
    } else if v < 0x100000000 {
        out.push(0xce);
        write_be(out, v, 4);
        proof {
            assert(out@ =~= old(out)@ + s_enc_uint(v as int));
        }
    } else {
        out.push(0xcf);
        write_be(out, v, 8);
        proof {
            assert(out@ =~= old(out)@ + s_enc_uint(v as int));
        }
    }
}

pub fn dec_uint(b: &Vec<u8>, p: usize) -> (r: Result<(u64, usize), DecodeError>)
    ensures
        (match r {
            Ok((v, q)) => s_dec_uint(b@, p as int) == Ok::<(u64, int), DecodeError>((v, q as int)),
            Err(e) => s_dec_uint(b@, p as int) == Err::<(u64, int), DecodeError>(e),
        }),
{
    proof {
        lemma_p256_values();
    }
    if p >= b.len() {
        return Err(DecodeError::Malformed);
    }
    let m = b[p];
    if m < 0x80 {
        Ok((m as u64, p + 1))
    } else if m == 0xcc {
        if b.len() - p >= 2 {
            proof { lemma_be_bound(b@, p as int + 1, 1); }
            Ok((read_be(b, p + 1, 1), p + 2))
        } else {
            Err(DecodeError::Malformed)
        }
    } else if m == 0xcd {
        if b.len() - p >= 3 {
            proof { lemma_be_bound(b@, p as int + 1, 2); }
            Ok((read_be(b, p + 1, 2), p + 3))
        } else {
            Err(DecodeError::Malformed)
        }
    } else if m == 0xce {
        if b.len() - p >= 5 {
            proof { lemma_be_bound(b@, p as int + 1, 4); }
            Ok((read_be(b, p + 1, 4), p + 5))
        } else {
            Err(DecodeError::Malformed)
        }
    } else if m == 0xcf {
        if b.len() - p >= 9 {
            proof { lemma_be_bound(b@, p as int + 1, 8); }
            Ok((read_be(b, p + 1, 8), p + 9))
        } else {
            Err(DecodeError::Malformed)
        }
    } else {
        Err(DecodeError::TypeMismatch)
    }
}

/// A window into bytes known to hold `e` is the matching window into `e`.
pub proof fn lemma_subrange_shift(b: Seq<u8>, p: int, a: int, c: int, e: Seq<u8>)
    requires
        0 <= p,
        p + e.len() <= b.len(),
        b.subrange(p, p + e.len()) == e,
        0 <= a <= c <= e.len(),
    ensures
        b.subrange(p + a, p + c) =~= e.subrange(a, c),
{
    assert forall|i: int| 0 <= i < c - a implies b.subrange(p + a, p + c)[i] == e.subrange(
        a,
        c,
    )[i] by {
        assert(b.subrange(p, p + e.len())[a + i] == e[a + i]);
    };
}

/// Decoding starts over the encoding of `v` finds `v` again.
pub proof fn lemma_rt_uint(b: Seq<u8>, p: int, v: u64)
    requires
        0 <= p,
        p + s_enc_uint(v as int).len() <= b.len(),
        b.subrange(p, p + s_enc_uint(v as int).len()) == s_enc_uint(v as int),
    ensures
        s_dec_uint(b, p) == Ok::<(u64, int), DecodeError>((
            v,
            p + s_enc_uint(v as int).len(),
        )),
{
    lemma_p256_values();
    let e = s_enc_uint(v as int);
    if v < 0x80 {
        assert(b[p] == e[0]);
    } else if v < 0x100 {
        lemma_be_bytes_len(v as int, 1);
        assert(b[p] == b.subrange(p, p + e.len())[0]);
        lemma_subrange_shift(b, p, 1, 2, e);
        assert(e.subrange(1, 2) =~= s_be_bytes(v as int, 1));
        lemma_be_roundtrip(b, p + 1, v as int, 1);
    } else if v < 0x10000 {
        lemma_be_bytes_len(v as int, 2);
        assert(b[p] == b.subrange(p, p + e.len())[0]);
        lemma_subrange_shift(b, p, 1, 3, e);
        assert(e.subrange(1, 3) =~= s_be_bytes(v as int, 2));
        lemma_be_roundtrip(b, p + 1, v as int, 2);
    } else if v < 0x100000000 {
        lemma_be_bytes_len(v as int, 4);
        assert(b[p] == b.subrange(p, p + e.len())[0]);
        lemma_subrange_shift(b, p, 1, 5, e);
        assert(e.subrange(1, 5) =~= s_be_bytes(v as int, 4));
        lemma_be_roundtrip(b, p + 1, v as int, 4);
    } else {
        lemma_be_bytes_len(v as int, 8);
        assert(b[p] == b.subrange(p, p + e.len())[0]);
        lemma_subrange_shift(b, p, 1, 9, e);
        assert(e.subrange(1, 9) =~= s_be_bytes(v as int, 8));
        lemma_be_roundtrip(b, p + 1, v as int, 8);
    }
}

}

verus! {

// ---------------------------------------------------------------------------
// Raw byte runs
// ---------------------------------------------------------------------------

/// Appends a copy of `s`.
pub fn push_bytes(out: &mut Vec<u8>, s: &Vec<u8>)
    ensures
        final(out)@ == old(out)@ + s@,
{
    let mut i: usize = 0;
    while i < s.len()
        invariant
            i <= s@.len(),
            out@ == old(out)@ + s@.subrange(0, i as int),
        decreases s@.len() - i,
    {
        out.push(s[i]);
        proof {
            assert(out@ =~= old(out)@ + s@.subrange(0, i + 1));
        }
        i += 1;
    }
    proof {
        assert(out@ =~= old(out)@ + s@);
    }
}

/// Copies the `n` bytes at `from`.
pub fn copy_range(b: &Vec<u8>, from: usize, n: usize) -> (r: Vec<u8>)
    requires
        from + n <= b@.len(),
    ensures
        r@ == b@.subrange(from as int, from + n),
{
    let bl = b.len();
    let mut r: Vec<u8> = Vec::new();
    let mut i: usize = 0;
    while i < n
        invariant
            i <= n,
            from + n <= bl,
            bl == b@.len(),
            r@ == b@.subrange(from as int, from + i),
        decreases n - i,
    {
        r.push(b[from + i]);
        proof {
            assert(r@ =~= b@.subrange(from as int, from + i + 1));
        }
        i += 1;
    }
    r
}

// ---------------------------------------------------------------------------
// Length headers: strings, binary blobs, arrays, maps
// ---------------------------------------------------------------------------

/// Shortest-form string header for a byte length.
pub open spec fn s_enc_strhdr(n: int) -> Seq<u8> {
    if n < 0x20 {
        seq![(0xa0 + n) as u8]
    } else if n < 0x100 {
        seq![0xd9u8] + s_be_bytes(n, 1)
    } else if n < 0x10000 {
        seq![0xdau8] + s_be_bytes(n, 2)
    } else {
        seq![0xdbu8] + s_be_bytes(n, 4)
    }
}

pub open spec fn s_dec_strhdr(b: Seq<u8>, p: int) -> Result<(int, int), DecodeError> {
    if !(0 <= p < b.len()) {
        Err(DecodeError::Malformed)
    } else if 0xa0 <= b[p] && b[p] <= 0xbf {
        Ok(((b[p] - 0xa0) as int, p + 1))
    } else if b[p] == 0xd9 {
        if p + 2 <= b.len() {
            Ok((s_be(b, p + 1, 1), p + 2))
        } else {
            Err(DecodeError::Malformed)
        }
    } else if b[p] == 0xda {
        if p + 3 <= b.len() {
            Ok((s_be(b, p + 1, 2), p + 3))
        } else {
            Err(DecodeError::Malformed)
        }
    } else if b[p] == 0xdb {
        if p + 5 <= b.len() {
            Ok((s_be(b, p + 1, 4), p + 5))
        } else {
            Err(DecodeError::Malformed)
        }
    } else {
        Err(DecodeError::TypeMismatch)
    }
}

/// A string: header, then the UTF-8 bytes.
pub open spec fn s_enc_str(s: Seq<u8>) -> Seq<u8> {
    s_enc_strhdr(s.len() as int) + s
}

pub open spec fn s_dec_str(b: Seq<u8>, p: int) -> Result<(Seq<u8>, int), DecodeError> {
    match s_dec_strhdr(b, p) {
        Err(e) => Err(e),
        Ok((n, q)) => if q + n <= b.len() {
            Ok((b.subrange(q, q + n), q + n))
        } else {
            Err(DecodeError::Malformed)
        },
    }
}

pub fn enc_str(out: &mut Vec<u8>, s: &Vec<u8>)
    requires
        s@.len() < 0x100000000,
    ensures
        final(out)@ == old(out)@ + s_enc_str(s@),
{
    proof {
        lemma_p256_values();
    }
    let n = s.len();
    if n < 0x20 {
        out.push((0xa0 + n) as u8);
    } else if n < 0x100 {
        out.push(0xd9);
        write_be(out, n as u64, 1);
    } else if n < 0x10000 {
        out.push(0xda);
        write_be(out, n as u64, 2);
    } else {
        out.push(0xdb);
        write_be(out, n as u64, 4);
    }
    proof {
        assert(out@ =~= old(out)@ + s_enc_strhdr(s@.len() as int));
    }
    push_bytes(out, s);
    proof {
        assert(out@ =~= old(out)@ + s_enc_str(s@));
    }
}

pub fn dec_str(b: &Vec<u8>, p: usize) -> (r: Result<(Vec<u8>, usize), DecodeError>)
    ensures
        (match r {
            Ok((s, q)) => s_dec_str(b@, p as int) == Ok::<(Seq<u8>, int), DecodeError>((
                s@,
                q as int,
            )),
            Err(e) => s_dec_str(b@, p as int) == Err::<(Seq<u8>, int), DecodeError>(e),
        }),
{
    proof {
        lemma_p256_values();
    }
    let bl = b.len();
    if p >= bl {
        return Err(DecodeError::Malformed);
    }
    let m = b[p];
    let (n, q): (usize, usize) = if 0xa0 <= m && m <= 0xbf {
        ((m - 0xa0) as usize, p + 1)
    } else if m == 0xd9 {
        if bl - p >= 2 {
            proof { lemma_be_bound(b@, p as int + 1, 1); }
            (read_be(b, p + 1, 1) as usize, p + 2)
        } else {
            return Err(DecodeError::Malformed);
        }
    } else if m == 0xda {
        if bl - p >= 3 {
            proof { lemma_be_bound(b@, p as int + 1, 2); }
            (read_be(b, p + 1, 2) as usize, p + 3)
        } else {
            return Err(DecodeError::Malformed);
        }
    } else if m == 0xdb {
        if bl - p >= 5 {
            proof { lemma_be_bound(b@, p as int + 1, 4); }
            (read_be(b, p + 1, 4) as usize, p + 5)
        } else {
            return Err(DecodeError::Malformed);
        }
    } else {
        return Err(DecodeError::TypeMismatch);
    };
    if bl - q >= n {
        Ok((copy_range(b, q, n), q + n))
    } else {
        Err(DecodeError::Malformed)
    }
}

pub proof fn lemma_rt_str(b: Seq<u8>, p: int, s: Seq<u8>)
    requires
        0 <= p,
        s.len() < 0x100000000,
        p + s_enc_str(s).len() <= b.len(),
        b.subrange(p, p + s_enc_str(s).len()) == s_enc_str(s),
    ensures
        s_dec_str(b, p) == Ok::<(Seq<u8>, int), DecodeError>((s, p + s_enc_str(s).len())),
{
    lemma_p256_values();
    let e = s_enc_str(s);
    let h = s_enc_strhdr(s.len() as int);
    let n = s.len() as int;
    assert(b[p] == b.subrange(p, p + e.len())[0]);
    if n < 0x20 {
        assert(s_dec_strhdr(b, p) == Ok::<(int, int), DecodeError>((n, p + 1)));
    } else if n < 0x100 {
        lemma_be_bytes_len(n, 1);
        lemma_subrange_shift(b, p, 1, 2, e);
        assert(e.subrange(1, 2) =~= s_be_bytes(n, 1));
        lemma_be_roundtrip(b, p + 1, n, 1);
    } else if n < 0x10000 {
        lemma_be_bytes_len(n, 2);
        lemma_subrange_shift(b, p, 1, 3, e);
        assert(e.subrange(1, 3) =~= s_be_bytes(n, 2));
        lemma_be_roundtrip(b, p + 1, n, 2);
    } else {
        lemma_be_bytes_len(n, 4);
        lemma_subrange_shift(b, p, 1, 5, e);
        assert(e.subrange(1, 5) =~= s_be_bytes(n, 4));
        lemma_be_roundtrip(b, p + 1, n, 4);
    }
    let hl = h.len() as int;
    assert(s_dec_strhdr(b, p) == Ok::<(int, int), DecodeError>((n, p + hl)));
    lemma_subrange_shift(b, p, hl, hl + n, e);
    assert(e.subrange(hl, hl + n) =~= s);
}

/// Shortest-form binary-blob header for a byte length.
pub open spec fn s_enc_binhdr(n: int) -> Seq<u8> {
    if n < 0x100 {
        seq![0xc4u8] + s_be_bytes(n, 1)
    } else if n < 0x10000 {
        seq![0xc5u8] + s_be_bytes(n, 2)
    } else {
        seq![0xc6u8] + s_be_bytes(n, 4)
    }
}

pub open spec fn s_dec_binhdr(b: Seq<u8>, p: int) -> Result<(int, int), DecodeError> {
    if !(0 <= p < b.len()) {
        Err(DecodeError::Malformed)
    } else if b[p] == 0xc4 {
        if p + 2 <= b.len() {
            Ok((s_be(b, p + 1, 1), p + 2))
        } else {
            Err(DecodeError::Malformed)
        }
    } else if b[p] == 0xc5 {
        if p + 3 <= b.len() {
            Ok((s_be(b, p + 1, 2), p + 3))
        } else {
            Err(DecodeError::Malformed)
        }
    } else if b[p] == 0xc6 {
        if p + 5 <= b.len() {
            Ok((s_be(b, p + 1, 4), p + 5))
        } else {
            Err(DecodeError::Malformed)
        }
    } else {
        Err(DecodeError::TypeMismatch)
    }
}

/// An opaque payload: header, then the raw bytes.
pub open spec fn s_enc_bin(s: Seq<u8>) -> Seq<u8> {
    s_enc_binhdr(s.len() as int) + s
}

pub open spec fn s_dec_bin(b: Seq<u8>, p: int) -> Result<(Seq<u8>, int), DecodeError> {
    match s_dec_binhdr(b, p) {
        Err(e) => Err(e),
        Ok((n, q)) => if q + n <= b.len() {
            Ok((b.subrange(q, q + n), q + n))
        } else {
            Err(DecodeError::Malformed)
        },
    }
}

pub fn enc_bin(out: &mut Vec<u8>, s: &Vec<u8>)
    requires
        s@.len() < 0x100000000,
    ensures
        final(out)@ == old(out)@ + s_enc_bin(s@),
{
    proof {
        lemma_p256_values();
    }
    let n = s.len();
    if n < 0x100 {
        out.push(0xc4);
        write_be(out, n as u64, 1);
    } else if n < 0x10000 {
        out.push(0xc5);
        write_be(out, n as u64, 2);
    } else {
        out.push(0xc6);
        write_be(out, n as u64, 4);
    }
    proof {
        assert(out@ =~= old(out)@ + s_enc_binhdr(s@.len() as int));
    }
    push_bytes(out, s);
    proof {
        assert(out@ =~= old(out)@ + s_enc_bin(s@));
    }
}

pub fn dec_bin(b: &Vec<u8>, p: usize) -> (r: Result<(Vec<u8>, usize), DecodeError>)
    ensures
        (match r {
            Ok((s, q)) => s_dec_bin(b@, p as int) == Ok::<(Seq<u8>, int), DecodeError>((
                s@,
                q as int,
            )),
            Err(e) => s_dec_bin(b@, p as int) == Err::<(Seq<u8>, int), DecodeError>(e),
        }),
{
    proof {
        lemma_p256_values();
    }
    let bl = b.len();
    if p >= bl {
        return Err(DecodeError::Malformed);
    }
    let m = b[p];
    let (n, q): (usize, usize) = if m == 0xc4 {
        if bl - p >= 2 {
            proof { lemma_be_bound(b@, p as int + 1, 1); }
            (read_be(b, p + 1, 1) as usize, p + 2)
        } else {
            return Err(DecodeError::Malformed);
        }
    } else if m == 0xc5 {
        if bl - p >= 3 {
            proof { lemma_be_bound(b@, p as int + 1, 2); }
            (read_be(b, p + 1, 2) as usize, p + 3)
        } else {
            return Err(DecodeError::Malformed);
        }
    } else if m == 0xc6 {
        if bl - p >= 5 {
            proof { lemma_be_bound(b@, p as int + 1, 4); }
            (read_be(b, p + 1, 4) as usize, p + 5)
        } else {
            return Err(DecodeError::Malformed);
        }
    } else {
        return Err(DecodeError::TypeMismatch);
    };
    if bl - q >= n {
        Ok((copy_range(b, q, n), q + n))
    } else {
        Err(DecodeError::Malformed)
    }
}

pub proof fn lemma_rt_bin(b: Seq<u8>, p: int, s: Seq<u8>)
    requires
        0 <= p,
        s.len() < 0x100000000,
        p + s_enc_bin(s).len() <= b.len(),
        b.subrange(p, p + s_enc_bin(s).len()) == s_enc_bin(s),
    ensures
        s_dec_bin(b, p) == Ok::<(Seq<u8>, int), DecodeError>((s, p + s_enc_bin(s).len())),
{
    lemma_p256_values();
    let e = s_enc_bin(s);
    let h = s_enc_binhdr(s.len() as int);
    let n = s.len() as int;
    assert(b[p] == b.subrange(p, p + e.len())[0]);
    if n < 0x100 {
        lemma_be_bytes_len(n, 1);
        lemma_subrange_shift(b, p, 1, 2, e);
        assert(e.subrange(1, 2) =~= s_be_bytes(n, 1));
        lemma_be_roundtrip(b, p + 1, n, 1);
    } else if n < 0x10000 {
        lemma_be_bytes_len(n, 2);
        lemma_subrange_shift(b, p, 1, 3, e);
        assert(e.subrange(1, 3) =~= s_be_bytes(n, 2));
        lemma_be_roundtrip(b, p + 1, n, 2);
    } else {
        lemma_be_bytes_len(n, 4);
        lemma_subrange_shift(b, p, 1, 5, e);
        assert(e.subrange(1, 5) =~= s_be_bytes(n, 4));
        lemma_be_roundtrip(b, p + 1, n, 4);
    }
    let hl = h.len() as int;
    assert(s_dec_binhdr(b, p) == Ok::<(int, int), DecodeError>((n, p + hl)));
    lemma_subrange_shift(b, p, hl, hl + n, e);
    assert(e.subrange(hl, hl + n) =~= s);
}

}

verus! {

// ---------------------------------------------------------------------------
// Array and map headers
// ---------------------------------------------------------------------------

/// Shortest-form array header for an element count.
pub open spec fn s_enc_arrhdr(n: int) -> Seq<u8> {
    if n < 0x10 {
        seq![(0x90 + n) as u8]
    } else if n < 0x10000 {
        seq![0xdcu8] + s_be_bytes(n, 2)
    } else {
        seq![0xddu8] + s_be_bytes(n, 4)
    }
}

pub open spec fn s_dec_arrhdr(b: Seq<u8>, p: int) -> Result<(int, int), DecodeError> {
    if !(0 <= p < b.len()) {
        Err(DecodeError::Malformed)
    } else if 0x90 <= b[p] && b[p] <= 0x9f {
        Ok(((b[p] - 0x90) as int, p + 1))
    } else if b[p] == 0xdc {
        if p + 3 <= b.len() {
            Ok((s_be(b, p + 1, 2), p + 3))
        } else {
            Err(DecodeError::Malformed)
        }
    } else if b[p] == 0xdd {
        if p + 5 <= b.len() {
            Ok((s_be(b, p + 1, 4), p + 5))
        } else {
            Err(DecodeError::Malformed)
        }
    } else {
        Err(DecodeError::TypeMismatch)
    }
}

pub fn enc_arrhdr(out: &mut Vec<u8>, n: usize)
    requires
        n < 0x100000000,
    ensures
        final(out)@ == old(out)@ + s_enc_arrhdr(n as int),
{
    proof {
        lemma_p256_values();
    }
    if n < 0x10 {
        out.push((0x90 + n) as u8);
    } else if n < 0x10000 {
        out.push(0xdc);
        write_be(out, n as u64, 2);
    } else {
        out.push(0xdd);
        write_be(out, n as u64, 4);
    }
    proof {
        assert(out@ =~= old(out)@ + s_enc_arrhdr(n as int));
    }
}

pub fn dec_arrhdr(b: &Vec<u8>, p: usize) -> (r: Result<(usize, usize), DecodeError>)
    ensures
        (match r {
            Ok((n, q)) => s_dec_arrhdr(b@, p as int) == Ok::<(int, int), DecodeError>((
                n as int,
                q as int,
            )),
            Err(e) => s_dec_arrhdr(b@, p as int) == Err::<(int, int), DecodeError>(e),
        }),
{
    proof {
        lemma_p256_values();
    }
    let bl = b.len();
    if p >= bl {
        return Err(DecodeError::Malformed);
    }
    let m = b[p];
    if 0x90 <= m && m <= 0x9f {
        Ok(((m - 0x90) as usize, p + 1))
    } else if m == 0xdc {
        if bl - p >= 3 {
            proof { lemma_be_bound(b@, p as int + 1, 2); }
            Ok((read_be(b, p + 1, 2) as usize, p + 3))
        } else {
            Err(DecodeError::Malformed)
        }
    } else if m == 0xdd {
        if bl - p >= 5 {
            proof { lemma_be_bound(b@, p as int + 1, 4); }
            Ok((read_be(b, p + 1, 4) as usize, p + 5))
        } else {
            Err(DecodeError::Malformed)
        }
    } else {
        Err(DecodeError::TypeMismatch)
    }
}

pub proof fn lemma_rt_arrhdr(b: Seq<u8>, p: int, n: int)
    requires
        0 <= p,
        0 <= n < 0x100000000,
        p + s_enc_arrhdr(n).len() <= b.len(),
        b.subrange(p, p + s_enc_arrhdr(n).len()) == s_enc_arrhdr(n),
    ensures
        s_dec_arrhdr(b, p) == Ok::<(int, int), DecodeError>((n, p + s_enc_arrhdr(n).len())),
{
    lemma_p256_values();
    let e = s_enc_arrhdr(n);
    assert(b[p] == b.subrange(p, p + e.len())[0]);
    if n < 0x10 {
    } else if n < 0x10000 {
        lemma_be_bytes_len(n, 2);
        lemma_subrange_shift(b, p, 1, 3, e);
        assert(e.subrange(1, 3) =~= s_be_bytes(n, 2));
        lemma_be_roundtrip(b, p + 1, n, 2);
    } else {
        lemma_be_bytes_len(n, 4);
        lemma_subrange_shift(b, p, 1, 5, e);
        assert(e.subrange(1, 5) =~= s_be_bytes(n, 4));
        lemma_be_roundtrip(b, p + 1, n, 4);
    }
}

/// Shortest-form map header for an entry count.
pub open spec fn s_enc_maphdr(n: int) -> Seq<u8> {
    if n < 0x10 {
        seq![(0x80 + n) as u8]
    } else if n < 0x10000 {
        seq![0xdeu8] + s_be_bytes(n, 2)
    } else {
        seq![0xdfu8] + s_be_bytes(n, 4)
    }
}

pub open spec fn s_dec_maphdr(b: Seq<u8>, p: int) -> Result<(int, int), DecodeError> {
    if !(0 <= p < b.len()) {
        Err(DecodeError::Malformed)
    } else if 0x80 <= b[p] && b[p] <= 0x8f {
        Ok(((b[p] - 0x80) as int, p + 1))
    } else if b[p] == 0xde {
        if p + 3 <= b.len() {
            Ok((s_be(b, p + 1, 2), p + 3))
        } else {
            Err(DecodeError::Malformed)
        }
    } else if b[p] == 0xdf {
        if p + 5 <= b.len() {
            Ok((s_be(b, p + 1, 4), p + 5))
        } else {
            Err(DecodeError::Malformed)
        }
    } else {
        Err(DecodeError::TypeMismatch)
    }
}

pub fn enc_maphdr(out: &mut Vec<u8>, n: usize)
    requires
        n < 0x100000000,
    ensures
        final(out)@ == old(out)@ + s_enc_maphdr(n as int),
{
    proof {
        lemma_p256_values();
    }
    if n < 0x10 {
        out.push((0x80 + n) as u8);
    } else if n < 0x10000 {
        out.push(0xde);
        write_be(out, n as u64, 2);
    } else {
        out.push(0xdf);
        write_be(out, n as u64, 4);
    }
    proof {
        assert(out@ =~= old(out)@ + s_enc_maphdr(n as int));
    }
}

pub fn dec_maphdr(b: &Vec<u8>, p: usize) -> (r: Result<(usize, usize), DecodeError>)
    ensures
        (match r {
            Ok((n, q)) => s_dec_maphdr(b@, p as int) == Ok::<(int, int), DecodeError>((
                n as int,
                q as int,
            )),
            Err(e) => s_dec_maphdr(b@, p as int) == Err::<(int, int), DecodeError>(e),
        }),
{
    proof {
        lemma_p256_values();
    }
    let bl = b.len();
    if p >= bl {
        return Err(DecodeError::Malformed);
    }
    let m = b[p];
    if 0x80 <= m && m <= 0x8f {
        Ok(((m - 0x80) as usize, p + 1))
    } else if m == 0xde {
        if bl - p >= 3 {
            proof { lemma_be_bound(b@, p as int + 1, 2); }
            Ok((read_be(b, p + 1, 2) as usize, p + 3))
        } else {
            Err(DecodeError::Malformed)
        }
    } else if m == 0xdf {
        if bl - p >= 5 {
            proof { lemma_be_bound(b@, p as int + 1, 4); }
            Ok((read_be(b, p + 1, 4) as usize, p + 5))
        } else {
            Err(DecodeError::Malformed)
        }
    } else {
        Err(DecodeError::TypeMismatch)
    }
}

pub proof fn lemma_rt_maphdr(b: Seq<u8>, p: int, n: int)
    requires
        0 <= p,
        0 <= n < 0x100000000,
        p + s_enc_maphdr(n).len() <= b.len(),
        b.subrange(p, p + s_enc_maphdr(n).len()) == s_enc_maphdr(n),
    ensures
        s_dec_maphdr(b, p) == Ok::<(int, int), DecodeError>((n, p + s_enc_maphdr(n).len())),
{
    lemma_p256_values();
    let e = s_enc_maphdr(n);
    assert(b[p] == b.subrange(p, p + e.len())[0]);
    if n < 0x10 {
    } else if n < 0x10000 {
        lemma_be_bytes_len(n, 2);
        lemma_subrange_shift(b, p, 1, 3, e);
        assert(e.subrange(1, 3) =~= s_be_bytes(n, 2));
        lemma_be_roundtrip(b, p + 1, n, 2);
    } else {
        lemma_be_bytes_len(n, 4);
        lemma_subrange_shift(b, p, 1, 5, e);
        assert(e.subrange(1, 5) =~= s_be_bytes(n, 4));
        lemma_be_roundtrip(b, p + 1, n, 4);
    }
}

// ---------------------------------------------------------------------------
// 32-bit floats, carried as their bit pattern
// ---------------------------------------------------------------------------

/// A 32-bit float, written as the four big-endian bytes of its bit pattern.
pub open spec fn s_enc_f32(bits: u32) -> Seq<u8> {
    seq![0xcau8] + s_be_bytes(bits as int, 4)
}

pub open spec fn s_dec_f32(b: Seq<u8>, p: int) -> Result<(u32, int), DecodeError> {
    if !(0 <= p < b.len()) {
        Err(DecodeError::Malformed)
    } else if b[p] == 0xca {
        if p + 5 <= b.len() {
            Ok((s_be(b, p + 1, 4) as u32, p + 5))
        } else {
            Err(DecodeError::Malformed)
        }
    } else {
        Err(DecodeError::TypeMismatch)
    }
}

pub fn enc_f32(out: &mut Vec<u8>, bits: u32)
    ensures
        final(out)@ == old(out)@ + s_enc_f32(bits),
{
    proof {
        lemma_p256_values();
    }
    out.push(0xca);
    write_be(out, bits as u64, 4);
    proof {
        assert(out@ =~= old(out)@ + s_enc_f32(bits));
    }
}

pub fn dec_f32(b: &Vec<u8>, p: usize) -> (r: Result<(u32, usize), DecodeError>)
    ensures
        (match r {
            Ok((v, q)) => s_dec_f32(b@, p as int) == Ok::<(u32, int), DecodeError>((v, q as int)),
            Err(e) => s_dec_f32(b@, p as int) == Err::<(u32, int), DecodeError>(e),
        }),
{
    proof {
        lemma_p256_values();
    }
    let bl = b.len();
    if p >= bl {
        return Err(DecodeError::Malformed);
    }
    if b[p] == 0xca {
        if bl - p >= 5 {
            proof { lemma_be_bound(b@, p as int + 1, 4); }
            Ok((read_be(b, p + 1, 4) as u32, p + 5))
        } else {
            Err(DecodeError::Malformed)
        }
    } else {
        Err(DecodeError::TypeMismatch)
    }
}

pub proof fn lemma_rt_f32(b: Seq<u8>, p: int, bits: u32)
    requires
        0 <= p,
        p + s_enc_f32(bits).len() <= b.len(),
        b.subrange(p, p + s_enc_f32(bits).len()) == s_enc_f32(bits),
    ensures
        s_dec_f32(b, p) == Ok::<(u32, int), DecodeError>((bits, p + s_enc_f32(bits).len())),
{
    lemma_p256_values();
    let e = s_enc_f32(bits);
    lemma_be_bytes_len(bits as int, 4);
    assert(b[p] == b.subrange(p, p + e.len())[0]);
    lemma_subrange_shift(b, p, 1, 5, e);
    assert(e.subrange(1, 5) =~= s_be_bytes(bits as int, 4));
    lemma_be_roundtrip(b, p + 1, bits as int, 4);
}

// ---------------------------------------------------------------------------
// Booleans
// ---------------------------------------------------------------------------

pub open spec fn s_enc_bool(v: bool) -> Seq<u8> {
    if v {
        seq![0xc3u8]
    } else {
        seq![0xc2u8]
    }
}

pub open spec fn s_dec_bool(b: Seq<u8>, p: int) -> Result<(bool, int), DecodeError> {
    if !(0 <= p < b.len()) {
        Err(DecodeError::Malformed)
    } else if b[p] == 0xc2 {
        Ok((false, p + 1))
    } else if b[p] == 0xc3 {
        Ok((true, p + 1))
    } else {
        Err(DecodeError::TypeMismatch)
    }
}

pub fn enc_bool(out: &mut Vec<u8>, v: bool)
    ensures
        final(out)@ == old(out)@ + s_enc_bool(v),
{
    out.push(if v { 0xc3 } else { 0xc2 });
    proof {
        assert(out@ =~= old(out)@ + s_enc_bool(v));
    }
}

pub fn dec_bool(b: &Vec<u8>, p: usize) -> (r: Result<(bool, usize), DecodeError>)
    ensures
        (match r {
            Ok((v, q)) => s_dec_bool(b@, p as int) == Ok::<(bool, int), DecodeError>((v, q as int)),
            Err(e) => s_dec_bool(b@, p as int) == Err::<(bool, int), DecodeError>(e),
        }),
{
    if p >= b.len() {
        return Err(DecodeError::Malformed);
    }
    let m = b[p];
    if m == 0xc2 {
        Ok((false, p + 1))
    } else if m == 0xc3 {
        Ok((true, p + 1))
    } else {
        Err(DecodeError::TypeMismatch)
    }
}

}

verus! {

pub proof fn lemma_rt_bool(b: Seq<u8>, p: int, v: bool)
    requires
        0 <= p,
        p + s_enc_bool(v).len() <= b.len(),
        b.subrange(p, p + s_enc_bool(v).len()) == s_enc_bool(v),
    ensures
        s_dec_bool(b, p) == Ok::<(bool, int), DecodeError>((v, p + 1)),
{
    assert(b[p] == b.subrange(p, p + 1)[0]);
}

}
