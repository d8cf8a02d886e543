use vstd::prelude::*;
use vstd::utf8::valid_utf8;

verus! {

/// Why a message could not be read.
#[derive(Debug, Clone, Copy, PartialEq, Eq, Structural)]
pub enum ParseError {
    /// The input ended before a field that it announces.
    Incomplete,
    /// A length or a name pointer is out of range, or a pointer loops.
    LengthValue,
    /// A name or a section has more entries than the configured bound.
    TooLarge,
    /// A name segment or a text is not UTF-8.
    AlphaNumeric,
    /// An answer has a type that carries no known record.
    Tag,
    /// A record has the wrong data length for its type.
    Fail,
}

/// 256 to the power `n`.
pub open spec fn pow256(n: nat) -> nat
    decreases n,
{
    if n == 0 {
        1
    } else {
        256 * pow256((n - 1) as nat)
    }
}

/// The number that `s` spells in big-endian order.
pub open spec fn be_value(s: Seq<u8>) -> nat
    decreases s.len(),
{
    if s.len() == 0 {
        0
    } else {
        (be_value(s.drop_last()) * 256 + s.last()) as nat
    }
}

/// The `n` low-order bytes of `v`, most significant first.
pub open spec fn be_bytes(v: nat, n: nat) -> Seq<u8>
    decreases n,
{
    if n == 0 {
        Seq::empty()
    } else {
        be_bytes(v / 256, (n - 1) as nat).push((v % 256) as u8)
    }
}

pub proof fn lemma_pow256_pos(n: nat)
    ensures
        pow256(n) > 0,
    decreases n,
{
    if n > 0 {
        lemma_pow256_pos((n - 1) as nat);
    }
}

/// Reading back the bytes of a number gives it again, when it fits.
pub proof fn lemma_be_round_trip(v: nat, n: nat)
    requires
        v < pow256(n),
    ensures
        be_bytes(v, n).len() == n,
        be_value(be_bytes(v, n)) == v,
    decreases n,
{
    if n > 0 {
        let m = (n - 1) as nat;
        lemma_pow256_pos(m);
        assert(v / 256 < pow256(m)) by (nonlinear_arith)
            requires
                v < 256 * pow256(m),
                pow256(m) > 0,
        ;
        lemma_be_round_trip(v / 256, m);
        let s = be_bytes(v, n);
        assert(s.drop_last() =~= be_bytes(v / 256, m));
        assert(v == (v / 256) * 256 + v % 256) by (nonlinear_arith);
    }
}

/// A number spelled in `n` bytes is below 256 to the `n`.
pub proof fn lemma_be_value_bound(s: Seq<u8>)
    ensures
        be_value(s) < pow256(s.len()),
    decreases s.len(),
{
    if s.len() > 0 {
        let t = s.drop_last();
        lemma_be_value_bound(t);
        let a = be_value(t);
        let p = pow256(t.len());
        assert(a * 256 + s.last() < 256 * p) by (nonlinear_arith)
            requires
                a < p,
                s.last() < 256,
        ;
    }
}

/// The two bytes of a 16-bit value.
pub open spec fn be16(v: u16) -> Seq<u8> {
    be_bytes(v as nat, 2)
}

/// The four bytes of a 32-bit value.
pub open spec fn be32(v: u32) -> Seq<u8> {
    be_bytes(v as nat, 4)
}

/// The sixteen bytes of a 128-bit value.
pub open spec fn be128(v: u128) -> Seq<u8> {
    be_bytes(v as nat, 16)
}

pub proof fn lemma_be16(v: u16)
    ensures
        be16(v) =~= seq![(v / 256) as u8, (v % 256) as u8],
{
    reveal_with_fuel(be_bytes, 3);
}

pub proof fn lemma_be32(v: u32)
    ensures
        be32(v) =~= seq![
            (v / 0x1000000) as u8,
            ((v / 0x10000) % 256) as u8,
            ((v / 0x100) % 256) as u8,
            (v % 256) as u8,
        ],
{
    reveal_with_fuel(be_bytes, 5);
    assert((v as nat / 256) / 256 == v as nat / 0x10000) by (nonlinear_arith);
    assert(((v as nat / 256) / 256) / 256 == v as nat / 0x1000000) by (nonlinear_arith);
    assert((v as nat / 0x1000000) % 256 == v as nat / 0x1000000) by (nonlinear_arith)
        requires
            v < 0x1_0000_0000,
    ;
}

/// The big-endian 16-bit value at `pos`.
pub fn read_u16(ctx: &[u8], pos: usize) -> (r: Result<u16, ParseError>)
    ensures
        pos + 2 <= ctx@.len() ==> r == Ok::<u16, ParseError>(
            be_value(ctx@.subrange(pos as int, pos + 2)) as u16,
        ),
        pos + 2 <= ctx@.len() ==> be_value(ctx@.subrange(pos as int, pos + 2)) < 0x10000,
        pos + 2 > ctx@.len() ==> r == Err::<u16, ParseError>(ParseError::Incomplete),
{
    if pos > ctx.len() || ctx.len() - pos < 2 {
        return Err(ParseError::Incomplete);
    }
    let s = Ghost(ctx@.subrange(pos as int, pos + 2));
    proof {
        reveal_with_fuel(be_value, 3);
        assert(s@.drop_last().drop_last() =~= Seq::<u8>::empty());
        assert(s@.drop_last() =~= seq![ctx@[pos as int]]);
    }
    Ok((ctx[pos] as u16) * 256 + (ctx[pos + 1] as u16))
}

/// The big-endian 32-bit value at `pos`.
pub fn read_u32(ctx: &[u8], pos: usize) -> (r: Result<u32, ParseError>)
    ensures
        pos + 4 <= ctx@.len() ==> r == Ok::<u32, ParseError>(
            be_value(ctx@.subrange(pos as int, pos + 4)) as u32,
        ),
        pos + 4 <= ctx@.len() ==> be_value(ctx@.subrange(pos as int, pos + 4)) < 0x1_0000_0000,
        pos + 4 > ctx@.len() ==> r == Err::<u32, ParseError>(ParseError::Incomplete),
{
    if pos > ctx.len() || ctx.len() - pos < 4 {
        return Err(ParseError::Incomplete);
    }
    let v = read_be(ctx, pos, 4);
    proof {
        lemma_be_value_bound(ctx@.subrange(pos as int, pos + 4));
        reveal_with_fuel(pow256, 5);
    }
    Ok(v as u32)
}

/// The big-endian 128-bit value at `pos`.
pub fn read_u128(ctx: &[u8], pos: usize) -> (r: Result<u128, ParseError>)
    ensures
        pos + 16 <= ctx@.len() ==> r == Ok::<u128, ParseError>(
            be_value(ctx@.subrange(pos as int, pos + 16)) as u128,
        ),
        pos + 16 <= ctx@.len() ==> be_value(ctx@.subrange(pos as int, pos + 16)) < pow256(16),
        pos + 16 > ctx@.len() ==> r == Err::<u128, ParseError>(ParseError::Incomplete),
{
    if pos > ctx.len() || ctx.len() - pos < 16 {
        return Err(ParseError::Incomplete);
    }
    let v = read_be(ctx, pos, 16);
    proof {
        lemma_be_value_bound(ctx@.subrange(pos as int, pos + 16));
    }
    Ok(v)
}

/// The big-endian value of the `n` bytes at `pos`, for `n` at most 16.
fn read_be(ctx: &[u8], pos: usize, n: usize) -> (r: u128)
    requires
        n <= 16,
        pos + n <= ctx@.len(),
    ensures
        r == be_value(ctx@.subrange(pos as int, pos + n)),
{
    let mut acc: u128 = 0;
    let mut i: usize = 0;
    proof {
        assert(ctx@.subrange(pos as int, pos as int) =~= Seq::<u8>::empty());
        reveal_with_fuel(pow256, 17);
    }
    while i < n
        invariant
            n <= 16,
            pos + n <= ctx.len(),
            i <= n,
            acc == be_value(ctx@.subrange(pos as int, pos + i)),
            pow256(16) == 0x1_0000_0000_0000_0000_0000_0000_0000_0000,
        decreases n - i,
    {
        let ghost s = ctx@.subrange(pos as int, pos + i + 1);
        proof {
            assert(s.drop_last() =~= ctx@.subrange(pos as int, pos + i));
            lemma_be_value_bound(ctx@.subrange(pos as int, pos + i));
            lemma_pow_mono(i as nat, 15);
            assert(acc * 256 + 255 < 0x1_0000_0000_0000_0000_0000_0000_0000_0000) by (nonlinear_arith)
                requires
                    acc < pow256(i as nat),
                    pow256(i as nat) <= pow256(15),
                    pow256(16) == 256 * pow256(15),
                    pow256(16) == 0x1_0000_0000_0000_0000_0000_0000_0000_0000,
            ;
        }
        acc = acc * 256 + ctx[pos + i] as u128;
        i = i + 1;
    }
    acc
}

proof fn lemma_pow_mono(a: nat, b: nat)
    requires
        a <= b,
    ensures
        pow256(a) <= pow256(b),
    decreases b,
{
    if a < b {
        lemma_pow_mono(a, (b - 1) as nat);
        lemma_pow256_pos((b - 1) as nat);
    }
}

/// Relies on `core::str::from_utf8`: it accepts exactly the UTF-8 byte strings.
#[verifier::external_body]
pub fn is_utf8(b: &[u8]) -> (r: bool)
    ensures
        r == valid_utf8(b@),
{
    core::str::from_utf8(b).is_ok()
}

} // verus!

verus! {

/// Whether two byte strings are equal.
pub fn bytes_eq(a: &[u8], b: &[u8]) -> (r: bool)
    ensures
        r == (a@ == b@),
{
    if a.len() != b.len() {
        return false;
    }
    let mut i: usize = 0;
    while i < a.len()
        invariant
            a@.len() == b@.len(),
            i <= a@.len(),
            forall|j: int| 0 <= j < i ==> a@[j] == b@[j],
        decreases a.len() - i,
    {
        if a[i] != b[i] {
            return false;
        }
        i = i + 1;
    }
    assert(a@ =~= b@);
    true
}

/// A copy of `src` as a vector.
pub fn copy_bytes(src: &[u8]) -> (r: Vec<u8>)
    ensures
        r@ == src@,
{
    let mut out: Vec<u8> = Vec::new();
    let mut i: usize = 0;
    while i < src.len()
        invariant
            i <= src@.len(),
            out@ == src@.subrange(0, i as int),
        decreases src.len() - i,
    {
        out.push(src[i]);
        i = i + 1;
        assert(out@ =~= src@.subrange(0, i as int));
    }
    assert(out@ =~= src@);
    out
}

/// The bytes of `src` from `start` to `end`, copied.
pub fn copy_range(src: &[u8], start: usize, end: usize) -> (r: Vec<u8>)
    requires
        start <= end <= src@.len(),
    ensures
        r@ == src@.subrange(start as int, end as int),
{
    let mut out: Vec<u8> = Vec::new();
    let mut i: usize = start;
    while i < end
        invariant
            start <= i <= end <= src@.len(),
            out@ == src@.subrange(start as int, i as int),
        decreases end - i,
    {
        out.push(src[i]);
        i = i + 1;
        assert(out@ =~= src@.subrange(start as int, i as int));
    }
    out
}

} // verus!
