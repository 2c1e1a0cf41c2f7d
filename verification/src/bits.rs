//! Bit sequences, held in `bit_vec::BitVec`, and the fixed-width
//! big-endian integer fields that the encoders write into them.
use vstd::prelude::*;
use bit_vec::BitVec;

verus! {

#[verifier::external_type_specification]
#[verifier::external_body]
#[verifier::reject_recursive_types(B)]
pub struct ExBitVec<B>(BitVec<B>);

/// The bits that a `BitVec` holds, first bit first.
pub uninterp spec fn bits_of(bv: BitVec) -> Seq<bool>;

/// `BitVec::new`: an empty bit vector.
#[verifier::external_body]
pub fn bv_new() -> (bv: BitVec)
    ensures
        bits_of(bv) == Seq::<bool>::empty(),
{
    BitVec::new()
}

/// `BitVec::len`: the number of bits held.
#[verifier::external_body]
pub fn bv_len(bv: &BitVec) -> (n: usize)
    ensures
        n == bits_of(*bv).len(),
{
    bv.len()
}

/// `BitVec::push`: appends one bit; the crate panics when the length would
/// pass `usize::MAX`, which the precondition leaves out.
#[verifier::external_body]
pub fn bv_push(bv: &mut BitVec, b: bool)
    requires
        bits_of(*old(bv)).len() < usize::MAX,
    ensures
        bits_of(*final(bv)) == bits_of(*old(bv)).push(b),
{
    bv.push(b)
}

/// Indexing a `BitVec` (`bv[i]`, which reads through `BitVec::get`): the
/// bit at position `i`, which must be in range (the crate panics out of
/// range).
#[verifier::external_body]
pub fn bv_get(bv: &BitVec, i: usize) -> (b: bool)
    requires
        i < bits_of(*bv).len(),
    ensures
        b == bits_of(*bv)[i as int],
{
    bv[i]
}


/// `2` to the power `n`.
pub open spec fn two_to(n: nat) -> nat
    decreases n,
{
    if n == 0 {
        1
    } else {
        2 * two_to((n - 1) as nat)
    }
}

/// The low `n` bits of `x`, most significant first.
pub open spec fn field_bits(x: nat, n: nat) -> Seq<bool>
    decreases n,
{
    if n == 0 {
        Seq::empty()
    } else {
        field_bits(x / 2, (n - 1) as nat).push(x % 2 == 1)
    }
}

/// The number that the bits `b` spell, most significant first.
pub open spec fn bits_value(b: Seq<bool>) -> nat
    decreases b.len(),
{
    if b.len() == 0 {
        0
    } else {
        2 * bits_value(b.drop_last()) + (if b.last() {
            1nat
        } else {
            0nat
        })
    }
}

/// The number in the `n` bits of `b` from position `start`.
pub open spec fn field_at(b: Seq<bool>, start: int, n: int) -> nat {
    bits_value(b.subrange(start, start + n))
}

/// The concatenation of `parts`.
pub open spec fn join(parts: Seq<Seq<bool>>) -> Seq<bool>
    decreases parts.len(),
{
    if parts.len() == 0 {
        Seq::empty()
    } else {
        join(parts.drop_last()) + parts.last()
    }
}

/// The powers of two that the field widths use.
pub proof fn lemma_two_to_values()
    ensures
        two_to(8) == 256,
        two_to(32) == 0x1_0000_0000,
        two_to(64) == 0x1_0000_0000_0000_0000,
{
    reveal_with_fuel(two_to, 65);
}

/// Powers of two grow with the exponent.
pub proof fn lemma_two_to_monotone(a: nat, b: nat)
    requires
        a <= b,
    ensures
        two_to(a) <= two_to(b),
    decreases b,
{
    if a < b {
        lemma_two_to_monotone(a, (b - 1) as nat);
    }
}

/// A field of `n` bits holds a number below `2^n`.
pub proof fn lemma_value_bound(b: Seq<bool>)
    ensures
        bits_value(b) < two_to(b.len()),
    decreases b.len(),
{
    if b.len() > 0 {
        lemma_value_bound(b.drop_last());
    }
}

/// Reading back a written field gives the number written.
pub proof fn lemma_field_roundtrip(x: nat, n: nat)
    requires
        x < two_to(n),
    ensures
        field_bits(x, n).len() == n,
        bits_value(field_bits(x, n)) == x,
    decreases n,
{
    if n > 0 {
        lemma_field_roundtrip(x / 2, (n - 1) as nat);
        assert(field_bits(x, n).drop_last() =~= field_bits(x / 2, (n - 1) as nat));
    }
}

/// A field of `n` bits has `n` bits.
pub proof fn lemma_field_len(x: nat, n: nat)
    ensures
        field_bits(x, n).len() == n,
    decreases n,
{
    if n > 0 {
        lemma_field_len(x / 2, (n - 1) as nat);
    }
}

/// Joining one more part.
pub proof fn lemma_join_take(parts: Seq<Seq<bool>>, k: int)
    requires
        0 <= k < parts.len(),
    ensures
        join(parts.take(k + 1)) == join(parts.take(k)) + parts[k],
{
    assert(parts.take(k + 1).drop_last() =~= parts.take(k));
}

/// Parts of one width `w`: the joined bits have length `w * parts.len()` and
/// part `k` lies at `w * k`.
pub proof fn lemma_join_uniform(parts: Seq<Seq<bool>>, w: nat, k: int)
    requires
        forall|i: int| 0 <= i < parts.len() ==> (#[trigger] parts[i]).len() == w,
        0 <= k < parts.len(),
    ensures
        join(parts).len() == w * parts.len(),
        join(parts).subrange(w * k, w * k + w) == parts[k],
    decreases parts.len(),
{
    lemma_join_len(parts, w);
    let p = parts.drop_last();
    let n = parts.len();
    lemma_join_len(p, w);
    if k == n - 1 {
        assert(join(parts).subrange(w * k, w * k + w) =~= parts[k]);
    } else {
        lemma_join_uniform(p, w, k);
        assert(w * k + w <= w * (n - 1)) by (nonlinear_arith)
            requires
                k + 1 <= n - 1,
        ;
        assert(join(parts).subrange(w * k, w * k + w) =~= join(p).subrange(w * k, w * k + w));
    }
}

/// Joining parts of one width `w` gives `w` bits per part.
pub proof fn lemma_join_len(parts: Seq<Seq<bool>>, w: nat)
    requires
        forall|i: int| 0 <= i < parts.len() ==> (#[trigger] parts[i]).len() == w,
    ensures
        join(parts).len() == w * parts.len(),
    decreases parts.len(),
{
    if parts.len() > 0 {
        let p = parts.drop_last();
        lemma_join_len(p, w);
        assert(w * (p.len() + 1) == w * p.len() + w) by (nonlinear_arith);
    }
}

/// Appends the low `n` bits of `x` to `bv`, most significant first.
pub fn push_field(x: u64, n: usize, bv: &mut BitVec)
    requires
        bits_of(*old(bv)).len() + n < usize::MAX,
    ensures
        bits_of(*final(bv)) == bits_of(*old(bv)) + field_bits(x as nat, n as nat),
    decreases n,
{
    if n > 0 {
        push_field(x / 2, n - 1, bv);
        proof {
            lemma_field_len((x / 2) as nat, (n - 1) as nat);
        }
        bv_push(bv, x % 2 == 1);
        assert(bits_of(*bv) =~= bits_of(*old(bv)) + field_bits(x as nat, n as nat));
    } else {
        assert(bits_of(*bv) =~= bits_of(*old(bv)) + field_bits(x as nat, n as nat));
    }
}

/// Reads the `n` bits of `bv` from position `start` as a number, most
/// significant first.
pub fn read_field(bv: &BitVec, start: usize, n: usize) -> (x: u64)
    requires
        start + n <= bits_of(*bv).len(),
        n <= 32,
    ensures
        x as nat == field_at(bits_of(*bv), start as int, n as int),
        (x as nat) < two_to(n as nat),
{
    let ghost b = bits_of(*bv);
    let total = bv_len(bv);
    let mut x: u64 = 0;
    let mut j: usize = 0;
    proof {
        lemma_two_to_values();
        assert(b.subrange(start as int, start as int) =~= Seq::<bool>::empty());
    }
    while j < n
        invariant
            j <= n <= 32,
            start + n <= b.len(),
            b.len() == total,
            b == bits_of(*bv),
            x as nat == bits_value(b.subrange(start as int, start + j)),
            two_to(32) == 0x1_0000_0000,
        decreases n - j,
    {
        proof {
            lemma_value_bound(b.subrange(start as int, start + j));
            lemma_two_to_monotone(j as nat, 32);
            assert(b.subrange(start as int, start + j + 1).drop_last() =~= b.subrange(start as int, start + j));
        }
        let bit = bv_get(bv, start + j);
        x = x * 2 + if bit {
            1
        } else {
            0
        };
        j = j + 1;
    }
    proof {
        lemma_value_bound(b.subrange(start as int, start + n));
    }
    x
}


/// Appends the bits of `src` to `dst`.
pub fn append_bits(src: &BitVec, dst: &mut BitVec)
    requires
        bits_of(*old(dst)).len() + bits_of(*src).len() < usize::MAX,
    ensures
        bits_of(*final(dst)) == bits_of(*old(dst)) + bits_of(*src),
{
    let n = bv_len(src);
    let ghost d0 = bits_of(*dst);
    let mut k: usize = 0;
    while k < n
        invariant
            n == bits_of(*src).len(),
            k <= n,
            d0.len() + n < usize::MAX,
            bits_of(*dst) == d0 + bits_of(*src).take(k as int),
        decreases n - k,
    {
        let b = bv_get(src, k);
        bv_push(dst, b);
        assert(bits_of(*src).take(k + 1) =~= bits_of(*src).take(k as int).push(b));
        assert(bits_of(*dst) =~= d0 + bits_of(*src).take(k + 1));
        k = k + 1;
    }
    assert(bits_of(*src).take(n as int) =~= bits_of(*src));
}

/// Appends the length of `src` in 32 bits, then the bits of `src`.
pub fn push_block(src: &BitVec, dst: &mut BitVec)
    requires
        bits_of(*old(dst)).len() + 32 + bits_of(*src).len() < usize::MAX,
    ensures
        bits_of(*final(dst)) == bits_of(*old(dst)) + field_bits(bits_of(*src).len(), 32) + bits_of(*src),
{
    let n = bv_len(src);
    proof {
        lemma_field_len(n as nat, 32);
    }
    push_field(n as u64, 32, dst);
    append_bits(src, dst);
}


/// `x` moved into `0..=len`.
pub open spec fn clamp(x: int, len: int) -> int {
    if x < 0 {
        0
    } else if x > len {
        len
    } else {
        x
    }
}

/// The bits of `b` from `from` to `to`, as far as `b` reaches.
pub open spec fn part(b: Seq<bool>, from: int, to: int) -> Seq<bool> {
    b.subrange(clamp(from, b.len() as int), clamp(if to < from { from } else { to }, b.len() as int))
}

/// The number in the bits of `b` from `from` to `from + n`, as far as `b`
/// reaches.
pub open spec fn part_value(b: Seq<bool>, from: int, n: int) -> nat {
    bits_value(part(b, from, from + n))
}

/// A copy of the bits of `src` from `from` to `to`, as far as `src` reaches.
pub fn copy_part(src: &BitVec, from: u64, to: u64) -> (dst: BitVec)
    ensures
        bits_of(dst) == part(bits_of(*src), from as int, to as int),
{
    let n = bv_len(src);
    let ghost b = bits_of(*src);
    let lo: usize = if from > n as u64 { n } else { from as usize };
    let hi0: u64 = if to < from { from } else { to };
    let hi: usize = if hi0 > n as u64 { n } else { hi0 as usize };
    let mut dst = bv_new();
    let mut k: usize = lo;
    assert(b.subrange(lo as int, lo as int) =~= Seq::<bool>::empty());
    while k < hi
        invariant
            n == b.len(),
            b == bits_of(*src),
            lo <= k <= hi || (k == lo && hi <= lo),
            hi <= n,
            bits_of(dst) == b.subrange(lo as int, k as int),
        decreases hi - k,
    {
        let x = bv_get(src, k);
        bv_push(&mut dst, x);
        assert(b.subrange(lo as int, k + 1) =~= b.subrange(lo as int, k as int).push(x));
        k = k + 1;
    }
    assert(bits_of(dst) =~= part(b, from as int, to as int));
    dst
}

/// Reads the number in the bits of `bv` from `from` to `from + n` (at most
/// 32 of them), as far as `bv` reaches.
pub fn read_part(bv: &BitVec, from: u64, n: u64) -> (x: u64)
    requires
        n <= 32,
    ensures
        x as nat == part_value(bits_of(*bv), from as int, n as int),
        x < 0x1_0000_0000,
{
    let len = bv_len(bv);
    let ghost b = bits_of(*bv);
    proof {
        lemma_two_to_values();
        lemma_two_to_monotone(n as nat, 32);
    }
    if from >= len as u64 {
        assert(part(b, from as int, from + n) =~= Seq::<bool>::empty());
        return 0;
    }
    let end: u64 = if n > len as u64 - from { len as u64 } else { from + n };
    let x = read_field(bv, from as usize, (end - from) as usize);
    proof {
        lemma_two_to_monotone((end - from) as nat, 32);
    }
    assert(part(b, from as int, from + n) =~= b.subrange(from as int, end as int));
    x
}


/// The smaller of two numbers.
pub open spec fn min_int(a: int, b: int) -> int {
    if a <= b {
        a
    } else {
        b
    }
}

/// How many whole chunks of `width` bits, at most `count`, fit between
/// `start` and `len`.
pub open spec fn complete_chunks(len: int, start: int, width: int, count: int) -> nat
    decreases count,
{
    if count <= 0 || width <= 0 || start + width > len {
        0
    } else {
        1 + complete_chunks(len, start + width, width, count - 1)
    }
}

/// The value of the chunk of `width` bits at `at`, kept to its last 32 bits.
pub open spec fn chunk_value(b: Seq<bool>, at: int, width: int) -> nat {
    part_value(b, at + width - min_int(width, 32), min_int(width, 32))
}

/// The values of the whole chunks of `width` bits from `start` on, at most `count`.
pub open spec fn chunks(b: Seq<bool>, start: int, width: int, count: int) -> Seq<u32>
    decreases count,
{
    if count <= 0 || width <= 0 || start + width > b.len() {
        Seq::empty()
    } else {
        seq![chunk_value(b, start, width) as u32] + chunks(b, start + width, width, count - 1)
    }
}

/// Reads the whole chunks of `width` bits of `bv` from `start` on, at most
/// `count` of them, each kept to its last 32 bits.
pub fn read_chunks(bv: &BitVec, start: u64, width: u64, count: u64, out: &mut Vec<u32>)
    requires
        width < 0x1_0000_0000,
    ensures
        final(out)@ == old(out)@ + chunks(bits_of(*bv), start as int, width as int, count as int),
{
    let ghost b = bits_of(*bv);
    let ghost o0 = out@;
    let len = bv_len(bv) as u64;
    let mut pos: u64 = start;
    let mut k: u64 = 0;
    assert(o0 + chunks(b, start as int, width as int, count as int) =~= out@ + chunks(b, pos as int, width as int, (count - k) as int));
    while k < count && width > 0 && len >= width && pos <= len - width
        invariant
            b == bits_of(*bv),
            len == b.len(),
            k <= count,
            start <= pos,
            pos <= start || pos <= len,
            width < 0x1_0000_0000,
            o0 + chunks(b, start as int, width as int, count as int) == out@ + chunks(b, pos as int, width as int, (count - k) as int),
        decreases count - k,
    {
        let w = if width < 32 { width } else { 32 };
        proof {
            lemma_two_to_values();
        }
        let x = read_part(bv, pos + width - w, w);
        let ghost rest = chunks(b, pos + width, width as int, (count - k - 1) as int);
        assert(chunks(b, pos as int, width as int, (count - k) as int) == seq![chunk_value(b, pos as int, width as int) as u32] + rest);
        out.push(x as u32);
        assert(out@ + rest =~= (out@.drop_last()) + (seq![x as u32] + rest));
        pos = pos + width;
        k = k + 1;
    }
    assert(chunks(b, pos as int, width as int, (count - k) as int) =~= Seq::<u32>::empty());
    assert(out@ + Seq::<u32>::empty() =~= out@);
}

} // verus!
