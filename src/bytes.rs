//! Fixed-width primitives: 32-bit integers in both byte orders and
//! 64-bit words (the bit patterns of doubles) in little-endian order.
use vstd::bytes::*;
use vstd::prelude::*;
use vstd::slice::slice_subrange;

verus! {

/// Little-endian bytes of a signed 32-bit integer.
pub open spec fn le32(n: i32) -> Seq<u8> {
    spec_u32_to_le_bytes(#[verifier::truncate] (n as u32))
}

/// Big-endian bytes of a signed 32-bit integer.
pub open spec fn be32(n: i32) -> Seq<u8> {
    let s = spec_u32_to_le_bytes(#[verifier::truncate] (n as u32));
    seq![s[3], s[2], s[1], s[0]]
}

/// Little-endian bytes of a 64-bit word.
pub open spec fn le64(w: u64) -> Seq<u8> {
    spec_u64_to_le_bytes(w)
}

/// Bytes of a sequence of 64-bit words, one after the other.
pub open spec fn words_bytes(s: Seq<u64>) -> Seq<u8>
    decreases s.len(),
{
    if s.len() == 0 {
        Seq::empty()
    } else {
        words_bytes(s.drop_last()) + le64(s.last())
    }
}

/// Bytes of a sequence of little-endian 32-bit integers.
pub open spec fn ints_bytes(s: Seq<i32>) -> Seq<u8>
    decreases s.len(),
{
    if s.len() == 0 {
        Seq::empty()
    } else {
        ints_bytes(s.drop_last()) + le32(s.last())
    }
}

pub proof fn lemma_sizes()
    ensures
        forall|n: i32| #[trigger] le32(n).len() == 4,
        forall|n: i32| #[trigger] be32(n).len() == 4,
        forall|w: u64| #[trigger] le64(w).len() == 8,
{
    lemma_auto_spec_u32_to_from_le_bytes();
    lemma_auto_spec_u64_to_from_le_bytes();
}

pub proof fn lemma_words_bytes_len(s: Seq<u64>)
    ensures
        words_bytes(s).len() == 8 * s.len(),
    decreases s.len(),
{
    lemma_sizes();
    if s.len() > 0 {
        lemma_words_bytes_len(s.drop_last());
    }
}

pub proof fn lemma_ints_bytes_len(s: Seq<i32>)
    ensures
        ints_bytes(s).len() == 4 * s.len(),
    decreases s.len(),
{
    lemma_sizes();
    if s.len() > 0 {
        lemma_ints_bytes_len(s.drop_last());
    }
}

/// Appends the little-endian bytes of `n`.
pub fn push_i32_le(buf: &mut Vec<u8>, n: i32)
    ensures
        final(buf)@ == old(buf)@ + le32(n),
{
    let v = u32_to_le_bytes(n as u32);
    buf.push(v[0]);
    buf.push(v[1]);
    buf.push(v[2]);
    buf.push(v[3]);
    proof {
        lemma_sizes();
        assert(final(buf)@ =~= old(buf)@ + le32(n));
    }
}

/// Appends the big-endian bytes of `n`.
pub fn push_i32_be(buf: &mut Vec<u8>, n: i32)
    ensures
        final(buf)@ == old(buf)@ + be32(n),
{
    let v = u32_to_le_bytes(n as u32);
    proof {
        lemma_sizes();
    }
    buf.push(v[3]);
    buf.push(v[2]);
    buf.push(v[1]);
    buf.push(v[0]);
    proof {
        assert(final(buf)@ =~= old(buf)@ + be32(n));
    }
}

/// Appends the little-endian bytes of the 64-bit word `w`.
pub fn push_u64_le(buf: &mut Vec<u8>, w: u64)
    ensures
        final(buf)@ == old(buf)@ + le64(w),
{
    let v = u64_to_le_bytes(w);
    proof {
        lemma_sizes();
    }
    let mut i: usize = 0;
    while i < 8
        invariant
            0 <= i <= 8,
            v@ == le64(w),
            v@.len() == 8,
            buf@ == old(buf)@ + le64(w).subrange(0, i as int),
        decreases 8 - i,
    {
        buf.push(v[i]);
        i = i + 1;
        proof {
            assert(buf@ =~= old(buf)@ + le64(w).subrange(0, i as int));
        }
    }
    proof {
        assert(le64(w).subrange(0, 8) =~= le64(w));
    }
}

/// Reads a little-endian 32-bit integer at `pos`.
pub fn read_i32_le(b: &[u8], pos: usize) -> (r: i32)
    requires
        pos + 4 <= b@.len(),
    ensures
        le32(r) == b@.subrange(pos as int, pos + 4),
{
    let len = b.len();
    let s = slice_subrange(b, pos, pos + 4);
    let u = u32_from_le_bytes(s);
    proof {
        lemma_auto_spec_u32_to_from_le_bytes();
        assert((#[verifier::truncate] ((#[verifier::truncate] (u as i32)) as u32)) == u) by (bit_vector);
    }
    u as i32
}

/// Reads a big-endian 32-bit integer at `pos`.
pub fn read_i32_be(b: &[u8], pos: usize) -> (r: i32)
    requires
        pos + 4 <= b@.len(),
    ensures
        be32(r) == b@.subrange(pos as int, pos + 4),
{
    let len = b.len();
    let mut v: Vec<u8> = Vec::new();
    v.push(b[pos + 3]);
    v.push(b[pos + 2]);
    v.push(b[pos + 1]);
    v.push(b[pos]);
    let u = u32_from_le_bytes(v.as_slice());
    proof {
        lemma_auto_spec_u32_to_from_le_bytes();
        assert((#[verifier::truncate] ((#[verifier::truncate] (u as i32)) as u32)) == u) by (bit_vector);
        let s = spec_u32_to_le_bytes(u);
        assert(s == v@);
        assert(be32(u as i32) =~= b@.subrange(pos as int, pos + 4));
    }
    u as i32
}

/// Reads a little-endian 64-bit word at `pos`.
pub fn read_u64_le(b: &[u8], pos: usize) -> (r: u64)
    requires
        pos + 8 <= b@.len(),
    ensures
        le64(r) == b@.subrange(pos as int, pos + 8),
{
    let len = b.len();
    let s = slice_subrange(b, pos, pos + 8);
    let w = u64_from_le_bytes(s);
    proof {
        lemma_auto_spec_u64_to_from_le_bytes();
    }
    w
}

/// The byte encodings are injective.
pub proof fn lemma_injective()
    ensures
        forall|a: i32, b: i32| #[trigger] le32(a) == #[trigger] le32(b) ==> a == b,
        forall|a: i32, b: i32| #[trigger] be32(a) == #[trigger] be32(b) ==> a == b,
        forall|a: u64, b: u64| #[trigger] le64(a) == #[trigger] le64(b) ==> a == b,
{
    lemma_auto_spec_u32_to_from_le_bytes();
    lemma_auto_spec_u64_to_from_le_bytes();
    assert forall|a: i32, b: i32| #[trigger] le32(a) == #[trigger] le32(b) implies a == b by {
        let ua = #[verifier::truncate] (a as u32);
        let ub = #[verifier::truncate] (b as u32);
        assert(le32(a) == spec_u32_to_le_bytes(ua));
        assert(le32(b) == spec_u32_to_le_bytes(ub));
        assert(spec_u32_from_le_bytes(spec_u32_to_le_bytes(ua)) == ua);
        assert(spec_u32_from_le_bytes(spec_u32_to_le_bytes(ub)) == ub);
        assert(ua == ub ==> a == b) by (bit_vector)
            requires
                ua == #[verifier::truncate] (a as u32),
                ub == #[verifier::truncate] (b as u32),
        ;
    }
    assert forall|a: i32, b: i32| #[trigger] be32(a) == #[trigger] be32(b) implies a == b by {
        let ua = #[verifier::truncate] (a as u32);
        let ub = #[verifier::truncate] (b as u32);
        let sa = spec_u32_to_le_bytes(ua);
        let sb = spec_u32_to_le_bytes(ub);
        assert(be32(a)[0] == sa[3] && be32(b)[0] == sb[3]);
        assert(be32(a)[1] == sa[2] && be32(b)[1] == sb[2]);
        assert(be32(a)[2] == sa[1] && be32(b)[2] == sb[1]);
        assert(be32(a)[3] == sa[0] && be32(b)[3] == sb[0]);
        assert(sa =~= sb);
        assert(spec_u32_from_le_bytes(sa) == ua);
        assert(spec_u32_from_le_bytes(sb) == ub);
        assert(ua == ub ==> a == b) by (bit_vector)
            requires
                ua == #[verifier::truncate] (a as u32),
                ub == #[verifier::truncate] (b as u32),
        ;
    }
    assert forall|a: u64, b: u64| #[trigger] le64(a) == #[trigger] le64(b) implies a == b by {
        assert(spec_u64_from_le_bytes(le64(a)) == a);
        assert(spec_u64_from_le_bytes(le64(b)) == b);
    }
}

} // verus!
