//! Byte-level building blocks shared by the frame formats.
use vstd::bytes::*;
use vstd::prelude::*;

verus! {

/// The eight little-endian bytes of a length.
pub open spec fn le64(n: nat) -> Seq<u8> {
    spec_u64_to_le_bytes(n as u64)
}

/// The concatenation of byte strings, in order.
pub open spec fn joined(parts: Seq<Seq<u8>>) -> Seq<u8>
    decreases parts.len(),
{
    if parts.len() == 0 {
        Seq::empty()
    } else {
        parts[0] + joined(parts.drop_first())
    }
}

/// `s` cut into pieces of `n` bytes from the front; the last piece may be
/// shorter, and no piece is empty.
pub open spec fn chunks_of(s: Seq<u8>, n: nat) -> Seq<Seq<u8>>
    recommends
        n > 0,
    decreases s.len(),
{
    if s.len() == 0 || n == 0 {
        Seq::empty()
    } else if s.len() <= n {
        seq![s]
    } else {
        seq![s.subrange(0, n as int)] + chunks_of(s.subrange(n as int, s.len() as int), n)
    }
}

/// A length prefix reads back as the length it was written from.
pub proof fn lemma_le64(n: nat)
    requires
        n <= u64::MAX,
    ensures
        le64(n).len() == 8,
        spec_u64_from_le_bytes(le64(n)) == n,
{
    lemma_auto_spec_u64_to_from_le_bytes();
}

/// Joining one more part appends it.
pub proof fn lemma_joined_push(parts: Seq<Seq<u8>>, x: Seq<u8>)
    ensures
        joined(parts.push(x)) == joined(parts) + x,
    decreases parts.len(),
{
    if parts.len() == 0 {
        assert(parts.push(x).drop_first() =~= Seq::<Seq<u8>>::empty());
        assert(parts.push(x)[0] == x);
        assert(joined(Seq::<Seq<u8>>::empty()) == Seq::<u8>::empty());
        assert(joined(parts.push(x)) =~= x + Seq::<u8>::empty());
        assert(joined(parts) + x =~= x);
    } else {
        assert(parts.push(x).drop_first() =~= parts.drop_first().push(x));
        lemma_joined_push(parts.drop_first(), x);
        assert(joined(parts.push(x)) =~= parts[0] + (joined(parts.drop_first()) + x));
    }
}

/// Appends a slice to a byte vector.
pub fn append_bytes(v: &mut Vec<u8>, s: &[u8])
    ensures
        final(v)@ == old(v)@ + s@,
{
    let ghost v0 = v@;
    let mut i: usize = 0;
    while i < s.len()
        invariant
            i <= s@.len(),
            v@ == v0 + s@.subrange(0, i as int),
        decreases s@.len() - i,
    {
        v.push(s[i]);
        i = i + 1;
        assert(v@ =~= v0 + s@.subrange(0, i as int));
    }
    assert(s@.subrange(0, s@.len() as int) =~= s@);
}

} // verus!
