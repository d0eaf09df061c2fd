//! Small facts about byte sequences that the codec proofs lean on:
//! how prefixes behave under concatenation and how `skip` composes.

use vstd::prelude::*;

verus! {

/// Every sequence is a prefix of itself.
pub proof fn lemma_prefix_refl(a: Seq<u8>)
    ensures
        a.is_prefix_of(a),
{
    assert(a =~= a.subrange(0, a.len() as int));
}

/// A sequence is a prefix of itself followed by anything.
pub proof fn lemma_prefix_append(a: Seq<u8>, b: Seq<u8>)
    ensures
        a.is_prefix_of(a + b),
{
    assert(a =~= (a + b).subrange(0, a.len() as int));
}

/// When a concatenation is a prefix of `s`, its first part is a prefix of
/// `s` and its second part a prefix of what is left after the first.
pub proof fn lemma_prefix_split(a: Seq<u8>, b: Seq<u8>, s: Seq<u8>)
    requires
        (a + b).is_prefix_of(s),
    ensures
        a.is_prefix_of(s),
        b.is_prefix_of(s.skip(a.len() as int)),
{
    let n = a.len() as int;
    let k = b.len() as int;
    assert((a + b) =~= s.subrange(0, n + k));
    assert forall|i: int| 0 <= i < k implies b[i] == s[n + i] by {
        assert((a + b)[n + i] == b[i]);
        assert(s.subrange(0, n + k)[n + i] == s[n + i]);
    }
    assert(a =~= s.subrange(0, n));
    assert(b =~= s.skip(n).subrange(0, k));
}

/// A prefix is exactly what `take` of its length gives back.
pub proof fn lemma_prefix_take(a: Seq<u8>, s: Seq<u8>)
    requires
        a.is_prefix_of(s),
    ensures
        s.take(a.len() as int) == a,
{
    assert(s.take(a.len() as int) =~= a);
}

/// Being a prefix is transitive.
pub proof fn lemma_prefix_trans(a: Seq<u8>, b: Seq<u8>, c: Seq<u8>)
    requires
        a.is_prefix_of(b),
        b.is_prefix_of(c),
    ensures
        a.is_prefix_of(c),
{
    assert(a =~= c.subrange(0, a.len() as int));
}

/// Skipping in two steps is skipping the sum.
pub proof fn lemma_skip_skip(s: Seq<u8>, m: int, n: int)
    requires
        0 <= m,
        0 <= n,
        m + n <= s.len(),
    ensures
        s.skip(m).skip(n) == s.skip(m + n),
{
    assert(s.skip(m).skip(n) =~= s.skip(m + n));
}

/// Skipping nothing changes nothing.
pub proof fn lemma_skip_zero(s: Seq<u8>)
    ensures
        s.skip(0) == s,
{
    assert(s.skip(0) =~= s);
}

/// Concatenation of byte sequences is associative.
pub proof fn lemma_concat_assoc(a: Seq<u8>, b: Seq<u8>, c: Seq<u8>)
    ensures
        (a + b) + c == a + (b + c),
{
    assert((a + b) + c =~= a + (b + c));
}

} // verus!
