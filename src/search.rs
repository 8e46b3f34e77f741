use vstd::prelude::*;

verus! {

/// The position of the first element of `s` equal to `x`, scanning from the front.
pub open spec fn first_match<A>(s: Seq<A>, x: A) -> Option<int>
    decreases s.len(),
{
    if s.len() == 0 {
        None
    } else {
        match first_match(s.drop_last(), x) {
            Some(i) => Some(i),
            None => if s.last() == x {
                Some(s.len() - 1)
            } else {
                None
            },
        }
    }
}

/// A match found in a prefix is the first match of the whole sequence.
pub proof fn lemma_first_match_prefix<A>(s: Seq<A>, k: int, x: A)
    requires
        0 <= k <= s.len(),
        first_match(s.take(k), x) is Some,
    ensures
        first_match(s, x) == first_match(s.take(k), x),
    decreases s.len() - k,
{
    if k < s.len() {
        assert(s.take(k + 1).drop_last() =~= s.take(k));
        lemma_first_match_prefix(s, k + 1, x);
    } else {
        assert(s.take(k) =~= s);
    }
}

/// What `first_match` returns is a position of `x`, and nothing before it is `x`.
pub proof fn lemma_first_match_found<A>(s: Seq<A>, x: A)
    ensures
        match first_match(s, x) {
            Some(i) => 0 <= i < s.len() && s[i] == x && forall|j: int| 0 <= j < i ==> s[j] != x,
            None => forall|j: int| 0 <= j < s.len() ==> s[j] != x,
        },
    decreases s.len(),
{
    if s.len() > 0 {
        let t = s.drop_last();
        lemma_first_match_found(t, x);
        assert(forall|j: int| 0 <= j < t.len() ==> t[j] == s[j]);
    }
}

} // verus!
