use vstd::prelude::*;
verus! {

/// The permutation that the seeded shuffle produces for a given seed and
/// input: a function of the seed and the input alone.
pub uninterp spec fn shuffle_of(seed: u64, s: Seq<usize>) -> Seq<usize>;

/// Relies on rand's `SliceRandom::shuffle` run on a `StdRng` seeded with
/// `seed_from_u64`: the Fisher-Yates shuffle rearranges the slice in place
/// (same elements, same multiplicities), and the generator's stream depends
/// on the seed alone, so the resulting order is a function of the seed and
/// the input.
#[verifier::external_body]
fn shuffle_indices(v: &mut Vec<usize>, seed: u64)
    ensures
        final(v)@ == shuffle_of(seed, old(v)@),
        final(v)@.to_multiset() == old(v)@.to_multiset(),
        final(v)@.len() == old(v)@.len(),
{
    let mut rng = <rand::rngs::StdRng as rand::SeedableRng>::seed_from_u64(seed);
    rand::seq::SliceRandom::shuffle(v.as_mut_slice(), &mut rng);
}

/// The sequence `0, 1, ..., n - 1`.
pub open spec fn index_seq(n: nat) -> Seq<usize> {
    Seq::new(n, |i: int| i as usize)
}

/// What the selector returns: every index when the record set fits under the
/// cap, and otherwise the first `cap` positions of the seeded shuffle.
pub open spec fn selection_spec(seed: u64, n: nat, cap: nat) -> Seq<usize> {
    if n <= cap {
        index_seq(n)
    } else {
        shuffle_of(seed, index_seq(n)).take(cap as int)
    }
}

/// Chooses which of the `n` records become graph nodes: all of them when
/// `n <= cap`, and a uniform random sample of size `cap` drawn with the
/// given seed otherwise. Returns the chosen record indices.
pub fn select_candidates(n: usize, cap: usize, seed: u64) -> (r: Vec<usize>)
    ensures
        r@ == selection_spec(seed, n as nat, cap as nat),
        r@.len() == if n <= cap { n as int } else { cap as int },
        forall|k: int| 0 <= k < r@.len() ==> r@[k] < n,
        r@.no_duplicates(),
{
    let mut v: Vec<usize> = Vec::new();
    let mut i: usize = 0;
    while i < n
        invariant
            i <= n,
            v@ =~= index_seq(i as nat),
        decreases n - i,
    {
        v.push(i);
        i = i + 1;
    }
    assert(v@ =~= index_seq(n as nat));
    proof {
        assert(index_seq(n as nat).no_duplicates());
    }
    if n <= cap {
        return v;
    }
    shuffle_indices(&mut v, seed);
    proof {
        broadcast use vstd::seq_lib::group_to_multiset_ensures;

        let id = index_seq(n as nat);
        id.lemma_multiset_has_no_duplicates();
        assert forall|x: usize| v@.to_multiset().contains(x) implies
            v@.to_multiset().count(x) == 1 by {
            assert(id.to_multiset().contains(x));
        }
        v@.lemma_multiset_has_no_duplicates_conv();
    }
    let ghost shuffled = v@;
    v.truncate(cap);
    proof {
        broadcast use vstd::seq_lib::group_to_multiset_ensures;

        let id = index_seq(n as nat);
        assert(v@ =~= shuffled.take(cap as int));
        assert forall|k: int| 0 <= k < v@.len() implies v@[k] < n by {
            assert(shuffled[k] == v@[k]);
            assert(shuffled.contains(shuffled[k]));
            assert(id.to_multiset().count(shuffled[k]) > 0);
            assert(id.contains(shuffled[k]));
            let j = choose|j: int| 0 <= j < id.len() && id[j] == shuffled[k];
        }
        assert(v@.no_duplicates()) by {
            assert forall|j1: int, j2: int| 0 <= j1 < j2 < v@.len() implies
                v@[j1] != v@[j2] by {
                assert(v@[j1] == shuffled[j1] && v@[j2] == shuffled[j2]);
            }
        }
    }
    v
}

/// When the record set fits under the cap, nothing is sampled away: the
/// selection is every record index, in order.
pub proof fn lemma_selection_under_cap(seed: u64, n: nat, cap: nat)
    requires
        n <= cap,
    ensures
        selection_spec(seed, n, cap) == index_seq(n),
        selection_spec(seed, n, cap).len() == n,
        forall|i: usize| selection_spec(seed, n, cap).contains(i) <==> (i as nat) < n,
{
    assert forall|i: usize| selection_spec(seed, n, cap).contains(i) <==> (i as nat) < n by {
        if (i as nat) < n {
            assert(index_seq(n)[i as int] == i);
        }
        if selection_spec(seed, n, cap).contains(i) {
            let j = choose|j: int| 0 <= j < index_seq(n).len() && index_seq(n)[j] == i;
        }
    }
}

} // verus!
