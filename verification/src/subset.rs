//! Seeded sampling of a data directory: a deterministic shuffle of the
//! sink's rows under a fixed seed, truncated to the requested size, so the
//! same seed always selects the same subset.
use crate::CsvRepo;
use vstd::prelude::*;

verus! {

/// What the seeded shuffle makes of an index sequence: a function of the
/// seed and the input alone.
pub uninterp spec fn shuffle_of(seed: Seq<u8>, input: Seq<u64>) -> Seq<u64>;

/// Relies on rand's `SliceRandom::shuffle` driven by rand_chacha's
/// `ChaCha20Rng::from_seed`: an in-place permutation of the slice whose
/// order depends only on the seed and the input.
#[verifier::external_body]
fn shuffle_seeded(v: &mut Vec<u64>, seed: &[u8; 32])
    ensures
        final(v)@ == shuffle_of(seed@, old(v)@),
        final(v)@.to_multiset() == old(v)@.to_multiset(),
{
    let mut rng = <rand_chacha::ChaCha20Rng as rand::SeedableRng>::from_seed(*seed);
    rand::seq::SliceRandom::shuffle(v.as_mut_slice(), &mut rng);
}

/// The indices `0, 1, ..., len - 1`.
pub open spec fn identity_indices(len: nat) -> Seq<u64> {
    Seq::new(len, |i: int| i as u64)
}

/// Selects the seeded random subset of size at most `n`: the rows at the
/// first `n` positions of the seed-determined permutation of all row
/// indices.
pub fn create_subset_plan(rows: &Vec<CsvRepo>, n: usize, seed: &[u8; 32]) -> (r: Vec<CsvRepo>)
    ensures
        ({
            let shuffled = shuffle_of(seed@, identity_indices(rows@.len()));
            &&& r@.len() == (if n <= rows@.len() {
                n as int
            } else {
                rows@.len() as int
            })
            &&& shuffled.to_multiset() == identity_indices(rows@.len()).to_multiset()
            &&& forall|k: int|
                0 <= k < r@.len() ==> 0 <= shuffled[k] < rows@.len() && #[trigger] r@[k]
                    == rows@[shuffled[k] as int]
        }),
{
    broadcast use vstd::seq_lib::group_to_multiset_ensures;

    let len = rows.len();
    let ghost ident = identity_indices(rows@.len());
    let mut idx: Vec<u64> = Vec::new();
    let mut i: usize = 0;
    while i < len
        invariant
            i <= len,
            len == rows@.len(),
            idx@.len() == i,
            forall|k: int| 0 <= k < i ==> #[trigger] idx@[k] == k as u64,
        decreases len - i,
    {
        idx.push(i as u64);
        i += 1;
    }
    proof {
        assert(idx@ =~= ident);
    }
    shuffle_seeded(&mut idx, seed);
    let ghost shuffled = idx@;
    proof {
        assert forall|k: int| 0 <= k < shuffled.len() implies 0 <= #[trigger] shuffled[k]
            < rows@.len() by {
            assert(shuffled.contains(shuffled[k]));
            assert(shuffled.to_multiset().count(shuffled[k]) > 0);
            assert(ident.to_multiset().count(shuffled[k]) > 0);
            assert(ident.contains(shuffled[k]));
            let w = choose|w: int| 0 <= w < ident.len() && ident[w] == shuffled[k];
        }
        assert(shuffled.len() == ident.len()) by {
            assert(shuffled.to_multiset().len() == ident.to_multiset().len());
        }
    }
    let take = if n <= len {
        n
    } else {
        len
    };
    let mut out: Vec<CsvRepo> = Vec::new();
    let mut k: usize = 0;
    while k < take
        invariant
            take <= len,
            len == rows@.len(),
            shuffled == idx@,
            shuffled.len() == len,
            forall|q: int| 0 <= q < shuffled.len() ==> 0 <= #[trigger] shuffled[q] < rows@.len(),
            k <= take,
            out@.len() == k,
            forall|q: int| 0 <= q < k ==> #[trigger] out@[q] == rows@[shuffled[q] as int],
        decreases take - k,
    {
        let position = idx[k];
        let rec = rows[position as usize].clone();
        out.push(rec);
        k += 1;
    }
    out
}

} // verus!
