use vstd::prelude::*;
use rand::distributions::WeightedIndex;
use rand::prelude::Distribution;
use rand::seq::SliceRandom;

verus! {

/// Relies on rand's `WeightedIndex::new` and `Distribution::sample`: sampling
/// a two-entry weighted index returns an index below 2, and an entry of
/// weight zero is never chosen. `new` fails only when no weight is positive
/// or the total overflows, which the preconditions rule out.
#[verifier::external_body]
pub(crate) fn weighted_pair_index(w_first: u8, w_second: u8) -> (r: usize)
    requires
        w_first > 0 || w_second > 0,
        w_first + w_second <= u8::MAX,
    ensures
        r < 2,
        w_first == 0 ==> r == 1,
        w_second == 0 ==> r == 0,
{
    let dist = WeightedIndex::new([w_first, w_second]).unwrap();
    let mut rng = rand::thread_rng();
    dist.sample(&mut rng)
}

/// Relies on rand's `SliceRandom::choose`: it returns `None` exactly on an
/// empty slice and otherwise some element of the slice.
#[verifier::external_body]
pub(crate) fn choose_coord(v: &Vec<(usize, usize)>) -> (r: Option<(usize, usize)>)
    ensures
        r is None <==> v@.len() == 0,
        match r {
            Some(x) => v@.contains(x),
            None => true,
        },
{
    let mut rng = rand::thread_rng();
    v.as_slice().choose(&mut rng).copied()
}

} // verus!
