use rand::Rng;
use vstd::prelude::*;

verus! {

/// Relies on rand's `thread_rng().gen_range(minimum..=maximum)`: a draw from the
/// inclusive range, which panics only when that range is empty.
#[verifier::external_body]
pub fn random(minimum: usize, maximum: usize) -> (r: usize)
    requires
        minimum <= maximum,
    ensures
        minimum <= r <= maximum,
{
    rand::thread_rng().gen_range(minimum..=maximum)
}

/// Draws `quantity` values, each in `minimum..=maximum`, in draw order.
#[allow(non_snake_case)]
pub fn randomMulti(quantity: usize, minimum: usize, maximum: usize) -> (r: Vec<usize>)
    requires
        minimum <= maximum,
    ensures
        r@.len() == quantity,
        forall|i: int| 0 <= i < r@.len() ==> minimum <= #[trigger] r@[i] <= maximum,
{
    let mut output: Vec<usize> = Vec::new();
    let mut n: usize = 0;
    while n < quantity
        invariant
            minimum <= maximum,
            n <= quantity,
            output@.len() == n,
            forall|i: int| 0 <= i < output@.len() ==> minimum <= #[trigger] output@[i] <= maximum,
        decreases quantity - n,
    {
        output.push(random(minimum, maximum));
        n = n + 1;
    }
    output
}

} // verus!
