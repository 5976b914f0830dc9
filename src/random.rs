use rand::Rng;
use vstd::prelude::*;

verus! {

/// Relies on rand's `Rng::gen_range` on the thread-local generator: a value
/// drawn from the half-open range `lower..upper`, which must not be empty.
#[verifier::external_body]
fn draw(lower: i128, upper: i128) -> (r: i128)
    requires
        lower < upper,
    ensures
        lower <= r < upper,
{
    rand::thread_rng().gen_range(lower..upper)
}

/// A random `i32` in `lower..upper`.
pub fn rand_signed32(lower: i32, upper: i32) -> (r: i32)
    requires
        lower < upper,
    ensures
        lower <= r < upper,
{
    draw(lower as i128, upper as i128) as i32
}

/// A random `i64` in `lower..upper`.
pub fn rand_signed64(lower: i64, upper: i64) -> (r: i64)
    requires
        lower < upper,
    ensures
        lower <= r < upper,
{
    draw(lower as i128, upper as i128) as i64
}

/// A random `u32` in `lower..upper`.
pub fn rand_unsigned32(lower: u32, upper: u32) -> (r: u32)
    requires
        lower < upper,
    ensures
        lower <= r < upper,
{
    draw(lower as i128, upper as i128) as u32
}

/// A random `u64` in `lower..upper`.
pub fn rand_unsigned64(lower: u64, upper: u64) -> (r: u64)
    requires
        lower < upper,
    ensures
        lower <= r < upper,
{
    draw(lower as i128, upper as i128) as u64
}

} // verus!
