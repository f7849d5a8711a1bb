//! The integer planning of image based lighting bakes: how many specular
//! mip levels an environment image gets, how many workers convolute the
//! diffuse map, and the bit reversal behind the Hammersley sample sequence.
//! The sampling and filtering themselves are floating point and run in the
//! baking tool.
use vstd::arithmetic::power2::pow2;
use vstd::prelude::*;

verus! {

/// `u32::ilog2`: the base 2 logarithm of `x`, rounded down.
#[verifier::external_body]
fn ilog2(x: u32) -> (r: u32)
    requires
        x > 0,
    ensures
        r < 32,
        pow2(r as nat) <= x,
        (x as nat) < pow2((r + 1) as nat),
{
    x.ilog2()
}

/// The larger of two sides.
pub open spec fn larger(width: u32, height: u32) -> u32 {
    if width >= height {
        width
    } else {
        height
    }
}

/// Number of mip levels baked for the specular map of a `width` by `height`
/// image: one more than the base 2 logarithm (rounded down) of the larger
/// side, so that the last level is one pixel wide along that side.
pub fn mip_level_count(width: u32, height: u32) -> (r: u32)
    requires
        width > 0 || height > 0,
    ensures
        1 <= r <= 32,
        pow2((r - 1) as nat) <= larger(width, height),
        (larger(width, height) as nat) < pow2(r as nat),
{
    let side = if width >= height { width } else { height };
    ilog2(side) + 1
}

/// The bits of `bits` in reverse order: bit `i` of the result is bit
/// `31 - i` of `bits`.  Scaled by `2^-32`, this is the radical inverse of
/// `bits` in base 2 (the van der Corput sequence).
pub fn radical_inverse_bits(bits: u32) -> (r: u32)
    ensures
        forall|i: u32| i < 32 ==> #[trigger] ((r >> i) & 1u32) == ((bits >> ((31u32 - i) as u32)) & 1u32),
{
    let b = (bits >> 16u32) | (bits << 16u32);
    let b = ((b & 0x55555555u32) << 1u32) | ((b & 0xAAAAAAAAu32) >> 1u32);
    let b = ((b & 0x33333333u32) << 2u32) | ((b & 0xCCCCCCCCu32) >> 2u32);
    let b = ((b & 0x0F0F0F0Fu32) << 4u32) | ((b & 0xF0F0F0F0u32) >> 4u32);
    let b = ((b & 0x00FF00FFu32) << 8u32) | ((b & 0xFF00FF00u32) >> 8u32);
    proof {
        assert(b == swap_network(bits));
        lemma_reversal(bits);
    }
    b
}

/// The swap network of [radical_inverse_bits]: halves, then bytes,
/// nibbles, pairs and single bits trade places.
spec fn swap_network(bits: u32) -> u32 {
    let b = (bits >> 16u32) | (bits << 16u32);
    let b = ((b & 0x55555555u32) << 1u32) | ((b & 0xAAAAAAAAu32) >> 1u32);
    let b = ((b & 0x33333333u32) << 2u32) | ((b & 0xCCCCCCCCu32) >> 2u32);
    let b = ((b & 0x0F0F0F0Fu32) << 4u32) | ((b & 0xF0F0F0F0u32) >> 4u32);
    ((b & 0x00FF00FFu32) << 8u32) | ((b & 0xFF00FF00u32) >> 8u32)
}

/// The swap network reverses the bit order.
proof fn lemma_reversal(bits: u32)
    by (bit_vector)
    ensures
        forall|i: u32|
            i < 32 ==> #[trigger] ((swap_network(bits) >> i) & 1u32) == ((bits >> ((31u32 - i) as u32)) & 1u32),
{
}

/// The larger of the requested core count and the available parallelism
/// (1 when unknown), as an `i32`.
pub open spec fn workers_before_split(cores: usize, available: Option<usize>) -> i32 {
    let max_cores = match available {
        Some(n) => n,
        None => 1usize,
    };
    (if cores >= max_cores {
        cores
    } else {
        max_cores
    }) as i32
}

/// Number of workers that convolute the diffuse map: the larger of the
/// requested core count and the available parallelism (1 when unknown),
/// taken as an `i32`, less the two workers that bake the lookup texture and
/// the specular map, and at least 1.
pub fn diffuse_core_count(cores: usize, available: Option<usize>) -> (r: usize)
    requires
        workers_before_split(cores, available) >= i32::MIN + 2,
    ensures
        r == if workers_before_split(cores, available) - 2 >= 1 {
            (workers_before_split(cores, available) - 2) as usize
        } else {
            1usize
        },
{
    let max_cores = match available {
        Some(n) => n,
        None => 1,
    };
    let mut left = (if cores >= max_cores { cores } else { max_cores }) as i32;
    left -= 1;
    left -= 1;
    if left >= 1 {
        left as usize
    } else {
        1
    }
}

} // verus!
