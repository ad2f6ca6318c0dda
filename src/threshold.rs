use vstd::prelude::*;

verus! {

/// A pixel turns white (255) when it is brighter than its local blur minus
/// `offset`, black (0) otherwise; `invert` swaps the two.
pub open spec fn threshold_pixel(p: u8, b: u8, offset: i32, invert: bool) -> u8 {
    if ((p as int > b as int - offset as int) != invert) {
        255
    } else {
        0
    }
}

/// Adaptive thresholding against a precomputed blur of the same image.
pub fn adaptive_threshold(
    input: &[u8],
    blurred: &[u8],
    width: usize,
    height: usize,
    offset: i32,
    invert: bool,
) -> (r: Vec<u8>)
    requires
        input@.len() == width * height,
        blurred@.len() == width * height,
    ensures
        r@.len() == width * height,
        forall|i: int| 0 <= i < r@.len() ==> r@[i] == threshold_pixel(input@[i], blurred@[i], offset, invert),
{
    let n = input.len();
    let mut output: Vec<u8> = Vec::new();
    let mut i: usize = 0;
    while i < n
        invariant
            n == input@.len(),
            blurred@.len() == n,
            0 <= i <= n,
            output@.len() == i,
            forall|j: int| 0 <= j < i ==> output@[j] == threshold_pixel(input@[j], blurred@[j], offset, invert),
        decreases n - i,
    {
        let threshold = blurred[i] as i64 - offset as i64;
        let above = (input[i] as i64) > threshold;
        output.push(if above != invert { 255 } else { 0 });
        i = i + 1;
    }
    output
}

} // verus!
