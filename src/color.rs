use vstd::prelude::*;

verus! {

/// Grey level shown for an iteration count: `255 - degree`, held to `0..=255`.
pub open spec fn channel_spec(degree: int) -> int {
    if degree <= 0 {
        255
    } else if degree >= 255 {
        0
    } else {
        255 - degree
    }
}

/// Pixel `slot` of `frame` (four bytes from `4 * slot`) shows iteration count `degree`.
pub open spec fn pixel_is(frame: Seq<u8>, slot: int, degree: int) -> bool {
    &&& frame[4 * slot] == channel_spec(degree)
    &&& frame[4 * slot + 1] == channel_spec(degree)
    &&& frame[4 * slot + 2] == channel_spec(degree)
    &&& frame[4 * slot + 3] == 255
}

/// Pixels `a` and `b` of `frame` hold the same four bytes.
pub open spec fn same_pixel(frame: Seq<u8>, a: int, b: int) -> bool {
    &&& frame[4 * a] == frame[4 * b]
    &&& frame[4 * a + 1] == frame[4 * b + 1]
    &&& frame[4 * a + 2] == frame[4 * b + 2]
    &&& frame[4 * a + 3] == frame[4 * b + 3]
}

/// Grey channel value for an iteration count.
pub fn channel_of(degree: i64) -> (r: u8)
    ensures
        r as int == channel_spec(degree as int),
{
    if degree <= 0 {
        255
    } else if degree >= 255 {
        0
    } else {
        (255 - degree) as u8
    }
}

/// Writes the opaque grey pixel for `degree` into pixel `slot` of `frame`.
pub fn put_pixel(frame: &mut [u8], slot: usize, degree: i64)
    requires
        4 * slot + 4 <= old(frame)@.len(),
    ensures
        final(frame)@.len() == old(frame)@.len(),
        pixel_is(final(frame)@, slot as int, degree as int),
        forall|k: int|
            0 <= k < old(frame)@.len() && !(4 * slot <= k < 4 * slot + 4) ==> final(frame)@[k]
                == old(frame)@[k],
{
    let c = channel_of(degree);
    let base = 4 * slot;
    frame[base] = c;
    frame[base + 1] = c;
    frame[base + 2] = c;
    frame[base + 3] = 255;
}

} // verus!
