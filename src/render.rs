use vstd::prelude::*;
use crate::color::{pixel_is, same_pixel, put_pixel};
use vstd::arithmetic::div_mod::{
    lemma_fundamental_div_mod,
    lemma_fundamental_div_mod_converse,
    lemma_mod_decreases,
};
use crate::partition::{Band, band_first, band_len, partition, lemma_band_bounds, in_band};

verus! {

/// Pixel `slot` of `frame` shows a count that `eval` returned for the pixel
/// with row-major index `global` in a frame `width` pixels wide.
pub open spec fn pixel_shows<F: Fn(usize, usize) -> i64>(
    frame: Seq<u8>,
    slot: int,
    width: nat,
    global: int,
    eval: F,
) -> bool {
    exists|d: i64|
        #[trigger] eval.ensures(((global % width as int) as usize, (global / width as int) as usize), d)
            && pixel_is(frame, slot, d as int)
}

/// `eval` may be called on every pixel position.
pub open spec fn total_eval<F: Fn(usize, usize) -> i64>(eval: F) -> bool {
    forall|x: usize, y: usize| #[trigger] eval.requires((x, y))
}

/// Bytes of `after` outside `[lo, hi)` are those of `before`.
pub open spec fn unchanged_outside(before: Seq<u8>, after: Seq<u8>, lo: int, hi: int) -> bool {
    &&& after.len() == before.len()
    &&& forall|k: int| 0 <= k < before.len() && !(lo <= k < hi) ==> after[k] == before[k]
}

/// A pixel whose four bytes are untouched keeps what it shows.
proof fn lemma_pixel_kept<F: Fn(usize, usize) -> i64>(
    before: Seq<u8>,
    after: Seq<u8>,
    slot: int,
    width: nat,
    global: int,
    eval: F,
)
    requires
        pixel_shows(before, slot, width, global, eval),
        0 <= 4 * slot,
        4 * slot + 4 <= before.len(),
        forall|k: int| 4 * slot <= k < 4 * slot + 4 ==> after[k] == before[k],
    ensures
        pixel_shows(after, slot, width, global, eval),
{
    let d = choose|d: i64|
        #[trigger] eval.ensures(((global % width as int) as usize, (global / width as int) as usize), d)
            && pixel_is(before, slot, d as int);
    assert(pixel_is(after, slot, d as int));
}

/// Evaluates `eval` at the plane position of global pixel `g` and writes the
/// resulting grey pixel into slot `slot` of `frame`; returns the count.
fn shade<F: Fn(usize, usize) -> i64>(
    frame: &mut [u8],
    slot: usize,
    width: usize,
    g: usize,
    eval: &F,
) -> (d: i64)
    requires
        width > 0,
        4 * slot + 4 <= old(frame)@.len(),
        total_eval(*eval),
    ensures
        unchanged_outside(old(frame)@, final(frame)@, 4 * slot as int, 4 * slot + 4),
        pixel_is(final(frame)@, slot as int, d as int),
        eval.ensures(((g % width) as usize, (g / width) as usize), d),
        pixel_shows(final(frame)@, slot as int, width as nat, g as int, *eval),
{
    let x = g % width;
    let y = g / width;
    assert(eval.requires((x, y)));
    let d = eval(x, y);
    put_pixel(frame, slot, d);
    d
}

/// Fills pixel slots `from .. from + count` of `frame`, slot `s` showing the
/// count for global pixel `origin + s`; every other byte is left alone.
pub fn draw_range<F: Fn(usize, usize) -> i64>(
    frame: &mut [u8],
    width: usize,
    from: usize,
    count: usize,
    origin: usize,
    eval: &F,
)
    requires
        width > 0,
        4 * (from + count) <= old(frame)@.len(),
        origin + from + count <= usize::MAX,
        total_eval(*eval),
    ensures
        unchanged_outside(old(frame)@, final(frame)@, 4 * from as int, 4 * (from + count)),
        forall|s: int|
            from <= s < from + count ==> #[trigger] pixel_shows(
                final(frame)@,
                s,
                width as nat,
                origin + s,
                *eval,
            ),
{
    let mut s: usize = from;
    while s < from + count
        invariant
            width > 0,
            from <= s <= from + count,
            4 * (from + count) <= frame@.len(),
            origin + from + count <= usize::MAX,
            total_eval(*eval),
            unchanged_outside(old(frame)@, frame@, 4 * from as int, 4 * s as int),
            forall|t: int|
                from <= t < s ==> #[trigger] pixel_shows(frame@, t, width as nat, origin + t, *eval),
        decreases from + count - s,
    {
        let ghost before = frame@;
        shade(frame, s, width, origin + s, eval);
        assert forall|t: int| from <= t < s + 1 implies #[trigger] pixel_shows(
            frame@,
            t,
            width as nat,
            origin + t,
            *eval,
        ) by {
            if t < s {
                assert(pixel_shows(before, t, width as nat, origin + t, *eval));
                lemma_pixel_kept(before, frame@, t, width as nat, origin + t, *eval);
            }
        }
        s += 1;
    }
}

/// Slot of the sample that pixel slot `s` copies in a low-resolution run
/// starting at slot `from`: the nearest preceding slot whose offset from
/// `from` is a multiple of `stride`.
pub open spec fn sample_slot(from: int, stride: int, s: int) -> int {
    s - (s - from) % stride
}

proof fn lemma_mod_step(l: int, m: int)
    requires
        m > 0,
        l > 0,
        l % m != 0,
    ensures
        (l - 1) % m == l % m - 1,
{
    lemma_fundamental_div_mod(l, m);
    assert(m * (l / m) == (l / m) * m) by (nonlinear_arith);
    lemma_fundamental_div_mod_converse(l - 1, m, l / m, l % m - 1);
}

/// Fills pixel slots `from .. from + count` of `frame` at reduced resolution:
/// the slots whose offset from `from` is a multiple of `stride` show the count
/// for global pixel `origin + s`, and every other slot repeats the nearest
/// sampled slot before it. Every other byte is left alone.
pub fn draw_low_res_range<F: Fn(usize, usize) -> i64>(
    frame: &mut [u8],
    width: usize,
    from: usize,
    count: usize,
    origin: usize,
    stride: usize,
    eval: &F,
)
    requires
        width > 0,
        stride > 0,
        4 * (from + count) <= old(frame)@.len(),
        origin + from + count <= usize::MAX,
        total_eval(*eval),
    ensures
        unchanged_outside(old(frame)@, final(frame)@, 4 * from as int, 4 * (from + count)),
        forall|s: int|
            from <= s < from + count && (s - from) % (stride as int) == 0
                ==> #[trigger] pixel_shows(final(frame)@, s, width as nat, origin + s, *eval),
        forall|s: int|
            from <= s < from + count ==> #[trigger] same_pixel(
                final(frame)@,
                s,
                sample_slot(from as int, stride as int, s),
            ),
{
    let mut stored: i64 = 0;
    let mut s: usize = from;
    while s < from + count
        invariant
            width > 0,
            stride > 0,
            from <= s <= from + count,
            4 * (from + count) <= frame@.len(),
            origin + from + count <= usize::MAX,
            total_eval(*eval),
            unchanged_outside(old(frame)@, frame@, 4 * from as int, 4 * s as int),
            forall|t: int|
                from <= t < s && (t - from) % (stride as int) == 0 ==> #[trigger] pixel_shows(
                    frame@,
                    t,
                    width as nat,
                    origin + t,
                    *eval,
                ),
            forall|t: int|
                from <= t < s ==> #[trigger] same_pixel(
                    frame@,
                    t,
                    sample_slot(from as int, stride as int, t),
                ),
            s > from ==> pixel_is(
                frame@,
                sample_slot(from as int, stride as int, s - 1),
                stored as int,
            ),
        decreases from + count - s,
    {
        let ghost before = frame@;
        let ghost l = s - from;
        proof {
            lemma_fundamental_div_mod(l, stride as int);
            assert(0 <= l % (stride as int) < stride);
        }
        if (s - from) % stride == 0 {
            stored = shade(frame, s, width, origin + s, eval);
        } else {
            proof {
                lemma_mod_step(l, stride as int);
            }
            put_pixel(frame, s, stored);
        }
        assert(sample_slot(from as int, stride as int, s as int) <= s);
        assert(from <= sample_slot(from as int, stride as int, s as int));
        assert forall|t: int|
            from <= t < s + 1 && (t - from) % (stride as int) == 0 implies #[trigger] pixel_shows(
            frame@,
            t,
            width as nat,
            origin + t,
            *eval,
        ) by {
            if t < s {
                assert(pixel_shows(before, t, width as nat, origin + t, *eval));
                lemma_pixel_kept(before, frame@, t, width as nat, origin + t, *eval);
            }
        }
        assert forall|t: int| from <= t < s + 1 implies #[trigger] same_pixel(
            frame@,
            t,
            sample_slot(from as int, stride as int, t),
        ) by {
            if t < s {
                assert(same_pixel(before, t, sample_slot(from as int, stride as int, t)));
                lemma_fundamental_div_mod(t - from, stride as int);
                assert(0 <= (t - from) % (stride as int) < stride);
            }
        }
        s += 1;
    }
}

/// Every whole pixel of `frame` shows the count that `eval` gives at its own
/// position in a frame `width` pixels wide.
pub open spec fn frame_shows<F: Fn(usize, usize) -> i64>(frame: Seq<u8>, width: nat, eval: F) -> bool {
    forall|s: int| 0 <= s < frame.len() / 4 ==> #[trigger] pixel_shows(frame, s, width, s, eval)
}

/// `eval` gives one count for each position.
pub open spec fn deterministic<F: Fn(usize, usize) -> i64>(eval: F) -> bool {
    forall|x: usize, y: usize, d1: i64, d2: i64|
        #[trigger] eval.ensures((x, y), d1) && #[trigger] eval.ensures((x, y), d2) ==> d1 == d2
}

/// Renders the whole `frame` at full resolution, pixel `s` in row-major order
/// showing the count for pixel `(s % width, s / width)`. Bytes after the last
/// whole pixel are left alone.
pub fn draw<F: Fn(usize, usize) -> i64>(frame: &mut [u8], width: usize, eval: &F)
    requires
        width > 0,
        total_eval(*eval),
    ensures
        unchanged_outside(old(frame)@, final(frame)@, 0, 4 * (old(frame)@.len() / 4) as int),
        frame_shows(final(frame)@, width as nat, *eval),
{
    let n = frame.len() / 4;
    draw_range(frame, width, 0, n, 0, eval);
    assert forall|s: int| 0 <= s < n implies #[trigger] pixel_shows(
        frame@,
        s,
        width as nat,
        s,
        *eval,
    ) by {
        assert(pixel_shows(frame@, s, width as nat, 0 + s, *eval));
    }
}

/// Renders a band held in its own slice: slot `s` of `frame` is the frame's
/// pixel `first_pixel + s`. Bytes after the last whole pixel are left alone.
pub fn draw_slice<F: Fn(usize, usize) -> i64>(
    frame: &mut [u8],
    width: usize,
    first_pixel: usize,
    eval: &F,
)
    requires
        width > 0,
        first_pixel + old(frame)@.len() / 4 <= usize::MAX,
        total_eval(*eval),
    ensures
        unchanged_outside(old(frame)@, final(frame)@, 0, 4 * (old(frame)@.len() / 4) as int),
        forall|s: int|
            0 <= s < old(frame)@.len() / 4 ==> #[trigger] pixel_shows(
                final(frame)@,
                s,
                width as nat,
                first_pixel + s,
                *eval,
            ),
{
    let n = frame.len() / 4;
    draw_range(frame, width, 0, n, first_pixel, eval);
}

/// Renders a band held in its own slice at reduced resolution: slot `s`
/// (the frame's pixel `first_pixel + s`) is evaluated when `s` is a multiple
/// of `stride`, and otherwise repeats the slot `s - s % stride`.
pub fn draw_low_res<F: Fn(usize, usize) -> i64>(
    frame: &mut [u8],
    width: usize,
    first_pixel: usize,
    stride: usize,
    eval: &F,
)
    requires
        width > 0,
        stride > 0,
        first_pixel + old(frame)@.len() / 4 <= usize::MAX,
        total_eval(*eval),
    ensures
        unchanged_outside(old(frame)@, final(frame)@, 0, 4 * (old(frame)@.len() / 4) as int),
        forall|s: int|
            0 <= s < old(frame)@.len() / 4 && s % (stride as int) == 0 ==> #[trigger] pixel_shows(
                final(frame)@,
                s,
                width as nat,
                first_pixel + s,
                *eval,
            ),
        forall|s: int|
            0 <= s < old(frame)@.len() / 4 ==> #[trigger] same_pixel(
                final(frame)@,
                s,
                s - s % (stride as int),
            ),
{
    let n = frame.len() / 4;
    draw_low_res_range(frame, width, 0, n, first_pixel, stride, eval);
    assert forall|s: int| 0 <= s < n implies #[trigger] same_pixel(
        frame@,
        s,
        s - s % (stride as int),
    ) by {
        assert(sample_slot(0, stride as int, s) == s - s % (stride as int));
    }
}

/// Band `j` ends no later than band `k` starts when `j < k`.
proof fn lemma_bands_before(total: nat, bands: nat, j: nat, k: nat)
    requires
        bands >= 1,
        j < k < bands,
    ensures
        band_first(total, bands, j) + band_len(total, bands, j) <= band_first(total, bands, k),
    decreases k - j,
{
    lemma_band_bounds(total, bands, j);
    if j + 1 < k {
        lemma_bands_before(total, bands, j + 1, k);
        lemma_band_bounds(total, bands, j + 1);
    }
}

/// End of the first `k` bands of a partition.
spec fn bands_end(total: nat, bands: nat, k: nat) -> nat {
    if k < bands {
        band_first(total, bands, k)
    } else {
        total
    }
}

/// Renders the whole `frame` band by band, as `band_count` workers would
/// share it (see `partition`). The result does not depend on `band_count`.
pub fn draw_in_bands<F: Fn(usize, usize) -> i64>(
    frame: &mut [u8],
    width: usize,
    band_count: usize,
    eval: &F,
)
    requires
        width > 0,
        band_count >= 1,
        total_eval(*eval),
    ensures
        unchanged_outside(old(frame)@, final(frame)@, 0, 4 * (old(frame)@.len() / 4) as int),
        frame_shows(final(frame)@, width as nat, *eval),
{
    let total = frame.len() / 4;
    let bands = partition(total, band_count);
    let mut k: usize = 0;
    assert(band_first(total as nat, band_count as nat, 0) == 0);
    while k < band_count
        invariant
            width > 0,
            band_count >= 1,
            total_eval(*eval),
            total == old(frame)@.len() / 4,
            k <= band_count,
            bands.len() == band_count,
            forall|j: int|
                0 <= j < band_count ==> {
                    &&& #[trigger] bands[j].first_pixel == band_first(
                        total as nat,
                        band_count as nat,
                        j as nat,
                    )
                    &&& bands[j].pixel_count == band_len(total as nat, band_count as nat, j as nat)
                },
            unchanged_outside(
                old(frame)@,
                frame@,
                0,
                4 * bands_end(total as nat, band_count as nat, k as nat) as int,
            ),
            forall|t: int|
                0 <= t < bands_end(total as nat, band_count as nat, k as nat)
                    ==> #[trigger] pixel_shows(frame@, t, width as nat, t, *eval),
        decreases band_count - k,
    {
        proof {
            lemma_band_bounds(total as nat, band_count as nat, k as nat);
        }
        let b: Band = bands[k];
        let ghost before = frame@;
        draw_range(frame, width, b.first_pixel, b.pixel_count, 0, eval);
        assert forall|t: int|
            0 <= t < b.first_pixel + b.pixel_count implies #[trigger] pixel_shows(
            frame@,
            t,
            width as nat,
            t,
            *eval,
        ) by {
            if t < b.first_pixel {
                assert(pixel_shows(before, t, width as nat, t, *eval));
                lemma_pixel_kept(before, frame@, t, width as nat, t, *eval);
            } else {
                assert(pixel_shows(frame@, t, width as nat, 0 + t, *eval));
            }
        }
        k += 1;
    }
}

/// Renders the whole `frame` at reduced resolution band by band, as
/// `band_count` workers would share it: within each band, the pixels whose
/// offset from the band's first pixel is a multiple of `stride` are
/// evaluated, and every other pixel repeats the nearest sampled pixel before
/// it in the same band.
pub fn draw_low_res_in_bands<F: Fn(usize, usize) -> i64>(
    frame: &mut [u8],
    width: usize,
    band_count: usize,
    stride: usize,
    eval: &F,
)
    requires
        width > 0,
        band_count >= 1,
        stride > 0,
        total_eval(*eval),
    ensures
        unchanged_outside(old(frame)@, final(frame)@, 0, 4 * (old(frame)@.len() / 4) as int),
        forall|k: nat, s: nat|
            k < band_count && #[trigger] in_band((old(frame)@.len() / 4) as nat, band_count as nat, k, s) && (s
                - band_first((old(frame)@.len() / 4) as nat, band_count as nat, k)) % (
            stride as int) == 0 ==> pixel_shows(
                final(frame)@,
                s as int,
                width as nat,
                s as int,
                *eval,
            ),
        forall|k: nat, s: nat|
            k < band_count && in_band((old(frame)@.len() / 4) as nat, band_count as nat, k, s)
                ==> #[trigger] same_pixel(
                final(frame)@,
                s as int,
                sample_slot(
                    band_first((old(frame)@.len() / 4) as nat, band_count as nat, k) as int,
                    stride as int,
                    s as int,
                ),
            ),
{
    let total = frame.len() / 4;
    let bands = partition(total, band_count);
    let mut k: usize = 0;
    assert(band_first(total as nat, band_count as nat, 0) == 0);
    while k < band_count
        invariant
            width > 0,
            band_count >= 1,
            stride > 0,
            total_eval(*eval),
            total == old(frame)@.len() / 4,
            k <= band_count,
            bands.len() == band_count,
            forall|j: int|
                0 <= j < band_count ==> {
                    &&& #[trigger] bands[j].first_pixel == band_first(
                        total as nat,
                        band_count as nat,
                        j as nat,
                    )
                    &&& bands[j].pixel_count == band_len(total as nat, band_count as nat, j as nat)
                },
            unchanged_outside(
                old(frame)@,
                frame@,
                0,
                4 * bands_end(total as nat, band_count as nat, k as nat) as int,
            ),
            forall|j: nat, s: nat|
                j < k && #[trigger] in_band(total as nat, band_count as nat, j, s) && (s - band_first(
                    total as nat,
                    band_count as nat,
                    j,
                )) % (stride as int) == 0 ==> pixel_shows(
                    frame@,
                    s as int,
                    width as nat,
                    s as int,
                    *eval,
                ),
            forall|j: nat, s: nat|
                j < k && in_band(total as nat, band_count as nat, j, s) ==> #[trigger] same_pixel(
                    frame@,
                    s as int,
                    sample_slot(
                        band_first(total as nat, band_count as nat, j) as int,
                        stride as int,
                        s as int,
                    ),
                ),
        decreases band_count - k,
    {
        proof {
            lemma_band_bounds(total as nat, band_count as nat, k as nat);
        }
        let b: Band = bands[k];
        let ghost before = frame@;
        draw_low_res_range(frame, width, b.first_pixel, b.pixel_count, 0, stride, eval);
        assert forall|j: nat, s: nat|
            j < k + 1 && #[trigger] in_band(total as nat, band_count as nat, j, s) && (s - band_first(
                total as nat,
                band_count as nat,
                j,
            )) % (stride as int) == 0 implies pixel_shows(
            frame@,
            s as int,
            width as nat,
            s as int,
            *eval,
        ) by {
            lemma_band_bounds(total as nat, band_count as nat, j);
            if j < k {
                lemma_bands_before(total as nat, band_count as nat, j, k as nat);
                assert(pixel_shows(before, s as int, width as nat, s as int, *eval));
                lemma_pixel_kept(before, frame@, s as int, width as nat, s as int, *eval);
            } else {
                assert(j == k);
                assert(b.first_pixel <= s < b.first_pixel + b.pixel_count);
                assert(pixel_shows(frame@, s as int, width as nat, 0 + s as int, *eval));
            }
        }
        assert forall|j: nat, s: nat|
            j < k + 1 && in_band(total as nat, band_count as nat, j, s) implies #[trigger] same_pixel(
            frame@,
            s as int,
            sample_slot(
                band_first(total as nat, band_count as nat, j) as int,
                stride as int,
                s as int,
            ),
        ) by {
            lemma_band_bounds(total as nat, band_count as nat, j);
            if j < k {
                lemma_bands_before(total as nat, band_count as nat, j, k as nat);
                let f = band_first(total as nat, band_count as nat, j) as int;
                assert(same_pixel(before, s as int, sample_slot(f, stride as int, s as int)));
                assert(0 <= (s - f) % (stride as int) < stride);
                lemma_mod_decreases((s - f) as nat, stride as nat);
                let t = sample_slot(f, stride as int, s as int);
                assert(0 <= t <= s);
                assert(4 * s + 4 <= 4 * b.first_pixel);
                let u = s as int;
                assert(frame@[4 * u] == before[4 * u] && frame@[4 * u + 1] == before[4 * u + 1]
                    && frame@[4 * u + 2] == before[4 * u + 2] && frame@[4 * u + 3] == before[4 * u
                    + 3]);
                assert(frame@[4 * t] == before[4 * t] && frame@[4 * t + 1] == before[4 * t + 1]
                    && frame@[4 * t + 2] == before[4 * t + 2] && frame@[4 * t + 3] == before[4 * t
                    + 3]);
            } else {
                assert(j == k);
                assert(b.first_pixel <= s < b.first_pixel + b.pixel_count);
                assert(same_pixel(
                    frame@,
                    s as int,
                    sample_slot(b.first_pixel as int, stride as int, s as int),
                ));
            }
        }
        k += 1;
    }
}

/// Rendering is a function of the frame size, the width and a deterministic
/// evaluator alone: two frames that both show `eval` everywhere are equal, so
/// a frame drawn by one worker and by any number of bands is byte for byte
/// the same.
pub proof fn lemma_render_unique<F: Fn(usize, usize) -> i64>(
    a: Seq<u8>,
    b: Seq<u8>,
    width: nat,
    eval: F,
)
    requires
        width > 0,
        deterministic(eval),
        a.len() == b.len(),
        a.len() % 4 == 0,
        frame_shows(a, width, eval),
        frame_shows(b, width, eval),
    ensures
        a == b,
{
    assert forall|k: int| 0 <= k < a.len() implies a[k] == b[k] by {
        let s = k / 4;
        assert(0 <= s < a.len() / 4);
        assert(pixel_shows(a, s, width, s, eval));
        assert(pixel_shows(b, s, width, s, eval));
        let da = choose|d: i64|
            #[trigger] eval.ensures(((s % width as int) as usize, (s / width as int) as usize), d)
                && pixel_is(a, s, d as int);
        let db = choose|d: i64|
            #[trigger] eval.ensures(((s % width as int) as usize, (s / width as int) as usize), d)
                && pixel_is(b, s, d as int);
        assert(da == db);
        assert(4 * s <= k < 4 * s + 4);
    }
    assert(a =~= b);
}

} // verus!
