use vstd::prelude::*;

verus! {

/// A contiguous run of pixels of the frame, handed to one worker.
#[derive(Clone, Copy, Debug, PartialEq, Eq)]
pub struct Band {
    /// Row-major index of the band's first pixel in the frame.
    pub first_pixel: usize,
    /// Number of pixels in the band.
    pub pixel_count: usize,
}

/// Pixels given to every band but the last one.
pub open spec fn band_size(total: nat, bands: nat) -> nat
    recommends
        bands >= 1,
{
    total / bands
}

/// First pixel of band `k` out of `bands`.
pub open spec fn band_first(total: nat, bands: nat, k: nat) -> nat {
    k * band_size(total, bands)
}

/// Pixel count of band `k`: the common size, except for the last band,
/// which also takes the remainder.
pub open spec fn band_len(total: nat, bands: nat, k: nat) -> nat {
    if k + 1 == bands {
        (total - k * band_size(total, bands)) as nat
    } else {
        band_size(total, bands)
    }
}

/// Pixel `p` lies in band `k`.
pub open spec fn in_band(total: nat, bands: nat, k: nat, p: nat) -> bool {
    band_first(total, bands, k) <= p < band_first(total, bands, k) + band_len(total, bands, k)
}

/// Where band `k` sits: inside the frame, and followed directly by band
/// `k + 1`, or by the end of the frame when it is the last.
pub proof fn lemma_band_bounds(total: nat, bands: nat, k: nat)
    requires
        bands >= 1,
        k < bands,
    ensures
        k * band_size(total, bands) <= (bands - 1) * band_size(total, bands),
        (bands - 1) * band_size(total, bands) <= total,
        k + 1 < bands ==> (k + 1) * band_size(total, bands) <= total,
        band_first(total, bands, k) + band_len(total, bands, k) <= total,
        k + 1 < bands ==> band_first(total, bands, k) + band_len(total, bands, k) == band_first(
            total,
            bands,
            k + 1,
        ),
        k + 1 == bands ==> band_first(total, bands, k) + band_len(total, bands, k) == total,
{
    let q = band_size(total, bands);
    assert(k * q <= (bands - 1) * q) by (nonlinear_arith)
        requires
            k < bands,
    ;
    assert(bands * q <= total) by (nonlinear_arith)
        requires
            q == total / bands,
            bands >= 1,
    ;
    assert((bands - 1) * q <= bands * q) by (nonlinear_arith)
        requires
            bands >= 1,
    ;
    if k + 1 < bands {
        assert((k + 1) * q <= (bands - 1) * q) by (nonlinear_arith)
            requires
                k + 1 < bands,
        ;
        assert((k + 1) * q == k * q + q) by (nonlinear_arith);
    }
}

/// Splits `total_pixels` pixels into `band_count` contiguous bands, in order:
/// each band but the last holds `total_pixels / band_count` pixels and the
/// last one holds what remains.
pub fn partition(total_pixels: usize, band_count: usize) -> (r: Vec<Band>)
    requires
        band_count >= 1,
    ensures
        r.len() == band_count,
        forall|k: int|
            0 <= k < band_count ==> {
                &&& #[trigger] r[k].first_pixel == band_first(
                    total_pixels as nat,
                    band_count as nat,
                    k as nat,
                )
                &&& r[k].pixel_count == band_len(total_pixels as nat, band_count as nat, k as nat)
            },
{
    let size = total_pixels / band_count;
    let mut r: Vec<Band> = Vec::new();
    let mut k: usize = 0;
    while k < band_count
        invariant
            k <= band_count,
            size == band_size(total_pixels as nat, band_count as nat),
            r.len() == k,
            forall|j: int|
                0 <= j < k ==> {
                    &&& #[trigger] r[j].first_pixel == band_first(
                        total_pixels as nat,
                        band_count as nat,
                        j as nat,
                    )
                    &&& r[j].pixel_count == band_len(
                        total_pixels as nat,
                        band_count as nat,
                        j as nat,
                    )
                },
        decreases band_count - k,
    {
        proof {
            lemma_band_bounds(total_pixels as nat, band_count as nat, k as nat);
        }
        let first = k * size;
        let count = if k + 1 == band_count {
            total_pixels - first
        } else {
            size
        };
        r.push(Band { first_pixel: first, pixel_count: count });
        k += 1;
    }
    r
}

/// The bands of a partition cover the frame exactly: every pixel lies in one
/// band and in no other, and no band reaches past the last pixel.
pub proof fn lemma_partition_covers(total: nat, bands: nat, p: nat)
    requires
        bands >= 1,
        p < total,
    ensures
        exists|k: nat| k < bands && #[trigger] in_band(total, bands, k, p),
        forall|k1: nat, k2: nat|
            k1 < bands && k2 < bands && #[trigger] in_band(total, bands, k1, p)
                && #[trigger] in_band(total, bands, k2, p) ==> k1 == k2,
        forall|k: nat| k < bands ==> band_first(total, bands, k) + band_len(total, bands, k) <= total,
{
    let q = band_size(total, bands);
    assert forall|k: nat| k < bands implies band_first(total, bands, k) + band_len(total, bands, k)
        <= total by {
        lemma_band_bounds(total, bands, k);
    }
    let k: nat = if q == 0 {
        (bands - 1) as nat
    } else if p / q < bands - 1 {
        p / q
    } else {
        (bands - 1) as nat
    };
    lemma_band_bounds(total, bands, k);
    if q != 0 && p / q < bands - 1 {
        assert(k * q <= p && p < k * q + q) by (nonlinear_arith)
            requires
                k == p / q,
                q > 0,
        ;
    } else if q != 0 {
        assert((bands - 1) * q <= p) by (nonlinear_arith)
            requires
                p / q >= bands - 1,
                q > 0,
        ;
    }
    assert(in_band(total, bands, k, p));
    assert forall|k1: nat, k2: nat|
        k1 < bands && k2 < bands && #[trigger] in_band(total, bands, k1, p)
            && #[trigger] in_band(total, bands, k2, p) implies k1 == k2 by {
        if k1 < k2 {
            lemma_band_bounds(total, bands, k1);
            assert((k1 + 1) * q <= k2 * q) by (nonlinear_arith)
                requires
                    k1 < k2,
            ;
            assert((k1 + 1) * q == k1 * q + q) by (nonlinear_arith);
        } else if k2 < k1 {
            lemma_band_bounds(total, bands, k2);
            assert((k2 + 1) * q <= k1 * q) by (nonlinear_arith)
                requires
                    k2 < k1,
            ;
            assert((k2 + 1) * q == k2 * q + q) by (nonlinear_arith);
        }
    }
}

} // verus!
