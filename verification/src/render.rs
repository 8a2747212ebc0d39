//! Integer arithmetic of the tiled image-plane traversal.
//!
//! The renderer walks the output raster in square tiles: every tile owns a
//! rectangle of pixels, boundary tiles are clipped to the image extent, and
//! no pixel belongs to two tiles.  Because each tile writes a disjoint pixel
//! set of the row-major buffer (see `lemma_row_major_index_injective`), tiles
//! are independent units of work.  The floating-point sampling done per pixel
//! is the driver's business; the functions here pin down which pixels a tile
//! visits.

use vstd::prelude::*;

use vstd::arithmetic::div_mod::lemma_div_is_ordered;
use vstd::arithmetic::div_mod::lemma_div_nonincreasing;
use vstd::arithmetic::div_mod::lemma_div_pos_is_pos;
use vstd::arithmetic::div_mod::lemma_fundamental_div_mod;
use vstd::arithmetic::div_mod::lemma_fundamental_div_mod_converse_div;
use vstd::arithmetic::div_mod::lemma_mod_bound;
use vstd::arithmetic::mul::lemma_mul_inequality;
use vstd::arithmetic::mul::lemma_mul_is_commutative;

verus! {

/// Tile number `tile_index` of an axis owns pixel coordinate `p` when `p`
/// falls inside the tile's unclipped span of `tile_size` coordinates.
pub open spec fn tile_owns(tile_index: int, tile_size: int, p: int) -> bool {
    tile_index * tile_size <= p < tile_index * tile_size + tile_size
}

/// How many tile columns (or rows) the traversal visits along an axis of
/// `extent` pixels: the indices `0 ..= extent / tile_size`, enough to cover
/// every pixel of the axis.
pub fn tiles_per_axis(extent: usize, tile_size: usize) -> (n: usize)
    requires
        tile_size > 0,
        extent < usize::MAX,
    ensures
        n == extent / tile_size + 1,
        forall|p: int| 0 <= p < extent ==> #[trigger] (p / (tile_size as int)) < n,
{
    proof {
        lemma_div_nonincreasing(extent as int, tile_size as int);
        assert forall|p: int| 0 <= p < extent implies #[trigger] (p / (tile_size as int)) < (extent
            as int) / (tile_size as int) + 1 by {
            lemma_div_is_ordered(p, extent as int, tile_size as int);
        }
    }
    extent / tile_size + 1
}

/// The pixel coordinates tile number `tile_index` owns along an axis of
/// `extent` pixels: the half-open range from `tile_index * tile_size` to the
/// lesser of the next tile's start and the image edge.  A coordinate of the
/// axis lies in this range exactly when this is the tile at index
/// `p / tile_size`, so the spans of the visited tiles partition the axis.
pub fn tile_span(tile_index: usize, tile_size: usize, extent: usize) -> (span: (usize, usize))
    requires
        tile_size > 0,
        tile_index <= extent / tile_size,
    ensures
        span.0 == tile_index * tile_size,
        span.0 <= span.1 <= extent,
        span.1 - span.0 <= tile_size,
        forall|p: int|
            0 <= p < extent ==> ((span.0 <= p < span.1) <==> #[trigger] (p / (tile_size as int))
                == tile_index),
{
    proof {
        lemma_fundamental_div_mod(extent as int, tile_size as int);
        lemma_mod_bound(extent as int, tile_size as int);
        lemma_mul_inequality(
            tile_index as int,
            (extent as int) / (tile_size as int),
            tile_size as int,
        );
    }
    let start = tile_index * tile_size;
    let end = if extent - start < tile_size {
        extent
    } else {
        start + tile_size
    };
    proof {
        let ts = tile_size as int;
        let ti = tile_index as int;
        assert forall|p: int|
            0 <= p < extent implies ((start <= p < end) <==> #[trigger] (p / ts) == ti) by {
            if start <= p < end {
                lemma_fundamental_div_mod_converse_div(p, ts, ti, p - ti * ts);
            }
            if p / ts == ti {
                lemma_fundamental_div_mod(p, ts);
                lemma_mod_bound(p, ts);
                lemma_mul_is_commutative(ts, ti);
            }
        }
    }
    (start, end)
}

/// Every pixel coordinate of an axis belongs to exactly one tile of the
/// traversal: the one at index `p / tile_size`, and the grid of
/// `extent / tile_size + 1` tiles visits that index.
pub proof fn lemma_tile_partition(p: int, tile_size: int, extent: int)
    requires
        0 < tile_size,
        0 <= p < extent,
    ensures
        0 <= p / tile_size <= extent / tile_size,
        tile_owns(p / tile_size, tile_size, p),
        forall|ti: int| #[trigger] tile_owns(ti, tile_size, p) ==> ti == p / tile_size,
{
    lemma_div_pos_is_pos(p, tile_size);
    lemma_div_is_ordered(p, extent, tile_size);
    lemma_fundamental_div_mod(p, tile_size);
    lemma_mod_bound(p, tile_size);
    lemma_mul_is_commutative(tile_size, p / tile_size);
    assert forall|ti: int| #[trigger] tile_owns(ti, tile_size, p) implies ti == p / tile_size by {
        lemma_fundamental_div_mod_converse_div(p, tile_size, ti, p - ti * tile_size);
    }
}

} // verus!
