use raytracer::render::tile_span;
use raytracer::render::tiles_per_axis;

#[test]
fn tile_counts_match_the_traversal() {
    assert_eq!(tiles_per_axis(1024, 100), 11);
    assert_eq!(tiles_per_axis(780, 100), 8);
    assert_eq!(tiles_per_axis(100, 100), 2);
    assert_eq!(tiles_per_axis(99, 100), 1);
    assert_eq!(tiles_per_axis(0, 100), 1);
}

#[test]
fn interior_tile_spans_are_full_size() {
    assert_eq!(tile_span(0, 100, 1024), (0, 100));
    assert_eq!(tile_span(5, 100, 1024), (500, 600));
}

#[test]
fn boundary_tiles_are_clipped_to_the_image() {
    assert_eq!(tile_span(10, 100, 1024), (1000, 1024));
    assert_eq!(tile_span(7, 100, 780), (700, 780));
    // when the extent is a multiple of the tile size the last tile is empty
    assert_eq!(tile_span(2, 100, 200), (200, 200));
}

#[test]
fn tile_spans_cover_each_pixel_once() {
    let extent = 257;
    let tile_size = 100;
    let mut owners = vec![0usize; extent];
    for ti in 0..tiles_per_axis(extent, tile_size) {
        let (start, end) = tile_span(ti, tile_size, extent);
        for p in start..end {
            owners[p] += 1;
        }
    }
    for p in 0..extent {
        assert_eq!(owners[p], 1);
    }
}
