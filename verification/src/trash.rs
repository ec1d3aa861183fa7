use vstd::prelude::*;

use crate::bitmap::EdgePoints;
use crate::facet::{group_means, paint_groups, rect_fits, rect_groups, rect_pixels_whole, totals_fit, whole_image};
use crate::point::Point;
use crate::track::{contours_view, is_region_list, is_trackable, scanned_cells};

verus! {

/// Merges similar colours over the whole image (see `crate::facet::facet`).
pub fn facet(width: u32, height: u32, block_size: u32, src: &Vec<u8>, out: &mut Vec<u8>)
    requires
        rect_fits(width as int, whole_image(width, height)),
        rect_pixels_whole(src@.len() as int, old(out)@.len() as int, width as int, whole_image(width, height)),
        totals_fit(rect_groups(src@, width as int, whole_image(width, height), 900)),
    ensures
        final(out)@ == paint_groups(
            old(out)@,
            rect_groups(src@, width as int, whole_image(width, height), 900),
            group_means(rect_groups(src@, width as int, whole_image(width, height), 900)),
        ),
{
    crate::facet::facet(width, height, block_size, src, out)
}

/// Region growing over a bitmap of edge flags: the 8-connected regions of set cells, each
/// grown breadth first from its first cell in scan order (see `crate::track::track_edge`).
pub fn track_edge_grow(edges: Vec<Vec<bool>>) -> (contours: Vec<Vec<Point>>)
    requires
        is_trackable(edges.cells()),
    ensures
        is_region_list(scanned_cells(edges.cells()), contours_view(contours@)),
{
    crate::track::track_edge(edges)
}

} // verus!
