# retina

Image processing after the retina: a pixel is an edge where its brightness, against a
threshold, differs from that of its right or lower neighbour, the way bipolar and horizontal
cells respond to bright and dim light.

The library (`src/`) is verified with Verus:

- `detect`: edge detection from per-pixel luminance levels, as pixel offsets, as a bitmap, or
  painted into an RGB buffer.
- `bitmap`, `point`: the edge bitmap (`[x][y]`) and 16-bit points.
- `track`: edge tracking, the 8-connected regions of the bitmap grown breadth first;
  `regions` proves that this region list is the only one a bitmap has.
- `vectorize`: thinning each contour into a polyline of points a minimum distance apart.
- `facet`, `painting`: colour reduction, grouping similar colours of a rectangle and painting
  each group in its mean colour, with the laws of where it paints.
- `trash`: older entry points kept for their callers.

`app/` is the program around it: it loads a photo, computes luminance in floating point,
runs the library, finds straight sides with a Hough transform and shows the result.
