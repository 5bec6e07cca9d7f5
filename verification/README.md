# mdnr_map_downloader

Downloads composite images of lake depth data from the Minnesota Department of
Natural Resources tile service, thresholds a map to its depth-contour
boundaries, and separates a boundary image into its connected regions.

Layout:

- `src/location.rs` — tiles of the map pyramid (`Location`), moving a tile
  between layers, tile URLs, and the row-by-row walk over a rectangle of
  tiles (`MapRectView`); the error of a failed tile request.
- `src/fetch.rs` — the retry policy for tile requests.
- `src/raster.rs` — the RGB and grey-level images and the tile merger of the
  `image` and `image_merger` crates, seen through trusted wrappers.
- `src/region.rs` — dark pixels, eight-neighbour adjacency and dark regions.
- `src/img_ops.rs` — thresholding and region separation (a stack-based flood
  fill), with the laws that separation partitions the black pixels.
- `src/mosaic.rs` — joining the tiles of a walk into one image.
- `src/text.rs` — decimal rendering.
- `app/main.rs` — the command line, network and file I/O, and the
  floating-point GPS-to-tile fit.
