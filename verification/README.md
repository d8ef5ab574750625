# mapbox_wallpaper_generator

A command-line tool that geocodes a place with OpenStreetMap Nominatim, downloads
a grid of 1280x1280@2x satellite tiles around it from the Mapbox Static Images
API, stitches them into one large image and saves it as JPEG or PNG.

## Layout

- `src/` is the library, verified with Verus:
  - `cli.rs`: the numeric argument parsers (`--cols`, `--rows`, `--concurrency`)
    and the default output file name derived from the place name;
  - `tile_math.rs`: the row-major tile grid and each tile's offset from the center;
  - `downloader.rs`: the downloaded tile type, the tile request URL and the retry
    decisions of a download;
  - `geocoder.rs`: the Nominatim search URL and the choice of the search result;
  - `stitcher.rs`: decoding tiles, stitching the decoded tiles into one canvas,
    choosing the output format from the file extension and encoding the result;
  - `tile_order.rs`: the laws that the order of the tiles does not change what
    stitching them gives;
  - `raster.rs`: the `image` crate calls the library relies on, with their
    trusted contracts;
  - `text.rs`: ASCII character helpers.
- `app/` is the program around it: argument handling with `clap`, the
  floating-point map projection, HTTP with `reqwest`, the download thread pool
  and file output.
- `tests/` exercises the library on concrete values.

## Image formats

The `image` crate is built with its `jpeg` and `png` decoders and encoders only.
A tile is decoded as JPEG first; bytes that are not JPEG go through the crate's
format detection, which with this build decodes PNG and refuses anything else
(WebP or AVIF tiles fail as undecodable), unless the program registers further
decoders with `image::hooks`. Output is written as JPEG or PNG.
