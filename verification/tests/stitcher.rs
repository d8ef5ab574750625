use image::codecs::jpeg::JpegEncoder;
use image::{DynamicImage, ImageBuffer, ImageFormat, Rgb, RgbImage};
use mapbox_wallpaper_generator::downloader::DownloadedTile;
use mapbox_wallpaper_generator::raster::{raster_dimensions, Raster, RasterFormat};
use mapbox_wallpaper_generator::stitcher::{
    decode_tile, encode_raster, output_format_for_extension, place_decoded_tile,
    stitch_decoded_tiles, stitch_tiles, stitch_tiles_with_size, DecodedTile, StitchError,
};

fn jpeg_bytes(width: u32, height: u32, color: [u8; 3]) -> Vec<u8> {
    let img: RgbImage = ImageBuffer::from_pixel(width, height, Rgb(color));
    let dyn_img = DynamicImage::ImageRgb8(img);
    let mut bytes = Vec::new();
    let mut encoder = JpegEncoder::new_with_quality(&mut bytes, 95);
    encoder.encode_image(&dyn_img).unwrap();
    bytes
}

/// The image a raster holds, read back from its lossless PNG encoding.
fn to_rgb(raster: &Raster) -> RgbImage {
    let bytes = encode_raster(raster, RasterFormat::Png, 0).unwrap();
    image::load_from_memory(&bytes).unwrap().into_rgb8()
}

/// A raster of one color, made by decoding a PNG.
fn solid_raster(width: u32, height: u32, color: [u8; 3]) -> Raster {
    decode_tile(&png_bytes(width, height, color)).unwrap()
}

fn png_bytes(width: u32, height: u32, color: [u8; 3]) -> Vec<u8> {
    let img: RgbImage = ImageBuffer::from_pixel(width, height, Rgb(color));
    let mut bytes = Vec::new();
    img.write_to(&mut std::io::Cursor::new(&mut bytes), ImageFormat::Png).unwrap();
    bytes
}

#[test]
fn stitches_small_grid_correctly() {
    let s = 4;
    let tiles = vec![
        DownloadedTile { row: 0, col: 0, bytes: jpeg_bytes(s, s, [255, 0, 0]) },
        DownloadedTile { row: 0, col: 1, bytes: jpeg_bytes(s, s, [0, 255, 0]) },
        DownloadedTile { row: 1, col: 0, bytes: jpeg_bytes(s, s, [0, 0, 255]) },
        DownloadedTile { row: 1, col: 1, bytes: jpeg_bytes(s, s, [255, 255, 0]) },
    ];

    let stitched = to_rgb(&stitch_tiles_with_size(tiles, 2, 2, s).unwrap());
    assert_eq!(stitched.width(), 8);
    assert_eq!(stitched.height(), 8);

    let tl = stitched.get_pixel(1, 1).0;
    let tr = stitched.get_pixel(6, 1).0;
    let bl = stitched.get_pixel(1, 6).0;
    let br = stitched.get_pixel(6, 6).0;

    assert!(tl[0] > tl[1] && tl[0] > tl[2]);
    assert!(tr[1] > tr[0] && tr[1] > tr[2]);
    assert!(bl[2] > bl[0] && bl[2] > bl[1]);
    assert!(br[0] > 200 && br[1] > 200);
}

#[test]
fn rejects_wrong_tile_count() {
    let tiles = vec![DownloadedTile { row: 0, col: 0, bytes: jpeg_bytes(2, 2, [1, 2, 3]) }];
    let stitched = stitch_tiles_with_size(tiles, 2, 2, 2);
    assert!(stitched.is_err());
}

#[test]
fn rejects_wrong_tile_dimensions() {
    let tiles = vec![DownloadedTile { row: 0, col: 0, bytes: jpeg_bytes(3, 3, [10, 10, 10]) }];
    let stitched = stitch_tiles_with_size(tiles, 1, 1, 2);
    assert!(stitched.is_err());
}

fn stitch_error(tiles: Vec<DownloadedTile>, cols: u32, rows: u32, size: u32) -> StitchError {
    match stitch_tiles_with_size(tiles, cols, rows, size) {
        Ok(_) => panic!("stitching was expected to fail"),
        Err(e) => e,
    }
}

#[test]
fn error_kinds_are_reported_exactly() {
    assert_eq!(stitch_error(Vec::new(), 0, 3, 2), StitchError::EmptyGrid);
    assert_eq!(stitch_error(Vec::new(), 3, 0, 2), StitchError::EmptyGrid);
    let one = vec![DownloadedTile { row: 0, col: 0, bytes: jpeg_bytes(2, 2, [1, 2, 3]) }];
    assert_eq!(stitch_error(one, 2, 2, 2), StitchError::TileCountMismatch { expected: 4, actual: 1 });
    let wrong = vec![DownloadedTile { row: 0, col: 0, bytes: jpeg_bytes(3, 3, [10, 10, 10]) }];
    assert_eq!(
        stitch_error(wrong, 1, 1, 2),
        StitchError::TileSizeMismatch { row: 0, col: 0, expected_size: 2, width: 3, height: 3 }
    );
}

#[test]
fn first_faulty_cell_in_row_major_order_is_reported() {
    let tiles = vec![
        DownloadedTile { row: 0, col: 0, bytes: jpeg_bytes(2, 2, [9, 9, 9]) },
        DownloadedTile { row: 0, col: 0, bytes: jpeg_bytes(2, 2, [9, 9, 9]) },
        DownloadedTile { row: 1, col: 0, bytes: vec![1, 2, 3] },
        DownloadedTile { row: 1, col: 1, bytes: jpeg_bytes(2, 2, [9, 9, 9]) },
    ];
    assert_eq!(stitch_error(tiles, 2, 2, 2), StitchError::MissingTile { row: 0, col: 1 });

    let tiles = vec![
        DownloadedTile { row: 0, col: 0, bytes: jpeg_bytes(2, 2, [9, 9, 9]) },
        DownloadedTile { row: 0, col: 1, bytes: vec![0, 1, 2, 3] },
        DownloadedTile { row: 1, col: 0, bytes: jpeg_bytes(5, 5, [9, 9, 9]) },
        DownloadedTile { row: 1, col: 1, bytes: jpeg_bytes(2, 2, [9, 9, 9]) },
    ];
    assert_eq!(stitch_error(tiles, 2, 2, 2), StitchError::UndecodableTile { row: 0, col: 1 });
}

#[test]
fn last_tile_at_a_position_wins() {
    let tiles = vec![
        DownloadedTile { row: 0, col: 0, bytes: vec![7, 7, 7] },
        DownloadedTile { row: 0, col: 0, bytes: png_bytes(2, 2, [0, 0, 200]) },
    ];
    assert_eq!(stitch_error(tiles, 2, 1, 2), StitchError::MissingTile { row: 0, col: 1 });

    let tiles = vec![
        DownloadedTile { row: 0, col: 0, bytes: png_bytes(2, 2, [0, 0, 200]) },
        DownloadedTile { row: 0, col: 0, bytes: vec![7, 7, 7] },
    ];
    assert_eq!(stitch_error(tiles, 2, 1, 2), StitchError::UndecodableTile { row: 0, col: 0 });
}

#[test]
fn tiles_land_in_their_cells_whatever_the_list_order() {
    let colors = [[250, 0, 0], [0, 250, 0], [0, 0, 250], [250, 250, 250], [0, 0, 0], [120, 60, 30]];
    let mut tiles = Vec::new();
    for row in (0..2u32).rev() {
        for col in (0..3u32).rev() {
            let color = colors[(row * 3 + col) as usize];
            tiles.push(DownloadedTile { row, col, bytes: png_bytes(3, 3, color) });
        }
    }
    let canvas = to_rgb(&stitch_tiles_with_size(tiles, 3, 2, 3).unwrap());
    assert_eq!(canvas.dimensions(), (9, 6));
    for y in 0..6u32 {
        for x in 0..9u32 {
            let color = colors[((y / 3) * 3 + x / 3) as usize];
            assert_eq!(canvas.get_pixel(x, y).0, color, "pixel ({x}, {y})");
        }
    }
}

#[test]
fn full_size_stitch_checks_the_physical_tile_size() {
    let tiles = vec![DownloadedTile { row: 0, col: 0, bytes: png_bytes(4, 4, [1, 1, 1]) }];
    assert_eq!(
        stitch_tiles(tiles, 1, 1).unwrap_err(),
        StitchError::TileSizeMismatch { row: 0, col: 0, expected_size: 2560, width: 4, height: 4 }
    );
}

#[test]
fn decode_tile_reads_jpeg_and_other_formats() {
    let jpeg = decode_tile(&jpeg_bytes(5, 3, [255, 255, 255])).unwrap();
    assert_eq!(raster_dimensions(&jpeg), (5, 3));
    let png = to_rgb(&decode_tile(&png_bytes(2, 7, [12, 34, 56])).unwrap());
    assert_eq!(png.dimensions(), (2, 7));
    assert_eq!(png.get_pixel(1, 6).0, [12, 34, 56]);
    assert!(decode_tile(&[0x42, 0x42, 0x42]).is_none());
    assert!(decode_tile(&[]).is_none());
}

#[test]
fn output_format_follows_the_extension() {
    assert_eq!(output_format_for_extension(None), Ok(RasterFormat::Jpeg));
    assert_eq!(output_format_for_extension(Some("jpg")), Ok(RasterFormat::Jpeg));
    assert_eq!(output_format_for_extension(Some("JPEG")), Ok(RasterFormat::Jpeg));
    assert_eq!(output_format_for_extension(Some("Png")), Ok(RasterFormat::Png));
    assert_eq!(output_format_for_extension(Some("GIF")), Err("gif".to_string()));
    assert_eq!(output_format_for_extension(Some("")), Err("".to_string()));
}

#[test]
fn encoding_writes_the_format_signature() {
    let raster = solid_raster(2, 2, [42, 42, 42]);
    let jpg = encode_raster(&raster, RasterFormat::Jpeg, 90).unwrap();
    let png = encode_raster(&raster, RasterFormat::Png, 90).unwrap();
    assert_eq!(&jpg[0..2], &[0xFF, 0xD8]);
    assert_eq!(&png[0..8], &[0x89, b'P', b'N', b'G', 0x0D, 0x0A, 0x1A, 0x0A]);
    let back = image::load_from_memory(&png).unwrap().into_rgb8();
    assert_eq!(back.get_pixel(1, 1).0, [42, 42, 42]);
}

#[test]
fn jpeg_refuses_sides_above_65535() {
    let raster = solid_raster(70000, 1, [3, 4, 5]);
    assert!(encode_raster(&raster, RasterFormat::Jpeg, 90).is_none());
    let png = encode_raster(&raster, RasterFormat::Png, 90).unwrap();
    assert_eq!(&png[0..8], &[0x89, b'P', b'N', b'G', 0x0D, 0x0A, 0x1A, 0x0A]);
}

#[test]
fn placing_a_tile_checks_it_first() {
    let mut canvas = solid_raster(4, 2, [0, 0, 0]);
    assert_eq!(
        place_decoded_tile(&mut canvas, &None, 0, 1, 2),
        Err(StitchError::UndecodableTile { row: 0, col: 1 })
    );
    let wrong = solid_raster(3, 2, [9, 9, 9]);
    assert_eq!(
        place_decoded_tile(&mut canvas, &Some(wrong), 0, 1, 2),
        Err(StitchError::TileSizeMismatch { row: 0, col: 1, expected_size: 2, width: 3, height: 2 })
    );
    assert!(to_rgb(&canvas).pixels().all(|p| p.0 == [0, 0, 0]));
    let tile = solid_raster(2, 2, [5, 6, 7]);
    assert_eq!(place_decoded_tile(&mut canvas, &Some(tile), 0, 1, 2), Ok(()));
    let image = to_rgb(&canvas);
    assert_eq!(image.get_pixel(1, 1).0, [0, 0, 0]);
    assert_eq!(image.get_pixel(2, 0).0, [5, 6, 7]);
    assert_eq!(image.get_pixel(3, 1).0, [5, 6, 7]);
}

#[test]
fn tile_order_does_not_change_the_image() {
    let make = |order: &[(u32, u32)]| -> Vec<DownloadedTile> {
        order
            .iter()
            .map(|&(row, col)| DownloadedTile {
                row,
                col,
                bytes: png_bytes(2, 2, [(row * 100) as u8, (col * 100) as u8, 7]),
            })
            .collect()
    };
    let a = stitch_tiles_with_size(make(&[(0, 0), (0, 1), (1, 0), (1, 1)]), 2, 2, 2).unwrap();
    let b = stitch_tiles_with_size(make(&[(1, 1), (0, 1), (1, 0), (0, 0)]), 2, 2, 2).unwrap();
    assert_eq!(to_rgb(&a), to_rgb(&b));

    let repeated_a = make(&[(0, 0), (0, 0), (1, 0), (1, 1)]);
    let repeated_b = make(&[(1, 1), (0, 0), (1, 0), (0, 0)]);
    assert!(stitch_tiles_with_size(repeated_a, 2, 2, 2).is_err());
    assert!(stitch_tiles_with_size(repeated_b, 2, 2, 2).is_err());
}

fn decoded(row: u32, col: u32, image: Option<Raster>) -> DecodedTile {
    DecodedTile { row, col, image }
}

#[test]
fn decoded_tiles_are_laid_out_by_position() {
    let tiles = vec![
        decoded(1, 0, Some(solid_raster(2, 2, [0, 0, 9]))),
        decoded(0, 1, Some(solid_raster(2, 2, [0, 9, 0]))),
        decoded(0, 0, Some(solid_raster(2, 2, [9, 0, 0]))),
        decoded(1, 1, Some(solid_raster(2, 2, [9, 9, 9]))),
    ];
    let canvas = stitch_decoded_tiles(tiles, 2, 2, 2).unwrap();
    assert_eq!(raster_dimensions(&canvas), (4, 4));
    let image = to_rgb(&canvas);
    assert_eq!(image.get_pixel(1, 1).0, [9, 0, 0]);
    assert_eq!(image.get_pixel(2, 0).0, [0, 9, 0]);
    assert_eq!(image.get_pixel(0, 3).0, [0, 0, 9]);
    assert_eq!(image.get_pixel(3, 3).0, [9, 9, 9]);
}

#[test]
fn decoded_tile_errors_come_in_row_major_order() {
    let result = stitch_decoded_tiles(Vec::new(), 0, 2, 2);
    assert_eq!(result.unwrap_err(), StitchError::EmptyGrid);
    let result = stitch_decoded_tiles(vec![decoded(0, 0, None)], 1, 2, 2);
    assert_eq!(result.unwrap_err(), StitchError::TileCountMismatch { expected: 2, actual: 1 });
    let tiles = vec![
        decoded(0, 0, Some(solid_raster(2, 2, [1, 1, 1]))),
        decoded(1, 1, None),
        decoded(1, 1, Some(solid_raster(2, 2, [1, 1, 1]))),
        decoded(1, 0, Some(solid_raster(2, 3, [1, 1, 1]))),
    ];
    assert_eq!(
        stitch_decoded_tiles(tiles, 2, 2, 2).unwrap_err(),
        StitchError::MissingTile { row: 0, col: 1 }
    );
    let tiles = vec![
        decoded(0, 0, Some(solid_raster(2, 2, [1, 1, 1]))),
        decoded(0, 1, None),
    ];
    assert_eq!(
        stitch_decoded_tiles(tiles, 2, 1, 2).unwrap_err(),
        StitchError::UndecodableTile { row: 0, col: 1 }
    );
    let tiles = vec![decoded(0, 0, Some(solid_raster(2, 3, [1, 1, 1])))];
    assert_eq!(
        stitch_decoded_tiles(tiles, 1, 1, 2).unwrap_err(),
        StitchError::TileSizeMismatch { row: 0, col: 0, expected_size: 2, width: 2, height: 3 }
    );
}

#[test]
fn decoded_tile_order_does_not_change_the_result() {
    let make = |order: &[(u32, u32)]| -> Vec<DecodedTile> {
        order
            .iter()
            .map(|&(row, col)| decoded(row, col, Some(solid_raster(2, 2, [row as u8 * 80, col as u8 * 80, 3]))))
            .collect()
    };
    let a = stitch_decoded_tiles(make(&[(0, 0), (0, 1), (1, 0), (1, 1)]), 2, 2, 2).unwrap();
    let b = stitch_decoded_tiles(make(&[(1, 0), (1, 1), (0, 1), (0, 0)]), 2, 2, 2).unwrap();
    assert_eq!(raster_dimensions(&a), raster_dimensions(&b));
    assert_eq!(to_rgb(&a), to_rgb(&b));
    let c = stitch_decoded_tiles(make(&[(0, 0), (0, 0), (1, 0), (1, 1)]), 2, 2, 2);
    let d = stitch_decoded_tiles(make(&[(1, 1), (0, 0), (1, 0), (0, 0)]), 2, 2, 2);
    assert_eq!(c.unwrap_err(), StitchError::MissingTile { row: 0, col: 1 });
    assert_eq!(d.unwrap_err(), StitchError::MissingTile { row: 0, col: 1 });
}

#[test]
fn stitched_canvas_size_is_grid_times_tile() {
    let tiles = vec![
        DownloadedTile { row: 0, col: 0, bytes: jpeg_bytes(3, 3, [50, 60, 70]) },
        DownloadedTile { row: 0, col: 1, bytes: jpeg_bytes(3, 3, [50, 60, 70]) },
        DownloadedTile { row: 0, col: 2, bytes: jpeg_bytes(3, 3, [50, 60, 70]) },
    ];
    let canvas = stitch_tiles_with_size(tiles, 3, 1, 3).unwrap();
    assert_eq!(raster_dimensions(&canvas), (9, 3));
}

#[test]
fn jpeg_tile_order_does_not_change_the_image() {
    let make = |order: &[(u32, u32)]| -> Vec<DownloadedTile> {
        order
            .iter()
            .map(|&(row, col)| DownloadedTile {
                row,
                col,
                bytes: jpeg_bytes(8, 8, [(row * 200) as u8, (col * 200) as u8, 40]),
            })
            .collect()
    };
    let a = stitch_tiles_with_size(make(&[(0, 0), (0, 1), (1, 0), (1, 1)]), 2, 2, 8).unwrap();
    let b = stitch_tiles_with_size(make(&[(1, 1), (1, 0), (0, 0), (0, 1)]), 2, 2, 8).unwrap();
    assert_eq!(raster_dimensions(&a), (16, 16));
    assert_eq!(to_rgb(&a), to_rgb(&b));
}
