//! Laws on the order of the tiles: stitching a permutation of the same tiles
//! gives the same result, for decoded tiles in general and for downloaded
//! tiles whose bytes settle the outcome.

use vstd::prelude::*;
use crate::downloader::DownloadedTile;
use crate::raster::{Raster, rgb_pixels, rgb_dimensions, well_shaped};
use crate::stitcher::{
    DecodedTile, StitchError, decoded_at, cell_error, first_cell_error, stitch_failure, tile_pixels,
    canvas_fits, mosaic_of, stitch_result, tile_bytes_at, settled_cell_error, settled_first_cell_error,
    settled_stitch_failure, jpeg_tile_pixels, jpeg_cells_placed,
};

verus! {

/// No two tiles of `tiles` share a grid position.
pub open spec fn distinct_positions(tiles: Seq<DecodedTile>) -> bool {
    forall|i: int, j: int|
        0 <= i < tiles.len() && 0 <= j < tiles.len() && i != j ==> !(#[trigger] tiles[i].row == #[trigger] tiles[j].row
            && tiles[i].col == tiles[j].col)
}

proof fn lemma_decoded_at_distinct(tiles: Seq<DecodedTile>, row: u32, col: u32)
    requires
        distinct_positions(tiles),
    ensures
        decoded_at(tiles, row, col) is None <==> (forall|i: int|
            0 <= i < tiles.len() ==> !(#[trigger] tiles[i].row == row && tiles[i].col == col)),
        forall|i: int|
            0 <= i < tiles.len() && #[trigger] tiles[i].row == row && tiles[i].col == col
                ==> decoded_at(tiles, row, col) == Some(tiles[i].image),
    decreases tiles.len(),
{
    if tiles.len() > 0 {
        let init = tiles.drop_last();
        assert(distinct_positions(init)) by {
            assert forall|i: int, j: int|
                0 <= i < init.len() && 0 <= j < init.len() && i != j implies !(#[trigger] init[i].row
                    == #[trigger] init[j].row && init[i].col == init[j].col) by {
                assert(init[i] == tiles[i] && init[j] == tiles[j]);
            }
        }
        lemma_decoded_at_distinct(init, row, col);
        let n = tiles.len() - 1;
        if tiles[n].row == row && tiles[n].col == col {
            assert forall|i: int|
                0 <= i < tiles.len() && #[trigger] tiles[i].row == row && tiles[i].col == col
                    implies decoded_at(tiles, row, col) == Some(tiles[i].image) by {
                if i != n {
                    assert(tiles[i].row == tiles[n].row);
                }
            }
        } else {
            assert forall|i: int|
                0 <= i < tiles.len() && #[trigger] tiles[i].row == row && tiles[i].col == col
                    implies decoded_at(tiles, row, col) == Some(tiles[i].image) by {
                assert(i != n);
                assert(init[i] == tiles[i]);
            }
            if decoded_at(tiles, row, col) is None {
                assert forall|i: int| 0 <= i < tiles.len() implies !(#[trigger] tiles[i].row == row
                    && tiles[i].col == col) by {
                    if i < n {
                        assert(init[i] == tiles[i]);
                    }
                }
            } else {
                let i = choose|i: int| 0 <= i < init.len() && #[trigger] init[i].row == row && init[i].col == col;
                assert(tiles[i] == init[i]);
            }
        }
    }
}

proof fn lemma_first_cell_error_congruent(
    t1: Seq<DecodedTile>,
    t2: Seq<DecodedTile>,
    cols: int,
    rows: int,
    tile_size: u32,
    row: int,
    col: int,
)
    requires
        forall|r: u32, c: u32| #[trigger] decoded_at(t1, r, c) == decoded_at(t2, r, c),
    ensures
        first_cell_error(t1, cols, rows, tile_size, row, col) == first_cell_error(t2, cols, rows, tile_size, row, col),
    decreases rows - row, cols - col,
{
    if row >= rows {
    } else if col >= cols {
        lemma_first_cell_error_congruent(t1, t2, cols, rows, tile_size, row + 1, 0);
    } else {
        assert(decoded_at(t1, row as u32, col as u32) == decoded_at(t2, row as u32, col as u32));
        lemma_first_cell_error_congruent(t1, t2, cols, rows, tile_size, row, col + 1);
    }
}

/// When no two tiles share a position, lists with the same tiles stitch to the
/// same result: the same failure, or the same pixels in every cell.
pub proof fn lemma_distinct_tile_order_irrelevant(
    t1: Seq<DecodedTile>,
    t2: Seq<DecodedTile>,
    cols: u32,
    rows: u32,
    tile_size: u32,
)
    requires
        t1.to_multiset() == t2.to_multiset(),
        distinct_positions(t1),
        distinct_positions(t2),
    ensures
        stitch_failure(t1, cols, rows, tile_size) == stitch_failure(t2, cols, rows, tile_size),
        forall|r: u32, c: u32| #[trigger] tile_pixels(t1, r, c) == tile_pixels(t2, r, c),
{
    t1.to_multiset_ensures();
    t2.to_multiset_ensures();
    assert forall|r: u32, c: u32| #[trigger] decoded_at(t1, r, c) == decoded_at(t2, r, c) by {
        lemma_decoded_at_distinct(t1, r, c);
        lemma_decoded_at_distinct(t2, r, c);
        if decoded_at(t1, r, c) is Some {
            let i = choose|i: int| 0 <= i < t1.len() && #[trigger] t1[i].row == r && t1[i].col == c;
            assert(t1.contains(t1[i]));
            assert(t1.to_multiset().count(t1[i]) > 0);
            assert(t2.to_multiset().count(t1[i]) > 0);
            assert(t2.contains(t1[i]));
            let j = choose|j: int| 0 <= j < t2.len() && t2[j] == t1[i];
            assert(t2[j].row == r);
        } else if decoded_at(t2, r, c) is Some {
            let j = choose|j: int| 0 <= j < t2.len() && #[trigger] t2[j].row == r && t2[j].col == c;
            assert(t2.contains(t2[j]));
            assert(t2.to_multiset().count(t2[j]) > 0);
            assert(t1.to_multiset().count(t2[j]) > 0);
            assert(t1.contains(t2[j]));
            let i = choose|i: int| 0 <= i < t1.len() && t1[i] == t2[j];
            assert(t1[i].row == r);
        }
    }
    lemma_first_cell_error_congruent(t1, t2, cols as int, rows as int, tile_size, 0, 0);
}

proof fn lemma_decoded_at_some(tiles: Seq<DecodedTile>, row: u32, col: u32)
    ensures
        decoded_at(tiles, row, col) is Some <==> exists|i: int|
            0 <= i < tiles.len() && #[trigger] tiles[i].row == row && tiles[i].col == col,
    decreases tiles.len(),
{
    if tiles.len() > 0 {
        let init = tiles.drop_last();
        lemma_decoded_at_some(init, row, col);
        let n = tiles.len() - 1;
        if tiles[n].row == row && tiles[n].col == col {
        } else if decoded_at(tiles, row, col) is Some {
            let i = choose|i: int| 0 <= i < init.len() && #[trigger] init[i].row == row && init[i].col == col;
            assert(tiles[i] == init[i]);
        } else {
            assert forall|i: int| 0 <= i < tiles.len() implies !(#[trigger] tiles[i].row == row
                && tiles[i].col == col) by {
                if i < n {
                    assert(init[i] == tiles[i]);
                }
            }
        }
    }
}

proof fn lemma_no_cell_error_after(
    tiles: Seq<DecodedTile>,
    cols: int,
    rows: int,
    tile_size: u32,
    row: int,
    col: int,
)
    requires
        0 <= row,
        0 <= col,
        rows <= u32::MAX,
        cols <= u32::MAX,
        first_cell_error(tiles, cols, rows, tile_size, row, col) is None,
    ensures
        forall|r: u32, c: u32|
            r < rows && c < cols && (r > row || (r == row && c >= col))
                ==> #[trigger] cell_error(tiles, tile_size, r, c) is None,
    decreases rows - row, cols - col,
{
    if row >= rows {
    } else if col >= cols {
        lemma_no_cell_error_after(tiles, cols, rows, tile_size, row + 1, 0);
    } else {
        lemma_no_cell_error_after(tiles, cols, rows, tile_size, row, col + 1);
    }
}

proof fn lemma_grid_cell_of_index(k: int, cols: int, rows: int)
    requires
        0 < cols,
        0 <= k < cols * rows,
    ensures
        0 <= k / cols < rows,
        0 <= k % cols < cols,
        k == (k / cols) * cols + k % cols,
{
    vstd::arithmetic::div_mod::lemma_fundamental_div_mod(k, cols);
    vstd::arithmetic::div_mod::lemma_div_pos_is_pos(k, cols);
    vstd::arithmetic::div_mod::lemma_mod_pos_bound(k, cols);
    let q = k / cols;
    assert(q < rows) by (nonlinear_arith)
        requires
            k == cols * q + k % cols,
            0 <= k % cols,
            k < cols * rows,
            0 < cols,
    ;
    assert(cols * q == q * cols) by (nonlinear_arith);
}

/// A list of exactly `cols * rows` tiles with a tile in every cell of the grid
/// has no two tiles at one position.
proof fn lemma_covering_tiles_distinct(tiles: Seq<DecodedTile>, cols: u32, rows: u32)
    requires
        0 < cols,
        tiles.len() == cols * rows,
        forall|r: u32, c: u32|
            r < rows && c < cols ==> #[trigger] decoded_at(tiles, r, c) is Some,
    ensures
        distinct_positions(tiles),
{
    broadcast use vstd::seq_lib::seq_to_set_is_finite;
    let n = cols * rows;
    let p = tiles.map_values(|x: DecodedTile| (x.row, x.col));
    let q = Seq::new(n as nat, |k: int| ((k / cols as int) as u32, (k % cols as int) as u32));
    assert forall|i: int, j: int| 0 <= i < q.len() && 0 <= j < q.len() && i != j implies q[i] != q[j] by {
        lemma_grid_cell_of_index(i, cols as int, rows as int);
        lemma_grid_cell_of_index(j, cols as int, rows as int);
    }
    assert(q.no_duplicates());
    q.unique_seq_to_set();
    assert forall|x: (u32, u32)| q.to_set().contains(x) implies p.to_set().contains(x) by {
        let k = choose|k: int| 0 <= k < q.len() && q[k] == x;
        lemma_grid_cell_of_index(k, cols as int, rows as int);
        lemma_decoded_at_some(tiles, x.0, x.1);
        assert(decoded_at(tiles, x.0, x.1) is Some);
        let i = choose|i: int| 0 <= i < tiles.len() && #[trigger] tiles[i].row == x.0 && tiles[i].col == x.1;
        assert(p[i] == x);
        assert(p.contains(x));
    }
    vstd::set_lib::lemma_len_subset(q.to_set(), p.to_set());
    p.lemma_cardinality_of_set();
    p.lemma_no_dup_set_cardinality();
    assert forall|i: int, j: int|
        0 <= i < tiles.len() && 0 <= j < tiles.len() && i != j implies !(#[trigger] tiles[i].row
            == #[trigger] tiles[j].row && tiles[i].col == tiles[j].col) by {
        assert(p[i] != p[j]);
    }
}

/// A stitch that succeeds uses a list with exactly one tile at each grid
/// position.
proof fn lemma_success_means_distinct(tiles: Seq<DecodedTile>, cols: u32, rows: u32, tile_size: u32)
    requires
        stitch_failure(tiles, cols, rows, tile_size) is None,
    ensures
        distinct_positions(tiles),
        forall|r: u32, c: u32| r < rows && c < cols ==> #[trigger] decoded_at(tiles, r, c) is Some,
{
    lemma_no_cell_error_after(tiles, cols as int, rows as int, tile_size, 0, 0);
    assert forall|r: u32, c: u32| r < rows && c < cols implies #[trigger] decoded_at(tiles, r, c) is Some by {
        assert(cell_error(tiles, tile_size, r, c) is None);
    }
    lemma_covering_tiles_distinct(tiles, cols, rows);
}

/// A list with the same tiles as one without two tiles at a position has no
/// two tiles at a position either.
proof fn lemma_distinct_carries_over(t1: Seq<DecodedTile>, t2: Seq<DecodedTile>)
    requires
        t1.to_multiset() == t2.to_multiset(),
        distinct_positions(t1),
    ensures
        distinct_positions(t2),
{
    broadcast use vstd::seq_lib::seq_to_set_is_finite;
    t1.to_multiset_ensures();
    t2.to_multiset_ensures();
    assert(t1.no_duplicates()) by {
        assert forall|i: int, j: int| 0 <= i < t1.len() && 0 <= j < t1.len() && i != j implies t1[i] != t1[j] by {
            assert(!(t1[i].row == t1[j].row && t1[i].col == t1[j].col));
        }
    }
    assert forall|x: DecodedTile| t1.contains(x) <==> t2.contains(x) by {
        assert(t1.contains(x) <==> t1.to_multiset().count(x) > 0);
        assert(t2.contains(x) <==> t2.to_multiset().count(x) > 0);
    }
    assert(t1.to_set() =~= t2.to_set());
    t1.unique_seq_to_set();
    t2.lemma_no_dup_set_cardinality();
    assert forall|i: int, j: int|
        0 <= i < t2.len() && 0 <= j < t2.len() && i != j implies !(#[trigger] t2[i].row
            == #[trigger] t2[j].row && t2[i].col == t2[j].col) by {
        assert(t2.contains(t2[i]) && t2.contains(t2[j]));
        let a = choose|a: int| 0 <= a < t1.len() && t1[a] == t2[i];
        let b = choose|b: int| 0 <= b < t1.len() && t1[b] == t2[j];
        assert(t2[i] != t2[j]);
        assert(a != b);
    }
}

proof fn lemma_success_carries_over(
    t1: Seq<DecodedTile>,
    t2: Seq<DecodedTile>,
    cols: u32,
    rows: u32,
    tile_size: u32,
)
    requires
        t1.to_multiset() == t2.to_multiset(),
        stitch_failure(t1, cols, rows, tile_size) is None,
    ensures
        stitch_failure(t2, cols, rows, tile_size) is None,
        forall|r: u32, c: u32| #[trigger] tile_pixels(t1, r, c) == tile_pixels(t2, r, c),
{
    t1.to_multiset_ensures();
    t2.to_multiset_ensures();
    lemma_success_means_distinct(t1, cols, rows, tile_size);
    assert forall|r: u32, c: u32| r < rows && c < cols implies #[trigger] decoded_at(t2, r, c) is Some by {
        lemma_decoded_at_some(t1, r, c);
        lemma_decoded_at_some(t2, r, c);
        assert(decoded_at(t1, r, c) is Some);
        let i = choose|i: int| 0 <= i < t1.len() && #[trigger] t1[i].row == r && t1[i].col == c;
        assert(t1.contains(t1[i]));
        assert(t1.to_multiset().count(t1[i]) > 0);
        assert(t2.to_multiset().count(t1[i]) > 0);
        let j = choose|j: int| 0 <= j < t2.len() && t2[j] == t1[i];
        assert(t2[j].row == r && t2[j].col == c);
    }
    lemma_covering_tiles_distinct(t2, cols, rows);
    lemma_distinct_tile_order_irrelevant(t1, t2, cols, rows, tile_size);
}

/// Law: the order in which the tiles arrive does not matter. For any two lists
/// holding the same tiles, stitching both succeeds or both fail, and when they
/// succeed every cell gets the same pixels; with no two tiles at one position
/// (which a successful stitch always has) they fail in the same way too.
pub proof fn lemma_tile_order_irrelevant(
    t1: Seq<DecodedTile>,
    t2: Seq<DecodedTile>,
    cols: u32,
    rows: u32,
    tile_size: u32,
)
    requires
        t1.to_multiset() == t2.to_multiset(),
    ensures
        (stitch_failure(t1, cols, rows, tile_size) is None) == (stitch_failure(t2, cols, rows, tile_size) is None),
        stitch_failure(t1, cols, rows, tile_size) is None ==> forall|r: u32, c: u32|
            #[trigger] tile_pixels(t1, r, c) == tile_pixels(t2, r, c),
        distinct_positions(t1) || distinct_positions(t2) ==> stitch_failure(t1, cols, rows, tile_size)
            == stitch_failure(t2, cols, rows, tile_size),
{
    if stitch_failure(t1, cols, rows, tile_size) is None {
        lemma_success_carries_over(t1, t2, cols, rows, tile_size);
    }
    if stitch_failure(t2, cols, rows, tile_size) is None {
        lemma_success_carries_over(t2, t1, cols, rows, tile_size);
    }
    if distinct_positions(t1) || distinct_positions(t2) {
        if distinct_positions(t1) {
            lemma_distinct_carries_over(t1, t2);
        } else {
            lemma_distinct_carries_over(t2, t1);
        }
        lemma_distinct_tile_order_irrelevant(t1, t2, cols, rows, tile_size);
    }
}

/// A mosaic is fixed by the pixels of its tiles: two canvases that are mosaics
/// of tiles with the same pixels in every cell are the same image.
proof fn lemma_mosaic_determined(
    c1: Raster,
    c2: Raster,
    t1: Seq<DecodedTile>,
    t2: Seq<DecodedTile>,
    cols: u32,
    rows: u32,
    tile_size: u32,
)
    requires
        cols * tile_size <= u32::MAX,
        rows * tile_size <= u32::MAX,
        mosaic_of(c1, t1, cols, rows, tile_size),
        mosaic_of(c2, t2, cols, rows, tile_size),
        forall|r: u32, c: u32| #[trigger] tile_pixels(t1, r, c) == tile_pixels(t2, r, c),
    ensures
        rgb_dimensions(c1) == rgb_dimensions(c2),
        rgb_pixels(c1) == rgb_pixels(c2),
{
    let ts = tile_size as int;
    assert(ts * (cols as int) == (cols as int) * ts) by (nonlinear_arith);
    assert(ts * (rows as int) == (rows as int) * ts) by (nonlinear_arith);
    assert forall|p: (int, int)| #[trigger] rgb_pixels(c1).contains_key(p) implies rgb_pixels(c2).contains_key(p)
        && rgb_pixels(c1)[p] == rgb_pixels(c2)[p] by {
        lemma_grid_cell_of_index(p.0, ts, cols as int);
        lemma_grid_cell_of_index(p.1, ts, rows as int);
        let c = (p.0 / ts) as u32;
        let r = (p.1 / ts) as u32;
        let x = p.0 % ts;
        let y = p.1 % ts;
        assert((c * ts + x, r * ts + y) == p);
        assert(tile_pixels(t1, r, c)[(x, y)] == tile_pixels(t2, r, c)[(x, y)]);
    }
    assert(rgb_pixels(c1) =~= rgb_pixels(c2));
}

/// Law: stitching the same tiles in any order gives the same image. For two
/// lists holding the same tiles, the results of stitching them are both `Ok`
/// or both `Err`, and two `Ok` canvases have the same size and the same pixels.
pub proof fn lemma_stitched_canvases_equal(
    r1: Result<Raster, StitchError>,
    r2: Result<Raster, StitchError>,
    t1: Seq<DecodedTile>,
    t2: Seq<DecodedTile>,
    cols: u32,
    rows: u32,
    tile_size: u32,
)
    requires
        t1.to_multiset() == t2.to_multiset(),
        canvas_fits(cols, rows, tile_size),
        stitch_result(r1, t1, cols, rows, tile_size),
        stitch_result(r2, t2, cols, rows, tile_size),
    ensures
        r1 is Ok <==> r2 is Ok,
        r1 matches Ok(c1) ==> (r2 matches Ok(c2) ==> rgb_dimensions(c1) == rgb_dimensions(c2) && rgb_pixels(c1)
            == rgb_pixels(c2)),
{
    lemma_tile_order_irrelevant(t1, t2, cols, rows, tile_size);
    if r1 is Ok && r2 is Ok {
        lemma_mosaic_determined(r1->Ok_0, r2->Ok_0, t1, t2, cols, rows, tile_size);
    }
}

/// No two downloaded tiles share a grid position.
pub open spec fn distinct_download_positions(tiles: Seq<DownloadedTile>) -> bool {
    forall|i: int, j: int|
        0 <= i < tiles.len() && 0 <= j < tiles.len() && i != j ==> !(#[trigger] tiles[i].row == #[trigger] tiles[j].row
            && tiles[i].col == tiles[j].col)
}

proof fn lemma_bytes_at_distinct(tiles: Seq<DownloadedTile>, row: u32, col: u32)
    requires
        distinct_download_positions(tiles),
    ensures
        tile_bytes_at(tiles, row, col) is None <==> (forall|i: int|
            0 <= i < tiles.len() ==> !(#[trigger] tiles[i].row == row && tiles[i].col == col)),
        forall|i: int|
            0 <= i < tiles.len() && #[trigger] tiles[i].row == row && tiles[i].col == col
                ==> tile_bytes_at(tiles, row, col) == Some(tiles[i].bytes@),
    decreases tiles.len(),
{
    if tiles.len() > 0 {
        let init = tiles.drop_last();
        assert(distinct_download_positions(init)) by {
            assert forall|i: int, j: int|
                0 <= i < init.len() && 0 <= j < init.len() && i != j implies !(#[trigger] init[i].row
                    == #[trigger] init[j].row && init[i].col == init[j].col) by {
                assert(init[i] == tiles[i] && init[j] == tiles[j]);
            }
        }
        lemma_bytes_at_distinct(init, row, col);
        let n = tiles.len() - 1;
        if tiles[n].row == row && tiles[n].col == col {
            assert forall|i: int|
                0 <= i < tiles.len() && #[trigger] tiles[i].row == row && tiles[i].col == col
                    implies tile_bytes_at(tiles, row, col) == Some(tiles[i].bytes@) by {
                if i != n {
                    assert(tiles[i].row == tiles[n].row);
                }
            }
        } else {
            assert forall|i: int|
                0 <= i < tiles.len() && #[trigger] tiles[i].row == row && tiles[i].col == col
                    implies tile_bytes_at(tiles, row, col) == Some(tiles[i].bytes@) by {
                assert(i != n);
                assert(init[i] == tiles[i]);
            }
            if tile_bytes_at(tiles, row, col) is None {
                assert forall|i: int| 0 <= i < tiles.len() implies !(#[trigger] tiles[i].row == row
                    && tiles[i].col == col) by {
                    if i < n {
                        assert(init[i] == tiles[i]);
                    }
                }
            } else {
                let i = choose|i: int| 0 <= i < init.len() && #[trigger] init[i].row == row && init[i].col == col;
                assert(tiles[i] == init[i]);
            }
        }
    }
}


proof fn lemma_bytes_at_some(tiles: Seq<DownloadedTile>, row: u32, col: u32)
    ensures
        tile_bytes_at(tiles, row, col) is Some <==> exists|i: int|
            0 <= i < tiles.len() && #[trigger] tiles[i].row == row && tiles[i].col == col,
    decreases tiles.len(),
{
    if tiles.len() > 0 {
        let init = tiles.drop_last();
        lemma_bytes_at_some(init, row, col);
        let n = tiles.len() - 1;
        if tiles[n].row == row && tiles[n].col == col {
        } else if tile_bytes_at(tiles, row, col) is Some {
            let i = choose|i: int| 0 <= i < init.len() && #[trigger] init[i].row == row && init[i].col == col;
            assert(tiles[i] == init[i]);
        } else {
            assert forall|i: int| 0 <= i < tiles.len() implies !(#[trigger] tiles[i].row == row
                && tiles[i].col == col) by {
                if i < n {
                    assert(init[i] == tiles[i]);
                }
            }
        }
    }
}


/// A list of exactly `cols * rows` tiles with a tile in every cell of the grid
/// has no two tiles at one position.
proof fn lemma_covering_downloads_distinct(tiles: Seq<DownloadedTile>, cols: u32, rows: u32)
    requires
        0 < cols,
        tiles.len() == cols * rows,
        forall|r: u32, c: u32|
            r < rows && c < cols ==> #[trigger] tile_bytes_at(tiles, r, c) is Some,
    ensures
        distinct_download_positions(tiles),
{
    broadcast use vstd::seq_lib::seq_to_set_is_finite;
    let n = cols * rows;
    let p = tiles.map_values(|x: DownloadedTile| (x.row, x.col));
    let q = Seq::new(n as nat, |k: int| ((k / cols as int) as u32, (k % cols as int) as u32));
    assert forall|i: int, j: int| 0 <= i < q.len() && 0 <= j < q.len() && i != j implies q[i] != q[j] by {
        lemma_grid_cell_of_index(i, cols as int, rows as int);
        lemma_grid_cell_of_index(j, cols as int, rows as int);
    }
    assert(q.no_duplicates());
    q.unique_seq_to_set();
    assert forall|x: (u32, u32)| q.to_set().contains(x) implies p.to_set().contains(x) by {
        let k = choose|k: int| 0 <= k < q.len() && q[k] == x;
        lemma_grid_cell_of_index(k, cols as int, rows as int);
        lemma_bytes_at_some(tiles, x.0, x.1);
        assert(tile_bytes_at(tiles, x.0, x.1) is Some);
        let i = choose|i: int| 0 <= i < tiles.len() && #[trigger] tiles[i].row == x.0 && tiles[i].col == x.1;
        assert(p[i] == x);
        assert(p.contains(x));
    }
    vstd::set_lib::lemma_len_subset(q.to_set(), p.to_set());
    p.lemma_cardinality_of_set();
    p.lemma_no_dup_set_cardinality();
    assert forall|i: int, j: int|
        0 <= i < tiles.len() && 0 <= j < tiles.len() && i != j implies !(#[trigger] tiles[i].row
            == #[trigger] tiles[j].row && tiles[i].col == tiles[j].col) by {
        assert(p[i] != p[j]);
    }
}


/// A list with the same tiles as one without two tiles at a position has no
/// two tiles at a position either.
proof fn lemma_distinct_downloads_carry_over(t1: Seq<DownloadedTile>, t2: Seq<DownloadedTile>)
    requires
        t1.to_multiset() == t2.to_multiset(),
        distinct_download_positions(t1),
    ensures
        distinct_download_positions(t2),
{
    broadcast use vstd::seq_lib::seq_to_set_is_finite;
    t1.to_multiset_ensures();
    t2.to_multiset_ensures();
    assert(t1.no_duplicates()) by {
        assert forall|i: int, j: int| 0 <= i < t1.len() && 0 <= j < t1.len() && i != j implies t1[i] != t1[j] by {
            assert(!(t1[i].row == t1[j].row && t1[i].col == t1[j].col));
        }
    }
    assert forall|x: DownloadedTile| t1.contains(x) <==> t2.contains(x) by {
        assert(t1.contains(x) <==> t1.to_multiset().count(x) > 0);
        assert(t2.contains(x) <==> t2.to_multiset().count(x) > 0);
    }
    assert(t1.to_set() =~= t2.to_set());
    t1.unique_seq_to_set();
    t2.lemma_no_dup_set_cardinality();
    assert forall|i: int, j: int|
        0 <= i < t2.len() && 0 <= j < t2.len() && i != j implies !(#[trigger] t2[i].row
            == #[trigger] t2[j].row && t2[i].col == t2[j].col) by {
        assert(t2.contains(t2[i]) && t2.contains(t2[j]));
        let a = choose|a: int| 0 <= a < t1.len() && t1[a] == t2[i];
        let b = choose|b: int| 0 <= b < t1.len() && t1[b] == t2[j];
        assert(t2[i] != t2[j]);
        assert(a != b);
    }
}


proof fn lemma_settled_scan_congruent(
    t1: Seq<DownloadedTile>,
    t2: Seq<DownloadedTile>,
    cols: int,
    rows: int,
    tile_size: u32,
    row: int,
    col: int,
)
    requires
        forall|r: u32, c: u32| #[trigger] tile_bytes_at(t1, r, c) == tile_bytes_at(t2, r, c),
    ensures
        settled_first_cell_error(t1, cols, rows, tile_size, row, col) == settled_first_cell_error(
            t2,
            cols,
            rows,
            tile_size,
            row,
            col,
        ),
    decreases rows - row, cols - col,
{
    if row >= rows {
    } else if col >= cols {
        lemma_settled_scan_congruent(t1, t2, cols, rows, tile_size, row + 1, 0);
    } else {
        assert(tile_bytes_at(t1, row as u32, col as u32) == tile_bytes_at(t2, row as u32, col as u32));
        lemma_settled_scan_congruent(t1, t2, cols, rows, tile_size, row, col + 1);
    }
}

proof fn lemma_settled_cells_fine_after(
    tiles: Seq<DownloadedTile>,
    cols: int,
    rows: int,
    tile_size: u32,
    row: int,
    col: int,
)
    requires
        0 <= row,
        0 <= col,
        rows <= u32::MAX,
        cols <= u32::MAX,
        settled_first_cell_error(tiles, cols, rows, tile_size, row, col) == Some(None::<StitchError>),
    ensures
        forall|r: u32, c: u32|
            r < rows && c < cols && (r > row || (r == row && c >= col))
                ==> #[trigger] settled_cell_error(tiles, tile_size, r, c) == Some(None::<StitchError>),
    decreases rows - row, cols - col,
{
    if row >= rows {
    } else if col >= cols {
        lemma_settled_cells_fine_after(tiles, cols, rows, tile_size, row + 1, 0);
    } else {
        lemma_settled_cells_fine_after(tiles, cols, rows, tile_size, row, col + 1);
    }
}

/// When the stitch of `tiles` is settled as a success, every cell of the grid
/// holds exactly one tile, a JPEG image.
proof fn lemma_settled_success_covers(tiles: Seq<DownloadedTile>, cols: u32, rows: u32, tile_size: u32)
    requires
        settled_stitch_failure(tiles, cols, rows, tile_size) == Some(None::<StitchError>),
    ensures
        distinct_download_positions(tiles),
        forall|r: u32, c: u32| r < rows && c < cols ==> #[trigger] jpeg_tile_pixels(tiles, r, c) is Some,
{
    lemma_settled_cells_fine_after(tiles, cols as int, rows as int, tile_size, 0, 0);
    assert forall|r: u32, c: u32| r < rows && c < cols implies #[trigger] tile_bytes_at(tiles, r, c) is Some by {
        assert(settled_cell_error(tiles, tile_size, r, c) == Some(None::<StitchError>));
    }
    assert forall|r: u32, c: u32| r < rows && c < cols implies #[trigger] jpeg_tile_pixels(tiles, r, c) is Some by {
        assert(settled_cell_error(tiles, tile_size, r, c) == Some(None::<StitchError>));
    }
    lemma_covering_downloads_distinct(tiles, cols, rows);
}

/// Lists holding the same downloaded tiles, none of them sharing a position,
/// have the same bytes at every position.
proof fn lemma_same_bytes_at(t1: Seq<DownloadedTile>, t2: Seq<DownloadedTile>)
    requires
        t1.to_multiset() == t2.to_multiset(),
        distinct_download_positions(t1),
        distinct_download_positions(t2),
    ensures
        forall|r: u32, c: u32| #[trigger] tile_bytes_at(t1, r, c) == tile_bytes_at(t2, r, c),
{
    t1.to_multiset_ensures();
    t2.to_multiset_ensures();
    assert forall|r: u32, c: u32| #[trigger] tile_bytes_at(t1, r, c) == tile_bytes_at(t2, r, c) by {
        lemma_bytes_at_distinct(t1, r, c);
        lemma_bytes_at_distinct(t2, r, c);
        if tile_bytes_at(t1, r, c) is Some {
            let i = choose|i: int| 0 <= i < t1.len() && #[trigger] t1[i].row == r && t1[i].col == c;
            assert(t1.contains(t1[i]));
            assert(t1.to_multiset().count(t1[i]) > 0);
            assert(t2.to_multiset().count(t1[i]) > 0);
            assert(t2.contains(t1[i]));
            let j = choose|j: int| 0 <= j < t2.len() && t2[j] == t1[i];
            assert(t2[j].row == r);
        } else if tile_bytes_at(t2, r, c) is Some {
            let j = choose|j: int| 0 <= j < t2.len() && #[trigger] t2[j].row == r && t2[j].col == c;
            assert(t2.contains(t2[j]));
            assert(t2.to_multiset().count(t2[j]) > 0);
            assert(t1.to_multiset().count(t2[j]) > 0);
            assert(t1.contains(t2[j]));
            let i = choose|i: int| 0 <= i < t1.len() && t1[i] == t2[j];
            assert(t1[i].row == r);
        }
    }
}

/// Law: how far the bytes settle a stitch does not depend on the order of the
/// downloaded tiles. For two lists holding the same tiles, one is settled as a
/// success exactly when the other is, and with no two tiles at one position
/// (which a settled success always has) both are settled alike.
pub proof fn lemma_settled_order_irrelevant(
    t1: Seq<DownloadedTile>,
    t2: Seq<DownloadedTile>,
    cols: u32,
    rows: u32,
    tile_size: u32,
)
    requires
        t1.to_multiset() == t2.to_multiset(),
    ensures
        (settled_stitch_failure(t1, cols, rows, tile_size) == Some(None::<StitchError>)) == (settled_stitch_failure(
            t2,
            cols,
            rows,
            tile_size,
        ) == Some(None::<StitchError>)),
        distinct_download_positions(t1) || distinct_download_positions(t2) ==> settled_stitch_failure(
            t1,
            cols,
            rows,
            tile_size,
        ) == settled_stitch_failure(t2, cols, rows, tile_size),
{
    t1.to_multiset_ensures();
    t2.to_multiset_ensures();
    if settled_stitch_failure(t1, cols, rows, tile_size) == Some(None::<StitchError>) {
        lemma_settled_success_covers(t1, cols, rows, tile_size);
        lemma_distinct_downloads_carry_over(t1, t2);
    }
    if settled_stitch_failure(t2, cols, rows, tile_size) == Some(None::<StitchError>) {
        lemma_settled_success_covers(t2, cols, rows, tile_size);
        lemma_distinct_downloads_carry_over(t2, t1);
    }
    if distinct_download_positions(t1) || distinct_download_positions(t2) {
        if distinct_download_positions(t1) {
            lemma_distinct_downloads_carry_over(t1, t2);
        } else {
            lemma_distinct_downloads_carry_over(t2, t1);
        }
    }
    if distinct_download_positions(t1) && distinct_download_positions(t2) {
        lemma_same_bytes_at(t1, t2);
        lemma_settled_scan_congruent(t1, t2, cols as int, rows as int, tile_size, 0, 0);
    }
}

/// Law: downloaded tiles that are all JPEG images of the right size stitch to
/// the same image in any order. When the stitch of `t1` is settled as a success,
/// that of any list `t2` with the same tiles is too (so both stitches succeed),
/// and two canvases that hold the tiles' JPEG images cell by cell are the same
/// image.
pub proof fn lemma_jpeg_tile_order_irrelevant(
    c1: Raster,
    c2: Raster,
    t1: Seq<DownloadedTile>,
    t2: Seq<DownloadedTile>,
    cols: u32,
    rows: u32,
    tile_size: u32,
)
    requires
        t1.to_multiset() == t2.to_multiset(),
        canvas_fits(cols, rows, tile_size),
        settled_stitch_failure(t1, cols, rows, tile_size) == Some(None::<StitchError>),
        rgb_dimensions(c1) == ((cols * tile_size) as u32, (rows * tile_size) as u32),
        rgb_dimensions(c2) == ((cols * tile_size) as u32, (rows * tile_size) as u32),
        well_shaped(c1),
        well_shaped(c2),
        jpeg_cells_placed(rgb_pixels(c1), t1, cols, rows, tile_size),
        jpeg_cells_placed(rgb_pixels(c2), t2, cols, rows, tile_size),
    ensures
        settled_stitch_failure(t2, cols, rows, tile_size) == Some(None::<StitchError>),
        rgb_dimensions(c1) == rgb_dimensions(c2),
        rgb_pixels(c1) == rgb_pixels(c2),
{
    lemma_settled_order_irrelevant(t1, t2, cols, rows, tile_size);
    lemma_settled_success_covers(t1, cols, rows, tile_size);
    lemma_distinct_downloads_carry_over(t1, t2);
    lemma_same_bytes_at(t1, t2);
    let ts = tile_size as int;
    assert(ts * (cols as int) == (cols as int) * ts) by (nonlinear_arith);
    assert(ts * (rows as int) == (rows as int) * ts) by (nonlinear_arith);
    assert forall|p: (int, int)| #[trigger] rgb_pixels(c1).contains_key(p) implies rgb_pixels(c2).contains_key(p)
        && rgb_pixels(c1)[p] == rgb_pixels(c2)[p] by {
        assert(0 <= p.0 < (cols as int) * ts);
        assert(ts > 0) by (nonlinear_arith)
            requires
                0 <= p.0 < (cols as int) * ts,
                cols >= 0,
        ;
        lemma_grid_cell_of_index(p.0, ts, cols as int);
        lemma_grid_cell_of_index(p.1, ts, rows as int);
        let c = (p.0 / ts) as u32;
        let r = (p.1 / ts) as u32;
        let x = p.0 % ts;
        let y = p.1 % ts;
        assert((c * ts + x, r * ts + y) == p);
        assert(jpeg_tile_pixels(t1, r, c).unwrap()[(x, y)] == jpeg_tile_pixels(t2, r, c).unwrap()[(x, y)]);
    }
    assert(rgb_pixels(c1) =~= rgb_pixels(c2));
}

} // verus!
