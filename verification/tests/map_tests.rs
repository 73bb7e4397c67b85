use flocksim::map::{block_to_world, merge_blocks, Block};

fn grid_from(rows: &[&str]) -> (Vec<bool>, usize, usize) {
    let height = rows.len();
    let width = rows[0].len();
    let mut grid = Vec::new();
    for row in rows {
        for c in row.chars() {
            grid.push(c == '#');
        }
    }
    (grid, width, height)
}

fn covered(blocks: &Vec<Block>, x: u32, y: u32) -> bool {
    blocks
        .iter()
        .any(|b| b.x0 <= x && x <= b.x1 && b.y0 <= y && y <= b.y1)
}

#[test]
fn merge_covers_exactly_the_solid_cells() {
    let (grid, w, h) = grid_from(&[
        "####..",
        "....#.",
        ".##.#.",
        "....#.",
    ]);
    let blocks = merge_blocks(&grid, w, h);
    for y in 0..h {
        for x in 0..w {
            let solid = grid[y * w + x];
            assert_eq!(
                covered(&blocks, x as u32, y as u32),
                solid,
                "coverage mismatch at ({}, {})",
                x,
                y
            );
        }
    }
}

#[test]
fn merge_joins_runs() {
    // one horizontal run and one vertical run merge into one block each
    let (grid, w, h) = grid_from(&[
        "###",
        "..#",
        "..#",
    ]);
    let blocks = merge_blocks(&grid, w, h);
    // the top row merges; the column cells below extend or stand alone,
    // but nothing is lost and every block is a run
    for b in &blocks {
        assert!(b.x0 == b.x1 || b.y0 == b.y1);
        assert!(b.x1 < w as u32 && b.y1 < h as u32);
    }
    assert!(covered(&blocks, 0, 0) && covered(&blocks, 2, 2));
    assert!(!covered(&blocks, 0, 1));
}

#[test]
fn empty_grid_gives_no_blocks() {
    let (grid, w, h) = grid_from(&["...", "..."]);
    let blocks = merge_blocks(&grid, w, h);
    assert_eq!(blocks.len(), 0);
}

#[test]
fn block_placement_matches_the_tile_arithmetic() {
    // a two-cell horizontal block near the top left of a 4 by 4 grid
    let b = Block { x0: 0, y0: 0, x1: 1, y1: 0 };
    let (shape, center) = block_to_world(b, 4, 4, 64);
    assert_eq!(shape.halfsize.x, 64);
    assert_eq!(shape.halfsize.y, 32);
    assert_eq!(center.value.x, -64);
    assert_eq!(center.value.y, 96);

    // a single cell in the exact middle of a 3 by 3 grid sits at the origin
    let c = Block { x0: 1, y0: 1, x1: 1, y1: 1 };
    let (shape2, center2) = block_to_world(c, 3, 3, 10);
    assert_eq!(shape2.halfsize.x, 5);
    assert_eq!(shape2.halfsize.y, 5);
    assert_eq!(center2.value.x, 0);
    assert_eq!(center2.value.y, 0);
}
