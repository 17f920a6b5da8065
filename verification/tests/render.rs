use timepour::render::blockstack::{
    glyph_text, BlockStackRenderer, Cell, Glyph, PieceColor, PieceMotion, Preview, Tint,
    VisualState,
};


fn settled_rows(grid: &Vec<Vec<Option<PieceColor>>>) -> Vec<String> {
    grid.iter()
        .map(|row| {
            row.iter()
                .map(|c| match c {
                    None => '.',
                    Some(PieceColor::Cyan) => 'C',
                    Some(PieceColor::Orange) => 'O',
                    Some(PieceColor::Blue) => 'B',
                    Some(PieceColor::Yellow) => 'Y',
                    Some(PieceColor::Green) => 'G',
                    Some(PieceColor::Magenta) => 'M',
                    Some(PieceColor::Red) => 'R',
                })
                .collect()
        })
        .collect()
}

#[test]
fn shapes_and_colours_cycle_every_seven_pieces() {
    let r = BlockStackRenderer::new();
    assert_eq!(r.shape_for(0), vec![(0, 0), (0, 1), (0, 2), (0, 3)]);
    assert_eq!(r.shape_for(7), r.shape_for(0));
    assert_eq!(r.shape_for(4), vec![(0, 1), (0, 2), (1, 0), (1, 1)]);
    assert_eq!(r.color_for_piece(1), PieceColor::Orange);
    assert_eq!(r.color_for_piece(8), PieceColor::Orange);
    assert_eq!(r.color_for_piece(6), PieceColor::Red);
}

#[test]
fn rotation_turns_and_normalizes() {
    let l = vec![(0, 0), (1, 0), (1, 1), (1, 2)];
    assert_eq!(
        BlockStackRenderer::rotate_shape(&l, 1),
        vec![(0, 1), (0, 0), (1, 0), (2, 0)]
    );
    assert_eq!(
        BlockStackRenderer::rotate_shape(&l, 2),
        vec![(1, 2), (0, 2), (0, 1), (0, 0)]
    );
    assert_eq!(
        BlockStackRenderer::rotate_shape(&l, 3),
        vec![(2, 0), (2, 1), (1, 1), (0, 1)]
    );
    // Four quarter turns, or none, give the shape back.
    assert_eq!(BlockStackRenderer::rotate_shape(&l, 4), l);
    assert_eq!(BlockStackRenderer::rotate_shape(&l, 0), l);
    let s = vec![(0, 1), (0, 2), (1, 0), (1, 1)];
    assert_eq!(
        BlockStackRenderer::rotate_shape(&s, 1),
        vec![(1, 1), (2, 1), (0, 0), (1, 0)]
    );
    assert_eq!(BlockStackRenderer::rotate_shape(&[], 3), vec![]);
}

#[test]
fn widths_and_heights() {
    let r = BlockStackRenderer::new();
    assert_eq!(r.shape_width(&[(0, 0), (0, 1), (0, 2), (0, 3)]), 4);
    assert_eq!(r.shape_height(&[(0, 0), (0, 1), (0, 2), (0, 3)]), 1);
    assert_eq!(r.shape_width(&[(0, 1), (0, 0), (1, 0), (2, 0)]), 2);
    assert_eq!(r.shape_height(&[(0, 1), (0, 0), (1, 0), (2, 0)]), 3);
    assert_eq!(r.shape_width(&[]), 1);
    assert_eq!(r.shape_height(&[]), 1);
}

#[test]
fn capacity_of_small_boards() {
    let r = BlockStackRenderer::new();
    assert_eq!(r.piece_capacity(0, 5), 0);
    assert_eq!(r.piece_capacity(5, 0), 0);
    assert_eq!(r.piece_capacity(4, 1), 1);
    assert_eq!(r.piece_capacity(4, 2), 1);
    assert_eq!(r.piece_capacity(8, 2), 2);
    assert_eq!(r.piece_capacity(5, 5), 5);
    assert_eq!(r.piece_capacity(6, 8), 10);
    assert_eq!(r.piece_capacity(10, 6), 11);
    assert_eq!(r.piece_capacity(12, 12), 31);
}

#[test]
fn settled_pieces_pack_deterministically() {
    let r = BlockStackRenderer::new();
    assert_eq!(
        settled_rows(&r.settled_grid(8, 2, 2)),
        vec!["....O...", "CCCCOOO."]
    );
    assert_eq!(
        settled_rows(&r.settled_grid(10, 6, 5)),
        vec![
            "..........",
            "..........",
            "..........",
            "YY......GG",
            "YY..O..GGB",
            "CCCCOOOBBB",
        ]
    );
    assert_eq!(settled_rows(&r.settled_grid(3, 2, 0)), vec!["...", "..."]);
    let full = r.settled_grid(12, 12, 31);
    let filled = full.iter().flatten().filter(|c| c.is_some()).count();
    assert_eq!(filled, 124);
}

#[test]
fn the_stack_only_grows() {
    let r = BlockStackRenderer::new();
    let mut previous = r.settled_grid(10, 6, 0);
    for n in 1..=11 {
        let next = r.settled_grid(10, 6, n);
        for (row_before, row_after) in previous.iter().zip(next.iter()) {
            for (before, after) in row_before.iter().zip(row_after.iter()) {
                if before.is_some() {
                    assert_eq!(before, after);
                }
            }
        }
        previous = next;
    }
}

#[test]
fn placement_prefers_the_deepest_spot() {
    let r = BlockStackRenderer::new();
    let empty = r.settled_grid(10, 6, 0);
    assert_eq!(r.choose_placement(&empty, &r.shape_for(0), 0), (0, 0));
    let grid = r.settled_grid(10, 6, 5);
    let (col, rot) = r.choose_placement(&grid, &r.shape_for(5), 5);
    assert_eq!((col, rot), (5, 2));
    let shape = BlockStackRenderer::rotate_shape(&r.shape_for(5), rot);
    assert_eq!(r.find_landing_row(&grid, &shape, col), Some(3));
    assert_eq!(r.count_contacts(&grid, &shape, 3, col), 4);
}

#[test]
fn landing_and_collisions() {
    let r = BlockStackRenderer::new();
    let grid = r.settled_grid(8, 2, 1);
    let i_piece = vec![(0, 0), (0, 1), (0, 2), (0, 3)];
    assert!(r.collides(&grid, &i_piece, 1, 0));
    assert!(!r.collides(&grid, &i_piece, 0, 0));
    assert!(r.collides(&grid, &i_piece, 0, 5));
    assert_eq!(r.find_landing_row(&grid, &i_piece, 0), Some(0));
    assert_eq!(r.find_landing_row(&grid, &i_piece, 4), Some(1));
    assert_eq!(r.find_landing_row(&grid, &i_piece, 5), None);
    // The O piece beside the I piece: its bottom cells touch the floor (2)
    // and the I piece on the left (1).
    let o_piece = vec![(0, 0), (0, 1), (1, 0), (1, 1)];
    assert_eq!(r.count_contacts(&grid, &o_piece, 0, 4), 3);
}

#[test]
fn place_piece_fills_where_it_lands() {
    let r = BlockStackRenderer::new();
    let mut grid = r.settled_grid(4, 3, 0);
    r.place_piece(&mut grid, &[(0, 0), (0, 1), (1, 0), (1, 1)], 1, PieceColor::Yellow);
    assert_eq!(settled_rows(&grid), vec!["....", ".YY.", ".YY."]);
    // A piece that does not fit at the top leaves the grid as it is.
    let mut full = r.settled_grid(4, 1, 1);
    r.place_piece(&mut full, &[(0, 0)], 2, PieceColor::Red);
    assert_eq!(settled_rows(&full), vec!["CCCC"]);
}

#[test]
fn active_placement_describes_the_falling_piece() {
    let r = BlockStackRenderer::new();
    let p = r.active_placement(10, 6, 5, VisualState::Running).unwrap();
    assert_eq!(p.piece_index, 5);
    assert_eq!(p.spawn_col, 5);
    assert_eq!(p.rot, 2);
    assert_eq!(p.landing_row, 3);
    assert_eq!(p.start_col, 3);
    assert_eq!(p.final_shape, vec![(1, 1), (0, 2), (0, 1), (0, 0)]);
    assert_eq!(p.color, PieceColor::Magenta);
    assert!(r.active_placement(10, 6, 11, VisualState::Running).is_none());
    assert!(r.active_placement(0, 6, 0, VisualState::Running).is_none());

    let q = r.active_placement(10, 6, 3, VisualState::Running).unwrap();
    assert_eq!((q.spawn_col, q.rot, q.landing_row, q.start_col), (0, 0, 3, 4));
    assert_eq!(q.color, PieceColor::Yellow);

    // No piece falls unless the session runs.
    assert!(r.active_placement(10, 6, 5, VisualState::Paused).is_none());
    assert!(r.active_placement(10, 6, 5, VisualState::Completed).is_none());
}

#[test]
fn active_piece_follows_its_motion() {
    let r = BlockStackRenderer::new();
    let p = r.active_placement(10, 6, 5, VisualState::Running).unwrap();
    let top = r.active_piece_at(
        &p,
        PieceMotion { fall_row: 0, glide_col: 3, turn: 0 },
        10,
        6,
    );
    // The T piece unturned at (0, 3).
    assert_eq!(top.cells, vec![(0, 4), (1, 3), (1, 4), (1, 5)]);
    assert_eq!(top.color, PieceColor::Magenta);
    assert_eq!(top.landing_row, 3);
    assert_eq!(top.spawn_col, 5);
    // Motion beyond the landing row and the final turn is capped; a negative column is 0.
    let capped = r.active_piece_at(
        &p,
        PieceMotion { fall_row: 50, glide_col: -4, turn: 3 },
        10,
        6,
    );
    assert_eq!(capped.cells, vec![(4, 1), (3, 2), (3, 1), (3, 0)]);
    // Cells beyond the board are left out.
    let edge = r.active_piece_at(
        &p,
        PieceMotion { fall_row: 3, glide_col: 9, turn: 2 },
        10,
        6,
    );
    assert_eq!(edge.cells, vec![(3, 9)]);
}

#[test]
fn frame_shows_pieces_stack_and_wireframe() {
    let r = BlockStackRenderer::new();
    assert!(r.build_frame(0, 6, 0, None, VisualState::Running).is_empty());
    assert!(r.build_frame(6, 0, 0, None, VisualState::Running).is_empty());

    let p = r.active_placement(10, 6, 5, VisualState::Running).unwrap();
    let a = r.active_piece_at(&p, PieceMotion { fall_row: 0, glide_col: 3, turn: 0 }, 10, 6);
    let frame = r.build_frame(10, 6, 5, Some(&a), VisualState::Running);
    assert_eq!(frame.len(), 6);
    assert!(frame.iter().all(|row| row.len() == 10));
    let solid = |c| Cell { glyph: Glyph::Solid, tint: Tint::Piece(c) };
    let wire = Cell { glyph: Glyph::Wire, tint: Tint::DarkGray };
    let blank = Cell { glyph: Glyph::Blank, tint: Tint::Plain };
    assert_eq!(frame[0][4], solid(PieceColor::Magenta));
    assert_eq!(frame[1][3], solid(PieceColor::Magenta));
    assert_eq!(frame[0][0], blank);
    assert_eq!(frame[5][0], solid(PieceColor::Cyan));
    // The landing place of the T piece, turned twice, at (3, 5).
    assert_eq!(frame[3][5], wire);
    assert_eq!(frame[3][6], wire);
    assert_eq!(frame[3][7], wire);
    assert_eq!(frame[4][6], wire);
    assert_eq!(frame[3][8], solid(PieceColor::Green));

    let paused = r.build_frame(10, 6, 5, None, VisualState::Paused);
    assert_eq!(paused[5][0], Cell { glyph: Glyph::Shaded, tint: Tint::DarkGray });
    assert_eq!(paused[3][5], blank);
    let done = r.build_frame(10, 6, 5, Some(&a), VisualState::Completed);
    assert_eq!(done[5][0], Cell { glyph: Glyph::Solid, tint: Tint::DarkGray });
    // No wireframe unless running.
    assert_eq!(done[3][5], blank);
    // Nor a falling piece, even one that is handed in.
    assert_eq!(done[0][4], blank);
    assert_eq!(done[1][3], blank);
    let paused_with_piece = r.build_frame(10, 6, 5, Some(&a), VisualState::Paused);
    assert_eq!(paused_with_piece[0][4], blank);
    assert_eq!(paused_with_piece[3][8], Cell { glyph: Glyph::Shaded, tint: Tint::DarkGray });
}

#[test]
fn count_contacts_counts_overlapping_and_open_placements() {
    let r = BlockStackRenderer::new();
    // The I piece on an empty board of one row and four columns: four floor
    // contacts, one on each wall.
    let line = r.settled_grid(4, 1, 0);
    assert_eq!(r.count_contacts(&line, &[(0, 0), (0, 1), (0, 2), (0, 3)], 0, 0), 6);
    // A placement that overlaps settled blocks is counted too: the O piece over
    // the I piece in the bottom row of a board of two rows.
    let grid = r.settled_grid(8, 2, 1);
    assert_eq!(r.count_contacts(&grid, &[(0, 0), (0, 1), (1, 0), (1, 1)], 0, 0), 9);
    // An empty shape has no contacts.
    assert_eq!(r.count_contacts(&grid, &[], 0, 0), 0);
}

#[test]
fn large_offsets_drop_and_place() {
    let r = BlockStackRenderer::new();
    let grid = r.settled_grid(4, 3, 0);
    // A cell far below the board: the shape never fits.
    assert_eq!(r.find_landing_row(&grid, &[(0, 0), (500, 0)], 0), None);
    assert_eq!(r.find_landing_row(&grid, &[(u16::MAX, 0)], 0), None);
    let mut same = grid.clone();
    r.place_piece(&mut same, &[(0, 0), (500, 0)], 0, PieceColor::Red);
    assert_eq!(same, grid);
    // An empty shape rests on the floor.
    assert_eq!(r.find_landing_row(&grid, &[], 1), Some(2));
}

#[test]
fn preview_shows_the_piece_after_next() {
    let r = BlockStackRenderer::new();
    match r.build_next_piece_preview(10, 6, 0) {
        Preview::Piece(lines) => {
            // Piece 1 (L) one row down.
            let o = Some(PieceColor::Orange);
            assert_eq!(
                lines,
                vec![
                    vec![None, None, None, None],
                    vec![o, None, None, None],
                    vec![o, o, o, None],
                    vec![None, None, None, None],
                ]
            );
        }
        Preview::Blank => panic!("the board is not full"),
    }
    match r.build_next_piece_preview(10, 6, 6) {
        Preview::Piece(lines) => {
            // Piece 7 (I) in the top row.
            let c = Some(PieceColor::Cyan);
            assert_eq!(lines[0], vec![c, c, c, c]);
            assert_eq!(lines[1], vec![None, None, None, None]);
        }
        Preview::Blank => panic!("the board is not full"),
    }
    assert!(matches!(r.build_next_piece_preview(10, 6, 11), Preview::Blank));
    assert!(matches!(r.build_next_piece_preview(0, 0, 0), Preview::Blank));
}

#[test]
fn glyph_texts() {
    assert_eq!(glyph_text(Glyph::Solid), "██");
    assert_eq!(glyph_text(Glyph::Shaded), "░░");
    assert_eq!(glyph_text(Glyph::Wire), "[]");
    assert_eq!(glyph_text(Glyph::Blank), "  ");
}

#[test]
fn each_settled_piece_shows_four_blocks() {
    let r = BlockStackRenderer::new();
    for (cols, rows) in [(10u16, 6u16), (6, 8), (5, 5), (8, 2)] {
        let capacity = r.piece_capacity(cols, rows);
        for n in 0..=capacity {
            let grid = r.settled_grid(cols, rows, n);
            let blocks = grid.iter().flatten().filter(|c| c.is_some()).count();
            assert_eq!(blocks, 4 * n as usize);
        }
    }
}

#[test]
fn a_full_board_falls_back_to_the_first_column() {
    let r = BlockStackRenderer::new();
    // One row, already filled by the I piece: nothing fits at the top.
    let full = r.settled_grid(4, 1, 1);
    assert_eq!(r.choose_placement(&full, &r.shape_for(1), 1), (0, 0));
}
