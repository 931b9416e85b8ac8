use wavefunctioncollapse::tiles::{Glyph, State};
use wavefunctioncollapse::wave::{
    CellState, EdgeOutcome, Point, StepOutcome, WaveFunction, RIGHT,
};

fn tile(id: usize, glyph: &str, projs: [&[usize]; 4], k: usize) -> State {
    let projections: Vec<Vec<usize>> = projs.iter().map(|p| p.to_vec()).collect();
    State::new(id, Glyph::new(String::new(), glyph.to_string()), &projections, k)
}

/// Two tiles that each tolerate only themselves: a 1x2 torus must
/// resolve both cells to the same tile.
#[test]
fn matching_pair_resolves_identically() {
    let states = vec![
        tile(0, "a", [&[0], &[0], &[0], &[0]], 2),
        tile(1, "b", [&[1], &[1], &[1], &[1]], 2),
    ];
    let mut wf = WaveFunction::new(states, 1, 2, 5, false);
    wf.run_to_completion().unwrap();
    let a = wf.stateAt(&Point::new(0, 0));
    let b = wf.stateAt(&Point::new(0, 1));
    assert_eq!(a, b);
}

/// A single self-compatible tile: one step settles the whole 3x3 grid.
#[test]
fn single_tile_resolves_in_one_step() {
    let states = vec![tile(0, "#", [&[0], &[0], &[0], &[0]], 1)];
    let mut wf = WaveFunction::new(states, 3, 3, 0, false);
    let outcome = wf.step();
    assert_eq!(outcome, StepOutcome::Done);
    for y in 0..3 {
        for x in 0..3 {
            assert_eq!(wf.cell_state(&Point::new(y, x)), CellState::Resolved(0));
        }
    }
}

/// Tile 1 forbids any right neighbor: collapsing a cell to it empties
/// the neighbor's candidate set and the attempt fails.
#[test]
fn forbidden_neighbor_contradicts() {
    let states = vec![
        tile(0, "a", [&[0, 1], &[0, 1], &[0], &[0, 1]], 2),
        tile(1, "b", [&[0, 1], &[0, 1], &[], &[0, 1]], 2),
    ];
    // seed 1 makes the first collapse pick tile 1
    let mut wf = WaveFunction::new(states, 2, 2, 1, false);
    let err = wf.run_to_completion().unwrap_err();
    assert_eq!(wf.cell_state(&err.p), CellState::Contradiction);
    assert_eq!(err.p, Point::new(0, 1));
}

/// After recycling, the new top row reports full superposition (the
/// tiles here constrain nothing, so re-propagation removes nothing),
/// and a second run resolves it again.
#[test]
fn recycle_superposes_top_row() {
    let states = vec![
        tile(0, "a", [&[0, 1], &[0, 1], &[0, 1], &[0, 1]], 2),
        tile(1, "b", [&[0, 1], &[0, 1], &[0, 1], &[0, 1]], 2),
    ];
    let mut wf = WaveFunction::new(states, 3, 4, 9, true);
    wf.run_to_completion().unwrap();
    wf.recycle_edge_row().unwrap();
    assert_eq!(wf.top, 2);
    for x in 0..4 {
        assert_eq!(wf.cell_state(&Point::new(2, x)), CellState::Superposed(2));
        match wf.cell_state(&Point::new(0, x)) {
            CellState::Resolved(_) => {},
            other => panic!("row 0 should stay resolved, got {:?}", other),
        }
    }
    wf.run_to_completion().unwrap();
    for x in 0..4 {
        match wf.cell_state(&Point::new(2, x)) {
            CellState::Resolved(_) => {},
            other => panic!("recycled row should resolve, got {:?}", other),
        }
    }
}

/// A strict checkerboard tile set: after recycling, the regenerated row
/// is consistent with its real resolved neighbor row.
#[test]
fn recycle_keeps_consistency() {
    let states = vec![
        tile(0, "a", [&[1], &[1], &[1], &[1]], 2),
        tile(1, "b", [&[0], &[0], &[0], &[0]], 2),
    ];
    let mut wf = WaveFunction::new(states, 4, 4, 3, true);
    wf.run_to_completion().unwrap();
    wf.recycle_edge_row().unwrap();
    wf.run_to_completion().unwrap();
    let top = wf.top;
    let below = (top + 1) % 4;
    for x in 0..4 {
        let a = wf.stateAt(&Point::new(top, x));
        let b = wf.stateAt(&Point::new(below, x));
        assert_eq!(a, 1 - b, "vertical neighbors must alternate");
        let r = wf.stateAt(&Point::new(top, (x + 1) % 4));
        assert_eq!(a, 1 - r, "horizontal neighbors must alternate");
    }
}

/// A strict checkerboard needs even cycles: on a full torus with an
/// odd number of rows the vertical cycles are odd, and the attempt
/// must end in a contradiction.
#[test]
fn odd_torus_checkerboard_contradicts() {
    let states = vec![
        tile(0, "a", [&[1], &[1], &[1], &[1]], 2),
        tile(1, "b", [&[0], &[0], &[0], &[0]], 2),
    ];
    let mut wf = WaveFunction::new(states, 3, 4, 3, false);
    assert!(wf.run_to_completion().is_err());
}

/// The same odd-row checkerboard resolves once the seam above the top
/// row is broken: the vertical cycles become paths.
#[test]
fn broken_seam_allows_odd_rows() {
    let states = vec![
        tile(0, "a", [&[1], &[1], &[1], &[1]], 2),
        tile(1, "b", [&[0], &[0], &[0], &[0]], 2),
    ];
    let mut wf = WaveFunction::new(states, 3, 4, 3, true);
    wf.run_to_completion().unwrap();
    for y in 0..2 {
        for x in 0..4 {
            let a = wf.stateAt(&Point::new(y, x));
            let b = wf.stateAt(&Point::new(y + 1, x));
            assert_eq!(a, 1 - b);
        }
    }
}

/// Every cell resolves exactly once, and each resolution is notified
/// exactly once.
#[test]
fn events_fire_once_per_resolution() {
    let states = vec![
        tile(0, "a", [&[0, 1], &[0, 1], &[0, 1], &[0, 1]], 2),
        tile(1, "b", [&[0, 1], &[0, 1], &[0, 1], &[0, 1]], 2),
    ];
    let mut wf = WaveFunction::new(states, 2, 2, 11, false);
    wf.run_to_completion().unwrap();
    let events = wf.events();
    assert_eq!(events.len(), 4);
    let mut seen: Vec<(usize, usize)> = events.iter().map(|e| (e.p.y, e.p.x)).collect();
    seen.sort();
    assert_eq!(seen, vec![(0, 0), (0, 1), (1, 0), (1, 1)]);
    for e in events.iter() {
        assert_eq!(wf.cell_state(&e.p), CellState::Resolved(e.tile));
    }
}

/// The entropy pick takes the first cell of the lowest non-trivial
/// bucket and reserves it, and a direct collapse resolves it.
#[test]
fn lowest_entropy_pick_and_collapse() {
    let states = vec![
        tile(0, "a", [&[0, 1, 2], &[0, 1, 2], &[0, 1, 2], &[0, 1, 2]], 3),
        tile(1, "b", [&[0, 1, 2], &[0, 1, 2], &[0, 1, 2], &[0, 1, 2]], 3),
        tile(2, "c", [&[0, 1, 2], &[0, 1, 2], &[0, 1, 2], &[0, 1, 2]], 3),
    ];
    let mut wf = WaveFunction::new(states, 2, 2, 7, false);
    let p = wf.getLowestEntropy().unwrap();
    assert_eq!(p, Point::new(0, 0));
    assert!(wf.is_superpositioned(&p));
    wf.collapseAt(&p).unwrap();
    assert!(!wf.is_superpositioned(&p));
    assert!(wf.stateAt(&p) < 3);
}

/// Propagating again with nothing changed changes nothing.
#[test]
fn propagation_is_idempotent() {
    let states = vec![
        tile(0, "a", [&[0, 1], &[0, 1], &[0, 1], &[0, 1]], 2),
        tile(1, "b", [&[0, 1], &[0, 1], &[0, 1], &[0, 1]], 2),
    ];
    let mut wf = WaveFunction::new(states, 3, 3, 13, false);
    wf.run_to_completion().unwrap();
    let before: Vec<CellState> = (0..3)
        .flat_map(|y| (0..3).map(move |x| (y, x)))
        .map(|(y, x)| wf.cell_state(&Point::new(y, x)))
        .collect();
    let events_before = wf.events().len();
    wf.projectState(&Point::new(1, 1)).unwrap();
    let after: Vec<CellState> = (0..3)
        .flat_map(|y| (0..3).map(move |x| (y, x)))
        .map(|(y, x)| wf.cell_state(&Point::new(y, x)))
        .collect();
    assert_eq!(before, after);
    assert_eq!(wf.events().len(), events_before);
}

/// The projected allowed set is the union of the projections of the
/// tiles still possible at the source cell.
#[test]
fn projection_unions_member_tiles() {
    let states = vec![
        tile(0, "a", [&[0, 1], &[0, 1], &[1], &[0, 1]], 2),
        tile(1, "b", [&[0, 1], &[0, 1], &[], &[0, 1]], 2),
    ];
    let wf = WaveFunction::new(states, 1, 2, 0, false);
    let proj = wf.projection_ss(&Point::new(0, 0), RIGHT);
    assert_eq!(proj.states(), vec![1]);
}

/// Enforcing one edge intersects the neighbor with the projection,
/// reserves the entropy move, and notifies the resolution.
#[test]
fn projectdir_reduces_neighbor() {
    let states = vec![
        tile(0, "a", [&[0, 1], &[0, 1], &[1], &[0, 1]], 2),
        tile(1, "b", [&[0, 1], &[0, 1], &[], &[0, 1]], 2),
    ];
    let mut wf = WaveFunction::new(states, 2, 2, 0, false);
    match wf.projectdir(&Point::new(0, 0), RIGHT) {
        EdgeOutcome::Reduced(q, newc) => {
            assert_eq!(q, Point::new(0, 1));
            assert_eq!(newc, 1);
        },
        other => panic!("expected a reduction, got {:?}", other),
    }
    assert_eq!(wf.cell_state(&Point::new(0, 1)), CellState::Resolved(1));
    assert_eq!(wf.events().len(), 1);
    assert_eq!(wf.events()[0].p, Point::new(0, 1));
    assert_eq!(wf.events()[0].tile, 1);
}

/// The plain driver loop: collapse while possible; on this gradient
/// tile set the result is either a full resolution whose neighbors
/// differ by at most one step, or a reported contradiction.
#[test]
fn gradient_driver_loop() {
    let states = vec![
        tile(0, "0", [&[0, 1], &[0, 1], &[0, 1], &[0, 1]], 3),
        tile(1, "1", [&[0, 1, 2], &[0, 1, 2], &[0, 1, 2], &[0, 1, 2]], 3),
        tile(2, "2", [&[1, 2], &[1, 2], &[1, 2], &[1, 2]], 3),
    ];
    let mut wf = WaveFunction::new(states, 4, 6, 2, false);
    while wf.collapseMaybe() {}
    let mut contradicted = false;
    for y in 0..4 {
        for x in 0..6 {
            if wf.cell_state(&Point::new(y, x)) == CellState::Contradiction {
                contradicted = true;
            }
        }
    }
    if !contradicted {
        for y in 0..4usize {
            for x in 0..6usize {
                let v = wf.stateAt(&Point::new(y, x)) as i64;
                let r = wf.stateAt(&Point::new(y, (x + 1) % 6)) as i64;
                let d = wf.stateAt(&Point::new((y + 1) % 4, x)) as i64;
                assert!((v - r).abs() <= 1);
                assert!((v - d).abs() <= 1);
            }
        }
    }
}

/// The same seed gives the same generation.
#[test]
fn same_seed_same_grid() {
    let mk = || {
        vec![
            tile(0, "0", [&[0, 1], &[0, 1], &[0, 1], &[0, 1]], 3),
            tile(1, "1", [&[0, 1, 2], &[0, 1, 2], &[0, 1, 2], &[0, 1, 2]], 3),
            tile(2, "2", [&[1, 2], &[1, 2], &[1, 2], &[1, 2]], 3),
        ]
    };
    let mut a = WaveFunction::new(mk(), 3, 3, 42, false);
    let mut b = WaveFunction::new(mk(), 3, 3, 42, false);
    let _ = a.run_to_completion();
    let _ = b.run_to_completion();
    for y in 0..3 {
        for x in 0..3 {
            assert_eq!(
                a.cell_state(&Point::new(y, x)),
                b.cell_state(&Point::new(y, x))
            );
        }
    }
}

/// A fresh wave function: every cell fully superposed, nothing
/// resolved, no notification yet.
#[test]
fn fresh_grid_is_fully_superposed() {
    let states = vec![
        tile(0, "a", [&[0, 1], &[0, 1], &[0, 1], &[0, 1]], 2),
        tile(1, "b", [&[0, 1], &[0, 1], &[0, 1], &[0, 1]], 2),
    ];
    let wf = WaveFunction::new(states, 2, 3, 0, false);
    assert_eq!(wf.top, 0);
    assert!(wf.events().is_empty());
    for y in 0..2 {
        for x in 0..3 {
            let p = Point::new(y, x);
            assert!(wf.is_superpositioned(&p));
            assert_eq!(wf.cell_state(&p), CellState::Superposed(2));
            assert_eq!(wf.ss_ref(&p).count(), 2);
        }
    }
}

/// The glyph is the color prefix joined to the printed text, and a
/// resolved cell hands out its tile's glyph.
#[test]
fn glyphs_render_from_resolved_cells() {
    let g = Glyph::new(String::from("\x1b[44m"), String::from("#"));
    assert_eq!(g.glyph(), "\x1b[44m#");
    let states = vec![tile(0, "#", [&[0], &[0], &[0], &[0]], 1)];
    let mut wf = WaveFunction::new(states, 2, 2, 0, false);
    wf.run_to_completion().unwrap();
    let p = Point::new(1, 1);
    assert_eq!(wf.stateAt(&p), 0);
    assert_eq!(wf.glyphAt(&p).glyph(), "#");
}
