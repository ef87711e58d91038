use rand::rngs::StdRng;
use rand::SeedableRng;
use wfc::color::WfcColor;
use wfc::error::ConfigError;
use wfc::sample::Sample;
use wfc::tileset::{Adjacent, Direction, Tile, Tileset};
use wfc::wave::{ContradictionError, RunState, Step, WaveFunction};

const BACKGROUND: (u8, u8, u8) = (0, 0, 200);
const ARM: (u8, u8, u8) = (0, 180, 0);
const CENTER: (u8, u8, u8) = (220, 0, 0);

/// A 10 by 10 raster of 2 by 2 blocks: a plus sign whose center block and
/// arm blocks have their own colours, on a uniform background.
fn plus_bytes() -> Vec<u8> {
    let mut data = Vec::new();
    for y in 0..10usize {
        for x in 0..10usize {
            let (bx, by) = (x / 2, y / 2);
            let c = if bx == 2 && by == 2 {
                CENTER
            } else if bx == 2 || by == 2 {
                ARM
            } else {
                BACKGROUND
            };
            data.extend_from_slice(&[c.0, c.1, c.2]);
        }
    }
    data
}

fn plus_tileset() -> Tileset {
    let sample = Sample::from_rgb(10, 10, &plus_bytes()).unwrap();
    Tileset::from_sample(&sample, 2).unwrap()
}

fn uniform_tileset(side: usize, size: usize) -> Tileset {
    let data = vec![7u8; side * side * 3];
    let sample = Sample::from_rgb(side, side, &data).unwrap();
    Tileset::from_sample(&sample, size).unwrap()
}

fn run_to_end(wf: &mut WaveFunction, rng: &mut StdRng) -> Result<usize, ContradictionError> {
    let mut steps = 0usize;
    loop {
        match wf.collapse(rng)? {
            Step::Done => return Ok(steps),
            Step::Progress => steps += 1,
        }
        assert!(steps < 10_000, "run did not end");
    }
}

fn resolved_grid(wf: &WaveFunction) -> Vec<Option<usize>> {
    let (w, h) = wf.shape();
    let mut out = Vec::new();
    for x in 0..w {
        for y in 0..h {
            out.push(wf.resolved_tile(x, y));
        }
    }
    out
}

fn block_colors(ts: &Tileset, t: usize) -> Vec<(u8, u8, u8)> {
    ts.tile(t).get_image().iter().map(|c| c.get()).collect()
}

/// Two tiles that admit only the border on every side.
fn exclusive_pair() -> Tileset {
    let mk = |c: u8| {
        Tile::new(
            vec![WfcColor::new(c, c, c)],
            vec![Adjacent::Border],
            vec![Adjacent::Border],
            vec![Adjacent::Border],
            vec![Adjacent::Border],
        )
    };
    Tileset::from_tiles(vec![mk(10), mk(20)], 1).unwrap()
}

#[test]
fn plus_sample_yields_three_tiles() {
    let ts = plus_tileset();
    assert_eq!(ts.len(), 3);
    assert_eq!(ts.tile_size(), 2);
    // ids follow first appearance, row by row: background, arm, center
    assert_eq!(block_colors(&ts, 0), vec![BACKGROUND; 4]);
    assert_eq!(block_colors(&ts, 1), vec![ARM; 4]);
    assert_eq!(block_colors(&ts, 2), vec![CENTER; 4]);
}

#[test]
fn plus_sample_adjacency() {
    let ts = plus_tileset();
    let all = [Direction::Up, Direction::Down, Direction::Left, Direction::Right];
    for d in all {
        // the center block is surrounded by arm blocks only
        assert_eq!(ts.allowed_neighbors(2, d), &vec![Adjacent::Tile(1)]);
        assert!(!ts.is_border_allowed(2, d));
        // background and arms touch every edge of the sample
        assert!(ts.is_border_allowed(0, d));
        assert!(ts.is_border_allowed(1, d));
        // background never touches the center
        assert!(!ts.allowed_neighbors(0, d).contains(&Adjacent::Tile(2)));
    }
}

#[test]
fn adjacency_is_symmetric() {
    let ts = plus_tileset();
    let all = [Direction::Up, Direction::Down, Direction::Left, Direction::Right];
    for a in 0..ts.len() {
        for b in 0..ts.len() {
            for d in all {
                assert_eq!(
                    ts.allowed_neighbors(a, d).contains(&Adjacent::Tile(b)),
                    ts.allowed_neighbors(b, d.opposite()).contains(&Adjacent::Tile(a))
                );
            }
        }
    }
}

#[test]
fn plus_model_run_ends_done() {
    for seed in 0..20u64 {
        let mut wf = WaveFunction::new((4, 4), plus_tileset()).unwrap();
        let mut rng = StdRng::seed_from_u64(seed);
        let steps = run_to_end(&mut wf, &mut rng).expect("no contradiction");
        assert!(steps <= 16);
        assert!(wf.done());
        assert_eq!(wf.state(), RunState::Done);
        for x in 0..4 {
            for y in 0..4 {
                assert_eq!(wf.entropy_at(x, y), 1);
            }
        }
        // a finished run stays finished
        assert_eq!(wf.collapse(&mut rng), Ok(Step::Done));
    }
}

#[test]
fn done_grid_respects_borders() {
    let mut wf = WaveFunction::new((5, 4), plus_tileset()).unwrap();
    let mut rng = StdRng::seed_from_u64(3);
    run_to_end(&mut wf, &mut rng).unwrap();
    let (w, h) = wf.shape();
    let ts = wf.tileset();
    for x in 0..w {
        for y in 0..h {
            let t = wf.resolved_tile(x, y).unwrap();
            if x == 0 {
                assert!(ts.is_border_allowed(t, Direction::Left));
            }
            if x + 1 == w {
                assert!(ts.is_border_allowed(t, Direction::Right));
            }
            if y == 0 {
                assert!(ts.is_border_allowed(t, Direction::Up));
            }
            if y + 1 == h {
                assert!(ts.is_border_allowed(t, Direction::Down));
            }
            // the center tile never sits on the edge
            if x == 0 || y == 0 || x + 1 == w || y + 1 == h {
                assert_ne!(t, 2);
            }
        }
    }
}

#[test]
fn same_seed_same_grid() {
    let run = |seed: u64| {
        let mut wf = WaveFunction::new((6, 6), plus_tileset()).unwrap();
        let mut rng = StdRng::seed_from_u64(seed);
        run_to_end(&mut wf, &mut rng).unwrap();
        resolved_grid(&wf)
    };
    assert_eq!(run(11), run(11));
    assert_eq!(run(42), run(42));
}

#[test]
fn entropy_matches_flags_between_steps() {
    let mut wf = WaveFunction::new((4, 5), plus_tileset()).unwrap();
    let mut rng = StdRng::seed_from_u64(5);
    let n = wf.tileset().len();
    loop {
        for x in 0..4 {
            for y in 0..5 {
                let count = (0..n).filter(|&t| wf.is_possible(x, y, t)).count();
                assert_eq!(wf.entropy_at(x, y), count);
            }
        }
        if wf.collapse(&mut rng).unwrap() == Step::Done {
            break;
        }
    }
}

#[test]
fn mutually_exclusive_tiles_contradict() {
    let mut wf = WaveFunction::new((2, 1), exclusive_pair()).unwrap();
    assert_eq!(wf.state(), RunState::Running);
    assert_eq!(wf.entropy_at(0, 0), 2);
    assert_eq!(wf.entropy_at(1, 0), 2);
    let r = wf.collapse_at(0, 0, 0);
    assert_eq!(r, Err(ContradictionError { x: 1, y: 0 }));
    assert_eq!(wf.state(), RunState::Contradiction);
    assert_eq!(wf.entropy_at(1, 0), 0);
    // the failed run keeps reporting the same cell
    let mut rng = StdRng::seed_from_u64(1);
    assert_eq!(wf.collapse(&mut rng), Err(ContradictionError { x: 1, y: 0 }));
}

#[test]
fn single_tile_model_finishes_at_once() {
    let ts = uniform_tileset(4, 2);
    assert_eq!(ts.len(), 1);
    let all = [Direction::Up, Direction::Down, Direction::Left, Direction::Right];
    for d in all {
        assert!(ts.is_border_allowed(0, d));
        assert!(ts.allowed_neighbors(0, d).contains(&Adjacent::Tile(0)));
    }
    let mut wf = WaveFunction::new((7, 3), ts).unwrap();
    assert_eq!(wf.state(), RunState::Running);
    let mut rng = StdRng::seed_from_u64(0);
    assert_eq!(wf.collapse(&mut rng), Ok(Step::Done));
    assert_eq!(resolved_grid(&wf), vec![Some(0); 21]);
}

#[test]
fn propagating_again_changes_nothing() {
    let mut wf = WaveFunction::new((5, 5), plus_tileset()).unwrap();
    wf.collapse_at(2, 2, 2).unwrap();
    let snapshot = |wf: &WaveFunction| {
        let mut v = Vec::new();
        for x in 0..5 {
            for y in 0..5 {
                for t in 0..3 {
                    v.push(wf.is_possible(x, y, t));
                }
            }
        }
        v
    };
    let before = snapshot(&wf);
    for (x, y) in [(2, 2), (1, 2), (0, 0), (4, 4)] {
        assert_eq!(wf.propagate(x, y), Ok(()));
        assert_eq!(snapshot(&wf), before);
    }
}

#[test]
fn fixing_the_center_forces_arms() {
    let mut wf = WaveFunction::new((3, 3), plus_tileset()).unwrap();
    // the center tile may not touch the edge, so only the middle cell can hold it
    assert!(wf.is_possible(1, 1, 2));
    assert!(!wf.is_possible(0, 1, 2));
    assert_eq!(wf.collapse_at(1, 1, 2), Ok(Step::Progress));
    assert_eq!(wf.resolved_tile(1, 1), Some(2));
    for (x, y) in [(0, 1), (2, 1), (1, 0), (1, 2)] {
        assert_eq!(wf.resolved_tile(x, y), Some(1));
    }
    // corners keep background and arm
    assert_eq!(wf.possible_tiles(0, 0), vec![0, 1]);
}

#[test]
fn min_entropy_cells_lists_ties_in_order() {
    let wf = WaveFunction::new((3, 3), plus_tileset()).unwrap();
    // edge cells hold two tiles, the middle cell three
    assert_eq!(wf.entropy_at(1, 1), 3);
    assert_eq!(wf.entropy_at(0, 0), 2);
    assert_eq!(
        wf.min_entropy_cells(),
        vec![(0, 0), (0, 1), (0, 2), (1, 0), (1, 2), (2, 0), (2, 1), (2, 2)]
    );
    assert_eq!(wf.possible_tiles(1, 1), vec![0, 1, 2]);
}

#[test]
fn from_png_builds_a_grid() {
    // a 6 by 3 raster: two 3 by 3 blocks side by side
    let mut data = Vec::new();
    for _y in 0..3 {
        for x in 0..6 {
            if x < 3 {
                data.extend_from_slice(&[255, 0, 0]);
            } else {
                data.extend_from_slice(&[0, 0, 255]);
            }
        }
    }
    let wf = WaveFunction::from_png((2, 2), 6, 3, &data).unwrap();
    assert_eq!(wf.shape(), (2, 2));
    assert_eq!(wf.tileset().len(), 2);
    assert_eq!(wf.tileset().tile(0).get_image()[0].symbol(), 'R');
    assert_eq!(wf.tileset().tile(1).get_image()[0].symbol(), 'B');
    // red admits blue on its right only; blue admits red on its left only
    assert_eq!(wf.tileset().allowed_neighbors(0, Direction::Right), &vec![Adjacent::Tile(1)]);
    assert_eq!(wf.tileset().allowed_neighbors(1, Direction::Left), &vec![Adjacent::Tile(0)]);
    // so the left column holds red and the right column blue
    assert_eq!(wf.resolved_tile(0, 0), Some(0));
    assert_eq!(wf.resolved_tile(1, 1), Some(1));
}

#[test]
fn raster_errors() {
    assert_eq!(Sample::from_rgb(2, 2, &vec![0u8; 16]).err(), Some(ConfigError::AlphaChannel));
    assert_eq!(Sample::from_rgb(2, 2, &vec![0u8; 11]).err(), Some(ConfigError::NotRgb));
    let s = Sample::from_rgb(2, 1, &vec![1, 2, 3, 4, 5, 6]).unwrap();
    assert_eq!(s.get_pixel(1, 0).get(), (4, 5, 6));
    assert_eq!(s.get_width(), 2);
    assert_eq!(s.get_height(), 1);
}

#[test]
fn tile_size_errors() {
    let s = Sample::from_rgb(4, 6, &vec![0u8; 72]).unwrap();
    assert_eq!(Tileset::from_sample(&s, 0).err(), Some(ConfigError::ZeroTileSize));
    assert_eq!(Tileset::from_sample(&s, 4).err(), Some(ConfigError::NotTileMultiple));
    assert_eq!(Tileset::from_sample(&s, 2).map(|t| t.len()).ok(), Some(1));
    assert_eq!(
        WaveFunction::from_png((2, 2), 4, 4, &vec![0u8; 48]).err(),
        Some(ConfigError::NotTileMultiple)
    );
}

#[test]
fn grid_shape_errors() {
    assert_eq!(WaveFunction::new((0, 3), plus_tileset()).err(), Some(ConfigError::EmptyGrid));
    assert_eq!(WaveFunction::new((3, 0), plus_tileset()).err(), Some(ConfigError::EmptyGrid));
    assert_eq!(
        WaveFunction::new((usize::MAX, 2), plus_tileset()).err(),
        Some(ConfigError::GridTooLarge)
    );
}

#[test]
fn hand_made_tile_errors() {
    let border = || vec![Adjacent::Border];
    let img = || vec![WfcColor::black()];
    let wrong = Tile::new(vec![WfcColor::black(); 2], border(), border(), border(), border());
    assert_eq!(Tileset::from_tiles(vec![wrong], 1).err(), Some(ConfigError::WrongTileImage));
    let unknown = Tile::new(img(), vec![Adjacent::Tile(3)], border(), border(), border());
    assert_eq!(Tileset::from_tiles(vec![unknown], 1).err(), Some(ConfigError::UnknownNeighbour));
    let a = Tile::new(img(), border(), vec![Adjacent::Tile(1)], border(), border());
    let b = Tile::new(img(), border(), border(), border(), border());
    assert_eq!(Tileset::from_tiles(vec![a, b], 1).err(), Some(ConfigError::AsymmetricAdjacency));
    let a = Tile::new(img(), border(), vec![Adjacent::Tile(1)], border(), border());
    let b = Tile::new(img(), vec![Adjacent::Tile(0)], border(), border(), border());
    assert_eq!(Tileset::from_tiles(vec![a, b], 1).map(|t| t.len()).ok(), Some(2));
}

#[test]
fn colors() {
    assert_eq!(WfcColor::black().get(), (0, 0, 0));
    assert_eq!(WfcColor::new(9, 8, 7).get(), (9, 8, 7));
    assert_eq!(WfcColor::new(200, 10, 10).symbol(), 'R');
    assert_eq!(WfcColor::new(10, 200, 10).symbol(), 'G');
    assert_eq!(WfcColor::new(10, 10, 200).symbol(), 'B');
    assert_eq!(WfcColor::new(200, 200, 10).symbol(), ' ');
}

#[test]
fn tile_border_flags() {
    let t = Tile::new(
        vec![WfcColor::black()],
        vec![Adjacent::Border],
        vec![Adjacent::Tile(0)],
        vec![Adjacent::Border, Adjacent::Tile(0)],
        vec![],
    );
    assert!(t.is_left_border());
    assert!(!t.is_right_border());
    assert!(t.is_upper_border());
    assert!(!t.is_lower_border());
    assert_eq!(t.allowed(Direction::Up), &vec![Adjacent::Border, Adjacent::Tile(0)]);
}

/// Tiles x and y admit each other side by side; z admits only the border.
fn pair_or_single() -> Tileset {
    let b = Adjacent::Border;
    let x = Tile::new(vec![WfcColor::new(1, 0, 0)], vec![b], vec![Adjacent::Tile(1)], vec![b], vec![b]);
    let y = Tile::new(vec![WfcColor::new(0, 1, 0)], vec![Adjacent::Tile(0)], vec![b], vec![b], vec![b]);
    let z = Tile::new(vec![WfcColor::new(0, 0, 1)], vec![b], vec![b], vec![b], vec![b]);
    Tileset::from_tiles(vec![x, y, z], 1).unwrap()
}

#[test]
fn choosing_within_a_completion_succeeds() {
    let mut wf = WaveFunction::new((2, 1), pair_or_single()).unwrap();
    assert_eq!(wf.possible_tiles(0, 0), vec![0, 2]);
    assert_eq!(wf.possible_tiles(1, 0), vec![1, 2]);
    // x then y is a consistent completion, so fixing x cannot fail
    assert_eq!(wf.collapse_at(0, 0, 0), Ok(Step::Progress));
    assert_eq!(wf.resolved_tile(1, 0), Some(1));
}

#[test]
fn choosing_outside_every_completion_may_fail() {
    let mut wf = WaveFunction::new((2, 1), pair_or_single()).unwrap();
    // z at the left leaves nothing for the right cell
    assert_eq!(wf.collapse_at(0, 0, 2), Err(ContradictionError { x: 1, y: 0 }));
}

#[test]
fn from_png_errors() {
    assert_eq!(
        WaveFunction::from_png((2, 2), 3, 3, &vec![0u8; 36]).err(),
        Some(ConfigError::AlphaChannel)
    );
    assert_eq!(
        WaveFunction::from_png((2, 2), 3, 3, &vec![0u8; 5]).err(),
        Some(ConfigError::NotRgb)
    );
    assert_eq!(
        WaveFunction::from_png((0, 2), 3, 3, &vec![0u8; 27]).err(),
        Some(ConfigError::EmptyGrid)
    );
    let wf = WaveFunction::from_png((3, 2), 3, 3, &vec![0u8; 27]).unwrap();
    assert_eq!(wf.tileset().len(), 1);
    assert_eq!(wf.state(), RunState::Running);
}

#[test]
fn run_finishes_plus_model() {
    let mut wf = WaveFunction::new((4, 4), plus_tileset()).unwrap();
    let mut rng = StdRng::seed_from_u64(9);
    assert_eq!(wf.run(&mut rng), Ok(()));
    assert!(wf.done());
    assert!(resolved_grid(&wf).iter().all(|t| t.is_some()));
}

#[test]
fn run_reports_contradiction() {
    let mut wf = WaveFunction::new((2, 1), exclusive_pair()).unwrap();
    let mut rng = StdRng::seed_from_u64(4);
    let r = wf.run(&mut rng);
    // whichever cell is fixed first, the other one runs out of tiles
    assert!(r == Err(ContradictionError { x: 1, y: 0 }) || r == Err(ContradictionError { x: 0, y: 0 }));
    assert_eq!(wf.state(), RunState::Contradiction);
}

#[test]
fn repeated_neighbour_refused() {
    let b = Adjacent::Border;
    let t = Tile::new(vec![WfcColor::black()], vec![b, b], vec![b], vec![b], vec![b]);
    assert_eq!(Tileset::from_tiles(vec![t], 1).err(), Some(ConfigError::RepeatedNeighbour));
}

#[test]
fn arm_tile_admits_everything() {
    let ts = plus_tileset();
    let all = [Direction::Up, Direction::Down, Direction::Left, Direction::Right];
    for d in all {
        let side = ts.allowed_neighbors(1, d);
        assert_eq!(side.len(), 4);
        for a in [Adjacent::Border, Adjacent::Tile(0), Adjacent::Tile(1), Adjacent::Tile(2)] {
            assert!(side.contains(&a));
        }
    }
}

#[test]
fn neighbour_lists_hold_no_repeats() {
    let ts = plus_tileset();
    let all = [Direction::Up, Direction::Down, Direction::Left, Direction::Right];
    for t in 0..ts.len() {
        for d in all {
            let side = ts.allowed_neighbors(t, d);
            for i in 0..side.len() {
                for j in (i + 1)..side.len() {
                    assert_ne!(side[i], side[j]);
                }
            }
        }
    }
}
