use wfc::StepResult;
use wfc::Tile;
use wfc::Wave;

#[test]
fn get_lowest_entropy() {
    let pallet = vec![
        Tile::allow_all(3, 3, 0),
        Tile::allow_all(3, 3, 0),
        Tile::allow_all(3, 3, 0),
    ];
    let mut wave = Wave::new(pallet, 3, 3, 123);
    wave.wave[2][1][0] = false;
    assert_eq!(wave.get_lowest_entropy(), (2, 1));
}

#[test]
fn lib_single_step() {
    let pallet = vec![Tile::allow_all(3, 2, 0), Tile::allow_all(3, 2, 0)];
    let mut wave = Wave::new(pallet, 3, 3, 123);
    wave.step();
}

#[test]
fn full_colapse() {
    let pallet = vec![Tile::allow_all(3, 2, 0), Tile::allow_all(3, 2, 0)];
    let mut wave = Wave::new(pallet, 3, 3, 123);
    wave.colapse();
    assert!(wave.is_done());
}

#[test]
fn wavefunction_single_step() {
    let pallet = vec![Tile::allow_all(3, 2, 0), Tile::allow_all(3, 2, 0)];
    let mut wave = Wave::new(pallet, 3, 3, 123);
    wave.step();
}

#[test]
fn full_collapse() {
    let pallet = vec![Tile::allow_all(3, 2, 0), Tile::allow_all(3, 2, 0)];
    let mut wave = Wave::new(pallet, 3, 3, 123);
    wave.collapse();
    assert!(wave.is_done());
    assert!(!wave.is_contradiction());
}

#[test]
fn superposition_lengths_stay_pallet_sized() {
    let pallet = vec![Tile::allow_all(3, 2, 0), Tile::allow_all(3, 2, 0)];
    let mut wave = Wave::new(pallet, 4, 4, 9);
    for x in 0..4 {
        for y in 0..4 {
            assert_eq!(wave.wave[x][y].len(), 2);
        }
    }
    while !wave.is_done() {
        wave.step();
        for x in 0..4 {
            for y in 0..4 {
                assert_eq!(wave.wave[x][y].len(), 2);
            }
        }
    }
}

#[test]
fn is_done_exact() {
    let pallet = vec![Tile::allow_all(3, 2, 0), Tile::allow_all(3, 2, 0)];
    let mut wave = Wave::new(pallet, 2, 2, 5);
    // every cell holds two candidates: not done
    assert!(!wave.is_done());
    // force one candidate everywhere: done, no contradiction
    for x in 0..2 {
        for y in 0..2 {
            wave.wave[x][y][1] = false;
        }
    }
    assert!(wave.is_done());
    assert!(!wave.is_contradiction());
    // empty one cell out: still done, now a contradiction
    wave.wave[1][1][0] = false;
    assert!(wave.is_done());
    assert!(wave.is_contradiction());
}

#[test]
fn single_tile_pallet_is_done_at_once() {
    let pallet = vec![Tile::allow_all(3, 1, 42)];
    let mut wave = Wave::new(pallet, 2, 2, 0);
    assert!(wave.is_done());
    assert_eq!(wave.collapse(), 0);
    let data = wave.get_collapsed_data().unwrap();
    assert_eq!(data, vec![vec![42, 42], vec![42, 42]]);
}

#[test]
fn collapsed_queries() {
    let pallet = vec![Tile::allow_all(3, 2, 10), Tile::allow_all(3, 2, 20)];
    let mut wave = Wave::new(pallet, 3, 3, 123);
    // open cells report no resolved tile
    assert_eq!(wave.get_collapsed_tile(0, 0), None);
    assert_eq!(wave.get_collapsed_vec(), None);
    assert_eq!(wave.get_collapsed_data(), None);
    wave.collapse();
    assert!(!wave.is_contradiction());
    let ids = wave.get_collapsed_vec().unwrap();
    let data = wave.get_collapsed_data().unwrap();
    assert_eq!(ids.len(), 3);
    for x in 0..3 {
        assert_eq!(ids[x].len(), 3);
        for y in 0..3 {
            assert!(ids[x][y] < 2);
            assert_eq!(wave.get_collapsed_tile(x, y), Some(ids[x][y]));
            assert_eq!(wave.get_colapsed_tile(x, y), Some(ids[x][y]));
            assert_eq!(data[x][y], if ids[x][y] == 0 { 10 } else { 20 });
        }
    }
}

#[test]
fn contradiction_rolls_back() {
    // both tiles forbid every tile at every offset: the first step must hit a
    // contradiction, report it, and leave the grid as it was
    let mut t0 = Tile::allow_all(3, 2, 0);
    t0.disallow(0);
    t0.disallow(1);
    let mut t1 = Tile::allow_all(3, 2, 0);
    t1.disallow(0);
    t1.disallow(1);
    let mut wave = Wave::new(vec![t0, t1], 3, 3, 77);
    let before = wave.wave.clone();
    let r = wave.step();
    assert!(matches!(r, StepResult::Contradiction));
    assert_eq!(wave.wave, before);
    assert!(!wave.is_contradiction());
    // a hopeless pallet still terminates, surfacing the contradiction
    wave.collapse();
    assert!(wave.is_done());
    assert!(wave.is_contradiction());
}

#[test]
fn propagation_enforces_adjacency() {
    // tile 0 and tile 1 exclude each other at the four orthogonal offsets,
    // so any resolved grid must be a single-tile region pattern that never
    // puts 0 next to 1
    let mut t0 = Tile::allow_all(3, 2, 0);
    t0.disallow_direct(1);
    let mut t1 = Tile::allow_all(3, 2, 1);
    t1.disallow_direct(0);
    let mut wave = Wave::new(vec![t0, t1], 4, 4, 3);
    wave.collapse();
    assert!(wave.is_done());
    if !wave.is_contradiction() {
        let ids = wave.get_collapsed_vec().unwrap();
        for x in 0..4 {
            for y in 0..4 {
                if x + 1 < 4 {
                    assert_eq!(ids[x][y], ids[x + 1][y]);
                }
                if y + 1 < 4 {
                    assert_eq!(ids[x][y], ids[x][y + 1]);
                }
            }
        }
        // global consistency, checked against the masks themselves: for every
        // pair of cells within kernel range, neither tile forbids the other
        // at their relative offset
        for x in 0..4usize {
            for y in 0..4usize {
                for ox in 0..3usize {
                    for oy in 0..3usize {
                        let nx = x + ox;
                        let ny = y + oy;
                        if nx >= 1 && nx - 1 < 4 && ny >= 1 && ny - 1 < 4 {
                            let a = ids[x][y];
                            let b = ids[nx - 1][ny - 1];
                            assert!(!wave.pallet[a].mask[ox * 3 + oy][b]);
                            assert!(!wave.pallet[b].mask[(2 - ox) * 3 + (2 - oy)][a]);
                        }
                    }
                }
            }
        }
    }
}
