use wfc::StepResult;
use wfc::Tile;
use wfc::Wave;

fn two_tile_pallet() -> Vec<Tile> {
    let mut t0 = Tile::allow_all(3, 2, 0);
    t0.disallow_direct(1);
    let mut t1 = Tile::allow_all(3, 2, 1);
    t1.disallow_direct(0);
    vec![t0, t1]
}

#[test]
fn determinism_same_seed_same_run() {
    let mut w1 = Wave::new(two_tile_pallet(), 4, 4, 42);
    let mut w2 = Wave::new(two_tile_pallet(), 4, 4, 42);
    let mut trace1: Vec<StepResult> = Vec::new();
    let mut trace2: Vec<StepResult> = Vec::new();
    let mut budget = 10000;
    while !w1.is_done() && budget > 0 {
        trace1.push(w1.step());
        budget -= 1;
    }
    let mut budget = 10000;
    while !w2.is_done() && budget > 0 {
        trace2.push(w2.step());
        budget -= 1;
    }
    assert_eq!(trace1, trace2);
    assert_eq!(w1.wave, w2.wave);
    assert_eq!(w1.get_collapsed_vec(), w2.get_collapsed_vec());
}

#[test]
fn different_seeds_vary() {
    // over many seeds the first decision cannot always pick the same tile
    let mut seen0 = false;
    let mut seen1 = false;
    for seed in 0..64u64 {
        let pallet = vec![Tile::allow_all(3, 2, 0), Tile::allow_all(3, 2, 0)];
        let mut w = Wave::new(pallet, 2, 2, seed);
        match w.step() {
            StepResult::Placed { tile, .. } => {
                if tile == 0 {
                    seen0 = true;
                } else {
                    seen1 = true;
                }
            }
            StepResult::Contradiction => panic!("no rule can contradict here"),
        }
    }
    assert!(seen0 && seen1);
}

#[test]
fn weighted_sampling_ratio() {
    // candidates of weight 1 and 3: the heavy tile should win about three
    // times as often over many seeded trials
    let mut heavy = 0;
    let trials = 1000;
    for seed in 0..trials {
        let t0 = Tile::allow_all(3, 2, 0);
        let mut t1 = Tile::allow_all(3, 2, 1);
        t1.weight = 3;
        let mut w = Wave::new(vec![t0, t1], 2, 2, seed);
        match w.step() {
            StepResult::Placed { tile, .. } => {
                if tile == 1 {
                    heavy += 1;
                }
            }
            StepResult::Contradiction => panic!("no rule can contradict here"),
        }
    }
    // expectation is 750 of 1000; allow a generous band
    assert!(heavy > 650, "heavy tile won only {} of {} trials", heavy, trials);
    assert!(heavy < 850, "heavy tile won {} of {} trials", heavy, trials);
}

#[test]
fn fresh_tile_self_compatibility() {
    // after disallow_all and clearing the center, the zero offset tolerates
    // every tile and every other offset excludes every tile
    let mut t = Tile::disallow_all(3, 2, 0);
    t.allow_center();
    for ox in 0..3 {
        for oy in 0..3 {
            for id in 0..2 {
                let forbidden = t.mask[ox * 3 + oy][id];
                if ox == 1 && oy == 1 {
                    assert!(!forbidden);
                } else {
                    assert!(forbidden);
                }
            }
        }
    }
}

#[test]
fn disallow_marks_every_offset() {
    let mut t = Tile::allow_all(3, 2, 0);
    t.disallow(1);
    for row in 0..9 {
        assert!(!t.mask[row][0]);
        assert!(t.mask[row][1]);
    }
}

#[test]
fn disallow_direct_marks_orthogonal_offsets_only() {
    let mut t = Tile::allow_all(3, 2, 0);
    t.disallow_direct(1);
    for ox in 0..3usize {
        for oy in 0..3usize {
            let direct = (ox == 0 && oy == 1) || (ox == 2 && oy == 1) || (ox == 1 && oy == 0)
                || (ox == 1 && oy == 2);
            assert!(!t.mask[ox * 3 + oy][0]);
            assert_eq!(t.mask[ox * 3 + oy][1], direct);
        }
    }
}
