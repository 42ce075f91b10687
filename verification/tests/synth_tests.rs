use wfc::overlaping;
use wfc::overlapping;
use wfc::synthesize;
use wfc::util;
use wfc::Pattern;

#[test]
fn dedup_test() {
    let mut arr = vec![0, 1, 2, 1, 3, 3, 3, 4, 5, 4, 1, 1, 1, 1, 7, 1];
    util::dedup(&mut arr);
    assert_eq!(arr, vec![0, 1, 2, 3, 4, 5, 7]);
}

#[test]
fn overlaping_test() {
    let img = vec![vec![0, 1, 2], vec![3, 4, 5], vec![6, 7, 8]];
    let _l = overlaping(img, 5, 5, 123).colapse();
}

#[test]
fn overlapping_test() {
    let img = vec![vec![0, 1, 2], vec![3, 4, 5], vec![6, 7, 8]];
    let _l = overlapping(img, 5, 5, true, 123).colapse();
}

#[test]
fn synthesizer_dedup_uniform_sample() {
    // a uniform 4-by-4 sample with window 3 has four identical window
    // positions: exactly one pattern survives, with counter 4
    let img = vec![vec![7u32; 4]; 4];
    let wave = synthesize(img, 3, 3, 3, false, 1);
    assert_eq!(wave.pallet.len(), 1);
    assert_eq!(wave.pallet[0].weight, 4);
    assert_eq!(wave.pallet[0].additional, 7);
}

#[test]
fn end_to_end_uniform_sample() {
    // a uniform 3-by-3 sample through the synthesizer, collapsed onto a
    // 3-by-3 grid under an external step budget, fully resolves
    let img = vec![vec![5u32; 3]; 3];
    let mut wave = synthesize(img, 3, 3, 3, false, 123);
    let budget = 3 * 3 * wave.pallet.len();
    let mut steps = 0;
    while !wave.is_done() && steps <= budget {
        wave.step();
        steps += 1;
    }
    assert!(steps <= budget);
    assert!(wave.is_done());
    assert!(!wave.is_contradiction());
    let data = wave.get_collapsed_data().unwrap();
    assert_eq!(data, vec![vec![5, 5, 5], vec![5, 5, 5], vec![5, 5, 5]]);
}

#[test]
fn synthesized_weights_follow_sample_frequency() {
    // 2x4 values: three windows of a 1x... use a 3x4 sample: two window
    // positions; both columns patterns differ, each occurring once, except a
    // repeated one
    let img = vec![
        vec![1, 2, 1, 2],
        vec![1, 2, 1, 2],
        vec![1, 2, 1, 2],
    ];
    let wave = synthesize(img, 3, 3, 3, false, 9);
    // windows at columns 0 and 1: [1 2 1] rows and [2 1 2] rows; both distinct
    assert_eq!(wave.pallet.len(), 2);
    assert_eq!(wave.pallet[0].weight, 1);
    assert_eq!(wave.pallet[1].weight, 1);
    assert_eq!(wave.pallet[0].additional, 2);
    assert_eq!(wave.pallet[1].additional, 1);
}

#[test]
fn pattern_extract_and_mirrors() {
    let img = vec![vec![1, 2, 3], vec![4, 5, 6], vec![7, 8, 9]];
    let p = Pattern::extract(&img, 0, 0, 3);
    assert_eq!(p.freq, 1);
    assert_eq!(p.pixel_data, vec![vec![1, 2, 3], vec![4, 5, 6], vec![7, 8, 9]]);
    let ym = p.y_mirror();
    assert_eq!(ym.pixel_data, vec![vec![3, 2, 1], vec![6, 5, 4], vec![9, 8, 7]]);
    let xm = p.x_mirror();
    assert_eq!(xm.pixel_data, vec![vec![7, 8, 9], vec![4, 5, 6], vec![1, 2, 3]]);
    let q = Pattern::fromdata(vec![vec![1, 2, 3], vec![4, 5, 6], vec![7, 8, 9]], 4);
    assert_eq!(q.freq, 4);
    assert_eq!(q.pixel_data, p.pixel_data);
}

#[test]
fn pattern_accessors() {
    let img = vec![vec![1, 2, 3], vec![4, 5, 6], vec![7, 8, 9]];
    let p = Pattern::extract(&img, 0, 0, 3);
    assert_eq!(p.top(), vec![1, 2, 3]);
    assert_eq!(p.bottom(), vec![7, 8, 9]);
    assert_eq!(p.left(), vec![1, 4, 7]);
    assert_eq!(p.right(), vec![3, 6, 9]);
    assert_eq!(p.x(), vec![2, 5, 8]);
    assert_eq!(p.y(), vec![4, 5, 6]);
    assert_eq!(p.top_left(), vec![1, 2, 4, 5]);
    assert_eq!(p.top_right(), vec![2, 3, 5, 6]);
    assert_eq!(p.bottom_left(), vec![4, 5, 7, 8]);
    assert_eq!(p.bottom_right(), vec![5, 6, 8, 9]);
}

#[test]
fn pattern_dedup_merges_counters() {
    let img = vec![vec![1, 2, 3], vec![4, 5, 6], vec![7, 8, 9]];
    let a = Pattern::extract(&img, 0, 0, 3);
    let b = Pattern::extract(&img, 0, 0, 3);
    let c = a.y_mirror();
    let mut pats = vec![a, b, c];
    wfc::pattern::dedup(&mut pats);
    assert_eq!(pats.len(), 2);
    assert_eq!(pats[0].freq, 2);
    assert_eq!(pats[1].freq, 1);
}
