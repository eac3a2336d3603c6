use stratego::deployment::heuristic::{best_deployment, evaluate, evaluate_bb, heuristic, try_evaluate};
use stratego::deployment::{dataset, dataset_pick, deployment, game_notation, mirror, position, random, DATASET_SIZE};

const DATASET: [&str; 12] = [
    "1c6/2d3mc/d1sgbfb1",
    "3bfbc1/1cd1m3/2sgd3",
    "fb1c4/bg4c1/1dsgd3",
    "1c6/s2cm3/g1d1dfbb",
    "7c/d1fbg3/cbmd1s2",
    "4mfbc/c4bds/1d2g3",
    "7c/fb2d1c1/mgsbd3",
    "3c3c/1g2bfm1/d1s1db2",
    "5c1/2csdbd1/3gbfm1",
    "7c/c3bfm1/1dsg1bd1",
    "5cbf/5cdb/1gsd3m",
    "1mfbc3/1cbd4/2sg1d2",
];

const SCORES: [isize; 12] = [88, 81, 78, 84, 77, 66, 72, 72, 81, 78, 79, 82];

#[test]
fn evaluate_dataset() {
    for (d, s) in DATASET.iter().zip(SCORES.iter()) {
        assert_eq!(evaluate(d), *s, "{}", d);
        assert_eq!(try_evaluate(d), Some(*s));
    }
}

#[test]
fn evaluate_bb_matches_evaluate() {
    let bb = [1983243, 0, 1, 262144, 16392, 1179648, 524800, 0, 0, 258];
    assert_eq!(evaluate_bb(bb), evaluate("fb1c4/bg4c1/1dsgd3"));
}

#[test]
fn try_evaluate_refuses() {
    // no flag on the first three ranks
    assert_eq!(try_evaluate("cc6"), None);
    // an unknown symbol
    assert_eq!(try_evaluate("fq"), None);
    assert_eq!(try_evaluate("f"), Some(10 + 0 + 10 + 0 + 0 + 0));
}

#[test]
fn mirror_reverses_ranks() {
    assert_eq!(mirror("1c6/2d3mc/d1sgbfb1"), "6c1/cm3d2/1bfbgs1d");
    assert_eq!(mirror(&mirror("3c3c/1g2bfm1/d1s1db2")), "3c3c/1g2bfm1/d1s1db2");
    assert_eq!(mirror(""), "");
}

#[test]
fn dataset_entries() {
    assert_eq!(DATASET_SIZE, 12);
    for i in 0..DATASET_SIZE {
        assert_eq!(dataset_pick(i, false), DATASET[i]);
        assert_eq!(dataset_pick(i, true), mirror(DATASET[i]));
        assert_eq!(evaluate(&dataset_pick(i, true)), SCORES[i]);
    }
    let d = dataset();
    assert!(DATASET.iter().any(|e| *e == d || mirror(e) == d));
}

fn check_deployment(d: &str) {
    assert_eq!(d.matches('/').count(), 2);
    let pieces: String = d.chars().filter(|c| c.is_ascii_lowercase()).collect();
    let mut sorted: Vec<char> = pieces.chars().collect();
    sorted.sort();
    assert_eq!(sorted, vec!['b', 'b', 'c', 'c', 'd', 'd', 'f', 'g', 'm', 's']);
    for rank in d.split('/') {
        let width: u32 = rank
            .chars()
            .map(|c| if c.is_ascii_digit() { c.to_digit(10).unwrap() } else { 1 })
            .sum();
        assert_eq!(width, 8);
    }
}

#[test]
fn random_deployment_is_complete() {
    for _ in 0..20 {
        let d = random();
        check_deployment(&d);
        assert!(try_evaluate(&d).is_some());
    }
}

#[test]
fn heuristic_deployment_is_complete() {
    let d = heuristic();
    check_deployment(&d);
    assert!(try_evaluate(&d).is_some());
}

#[test]
fn best_deployment_takes_last_maximum() {
    let ds: Vec<String> = vec![
        "1c6/2d3mc/d1sgbfb1".to_string(),
        "5c1/2csdbd1/3gbfm1".to_string(),
        "1c6/2d3mc/d1sgbfb1".to_string(),
        "5cbf/5cdb/1gsd3m".to_string(),
    ];
    assert_eq!(best_deployment(&ds), 2);
}

#[test]
fn deployments_make_a_game() {
    let (red, blue) = deployment("1c6/2d3mc/d1sgbfb1", "7c/D1fbg3/cbmd1s2");
    assert_eq!(red, "D1SGBFB1/2D3MC/1C6");
    assert_eq!(blue, "7c/d1fbg3/cbmd1s2");
    assert_eq!(
        game_notation("1c6/2d3mc/d1sgbfb1", "7c/d1fbg3/cbmd1s2"),
        "7c/d1fbg3/cbmd1s2/8/8/D1SGBFB1/2D3MC/1C6 r"
    );
    let state = position("1c6/2d3mc/d1sgbfb1", "7c/d1fbg3/cbmd1s2").unwrap();
    assert!(!state.stm());
    assert!(state.gen().len() > 0);
    // a deployment with two ranks on the lakes' ranks gives an unreadable board
    assert!(position("1c6/2d3mc/d1sgbfb1/8/8/8", "7c").is_none());
    assert_eq!(deployment("", "").0, "");
}

#[test]
fn place_cells_follows_the_draws() {
    let pieces = vec!['f', 's', 'c', 'c', 'd', 'd', 'g', 'm', 'b', 'b'];
    let first = stratego::deployment::place_cells(&pieces, &vec![0; 10]);
    let text: String = first.iter().collect();
    assert_eq!(text, "fsccddgmbb              ");
    let last = stratego::deployment::place_cells(&pieces, &vec![23, 22, 21, 20, 19, 18, 17, 16, 15, 14]);
    let text: String = last.iter().collect();
    assert_eq!(text, "              bbmgddccsf");
    let spread = stratego::deployment::place_cells(&pieces, &vec![1, 1, 1, 1, 1, 1, 1, 1, 1, 1]);
    let text: String = spread.iter().collect();
    assert_eq!(text, " fsccddgmbb             ");
}
