use animal_matcher::engine::rank_animals;
use animal_matcher::window::window_animals;

#[test]
fn window_limits_tiers() {
    let ranked = vec![
        ("ApE".to_string(), 9usize),
        ("bee".to_string(), 9usize),
        ("cow".to_string(), 4usize),
        ("doe".to_string(), 2usize),
    ];
    let shown = window_animals(&ranked, 2);

    assert_eq!(
        shown,
        vec![
            ("ApE".to_string(), 9usize),
            ("bee".to_string(), 9usize),
            ("cow".to_string(), 4usize),
        ],
    );
}

#[test]
fn window_distinct_scores_bounded() {
    let ranked = vec![
        ("a".to_string(), 9usize),
        ("b".to_string(), 7usize),
        ("c".to_string(), 4usize),
        ("d".to_string(), 2usize),
    ];
    let shown = window_animals(&ranked, 3);

    let mut scores: Vec<usize> = Vec::new();
    for (_, score) in shown {
        if !scores.contains(&score) {
            scores.push(score);
        }
    }
    assert_eq!(scores.len(), 3);
}

#[test]
fn window_drops_zero_scores() {
    let ranked = vec![("ant".to_string(), 3usize), ("bat".to_string(), 0usize)];
    let shown = window_animals(&ranked, 5);

    assert_eq!(shown, vec![("ant".to_string(), 3usize)]);
}

#[test]
fn window_zero_range_is_empty() {
    let ranked = vec![("ant".to_string(), 3usize)];
    let shown = window_animals(&ranked, 0);

    assert!(shown.is_empty());
}

#[test]
fn window_negative_range_is_empty() {
    let ranked = vec![("ant".to_string(), 3usize)];
    let shown = window_animals(&ranked, -1);

    assert!(shown.is_empty());
}

#[test]
fn ranked_scores_descend() {
    let names = vec!["cat".to_string(), "bat".to_string()];
    let animals = "cat\ncattle\nbat\nwombat\ndog".to_string();
    let ranked = rank_animals(&names, &animals);

    for pair in ranked.windows(2) {
        assert!(pair[0].1 >= pair[1].1);
    }
}

#[test]
fn exact_scores() {
    let names = vec!["cattle".to_string()];
    let animals = "cat\ncattle".to_string();
    let ranked = rank_animals(&names, &animals);

    assert_eq!(
        ranked,
        vec![("CATTLE".to_string(), 26usize), ("CAT".to_string(), 11usize)],
    );
}
