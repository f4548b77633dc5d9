use vtext::metrics::dice_parts;

/// The Dice coefficient from the verified n-gram counts; the guard cases and
/// the floating-point quotient mirror the metric's definition.
fn dice_similarity(x: &str, y: &str) -> f64 {
    if x.is_empty() || y.is_empty() {
        0.0
    } else if x == y {
        1.0
    } else {
        let (shared, nx, ny) = dice_parts(x, y);
        (2 * shared) as f64 / (nx + ny) as f64
    }
}

#[test]
fn test_dice_similarity() {
    let res = dice_similarity("yesterday", "today");
    assert_eq!((res * 100.).round() / 100., 0.33);

    assert_eq!(dice_similarity("healed", "sealed"), 0.8);

    assert_eq!(dice_similarity("", ""), 0.0);
    // 1 char, doesn't allow to make a single 2-char ngram
    assert_eq!(dice_similarity("1", "test"), 0.0);

    assert_eq!(dice_similarity("test", "test"), 1.0);
}

#[test]
fn dice_parts_counts_shared_bigrams() {
    // "night" and "nacht" share exactly "ht" among their four 2-grams each
    let (shared, nx, ny) = dice_parts("night", "nacht");
    assert_eq!((shared, nx, ny), (1, 4, 4));

    // repeated bigrams are counted once
    let (shared2, nx2, _) = dice_parts("aaaa", "aa");
    assert_eq!(shared2, 1);
    assert_eq!(nx2, 1);
}
