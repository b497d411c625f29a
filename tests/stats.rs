use score_engine::stats::{MetricAgg, ParaphraseAgg};

#[test]
fn metric_aggregate_tracks_extremes() {
    let mut m = MetricAgg::new();
    assert_eq!((m.min, m.max, m.sum, m.count), (u8::MAX, 0, 0, 0));
    m.update(7);
    m.update(3);
    m.update(9);
    assert_eq!((m.min, m.max, m.sum, m.count), (3, 9, 19, 3));
}

#[test]
fn paraphrase_aggregate_per_metric() {
    let mut p = ParaphraseAgg::new();
    p.update(&[1, 2, 3, 4, 5, 6, 7, 8, 9, 10, 99]);
    p.update(&[5, 0]);
    assert_eq!(p.count, 2);
    assert_eq!(p.sum[0], 6);
    assert_eq!(p.sum[1], 2);
    assert_eq!(p.sum[9], 10);
    assert_eq!(p.min[1], 0);
    assert_eq!(p.max[0], 5);
    assert_eq!(p.min[2], 3);
    assert_eq!(p.sum.len(), 10);
}

#[test]
fn stop_word_list() {
    let w = score_engine::stats::stop_words();
    assert_eq!(w.len(), 37);
    assert_eq!(w[0], "i");
    assert_eq!(w[36], "will");
    assert!(w.contains(&"nor"));
    assert!(!w.contains(&"moon"));
}
