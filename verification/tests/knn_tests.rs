use knn::classify::{classify, evaluate, ClassificationError};
use knn::distance::{distance, DimensionMismatch};
use knn::parse::{parse, split_columns, ParseCause, ParseError};
use knn::record::Record;
use knn::select::{select_k_nearest, SelectionError};
use knn::serialize::{format_feature, to_row};

/// Builds a record from already-scaled feature values.
fn rec(id: usize, label: &str, features: Vec<i64>) -> Record {
    Record { id, label: label.to_string(), features }
}

fn cols(texts: &[&str]) -> Vec<String> {
    texts.iter().map(|t| t.to_string()).collect()
}

#[test]
fn parse_valid_row_keeps_dimensions_and_label() {
    let r = parse(&cols(&["4.7", "3.2", "1.6", "0.2", "Iris-setosa"])).unwrap();
    assert_eq!(r.features.len(), 4);
    assert_eq!(r.label, "Iris-setosa");
    assert_eq!(r.id, 0);
    assert_eq!(r.features, vec![47000, 32000, 16000, 2000]);
}

#[test]
fn parse_accepts_integers_signs_and_long_fractions() {
    let r = parse(&cols(&["3", "-2.5", "1.23456", "?"])).unwrap();
    assert_eq!(r.features, vec![30000, -25000, 12345]);
    assert_eq!(r.label, "?");
}

#[test]
fn parse_label_only_row_fails_with_empty() {
    // A record's feature vector must be non-empty, so a lone label
    // column yields no record.
    assert!(matches!(parse(&cols(&["just-a-label"])), Err(ParseError::Empty)));
}

#[test]
fn parse_empty_row_fails_with_empty() {
    assert!(matches!(parse(&Vec::new()), Err(ParseError::Empty)));
}

#[test]
fn parse_bad_feature_names_the_column() {
    let e = parse(&cols(&["1.0", "abc", "2.0", "L"])).unwrap_err();
    assert_eq!(
        e,
        ParseError::BadFeature {
            column_index: 1,
            raw_text: "abc".to_string(),
            cause: ParseCause::Malformed,
        }
    );
}

#[test]
fn parse_rejects_malformed_numbers() {
    for bad in ["", "-", ".", "1.", ".5", "1.2.3", "1e5", " 1", "+1"] {
        let e = parse(&cols(&[bad, "L"])).unwrap_err();
        assert_eq!(
            e,
            ParseError::BadFeature {
                column_index: 0,
                raw_text: bad.to_string(),
                cause: ParseCause::Malformed,
            },
            "input {:?}",
            bad
        );
    }
}

#[test]
fn parse_rejects_out_of_range_values() {
    for bad in ["100001", "100000.0001", "-100000.5"] {
        let e = parse(&cols(&[bad, "L"])).unwrap_err();
        assert_eq!(
            e,
            ParseError::BadFeature {
                column_index: 0,
                raw_text: bad.to_string(),
                cause: ParseCause::OutOfRange,
            },
            "input {:?}",
            bad
        );
    }
    assert!(parse(&cols(&["100000", "L"])).is_ok());
    assert!(parse(&cols(&["-100000.0000", "L"])).is_ok());
}

#[test]
fn distance_is_symmetric_and_zero_on_self() {
    let a = rec(1, "A", vec![10000, 10000]);
    let b = rec(2, "B", vec![50000, 50000]);
    assert_eq!(distance(&a, &b), distance(&b, &a));
    assert_eq!(distance(&a, &a), Ok(0));
    assert_eq!(distance(&b, &b), Ok(0));
}

#[test]
fn distance_exact_value() {
    // (1,1) to (5,5) in scaled units: two terms of 40000^2 each.
    let a = rec(1, "A", vec![10000, 10000]);
    let b = rec(2, "B", vec![50000, 50000]);
    assert_eq!(distance(&a, &b), Ok(3_200_000_000));
}

#[test]
fn distance_fails_on_unequal_dimensions() {
    let a = rec(1, "A", vec![10000, 10000]);
    let b = rec(2, "B", vec![10000]);
    assert_eq!(distance(&a, &b), Err(DimensionMismatch));
}

#[test]
fn select_returns_k_records_in_distance_order() {
    let pool = vec![
        rec(1, "far", vec![90000, 90000]),
        rec(2, "near", vec![10000, 10000]),
        rec(3, "mid", vec![30000, 30000]),
    ];
    let q = rec(0, "?", vec![10000, 10000]);
    let got = select_k_nearest(&q, &pool, 3).unwrap();
    assert_eq!(got.len(), 3);
    let labels: Vec<&str> = got.iter().map(|r| r.label.as_str()).collect();
    assert_eq!(labels, vec!["near", "mid", "far"]);
    let mut last = 0u128;
    for r in &got {
        let d = distance(&q, r).unwrap();
        assert!(d >= last);
        last = d;
    }
}

#[test]
fn select_breaks_ties_by_pool_order() {
    let pool = vec![
        rec(1, "B", vec![50000, 50000]),
        rec(2, "A1", vec![10000, 10000]),
        rec(3, "A2", vec![10000, 10000]),
    ];
    let q = rec(0, "?", vec![10000, 10000]);
    let got = select_k_nearest(&q, &pool, 3).unwrap();
    let labels: Vec<&str> = got.iter().map(|r| r.label.as_str()).collect();
    assert_eq!(labels, vec!["A1", "A2", "B"]);
}

#[test]
fn select_fails_when_pool_too_small() {
    let pool = vec![rec(1, "A", vec![10000])];
    let q = rec(0, "?", vec![10000]);
    assert_eq!(
        select_k_nearest(&q, &pool, 2).unwrap_err(),
        SelectionError::InsufficientCandidates
    );
}

#[test]
fn select_leaves_the_pool_unchanged() {
    let pool = vec![
        rec(1, "A", vec![10000]),
        rec(2, "B", vec![20000]),
    ];
    let q = rec(0, "?", vec![10000]);
    let _ = select_k_nearest(&q, &pool, 2).unwrap();
    assert_eq!(pool.len(), 2);
    assert_eq!(pool[0].label, "A");
    assert_eq!(pool[1].label, "B");
}

#[test]
fn classify_majority_of_two_nearest() {
    // Training (1,1)->A, (1,1)->A, (5,5)->B; query (1,1) with k = 2.
    let training = vec![
        rec(1, "A", vec![10000, 10000]),
        rec(2, "A", vec![10000, 10000]),
        rec(3, "B", vec![50000, 50000]),
    ];
    let q = rec(0, "?", vec![10000, 10000]);
    assert_eq!(classify(&q, &training, 2).unwrap(), "A");
}

#[test]
fn classify_strict_majority_wins() {
    let training = vec![
        rec(1, "B", vec![10000]),
        rec(2, "A", vec![20000]),
        rec(3, "A", vec![30000]),
    ];
    let q = rec(0, "?", vec![21000]);
    // Neighbours for k = 3 are all three; A occurs twice, B once.
    assert_eq!(classify(&q, &training, 3).unwrap(), "A");
}

#[test]
fn classify_tie_goes_to_the_nearer_label() {
    let training = vec![
        rec(1, "A", vec![10000]),
        rec(2, "B", vec![20000]),
        rec(3, "C", vec![90000]),
    ];
    let q = rec(0, "?", vec![10000]);
    // k = 2: labels A and B each occur once; A was tallied first (nearer).
    assert_eq!(classify(&q, &training, 2).unwrap(), "A");
}

#[test]
fn classify_fails_when_k_exceeds_training_size() {
    let training = vec![
        rec(1, "A", vec![10000]),
        rec(2, "B", vec![20000]),
    ];
    let q = rec(0, "?", vec![10000]);
    assert_eq!(
        classify(&q, &training, 3).unwrap_err(),
        ClassificationError::NoNeighbors
    );
}

#[test]
fn classify_fails_when_k_is_zero() {
    let training = vec![rec(1, "A", vec![10000])];
    let q = rec(0, "?", vec![10000]);
    assert_eq!(
        classify(&q, &training, 0).unwrap_err(),
        ClassificationError::NoNeighbors
    );
}

#[test]
fn classify_fails_on_dimension_mismatch() {
    let training = vec![
        rec(1, "A", vec![10000, 10000]),
        rec(2, "B", vec![10000]),
    ];
    let q = rec(0, "?", vec![10000, 10000]);
    assert_eq!(
        classify(&q, &training, 1).unwrap_err(),
        ClassificationError::DimensionMismatch
    );
}

#[test]
fn evaluate_counts_correct_classifications() {
    let training = vec![
        rec(1, "A", vec![10000, 10000]),
        rec(2, "B", vec![50000, 50000]),
        rec(3, "A", vec![12000, 12000]),
    ];
    let test = vec![
        rec(1, "A", vec![11000, 11000]),
        rec(2, "B", vec![49000, 49000]),
        rec(3, "B", vec![10000, 10000]),
    ];
    // k = 1: the first two match their nearest neighbour's label, the
    // third is nearest to an A record but labeled B.
    assert_eq!(evaluate(&test, &training, 1), (2, 3));
}

#[test]
fn evaluate_of_empty_test_set() {
    let training = vec![rec(1, "A", vec![10000])];
    assert_eq!(evaluate(&Vec::new(), &training, 1), (0, 0));
}

#[test]
fn split_columns_on_commas() {
    let got = split_columns("4.7,3.2,Iris");
    assert_eq!(got, vec!["4.7", "3.2", "Iris"]);
}

#[test]
fn split_columns_keeps_empty_columns() {
    assert_eq!(split_columns(""), vec![""]);
    assert_eq!(split_columns("a,,b,"), vec!["a", "", "b", ""]);
}

#[test]
fn format_feature_canonical_text() {
    assert_eq!(format_feature(10000), "1.0000");
    assert_eq!(format_feature(0), "0.0000");
    assert_eq!(format_feature(-12345), "-1.2345");
    assert_eq!(format_feature(47000), "4.7000");
    assert_eq!(format_feature(1000000000), "100000.0000");
}

#[test]
fn round_trip_parse_then_serialize() {
    let original = cols(&["4.7", "-3.25", "0.1", "Iris-virginica"]);
    let r = parse(&original).unwrap();
    let row = to_row(&r);
    // The columns come back up to formatting precision: same values,
    // four fraction digits, label byte for byte.
    assert_eq!(row, vec!["4.7000", "-3.2500", "0.1000", "Iris-virginica"]);
    let again = parse(&row).unwrap();
    assert_eq!(again.features, r.features);
    assert_eq!(again.label, r.label);
}

#[test]
fn round_trip_serialize_then_parse() {
    let r = rec(7, "tag", vec![1, -1, 999999999, -1000000000, 0]);
    let row = to_row(&r);
    let back = parse(&row).unwrap();
    assert_eq!(back.features, r.features);
    assert_eq!(back.label, r.label);
}

#[test]
fn load_line_like_the_loader_does() {
    // A loader splits the raw line, parses it, then assigns the id.
    let mut r = parse(&split_columns("5.1,3.5,1.4,0.2,Iris-setosa")).unwrap();
    r.id = 1;
    assert_eq!(r.id, 1);
    assert_eq!(r.features, vec![51000, 35000, 14000, 2000]);
    assert_eq!(r.label, "Iris-setosa");
}

#[test]
fn record_clone_copies_everything() {
    let r = rec(4, "label", vec![1, 2, 3]);
    let c = r.clone();
    assert_eq!(c.id, r.id);
    assert_eq!(c.label, r.label);
    assert_eq!(c.features, r.features);
}

#[test]
fn select_fails_on_dimension_mismatch() {
    let pool = vec![
        rec(1, "A", vec![10000, 10000]),
        rec(2, "B", vec![10000]),
    ];
    let q = rec(0, "?", vec![10000, 10000]);
    assert_eq!(
        select_k_nearest(&q, &pool, 1).unwrap_err(),
        SelectionError::DimensionMismatch
    );
}

#[test]
fn select_with_k_zero_returns_no_records() {
    let pool = vec![rec(1, "A", vec![10000])];
    let q = rec(0, "?", vec![10000]);
    assert_eq!(select_k_nearest(&q, &pool, 0).unwrap().len(), 0);
}
