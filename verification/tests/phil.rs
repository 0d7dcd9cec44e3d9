use phinetwork::phil::{Phil, PhiOutput};

#[test]
fn learns_response_lengths_for_raw_phi_classes() {
    let phil = Phil::train(&["Goodbye.".to_string(), "hello world".to_string()])
        .expect("response classes");

    assert_eq!(
        phil.apply(PhiOutput {
            response_index: 0,
            score: 0.95,
        })
        .expect("short class")
        .output,
        0
    );
    assert_eq!(
        phil.apply(PhiOutput {
            response_index: 1,
            score: 0.95,
        })
        .expect("long class")
        .output,
        1
    );
}

#[test]
fn inference_only_needs_raw_phi_output() {
    let phil = Phil::from_class_targets(vec![1]).expect("stored function");
    let result = phil
        .apply(PhiOutput {
            response_index: 0,
            score: 0.75,
        })
        .expect("known class");

    assert_eq!(result.response_index, 0);
    assert_eq!(result.phi_score, 0.75);
    assert_eq!(result.output, 1);
    assert_eq!(result.classification, "long");
}

#[test]
fn rejects_invalid_stored_targets() {
    assert!(Phil::from_class_targets(vec![]).is_none());
    assert!(Phil::from_class_targets(vec![2]).is_none());
}

#[test]
fn counts_unicode_characters_not_bytes() {
    let phil = Phil::train(&["ééééééééééé".to_string(), "éééééééééé".to_string()]).unwrap();
    assert_eq!(phil.class_targets(), &[1, 0]);
}

#[test]
fn untrained_classes_have_no_output() {
    assert!(Phil::train(&[]).is_none());
    let phil = Phil::from_class_targets(vec![0, 1]).unwrap();
    assert!(phil
        .apply(PhiOutput {
            response_index: 2,
            score: 0.5,
        })
        .is_none());
    let short = phil
        .apply(PhiOutput {
            response_index: 0,
            score: 0.5,
        })
        .unwrap();
    assert_eq!(short.classification, "short");
}

#[test]
fn trained_targets_reload() {
    let texts = vec!["short".to_string(), "a much longer response".to_string()];
    let trained = Phil::train(&texts).unwrap();
    let reloaded = Phil::from_class_targets(trained.class_targets().to_vec()).unwrap();
    assert_eq!(reloaded.class_targets(), trained.class_targets());
}
