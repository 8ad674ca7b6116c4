use plexus_listen::types::{default_channel_label, label_count_error, resolve_channel_labels};

#[test]
fn dji_labels() {
    let labels = resolve_channel_labels("DJI MIC MINI", true, 2, None).unwrap();
    assert_eq!(labels, vec!["TX1", "TX2"]);
    let three = resolve_channel_labels("DJI MIC MINI", true, 3, None).unwrap();
    assert_eq!(three, vec!["TX1", "TX2", "DJI MIC MINI:2"]);
    assert_eq!(resolve_channel_labels("DJI", true, 1, None).unwrap(), vec!["TX1"]);
}

#[test]
fn other_labels() {
    let labels = resolve_channel_labels("Scarlett", false, 2, None).unwrap();
    assert_eq!(labels, vec!["Scarlett:0", "Scarlett:1"]);
    assert_eq!(resolve_channel_labels("x", false, 0, None).unwrap(), Vec::<String>::new());
    assert_eq!(default_channel_label("x", false, 65535), "x:65535");
}

#[test]
fn labels_of_the_user() {
    let labels = resolve_channel_labels("Mic", false, 2, Some(" host , guest ")).unwrap();
    assert_eq!(labels, vec!["host", "guest"]);
    let empty = resolve_channel_labels("Mic", true, 1, Some("")).unwrap();
    assert_eq!(empty, vec![""]);
}

#[test]
fn labels_must_match_the_channel_count() {
    let error = resolve_channel_labels("Mic", true, 2, Some("a, \"b\"\t,c\\")).unwrap_err();
    let labels = vec!["a", "\"b\"", "c\\"];
    assert_eq!(error, format!("Expected {} labels but got {}: {:?}", 2, 3, labels));
    let none = resolve_channel_labels("Mic", false, 0, Some("")).unwrap_err();
    assert_eq!(none, "Expected 0 labels but got 1: [\"\"]");
    assert_eq!(label_count_error(2, 1, "[\"x\"]"), "Expected 2 labels but got 1: [\"x\"]");
}

#[test]
fn default_labels_tell_channels_apart() {
    for is_dji in [false, true] {
        let mut labels = resolve_channel_labels("a:1", is_dji, 120, None).unwrap();
        labels.sort();
        labels.dedup();
        assert_eq!(labels.len(), 120);
    }
}
