use gnubg::weights::{frame_weights, WeightError};

#[test]
fn rejects_bad_magic() {
    let frame = frame_weights("not gnubg\n250 128 5 0 0.1 1.0\n").expect("counts fit");
    assert!(matches!(frame.stop, Some(WeightError::InvalidMagic(_))));
}

#[test]
fn rejects_truncated_input() {
    let data = "GNU Backgammon 1.01\n250 128 5 0 0.1 1.0\n1.0\n";
    let frame = frame_weights(data).expect("counts fit");
    assert!(matches!(frame.stop, Some(WeightError::Truncated { .. })));
    assert_eq!(
        frame.stop,
        Some(WeightError::Truncated { network: 0, expected: 32773, got: 1 })
    );
    assert_eq!(frame.networks.len(), 1);
    assert_eq!(frame.networks[0].floats, vec!["1.0".to_string()]);
    assert_eq!(frame.networks[0].beta_hidden, "0.1");
}

#[test]
fn empty_file_is_reported() {
    let frame = frame_weights(" \n\n").expect("counts fit");
    assert_eq!(frame.stop, Some(WeightError::Empty));
}

#[test]
fn wrong_dimensions_are_reported() {
    let frame = frame_weights("GNU Backgammon 1.01\n200 128 5 0 0.1 1.0\n").expect("counts fit");
    assert_eq!(frame.stop, Some(WeightError::InvalidDimension { network: 0, got: (200, 128, 5) }));
}

#[test]
fn short_headers_are_reported() {
    let frame = frame_weights("GNU Backgammon 1.01\n250 128 5\n").expect("counts fit");
    assert_eq!(
        frame.stop,
        Some(WeightError::InvalidHeader { network: 0, line: "250 128 5".to_string() })
    );
}

#[test]
fn too_few_networks_are_reported() {
    let frame = frame_weights("  GNU Backgammon 1.01  \r\n").expect("counts fit");
    assert_eq!(frame.stop, Some(WeightError::NotEnoughNetworks { got: 0 }));
}

#[test]
fn weight_errors_have_messages() {
    assert_eq!(WeightError::Empty.message(), "empty weights file");
    assert_eq!(
        WeightError::Truncated { network: 2, expected: 10, got: 3 }.message(),
        "truncated network 2: expected 10 floats, got 3"
    );
    assert_eq!(
        WeightError::InvalidDimension { network: 1, got: (1, 2, 3) }.message(),
        "unexpected dimensions for network 1: 1 2 3"
    );
}

#[test]
fn weight_groups_follow_the_file_layout() {
    assert_eq!(gnubg::weights::weight_ranges(250, 128, 5), (32000, 32128, 32768));
    assert_eq!(gnubg::weights::weight_ranges(2, 3, 1), (6, 9, 12));
}
