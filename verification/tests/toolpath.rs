use voxelize::toolpath::parse_layer_marker;

#[test]
fn parses_layer_zero() {
    assert_eq!(parse_layer_marker(b"LAYER:0"), Some(0));
}

#[test]
fn parses_multi_digit_index() {
    assert_eq!(parse_layer_marker(b"LAYER:123"), Some(123));
    assert_eq!(parse_layer_marker(b"LAYER:007"), Some(7));
}

#[test]
fn rejects_missing_index() {
    assert_eq!(parse_layer_marker(b"LAYER:"), None);
}

#[test]
fn rejects_other_comments() {
    assert_eq!(parse_layer_marker(b"TYPE:WALL-OUTER"), None);
    assert_eq!(parse_layer_marker(b"layer:3"), None);
    assert_eq!(parse_layer_marker(b""), None);
    assert_eq!(parse_layer_marker(b"L"), None);
}

#[test]
fn rejects_trailing_garbage() {
    assert_eq!(parse_layer_marker(b"LAYER:12a"), None);
    assert_eq!(parse_layer_marker(b"LAYER: 12"), None);
}

#[test]
fn largest_index_fits() {
    assert_eq!(
        parse_layer_marker(b"LAYER:18446744073709551615"),
        Some(u64::MAX)
    );
    assert_eq!(parse_layer_marker(b"LAYER:18446744073709551616"), None);
}
