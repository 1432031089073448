use jsonmodem_py::path::{
    ends_with_key, ends_with_steps, equals_steps, parse_path_pattern, path_matches_pattern,
    path_matches_patterns, path_position, slice_steps, PatternError, PatternItem,
};
use jsonmodem_py::value::PathItem;

fn describe(items: &[PatternItem]) -> Vec<String> {
    items
        .iter()
        .map(|item| match item {
            PatternItem::Key(k) => format!("key:{}", String::from_utf8(k.clone()).unwrap()),
            PatternItem::Index(i) => format!("index:{i}"),
            PatternItem::Wildcard => "*".to_string(),
        })
        .collect()
}

#[test]
fn patterns_split_on_dots() {
    let parsed = parse_path_pattern(b"items.*.0.name").unwrap();
    assert_eq!(describe(&parsed), ["key:items", "*", "index:0", "key:name"]);
}

#[test]
fn indices_follow_usize_parsing() {
    assert_eq!(describe(&parse_path_pattern(b"+5").unwrap()), ["index:5"]);
    assert_eq!(describe(&parse_path_pattern(b"007").unwrap()), ["index:7"]);
    assert_eq!(describe(&parse_path_pattern(b"-1").unwrap()), ["key:-1"]);
    assert_eq!(describe(&parse_path_pattern(b"+").unwrap()), ["key:+"]);
    assert_eq!(describe(&parse_path_pattern(b"18446744073709551616").unwrap()), ["key:18446744073709551616"]);
    assert_eq!(describe(&parse_path_pattern(b"18446744073709551615").unwrap()), ["index:18446744073709551615"]);
    assert_eq!(describe(&parse_path_pattern(b"**").unwrap()), ["key:**"]);
}

#[test]
fn empty_patterns_and_components_are_refused() {
    assert!(matches!(parse_path_pattern(b""), Err(PatternError::Empty)));
    assert!(matches!(parse_path_pattern(b"a..b"), Err(PatternError::EmptyComponent)));
    assert!(matches!(parse_path_pattern(b".a"), Err(PatternError::EmptyComponent)));
    assert!(matches!(parse_path_pattern(b"a."), Err(PatternError::EmptyComponent)));
}

#[test]
fn paths_match_component_by_component() {
    let pattern = parse_path_pattern(b"items.*.name").unwrap();
    let path = [PathItem::Key(b"items".to_vec()), PathItem::Index(3), PathItem::Key(b"name".to_vec())];
    assert!(path_matches_pattern(&path, &pattern));
    assert!(!path_matches_pattern(&path[..2], &pattern));
    let other = [PathItem::Key(b"items".to_vec()), PathItem::Index(3), PathItem::Key(b"id".to_vec())];
    assert!(!path_matches_pattern(&other, &pattern));
    let index = parse_path_pattern(b"3").unwrap();
    assert!(path_matches_pattern(&[PathItem::Index(3)], &index));
    assert!(!path_matches_pattern(&[PathItem::Key(b"3".to_vec())], &index));
    let patterns = vec![index, pattern];
    assert!(path_matches_patterns(&path, &patterns));
    assert!(!path_matches_patterns(&other, &patterns));
}

#[test]
fn path_views_index_from_either_end() {
    assert_eq!(path_position(3, 0), Some(0));
    assert_eq!(path_position(3, -1), Some(2));
    assert_eq!(path_position(3, -3), Some(0));
    assert_eq!(path_position(3, 3), None);
    assert_eq!(path_position(3, -4), None);
    assert_eq!(path_position(0, 0), None);
}

#[test]
fn path_views_slice_by_resolved_indices() {
    assert_eq!(slice_steps(5, 4, -2, 3), Some(vec![4, 2, 0]));
    assert_eq!(slice_steps(5, 1, 1, 3), Some(vec![1, 2, 3]));
    assert_eq!(slice_steps(5, 0, 2, 4), None);
    assert_eq!(slice_steps(5, 7, 1, 0), Some(vec![]));
}

#[test]
fn path_views_compare_suffixes() {
    let path = [PathItem::Key(b"a".to_vec()), PathItem::Index(2), PathItem::Key(b"b".to_vec())];
    assert!(ends_with_key(&path, b"b"));
    assert!(!ends_with_key(&path, b"a"));
    assert!(!ends_with_key(&path[..2], b"a"));
    assert!(!ends_with_key(&[], b"a"));
    assert!(ends_with_steps(&path, &[PathItem::Index(2), PathItem::Key(b"b".to_vec())]));
    assert!(ends_with_steps(&path, &[]));
    assert!(!ends_with_steps(&path, &[PathItem::Index(1), PathItem::Key(b"b".to_vec())]));
    assert!(!ends_with_steps(&path[..1], &path));
    assert!(equals_steps(&path, &path));
    assert!(!equals_steps(&path, &path[1..]));
}
