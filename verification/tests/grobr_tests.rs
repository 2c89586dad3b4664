use grobr::finder::{classify, FileCollection};
use grobr::grouper::group_files;
use grobr::parser::parse_declaration;
use grobr::types::TagName;
use grobr::Error;

fn paths_of(list: &[&str]) -> Vec<String> {
    list.iter().map(|p| p.to_string()).collect()
}

fn total_files(c: &FileCollection) -> usize {
    c.files.iter().map(|b| b.1.len()).sum()
}

#[test]
fn test_anonymous_pattern() {
    let declaration = parse_declaration("foo/{name:a>3}/test.{ext:3}").unwrap();
    assert!(declaration.has_tag(&TagName("main".to_string())));
}

#[test]
fn test_named_patterns() {
    let declaration = parse_declaration("source=src/**/*.rs;test=tests/{name}_test.rs").unwrap();
    assert!(declaration.has_tag(&TagName("source".to_string())));
    assert!(declaration.has_tag(&TagName("test".to_string())));
}

#[test]
fn test_classify_matching_files() {
    let declaration = parse_declaration("images/{year}/{name}.jpg").unwrap();
    let paths = paths_of(&[
        "/tmp/root/images/2024/photo1.jpg",
        "/tmp/root/images/2024/photo2.jpg",
        "/tmp/root/images/2023/old.jpg",
    ]);
    let collections = classify(declaration, &paths);
    assert_eq!(collections.len(), 1);
    let image_collection = &collections[0];
    assert_eq!(image_collection.tag.0, "main");
    assert_eq!(total_files(image_collection), 3);
}

#[test]
fn test_scenario_three_distinct_buckets() {
    let declaration = parse_declaration("images/{year}/{name}.jpg").unwrap();
    let paths = paths_of(&[
        "images/2024/photo1.jpg",
        "images/2024/photo2.jpg",
        "images/2023/old.jpg",
    ]);
    let collections = classify(declaration, &paths);
    assert_eq!(collections.len(), 1);
    assert_eq!(collections[0].tag.0, "main");
    assert_eq!(collections[0].files.len(), 3);
    for bucket in &collections[0].files {
        assert_eq!(bucket.1.len(), 1);
    }
    let groups = group_files(collections);
    let mut keys: Vec<String> = groups.iter().map(|g| g.0.clone()).collect();
    keys.sort();
    // Canonical key-part order is alphabetic: "name" before "year".
    assert_eq!(keys, vec![
        "old_2023".to_string(),
        "photo1_2024".to_string(),
        "photo2_2024".to_string()
    ]);
}

#[test]
fn test_scenario_cross_tag_group() {
    let declaration =
        parse_declaration("source=src/**/{name}.rs;test=tests/{name}_test.rs").unwrap();
    let paths = paths_of(&["src/lib.rs", "tests/lib_test.rs"]);
    let collections = classify(declaration, &paths);
    let groups = group_files(collections);
    assert_eq!(groups.len(), 1);
    let (key, group) = &groups[0];
    assert_eq!(key, "lib");
    assert_eq!(group.files.len(), 2);
    assert_eq!(group.files[0].0 .0, "source");
    assert_eq!(group.files[0].1, vec!["src/lib.rs".to_string()]);
    assert_eq!(group.files[1].0 .0, "test");
    assert_eq!(group.files[1].1, vec!["tests/lib_test.rs".to_string()]);
}

#[test]
fn test_skip_segment_spans_zero_or_more_components() {
    let declaration = parse_declaration("source=src/**/*.rs;test=tests/{name}_test.rs").unwrap();
    let paths = paths_of(&["src/lib.rs", "src/a/b/deep.rs", "tests/lib_test.rs"]);
    let collections = classify(declaration, &paths);
    assert_eq!(collections[0].tag.0, "source");
    assert_eq!(total_files(&collections[0]), 2);
    assert_eq!(collections[1].tag.0, "test");
    assert_eq!(total_files(&collections[1]), 1);
}

#[test]
fn test_scenario_unmatched_path_appears_nowhere() {
    let declaration = parse_declaration("a=images/{n}.png;b=docs/{n}.txt").unwrap();
    let paths = paths_of(&["images/x.png", "notes/readme.md"]);
    let collections = classify(declaration, &paths);
    for c in &collections {
        for bucket in &c.files {
            for p in &bucket.1 {
                assert_ne!(p, "notes/readme.md");
            }
        }
    }
    let groups = group_files(collections);
    assert_eq!(groups.len(), 1);
    for (_, g) in &groups {
        for (_, ps) in &g.files {
            for p in ps {
                assert_ne!(p, "notes/readme.md");
            }
        }
    }
}

#[test]
fn test_scenario_first_declared_tag_claims() {
    // The path matches both patterns; declaration order decides.
    let declaration = parse_declaration("wide={n}.rs;narrow=src/{n}.rs").unwrap();
    let paths = paths_of(&["src/main.rs"]);
    let collections = classify(declaration, &paths);
    assert_eq!(collections[0].tag.0, "wide");
    assert_eq!(total_files(&collections[0]), 1);
    assert_eq!(collections[1].tag.0, "narrow");
    assert_eq!(total_files(&collections[1]), 0);

    // Reversing the declared order reverses the assignment.
    let declaration = parse_declaration("narrow=src/{n}.rs;wide={n}.rs").unwrap();
    let paths = paths_of(&["src/main.rs"]);
    let collections = classify(declaration, &paths);
    assert_eq!(collections[0].tag.0, "narrow");
    assert_eq!(total_files(&collections[0]), 1);
    assert_eq!(collections[1].tag.0, "wide");
    assert_eq!(total_files(&collections[1]), 0);
}

#[test]
fn test_scenario_malformed_declaration() {
    let err = parse_declaration("images/{name").unwrap_err();
    assert!(matches!(err, Error::InvalidPattern(_)));
}

#[test]
fn test_invalid_tag() {
    let err = parse_declaration("1bad=src/*.rs").unwrap_err();
    match err {
        Error::InvalidTag(name) => assert_eq!(name, "1bad"),
        _ => panic!("expected InvalidTag"),
    }
}

#[test]
fn test_duplicate_tag_rejected() {
    let err = parse_declaration("a=x.rs;a=y.rs").unwrap_err();
    assert!(matches!(err, Error::InvalidPattern(_)));
}

#[test]
fn test_duplicate_placeholder_rejected() {
    let err = parse_declaration("{a}/{a}.rs").unwrap_err();
    assert!(matches!(err, Error::InvalidPattern(_)));
}

#[test]
fn test_inverted_length_range_rejected() {
    let err = parse_declaration("{a:5-2}").unwrap_err();
    assert!(matches!(err, Error::InvalidPattern(_)));
}

#[test]
fn test_rematch_reproduces_identical_key() {
    let declaration = parse_declaration("images/{year}/{name}.jpg").unwrap();
    let pattern = &declaration.0[0].1;
    let k1 = pattern.parse("images/2024/photo1.jpg").unwrap();
    let k2 = pattern.parse("images/2024/photo1.jpg").unwrap();
    assert_eq!(k1, k2);
    assert_eq!(k1.as_string(), k2.as_string());
}

#[test]
fn test_traversal_order_does_not_affect_grouping() {
    let list1 = paths_of(&["images/2024/a.jpg", "images/2024/b.jpg", "images/2023/c.jpg"]);
    let list2 = paths_of(&["images/2023/c.jpg", "images/2024/b.jpg", "images/2024/a.jpg"]);
    let mut out = Vec::new();
    for paths in [&list1, &list2] {
        let declaration = parse_declaration("images/{year}/{name}.jpg").unwrap();
        let collections = classify(declaration, paths);
        let mut flat: Vec<(String, String, Vec<String>)> = Vec::new();
        for (key, g) in group_files(collections) {
            for (tag, mut ps) in g.files {
                ps.sort();
                flat.push((key.clone(), tag.0, ps));
            }
        }
        flat.sort();
        out.push(flat);
    }
    assert_eq!(out[0], out[1]);
}

#[test]
fn test_digit_flag_never_captures_non_digits() {
    let declaration = parse_declaration("v{num:d}.log").unwrap();
    let pattern = &declaration.0[0].1;
    assert!(pattern.parse("vab.log").is_none());
    let key = pattern.parse("v123.log").unwrap();
    assert_eq!(key.as_string(), "123");
    for (_, value) in &key.0 {
        assert!(value.chars().all(|c| c.is_ascii_digit()));
    }
}

#[test]
fn test_alnum_flag_never_captures_outside_letters_digits() {
    let declaration = parse_declaration("{word:a}.txt").unwrap();
    let pattern = &declaration.0[0].1;
    // Matching is suffix-anchored, so the capture starts after the dash:
    // the captured text never holds a character outside letters and digits.
    let key = pattern.parse("a-b.txt").unwrap();
    assert_eq!(key.as_string(), "b");
    let key = pattern.parse("ab12.txt").unwrap();
    assert_eq!(key.as_string(), "ab12");
    for (_, value) in &key.0 {
        assert!(value.chars().all(|c| c.is_ascii_alphanumeric()));
    }
}

#[test]
fn test_exact_length_flag() {
    let declaration = parse_declaration("test.{ext:3}").unwrap();
    let pattern = &declaration.0[0].1;
    assert!(pattern.parse("test.rs").is_none());
    assert!(pattern.parse("test.toml").is_none());
    let key = pattern.parse("test.txt").unwrap();
    assert_eq!(key.as_string(), "txt");
}

#[test]
fn test_greedy_flag_requires_one_character() {
    let declaration = parse_declaration("a{n:+}b").unwrap();
    let pattern = &declaration.0[0].1;
    assert!(pattern.parse("ab").is_none());
    assert_eq!(pattern.parse("axb").unwrap().as_string(), "x");
}

#[test]
fn test_min_max_and_range_flags() {
    let declaration = parse_declaration("v{n:>2}.x").unwrap();
    let pattern = &declaration.0[0].1;
    assert!(pattern.parse("va.x").is_none());
    assert_eq!(pattern.parse("vabc.x").unwrap().as_string(), "abc");

    let declaration = parse_declaration("v{n:<2}.x").unwrap();
    let pattern = &declaration.0[0].1;
    assert!(pattern.parse("v.x").is_none());
    assert!(pattern.parse("vabc.x").is_none());
    assert_eq!(pattern.parse("vab.x").unwrap().as_string(), "ab");

    let declaration = parse_declaration("v{n:1-2}.x").unwrap();
    let pattern = &declaration.0[0].1;
    assert!(pattern.parse("v.x").is_none());
    assert!(pattern.parse("vabc.x").is_none());
    assert_eq!(pattern.parse("va.x").unwrap().as_string(), "a");
}

#[test]
fn test_last_flag_wins_within_category() {
    // Digit then alphanumeric: the later class flag wins.
    let declaration = parse_declaration("{n:d,a}.x").unwrap();
    let pattern = &declaration.0[0].1;
    assert_eq!(pattern.parse("ab.x").unwrap().as_string(), "ab");
}

#[test]
fn test_option_group() {
    let declaration = parse_declaration("img.(png|jpg)").unwrap();
    let pattern = &declaration.0[0].1;
    assert!(pattern.parse("img.png").is_some());
    assert!(pattern.parse("img.jpg").is_some());
    assert!(pattern.parse("img.gif").is_none());
}

#[test]
fn test_wildcard_within_segment() {
    let declaration = parse_declaration("src/*.rs").unwrap();
    let pattern = &declaration.0[0].1;
    assert!(pattern.parse("src/lib.rs").is_some());
    assert!(pattern.parse("src/a/b.rs").is_none());
}

#[test]
fn test_pattern_matches_any_suffix() {
    let declaration = parse_declaration("images/{n}.jpg").unwrap();
    let pattern = &declaration.0[0].1;
    // Anchored at the end, not at the start.
    assert!(pattern.parse("/long/root/images/x.jpg").is_some());
    assert!(pattern.parse("images/x.jpg.bak").is_none());
}

#[test]
fn test_empty_capture_permitted_by_default() {
    let declaration = parse_declaration("a{n}b").unwrap();
    let pattern = &declaration.0[0].1;
    let key = pattern.parse("ab").unwrap();
    assert_eq!(key.as_string(), "");
}

#[test]
fn test_composite_key_uses_canonical_name_order() {
    let declaration = parse_declaration("{b}-{a}.t").unwrap();
    let pattern = &declaration.0[0].1;
    let key = pattern.parse("x-y.t").unwrap();
    assert_eq!(key.0.len(), 2);
    assert_eq!(key.0[0].0 .0, "a");
    assert_eq!(key.0[1].0 .0, "b");
    assert_eq!(key.as_string(), "y_x");
}

#[test]
fn test_trailing_skip_segment() {
    let declaration = parse_declaration("logs/**").unwrap();
    let pattern = &declaration.0[0].1;
    assert!(pattern.parse("logs/app.txt").is_some());
    assert!(pattern.parse("logs/a/b/app.txt").is_some());
    assert!(pattern.parse("logs").is_none());
}

#[test]
fn test_same_key_collects_multiple_files() {
    let declaration = parse_declaration("assets/{n}.*").unwrap();
    let paths = paths_of(&["assets/logo.png", "assets/logo.svg"]);
    let collections = classify(declaration, &paths);
    assert_eq!(collections[0].files.len(), 1);
    assert_eq!(
        collections[0].files[0].1,
        vec!["assets/logo.png".to_string(), "assets/logo.svg".to_string()]
    );
}
