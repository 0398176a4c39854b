use axfs_ramfs::path::{names_parent, names_self, split_last};
use axfs_ramfs::{compare_names, split_path, NameOrder};

#[test]
fn split_path_single_segment() {
    assert_eq!(split_path("abc"), ("abc", None));
}

#[test]
fn split_path_two_segments() {
    assert_eq!(split_path("a/b"), ("a", Some("b")));
}

#[test]
fn split_path_keeps_everything_after_first_slash() {
    assert_eq!(split_path("a/b/c"), ("a", Some("b/c")));
}

#[test]
fn split_path_strips_leading_slashes() {
    assert_eq!(split_path("/a/b"), ("a", Some("b")));
    assert_eq!(split_path("///a"), ("a", None));
}

#[test]
fn split_path_trailing_slash_leaves_empty_remainder() {
    assert_eq!(split_path("a/"), ("a", Some("")));
}

#[test]
fn split_path_double_slash_gives_empty_segment_next() {
    assert_eq!(split_path("a//b"), ("a", Some("/b")));
    assert_eq!(split_path("/b"), ("b", None));
}

#[test]
fn split_path_empty_and_all_slashes() {
    assert_eq!(split_path(""), ("", None));
    assert_eq!(split_path("/"), ("", None));
    assert_eq!(split_path("//"), ("", None));
}

#[test]
fn split_path_counts_characters_not_bytes() {
    assert_eq!(split_path("/é日/本"), ("é日", Some("本")));
}

#[test]
fn split_last_cuts_at_last_slash() {
    assert_eq!(split_last("a/b/c"), (Some("a/b"), "c"));
    assert_eq!(split_last("/c"), (Some(""), "c"));
    assert_eq!(split_last("a/"), (Some("a"), ""));
    assert_eq!(split_last("c"), (None, "c"));
    assert_eq!(split_last(""), (None, ""));
    assert_eq!(split_last("é/日"), (Some("é"), "日"));
}

#[test]
fn self_and_parent_names() {
    assert!(names_self(""));
    assert!(names_self("."));
    assert!(!names_self(".."));
    assert!(!names_self("a"));
    assert!(names_parent(".."));
    assert!(!names_parent("."));
    assert!(!names_parent("..."));
    assert!(!names_parent(""));
}

#[test]
fn compare_names_orders_by_character() {
    assert_eq!(compare_names("a", "b"), NameOrder::Before);
    assert_eq!(compare_names("b", "a"), NameOrder::After);
    assert_eq!(compare_names("abc", "abc"), NameOrder::Same);
    assert_eq!(compare_names("", ""), NameOrder::Same);
}

#[test]
fn compare_names_prefix_comes_first() {
    assert_eq!(compare_names("ab", "abc"), NameOrder::Before);
    assert_eq!(compare_names("abc", "ab"), NameOrder::After);
    assert_eq!(compare_names("", "a"), NameOrder::Before);
}

#[test]
fn compare_names_agrees_with_string_order() {
    let names = ["", "a", "B", "b", "ab", "a0", "é", "日本", "z", "Z", "a/b", "~"];
    for x in names {
        for y in names {
            let expected = match x.cmp(y) {
                std::cmp::Ordering::Less => NameOrder::Before,
                std::cmp::Ordering::Equal => NameOrder::Same,
                std::cmp::Ordering::Greater => NameOrder::After,
            };
            assert_eq!(compare_names(x, y), expected);
        }
    }
}
