use ishizue::path::{expand_home_from, is_absolute, join, normalize, relative_to};

// -- normalize ----------------------------------------------------------

#[test]
fn normalize_removes_dot() {
    assert_eq!(normalize("/foo/./bar"), "/foo/bar");
}

#[test]
fn normalize_resolves_dotdot() {
    assert_eq!(normalize("/foo/bar/../baz"), "/foo/baz");
}

#[test]
fn normalize_multiple_dotdot() {
    assert_eq!(normalize("/a/b/c/../../d"), "/a/d");
}

#[test]
fn normalize_trailing_slash_dot() {
    assert_eq!(normalize("/foo/bar/."), "/foo/bar");
}

#[test]
fn normalize_root() {
    assert_eq!(normalize("/"), "/");
}

#[test]
fn normalize_empty_becomes_dot() {
    assert_eq!(normalize(""), ".");
}

#[test]
fn normalize_relative() {
    assert_eq!(normalize("a/b/../c"), "a/c");
}

#[test]
fn normalize_dotdot_past_root() {
    assert_eq!(normalize("/.."), "/");
}

#[test]
fn normalize_relative_leading_dotdot() {
    assert_eq!(normalize("../a/b"), "../a/b");
}

#[test]
fn normalize_repeated_and_trailing_separators() {
    assert_eq!(normalize("//a///b//"), "/a/b");
    assert_eq!(normalize("a/"), "a");
}

#[test]
fn normalize_leading_curdir() {
    assert_eq!(normalize("./a"), "a");
    assert_eq!(normalize("."), ".");
    assert_eq!(normalize("./"), ".");
}

#[test]
fn normalize_parent_of_relative_name_cancels() {
    assert_eq!(normalize("a/.."), ".");
    assert_eq!(normalize("a/../../b"), "../b");
}

#[test]
fn normalize_names_with_dots() {
    assert_eq!(normalize("/a/.../b/.c/..d"), "/a/.../b/.c/..d");
}

#[test]
fn normalize_is_idempotent() {
    for p in ["/a/./b/../c/", "../x/./../y", "", ".", "//", "a/b/../../.."] {
        let once = normalize(p);
        assert_eq!(normalize(&once), once, "{p}");
    }
}

#[test]
fn normalize_keeps_absoluteness() {
    for p in ["/..", "/a/../..", "../a", "a/..", ""] {
        assert_eq!(is_absolute(&normalize(p)), is_absolute(p), "{p}");
    }
}

// -- join ---------------------------------------------------------------

#[test]
fn join_basic() {
    assert_eq!(join("/foo", "bar"), "/foo/bar");
}

#[test]
fn join_absolute_child_replaces() {
    assert_eq!(join("/foo", "/bar"), "/bar");
}

#[test]
fn join_empty_child() {
    assert_eq!(join("/foo", ""), "/foo");
}

#[test]
fn join_empty_parent() {
    assert_eq!(join("", "bar"), "bar");
}

#[test]
fn join_parent_with_trailing_separator() {
    assert_eq!(join("/foo/", "bar"), "/foo/bar");
    assert_eq!(join("/", "bar"), "/bar");
}

// -- relative_to --------------------------------------------------------

#[test]
fn relative_to_subdirectory() {
    assert_eq!(
        relative_to("/home/user/projects/foo", "/home/user"),
        Some("projects/foo".to_owned()),
    );
}

#[test]
fn relative_to_same_path() {
    assert_eq!(relative_to("/foo/bar", "/foo/bar"), Some(".".to_owned()));
}

#[test]
fn relative_to_sibling() {
    assert_eq!(relative_to("/a/b", "/a/c"), Some("../b".to_owned()));
}

#[test]
fn relative_to_deeper() {
    assert_eq!(relative_to("/a/b/c/d", "/a/b"), Some("c/d".to_owned()));
}

#[test]
fn relative_to_mixed_absolute_relative_returns_none() {
    assert_eq!(relative_to("/absolute", "relative"), None);
}

#[test]
fn relative_to_both_relative() {
    assert_eq!(relative_to("a/b/c", "a/d"), Some("../b/c".to_owned()));
}

#[test]
fn relative_to_up_only() {
    assert_eq!(relative_to("/a", "/a/b/c"), Some("../..".to_owned()));
}

#[test]
fn relative_to_normalizes_first() {
    assert_eq!(relative_to("/a/./b/../c", "/a/x/.."), Some("c".to_owned()));
}

#[test]
fn relative_to_relative_from_current_dir_base() {
    // A base that normalizes to `.` has no components to climb out of.
    assert_eq!(relative_to("a", ""), Some("a".to_owned()));
    assert_eq!(relative_to("a", "."), Some("a".to_owned()));
    assert_eq!(relative_to("a/b", "x/.."), Some("a/b".to_owned()));
    assert_eq!(relative_to("", ""), Some(".".to_owned()));
}

#[test]
fn relative_to_current_dir_target() {
    // The target's own `.` is kept after the climb.
    assert_eq!(relative_to(".", "a"), Some("../.".to_owned()));
    assert_eq!(relative_to("", "a/b"), Some("../../.".to_owned()));
    assert_eq!(relative_to(".", ""), Some(".".to_owned()));
}

#[test]
fn relative_to_base_climbing_out_is_none() {
    // The way back from `../x` would need the name of the current directory.
    assert_eq!(relative_to("a", "../x"), None);
    assert_eq!(relative_to("a", ".."), None);
    assert_eq!(relative_to("../../a", ".."), Some("../a".to_owned()));
    assert_eq!(relative_to("../a", "../b"), Some("../a".to_owned()));
}

#[test]
fn relative_to_relative_and_absolute_base_returns_none() {
    assert_eq!(relative_to("rel", "/abs"), None);
}

// -- expand_home --------------------------------------------------------

#[test]
fn expand_home_no_tilde() {
    assert_eq!(expand_home_from("/usr/bin", Some("/home/user")), "/usr/bin");
}

#[test]
fn expand_home_tilde_not_at_start() {
    assert_eq!(expand_home_from("/foo/~bar", Some("/home/user")), "/foo/~bar");
}

#[test]
fn expand_home_tilde_prefix_with_home() {
    assert_eq!(
        expand_home_from("~/projects", Some("/home/user")),
        "/home/user/projects",
    );
}

#[test]
fn expand_home_bare_tilde_with_home() {
    assert_eq!(expand_home_from("~", Some("/home/user")), "/home/user");
}

#[test]
fn expand_home_without_home_keeps_path() {
    assert_eq!(expand_home_from("~/projects", None), "~/projects");
    assert_eq!(expand_home_from("~", None), "~");
}

#[test]
fn expand_home_tilde_user_form_untouched() {
    assert_eq!(expand_home_from("~bob/x", Some("/home/user")), "~bob/x");
}

// -- is_absolute --------------------------------------------------------

#[test]
fn is_absolute_true() {
    assert!(is_absolute("/usr/bin"));
}

#[test]
fn is_absolute_false() {
    assert!(!is_absolute("relative/path"));
}

#[test]
fn is_absolute_empty() {
    assert!(!is_absolute(""));
}

#[test]
fn relative_to_then_join_leads_to_target() {
    let cases = [
        ("/home/user/projects/foo", "/home/user"),
        ("/a/b", "/a/c"),
        ("/a", "/a/b/c"),
        ("a/b/c", "a/d"),
        ("../x/y", "p/q"),
        ("/x/./y/../z", "/x/w/"),
        ("/same", "/same"),
        ("a", ""),
        ("a", "."),
        (".", "a"),
        ("", "a/b"),
        ("../../a", ".."),
        ("../a", "../b"),
        ("/", "/x/y"),
    ];
    for (target, base) in cases {
        let rel = relative_to(target, base).unwrap();
        assert_eq!(normalize(&join(base, &rel)), normalize(target), "{target} from {base}");
    }
}
