use git_split::path::{is_file_name_text, join_components, split_components};
use git_split::text::{chars_of, decimal_text, join_lines, trim_end};

fn words(list: &[&str]) -> Vec<String> {
    list.iter().map(|p| p.to_string()).collect()
}

#[test]
fn path_divides_into_components() {
    assert_eq!(split_components("a/b/c"), words(&["a", "b", "c"]));
    assert_eq!(split_components("/a/b"), words(&["/", "a", "b"]));
    assert_eq!(split_components("/"), words(&["/"]));
    assert_eq!(split_components(""), Vec::<String>::new());
    assert_eq!(split_components("a//b/"), words(&["a", "b"]));
    assert_eq!(split_components("../x"), words(&["..", "x"]));
    assert_eq!(split_components("."), words(&["."]));
    assert_eq!(split_components("dé/ü"), words(&["dé", "ü"]));
}

#[test]
fn components_join_to_a_path() {
    assert_eq!(join_components(&words(&["a", "b", "c"])), "a/b/c");
    assert_eq!(join_components(&words(&["/", "a", "b"])), "/a/b");
    assert_eq!(join_components(&words(&["/"])), "/");
    assert_eq!(join_components(&vec![]), "");
    assert_eq!(join_components(&words(&["x"])), "x");
    for p in ["a/b/c", "/a/b", "/", "", "x", "../y/z"] {
        assert_eq!(join_components(&split_components(p)), p);
        assert_eq!(split_components(&join_components(&split_components(p))), split_components(p));
    }
}

#[test]
fn file_names_are_names_but_dot_and_dot_dot() {
    for good in ["a", "file.txt", "...", ".a", "a.", "é"] {
        assert!(is_file_name_text(&good.to_string()));
    }
    for bad in ["", ".", "..", "/", "a/b", "a/"] {
        assert!(!is_file_name_text(&bad.to_string()));
    }
}

#[test]
fn trimming_takes_every_repetition_at_the_end() {
    assert_eq!(trim_end("abc\n\n", "\n"), "abc");
    assert_eq!(trim_end("abc\r\n\r\n", "\r\n"), "abc");
    assert_eq!(trim_end("abc\n\r\n", "\r\n"), "abc\n");
    assert_eq!(trim_end("abab", "ab"), "");
    assert_eq!(trim_end("aab", "ab"), "a");
    assert_eq!(trim_end("abc", ""), "abc");
    assert_eq!(trim_end("", "x"), "");
    assert_eq!(trim_end("xé  ", " "), "xé");
    assert_eq!(trim_end("a", "abc"), "a");
}

#[test]
fn lines_join_with_a_separator() {
    assert_eq!(join_lines(&words(&["a", "b", ""]), "\n"), "a\nb\n");
    assert_eq!(join_lines(&words(&["a"]), ", "), "a");
    assert_eq!(join_lines(&words(&["", ""]), "-"), "-");
    assert_eq!(join_lines(&vec![], "\n"), "");
}

#[test]
fn numbers_in_decimal() {
    for n in [0u8, 1, 9, 10, 11, 42, 99, 100, 101, 110, 200, 255] {
        assert_eq!(decimal_text(n), n.to_string());
    }
    assert_eq!(chars_of("aé/"), vec!['a', 'é', '/']);
}
