use textgen::args::{parse_args, split_list};

fn argv(items: &[&str]) -> Vec<String> {
    items.iter().map(|s| s.to_string()).collect()
}

#[test]
fn split_list_keeps_empty_pieces() {
    assert_eq!(split_list("a,b"), vec!["a".to_string(), "b".to_string()]);
    assert_eq!(split_list("a,,b"), vec!["a".to_string(), String::new(), "b".to_string()]);
    assert_eq!(split_list(""), vec![String::new()]);
    assert_eq!(split_list(","), vec![String::new(), String::new()]);
}

#[test]
fn split_list_pieces_join_back() {
    for s in ["a,b,c", "", ",x,", "no commas", "é,ü"] {
        assert_eq!(split_list(s).join(","), s);
    }
}

#[test]
fn parse_args_reads_all_options() {
    let a = parse_args(&argv(&["prog", "--lib", "l1,l2", "--target", "html", "doc.txt", "--lib", "l3"])).unwrap();
    assert_eq!(a.libs, argv(&["l1", "l2", "l3"]));
    assert_eq!(a.targets, argv(&["html"]));
    assert_eq!(a.file, "doc.txt");
}

#[test]
fn parse_args_defaults_to_standard_input() {
    let a = parse_args(&argv(&["prog"])).unwrap();
    assert!(a.libs.is_empty());
    assert!(a.targets.is_empty());
    assert_eq!(a.file, "/dev/stdin");
    let a = parse_args(&argv(&[])).unwrap();
    assert_eq!(a.file, "/dev/stdin");
}

#[test]
fn parse_args_errors() {
    assert_eq!(
        parse_args(&argv(&["prog", "--lib"])).err(),
        Some("expected argument after --lib".to_string())
    );
    assert_eq!(
        parse_args(&argv(&["prog", "x", "--target"])).err(),
        Some("expected argument after --target".to_string())
    );
    assert_eq!(
        parse_args(&argv(&["prog", "a.txt", "b.txt"])).err(),
        Some("Already processing file a.txt".to_string())
    );
}

#[test]
fn the_default_file_is_compared_as_a_path() {
    for default in ["/dev//stdin", "/dev/stdin/", "/dev/./stdin", "//dev/stdin"] {
        let a = parse_args(&argv(&["p", default, "b.txt"])).unwrap();
        assert_eq!(a.file, "b.txt");
    }
    assert_eq!(
        parse_args(&argv(&["p", "dev/stdin", "b.txt"])).err(),
        Some("Already processing file dev/stdin".to_string())
    );
}
