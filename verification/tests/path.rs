use textgen::path::{
    absolute, file_name, filename, join_path, output_path, parent, parent_folder, same_path,
    with_extension,
};

#[test]
fn join_path_follows_path_rules() {
    assert_eq!(join_path("/usr", "bin"), "/usr/bin");
    assert_eq!(join_path("/usr/", "bin"), "/usr/bin");
    assert_eq!(join_path("", "bin"), "bin");
    assert_eq!(join_path("/usr", "/etc"), "/etc");
    assert_eq!(join_path("lib", ""), "lib/");
}

#[test]
fn absolute_resolves_against_the_current_directory() {
    assert_eq!(absolute("doc.txt", "/home/me"), "/home/me/doc.txt");
    assert_eq!(absolute("/tmp/doc.txt", "/home/me"), "/tmp/doc.txt");
}

#[test]
fn file_name_cases() {
    assert_eq!(file_name("/a/b.txt"), Some("b.txt".to_string()));
    assert_eq!(file_name("b.txt"), Some("b.txt".to_string()));
    assert_eq!(file_name("/a/b/"), Some("b".to_string()));
    assert_eq!(file_name("/a/b/."), Some("b".to_string()));
    assert_eq!(file_name("/a//b//"), Some("b".to_string()));
    assert_eq!(file_name("/"), None);
    assert_eq!(file_name(""), None);
    assert_eq!(file_name("."), None);
    assert_eq!(file_name("./"), None);
    assert_eq!(file_name("/a/.."), None);
    assert_eq!(filename("/x/y.md"), "y.md");
}

#[test]
fn file_name_agrees_with_std_on_common_paths() {
    for p in ["/a/b.txt", "b", "a/b/", "/a/b/.", "/", ".", "..", "a/..", "./a", "/a//b", ""] {
        let ours = file_name(p);
        let std = std::path::Path::new(p).file_name().map(|n| n.to_str().unwrap().to_string());
        assert_eq!(ours, std, "file name of {:?}", p);
    }
}

#[test]
fn parent_cases() {
    assert_eq!(parent("/a/b"), Some("/a".to_string()));
    assert_eq!(parent("/a"), Some("/".to_string()));
    assert_eq!(parent("/"), None);
    assert_eq!(parent(""), None);
    assert_eq!(parent("a"), Some(String::new()));
    assert_eq!(parent("/a/./b/"), Some("/a".to_string()));
    assert_eq!(parent("/a/b/.."), Some("/a/b".to_string()));
}

#[test]
fn parent_agrees_with_std_on_common_paths() {
    for p in ["/a/b", "/a", "/", "", "a", "/a/b/", "/a/./b", "/a/b/..", "a/b", "./a", "."] {
        let ours = parent(p);
        let std = std::path::Path::new(p).parent().map(|n| n.to_str().unwrap().to_string());
        assert_eq!(ours, std, "parent of {:?}", p);
    }
}

#[test]
fn parent_folder_of_a_relative_file() {
    assert_eq!(parent_folder("notes/doc.txt", "/home/me"), "/home/me/notes");
    assert_eq!(parent_folder("doc.txt", "/home/me"), "/home/me");
    assert_eq!(parent_folder("/srv/doc.txt", "/home/me"), "/srv");
}

#[test]
fn a_joined_name_splits_back() {
    for (dir, name) in [("/home/me", "doc.txt"), ("/", "x"), ("rel/dir/", "a.b"), ("", "n")] {
        let joined = join_path(dir, name);
        assert_eq!(file_name(&joined), Some(name.to_string()));
        let trimmed = dir.trim_end_matches('/');
        let expected = if dir.is_empty() { String::new() } else if trimmed.is_empty() { "/".to_string() } else { trimmed.to_string() };
        assert_eq!(parent(&joined), Some(expected));
    }
}

#[test]
fn same_path_agrees_with_std() {
    let paths = [
        "/dev/stdin", "/dev//stdin", "/dev/stdin/", "/dev/./stdin", "dev/stdin", "./dev/stdin",
        "/dev/stdin/..", "", ".", "./", "/", "//", "a", "./a", "a/.", "a/./b", "a/b",
    ];
    for a in paths {
        for b in paths {
            let std = std::path::Path::new(a) == std::path::Path::new(b);
            assert_eq!(same_path(a, b), std, "{:?} vs {:?}", a, b);
        }
    }
}

#[test]
fn with_extension_agrees_with_std() {
    let paths = [
        "doc.txt", "/a/doc.txt", "doc", ".bashrc", "a.tar.gz", "a.", "/a/b/", "/a/b.c/.", "/",
        "", "..", "/a/..", "dir/.hidden.md",
    ];
    for p in paths {
        for ext in ["html", "", "x.y"] {
            let std = std::path::Path::new(p).with_extension(ext);
            assert_eq!(with_extension(p, ext), std.to_str().unwrap(), "{:?} with {:?}", p, ext);
        }
    }
}

#[test]
fn output_path_takes_the_target_name() {
    assert_eq!(output_path("/home/me/doc.txt", "targets/html"), "/home/me/doc.html");
    assert_eq!(output_path("notes", "/t/pdf/"), "notes.pdf");
}
