use textgen::commands::{cache_dir_name, eval, first_found, search_paths};
use textgen::generate::Context;
use textgen::parse::Section;

#[test]
fn search_paths_tries_libraries_then_targets() {
    let libs = vec!["/lib/a".to_string(), "/lib/b/".to_string()];
    let targets = vec!["/t/html".to_string()];
    assert_eq!(
        search_paths("upper", &libs, &targets),
        vec!["/lib/a/upper".to_string(), "/lib/b/upper".to_string(), "/t/html/upper".to_string()]
    );
    assert_eq!(search_paths("x", &vec![], &vec![]), Vec::<String>::new());
    assert_eq!(search_paths("/abs/cmd", &libs, &vec![]), vec!["/abs/cmd".to_string(), "/abs/cmd".to_string()]);
}

#[test]
fn eval_prepares_the_run() {
    let context = Context {
        outfile: "/doc/out.html".to_string(),
        target: "targets/html".to_string(),
        libs: vec!["libs".to_string()],
    };
    let section = Section {
        name: "code".to_string(),
        argument: Some("rust".to_string()),
        body: Some("fn main() {}\n".to_string()),
    };
    let inv = eval(section, &context);
    assert_eq!(inv.candidates, vec!["libs/code".to_string(), "targets/html/code".to_string()]);
    assert_eq!(inv.parameter, Some("rust".to_string()));
    assert_eq!(inv.input, Some("fn main() {}\n".to_string()));
}

#[test]
fn cache_dir_name_hides_a_directory_beside_the_file() {
    assert_eq!(cache_dir_name("/home/me/doc.txt"), ".doc.txt.tmp");
    assert_eq!(cache_dir_name("doc"), ".doc.tmp");
}

#[test]
fn first_found_picks_the_earliest_file() {
    assert_eq!(first_found(&vec![false, true, true]), Some(1));
    assert_eq!(first_found(&vec![true]), Some(0));
    assert_eq!(first_found(&vec![false, false]), None);
    assert_eq!(first_found(&vec![]), None);
}
