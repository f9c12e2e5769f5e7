use textgen::generate::{combine_texts, generate_section, Processor, Step};

fn run_with(source: &str, mut command: impl FnMut(&str, Option<&str>, Option<&str>) -> Result<String, String>) -> Result<String, String> {
    let mut processor = Processor::new(source);
    loop {
        match processor.next_step() {
            Step::Done(result) => return Ok(result),
            Step::Failed(message) => return Err(message),
            Step::Run(section) => {
                let output = command(
                    section.name.as_str(),
                    section.argument.as_deref(),
                    section.body.as_deref(),
                );
                if let Some(error) = processor.resume(section.name.as_str(), output) {
                    return Err(error);
                }
            }
        }
    }
}

#[test]
fn combine_texts_puts_the_added_text_first() {
    assert_eq!(combine_texts("ab", "cd"), "abcd");
    assert_eq!(combine_texts("", "cd"), "cd");
    assert_eq!(combine_texts("ab", ""), "ab");
}

#[test]
fn generate_section_hands_the_text_to_generate() {
    let s = generate_section("text".to_string());
    assert_eq!(s.name, "generate");
    assert_eq!(s.argument, None);
    assert_eq!(s.body, Some("text".to_string()));
}

#[test]
fn plain_text_passes_through_unchanged() {
    let source = "first line\n\n  indented\n\nlast line without break";
    let result = run_with(source, |_, _, _| panic!("no command expected"));
    assert_eq!(result, Ok(source.to_string()));
    assert_eq!(run_with("", |_, _, _| panic!("no command expected")), Ok(String::new()));
}

#[test]
fn a_oneliner_is_replaced_by_its_output() {
    let result = run_with("before\n.date\nafter\n", |name, arg, body| {
        assert_eq!(name, "date");
        assert_eq!(arg, None);
        assert_eq!(body, None);
        Ok("2024\n".to_string())
    });
    assert_eq!(result, Ok("before\n2024\nafter\n".to_string()));
}

#[test]
fn a_block_is_handed_to_its_command() {
    let result = run_with(".upper:\n  one\n  two\nrest\n", |name, arg, body| {
        assert_eq!(name, "upper");
        assert_eq!(arg, None);
        Ok(body.unwrap().to_uppercase())
    });
    assert_eq!(result, Ok("ONE\nTWO\nrest\n".to_string()));
}

#[test]
fn an_argument_is_passed_on() {
    let result = run_with(".title: Hello\n", |name, arg, body| {
        assert_eq!(name, "title");
        assert_eq!(body, None);
        Ok(format!("# {}\n", arg.unwrap()))
    });
    assert_eq!(result, Ok("# Hello\n".to_string()));
}

#[test]
fn command_output_is_processed_again() {
    let mut calls = Vec::new();
    let result = run_with(".outer\nend\n", |name, _, _| {
        calls.push(name.to_string());
        if name == "outer" {
            Ok("x\n.inner\n".to_string())
        } else {
            Ok("y\n".to_string())
        }
    });
    assert_eq!(result, Ok("x\ny\nend\n".to_string()));
    assert_eq!(calls, vec!["outer".to_string(), "inner".to_string()]);
}

#[test]
fn a_failing_command_stops_the_processing() {
    let result = run_with("a\n.missing\nb\n", |_, _, _| Err("not found".to_string()));
    assert_eq!(
        result,
        Err("error when running command missing: not found".to_string())
    );
}

#[test]
fn a_nameless_command_is_an_error() {
    let result = run_with("a\n.: x\n", |_, _, _| panic!("no command expected"));
    assert_eq!(
        result,
        Err("a command line needs a name after the delimiter".to_string())
    );
}

#[test]
fn blank_lines_before_a_command_are_kept() {
    let result = run_with("\n  \n.c\n", |_, _, _| Ok("out".to_string()));
    assert_eq!(result, Ok("\n  \nout".to_string()));
}
