use textgen::parse::{
    empty_block_warning, parse_block, parse_command, parse_command_block, parse_header,
    parse_section, split, split_empty_lines, split_indent, split_line, CallHeader, Command,
    CommandLine, SectionHeader,
};

#[test]
fn split_cuts_at_character_positions() {
    assert_eq!(split("héllo", 2), ("hé", "llo"));
    assert_eq!(split("abc", 0), ("", "abc"));
    assert_eq!(split("abc", 3), ("abc", ""));
}

#[test]
fn split_indent_takes_spaces_and_tabs() {
    assert_eq!(split_indent(" \t  .cmd\n"), (" \t  ", ".cmd\n"));
    assert_eq!(split_indent("no indent"), ("", "no indent"));
    assert_eq!(split_indent("   "), ("   ", ""));
    assert_eq!(split_indent(""), ("", ""));
    assert_eq!(split_indent("\n  x"), ("", "\n  x"));
}

#[test]
fn split_line_keeps_the_line_break() {
    assert_eq!(split_line("one\ntwo\n"), Some(("one\n", "two\n")));
    assert_eq!(split_line("last"), Some(("last", "")));
    assert_eq!(split_line("\n"), Some(("\n", "")));
    assert_eq!(split_line(""), None);
}

#[test]
fn split_line_pieces_give_back_the_text() {
    let text = "α\nβγ\n\nδ";
    let mut rest = text;
    let mut joined = String::new();
    while let Some((line, next)) = split_line(rest) {
        assert!(!line.is_empty());
        joined.push_str(line);
        rest = next;
    }
    assert_eq!(joined, text);
}

#[test]
fn split_empty_lines_stops_at_the_last_complete_blank_line() {
    assert_eq!(split_empty_lines("  \n\t\n  text\n"), ("  \n\t\n", "  text\n"));
    assert_eq!(split_empty_lines("text"), ("", "text"));
    assert_eq!(split_empty_lines("   "), ("", "   "));
    assert_eq!(split_empty_lines("\n\n"), ("\n\n", ""));
    assert_eq!(split_empty_lines(""), ("", ""));
    assert_eq!(split_empty_lines(" \n  \n x"), (" \n  \n", " x"));
}

fn header(line: &str) -> Option<(String, String, Option<String>, Option<String>)> {
    parse_header(line).map(|h| match h {
        CallHeader::Block { name, base_indent } => ("block".to_string(), name, Some(base_indent), None),
        CallHeader::Oneliner { name } => ("oneliner".to_string(), name, None, None),
        CallHeader::Mixed { name, base_indent, argument } => {
            ("mixed".to_string(), name, Some(base_indent), Some(argument))
        }
    })
}

#[test]
fn parse_header_reads_the_three_forms() {
    assert_eq!(header(".toc"), Some(("oneliner".to_string(), "toc".to_string(), None, None)));
    assert_eq!(
        header("  .code:"),
        Some(("block".to_string(), "code".to_string(), Some("  ".to_string()), None))
    );
    assert_eq!(
        header(".title: Title"),
        Some((
            "mixed".to_string(),
            "title".to_string(),
            Some(String::new()),
            Some("Title".to_string())
        ))
    );
    assert_eq!(
        header("\t.title:Title: more"),
        Some((
            "mixed".to_string(),
            "title".to_string(),
            Some("\t".to_string()),
            Some("Title: more".to_string())
        ))
    );
}

#[test]
fn parse_header_drops_one_space_only() {
    assert_eq!(
        header(".title:  two"),
        Some((
            "mixed".to_string(),
            "title".to_string(),
            Some(String::new()),
            Some(" two".to_string())
        ))
    );
}

#[test]
fn parse_header_sets_the_line_break_aside() {
    assert_eq!(
        header(".toc\n"),
        Some(("oneliner".to_string(), "toc".to_string(), None, None))
    );
    assert_eq!(
        header("  .code:\n"),
        Some(("block".to_string(), "code".to_string(), Some("  ".to_string()), None))
    );
    assert_eq!(
        header(".title: T\n"),
        Some((
            "mixed".to_string(),
            "title".to_string(),
            Some(String::new()),
            Some("T".to_string())
        ))
    );
}

#[test]
fn parse_header_refuses_other_lines() {
    assert!(parse_header("text .cmd").is_none());
    assert!(parse_header("").is_none());
    assert!(parse_header("   ").is_none());
    assert!(parse_header(",cmd").is_none());
}

#[test]
fn parse_command_completes_oneliners_only() {
    let (call, rest) = parse_command(CallHeader::Oneliner { name: "toc".to_string() }, "rest\n").unwrap();
    assert_eq!(call.name, "toc");
    assert_eq!(call.body, None);
    assert_eq!(call.argument, None);
    assert_eq!(rest, "rest\n");
    let err = parse_command(
        CallHeader::Block { name: "code".to_string(), base_indent: String::new() },
        "  x\n",
    );
    assert_eq!(err.err(), Some("test".to_string()));
    let err = parse_command(
        CallHeader::Mixed {
            name: "t".to_string(),
            base_indent: String::new(),
            argument: "a".to_string(),
        },
        "",
    );
    assert_eq!(err.err(), Some("test".to_string()));
}

#[test]
fn parse_block_takes_the_lines_indented_like_the_first() {
    let header = SectionHeader { name: "code".to_string(), argument: Some("rust".to_string()) };
    let (section, rest) = parse_block(header, "  a\n  b\n    c\nd\n").unwrap();
    assert_eq!(section.name, "code");
    assert_eq!(section.argument, Some("rust".to_string()));
    assert_eq!(section.body, Some("a\nb\nc\n".to_string()));
    assert_eq!(rest, "d\n");
}

#[test]
fn parse_block_without_indentation_runs_to_the_end() {
    let header = SectionHeader { name: "x".to_string(), argument: None };
    let (section, rest) = parse_block(header, "a\n b\nc").unwrap();
    assert_eq!(section.body, Some("a\nb\nc".to_string()));
    assert_eq!(rest, "");
}

#[test]
fn parse_block_stops_at_a_blank_line_when_indented() {
    let header = SectionHeader { name: "x".to_string(), argument: None };
    let (section, rest) = parse_block(header, "  a\n\n  b\n").unwrap();
    assert_eq!(section.body, Some("a\n".to_string()));
    assert_eq!(rest, "\n  b\n");
    let header = SectionHeader { name: "x".to_string(), argument: None };
    assert!(parse_block(header, "").is_none());
}

#[test]
fn parse_section_reads_a_oneliner() {
    let (section, rest) = parse_section(".toc\nbody\n").unwrap().unwrap();
    assert_eq!(section.name, "toc");
    assert_eq!(section.argument, None);
    assert_eq!(section.body, None);
    assert_eq!(rest, "body\n");
}

#[test]
fn parse_section_reads_a_block() {
    let (section, rest) = parse_section(".upper:\n  one\n  two\nafter\n").unwrap().unwrap();
    assert_eq!(section.name, "upper");
    assert_eq!(section.argument, None);
    assert_eq!(section.body, Some("one\ntwo\n".to_string()));
    assert_eq!(rest, "after\n");
}

#[test]
fn parse_section_gives_an_empty_block_at_the_end() {
    let (section, rest) = parse_section(".upper:\n").unwrap().unwrap();
    assert_eq!(section.body, Some(String::new()));
    assert_eq!(rest, "");
}

#[test]
fn parse_section_reads_an_argument_with_or_without_block() {
    let (section, rest) = parse_section(".title: Hello\nnext\n").unwrap().unwrap();
    assert_eq!(section.name, "title");
    assert_eq!(section.argument, Some("Hello".to_string()));
    assert_eq!(section.body, None);
    assert_eq!(rest, "next\n");

    let (section, rest) = parse_section("  .code: rust\n    fn f() {}\n  after\n").unwrap().unwrap();
    assert_eq!(section.name, "code");
    assert_eq!(section.argument, Some("rust".to_string()));
    assert_eq!(section.body, Some("fn f() {}\n".to_string()));
    assert_eq!(rest, "  after\n");
}

#[test]
fn parse_section_refuses_a_nameless_command() {
    assert_eq!(
        parse_section(".: x\n").unwrap().err(),
        Some("a command line needs a name after the delimiter".to_string())
    );
    assert!(parse_section(".\n").unwrap().is_err());
}

#[test]
fn parse_section_ignores_other_lines() {
    assert!(parse_section("plain text\n.toc\n").is_none());
    assert!(parse_section("").is_none());
}

fn command(c: Command) -> (String, Option<String>, Option<String>) {
    match c {
        Command::Oneliner { name, arg } => (name, arg, None),
        Command::Block { name, arg, content } => (name, arg, Some(content)),
    }
}

#[test]
fn parse_command_block_cases() {
    let line = |arg: Option<&str>| CommandLine {
        base_indent: "  ".to_string(),
        name: "cmd".to_string(),
        argument: arg.map(|a| a.to_string()),
    };
    let (c, rest) = parse_command_block(line(Some("a")), "\n\n").unwrap();
    assert_eq!(command(c), ("cmd".to_string(), Some("a".to_string()), None));
    assert_eq!(rest, "\n\n");

    let (c, rest) = parse_command_block(line(None), "\n \n").unwrap();
    assert_eq!(command(c), ("cmd".to_string(), None, Some("\n \n".to_string())));
    assert_eq!(rest, "");

    let (c, rest) = parse_command_block(line(Some("a")), "x\n").unwrap();
    assert_eq!(command(c), ("cmd".to_string(), Some("a".to_string()), None));
    assert_eq!(rest, "x\n");

    let (c, rest) = parse_command_block(line(Some("a")), "\n    y\nz\n").unwrap();
    assert_eq!(command(c), ("cmd".to_string(), Some("a".to_string()), Some("\n    y\n".to_string())));
    assert_eq!(rest, "z\n");
}

#[test]
fn empty_block_warning_names_the_command() {
    let line = CommandLine { base_indent: String::new(), name: "cmd".to_string(), argument: None };
    assert_eq!(
        empty_block_warning(&line, "  \n\n"),
        Some("Warning: only empty lines found in block under command cmd".to_string())
    );
    assert_eq!(empty_block_warning(&line, "\n x"), None);
    let line = CommandLine {
        base_indent: String::new(),
        name: "cmd".to_string(),
        argument: Some("a".to_string()),
    };
    assert_eq!(empty_block_warning(&line, ""), None);
}
