use vstd::prelude::*;
use vstd::string::*;
use crate::text::{
    after_last, chars_of, empty_lines_len, find_char, indent_len, is_blank, is_empty_line,
    is_whitespace, char_pos, lemma_char_pos, lemma_char_pos_bounds, lemma_indent_len, lemma_empty_lines_len_bounds,
    lemma_line_len_bounds, starts_with, lemma_whitespace_len, line_len,
};

verus! {

/// The character that opens a command line.
pub const DELIMITER: char = '.';

/// The first line of a command call, as read from the text.
///
/// - `.command:` alone on its line waits for a block, indented or not;
/// - `.command: argument` carries an argument and may be followed by an indented block;
/// - `.command` takes neither.
pub enum CallHeader {
    Block { name: String, base_indent: String },
    Oneliner { name: String },
    Mixed { name: String, base_indent: String, argument: String },
}

/// The mathematical value of a [`CallHeader`].
pub enum SpecCallHeader {
    Block { name: Seq<char>, base_indent: Seq<char> },
    Oneliner { name: Seq<char> },
    Mixed { name: Seq<char>, base_indent: Seq<char>, argument: Seq<char> },
}

impl View for CallHeader {
    type V = SpecCallHeader;

    open spec fn view(&self) -> SpecCallHeader {
        match self {
            CallHeader::Block { name, base_indent } => SpecCallHeader::Block {
                name: name@,
                base_indent: base_indent@,
            },
            CallHeader::Oneliner { name } => SpecCallHeader::Oneliner { name: name@ },
            CallHeader::Mixed { name, base_indent, argument } => SpecCallHeader::Mixed {
                name: name@,
                base_indent: base_indent@,
                argument: argument@,
            },
        }
    }
}

/// `line` without its trailing line break, if it has one.
pub open spec fn without_break(line: Seq<char>) -> Seq<char> {
    if line.len() > 0 && line.last() == '\n' {
        line.drop_last()
    } else {
        line
    }
}

/// The header that `line` spells, if any, once its trailing line break is set aside (see
/// [`header_text_of`]).
pub open spec fn header_of(line: Seq<char>) -> Option<SpecCallHeader> {
    header_text_of(without_break(line))
}

/// The header that a line without its line break spells, if any: after its indentation it
/// must open with [`DELIMITER`]; the name runs up to the first `:`; after the `:` comes
/// either nothing (a block header) or an argument, of which one leading space is dropped.
pub open spec fn header_text_of(line: Seq<char>) -> Option<SpecCallHeader> {
    let n = indent_len(line) as int;
    let indent = line.take(n);
    let rest = line.skip(n);
    if rest.len() == 0 || rest[0] != DELIMITER {
        None
    } else {
        let body = rest.skip(1);
        let k = char_pos(body, ':') as int;
        if k == body.len() {
            Some(SpecCallHeader::Oneliner { name: body })
        } else {
            let end = body.skip(k + 1);
            if end.len() == 0 {
                Some(SpecCallHeader::Block { name: body.take(k), base_indent: indent })
            } else {
                Some(
                    SpecCallHeader::Mixed {
                        name: body.take(k),
                        base_indent: indent,
                        argument: if end[0] == ' ' {
                            end.skip(1)
                        } else {
                            end
                        },
                    },
                )
            }
        }
    }
}

/// Splits `text` at the character position `offset`.
pub fn split(text: &str, offset: usize) -> (r: (&str, &str))
    requires
        offset <= text@.len(),
    ensures
        r.0@ == text@.take(offset as int),
        r.1@ == text@.skip(offset as int),
{
    let n: usize = text.unicode_len();
    (text.substring_char(0, offset), text.substring_char(offset, n))
}

/// Splits `text` into its indentation (the spaces and tabs that open it) and the rest.
pub fn split_indent(text: &str) -> (r: (&str, &str))
    ensures
        r.0@ == text@.take(indent_len(text@) as int),
        r.1@ == text@.skip(indent_len(text@) as int),
        r.0@ + r.1@ == text@,
        forall|j: int| 0 <= j < r.0@.len() ==> is_blank(#[trigger] r.0@[j]),
        r.1@.len() == 0 || !is_blank(r.1@[0]),
{
    let cs = chars_of(text);
    let mut i: usize = 0;
    while i < cs.len() && (cs[i] == ' ' || cs[i] == '\t')
        invariant
            i <= cs@.len(),
            cs@ == text@,
            forall|j: int| 0 <= j < i ==> is_blank(cs@[j]),
        decreases cs@.len() - i,
    {
        i = i + 1;
    }
    proof {
        lemma_indent_len(text@, i as int);
        assert(text@.take(i as int) + text@.skip(i as int) =~= text@);
    }
    split(text, i)
}

/// Splits off the first line of `text`, its line break included; `None` when `text` is empty.
pub fn split_line(text: &str) -> (r: Option<(&str, &str)>)
    ensures
        r is None <==> text@.len() == 0,
        r matches Some((line, rest)) ==> {
            &&& line@ == text@.take(line_len(text@) as int)
            &&& rest@ == text@.skip(line_len(text@) as int)
            &&& line@ + rest@ == text@
            &&& line@.len() > 0
        },
{
    let cs = chars_of(text);
    let k: usize = find_char(&cs, '\n');
    let offset: usize = if k < cs.len() { k + 1 } else { k };
    if offset == 0 {
        None
    } else {
        proof {
            assert(text@.take(offset as int) + text@.skip(offset as int) =~= text@);
        }
        Some(split(text, offset))
    }
}

/// Whether `line` holds nothing but spaces and tabs before its first line break.
fn is_empty(line: &str) -> (r: bool)
    ensures
        r == is_empty_line(line@),
{
    let cs = chars_of(line);
    let mut i: usize = 0;
    while i < cs.len()
        invariant
            i <= cs@.len(),
            cs@ == line@,
            forall|j: int| 0 <= j < i ==> is_blank(cs@[j]),
        decreases cs@.len() - i,
    {
        if cs[i] == '\n' {
            proof {
                lemma_indent_len(line@, i as int);
            }
            return true;
        } else if cs[i] != ' ' && cs[i] != '\t' {
            proof {
                lemma_indent_len(line@, i as int);
            }
            return false;
        }
        i = i + 1;
    }
    proof {
        lemma_indent_len(line@, i as int);
    }
    true
}

/// Splits off the blank lines that open `text`: every line, up to the last line break within
/// the leading whitespace, that holds nothing but spaces and tabs.
pub fn split_empty_lines(text: &str) -> (r: (&str, &str))
    ensures
        r.0@ == text@.take(empty_lines_len(text@) as int),
        r.1@ == text@.skip(empty_lines_len(text@) as int),
        r.0@ + r.1@ == text@,
{
    let cs = chars_of(text);
    let mut offset: usize = 0;
    let mut committed: usize = 0;
    while offset < cs.len() && (cs[offset] == ' ' || cs[offset] == '\t' || cs[offset] == '\n')
        invariant
            offset <= cs@.len(),
            cs@ == text@,
            forall|j: int| 0 <= j < offset ==> is_whitespace(cs@[j]),
            committed == after_last(text@, '\n', offset as int),
            committed <= offset,
        decreases cs@.len() - offset,
    {
        if cs[offset] == '\n' {
            committed = offset + 1;
        }
        offset = offset + 1;
    }
    proof {
        lemma_whitespace_len(text@, offset as int);
        assert(text@.take(committed as int) + text@.skip(committed as int) =~= text@);
    }
    split(text, committed)
}

/// Reads a command header from `line`, a trailing line break set aside; `None` when the
/// line is no command line.
pub fn parse_header(line: &str) -> (r: Option<CallHeader>)
    ensures
        r matches Some(h) ==> header_of(line@) == Some(h@),
        r is None ==> header_of(line@) is None,
{
    let lcs = chars_of(line);
    let line = if lcs.len() > 0 && lcs[lcs.len() - 1] == '\n' {
        let (l, _) = split(line, lcs.len() - 1);
        proof {
            assert(l@ =~= without_break(lcs@));
        }
        l
    } else {
        line
    };
    let (indent, line) = split_indent(line);
    let cs = chars_of(line);
    if cs.len() == 0 || cs[0] != DELIMITER {
        return None;
    }
    let (_, body) = split(line, 1);
    let bcs = chars_of(body);
    let k: usize = find_char(&bcs, ':');
    if k == bcs.len() {
        return Some(CallHeader::Oneliner { name: String::from_str(body) });
    }
    let (start, colon_end) = split(body, k);
    let (_, end) = split(colon_end, 1);
    proof {
        assert(end@ =~= body@.skip(k + 1));
    }
    let ecs = chars_of(end);
    if ecs.len() == 0 {
        return Some(
            CallHeader::Block { name: String::from_str(start), base_indent: String::from_str(indent) },
        );
    }
    let argument = if ecs[0] == ' ' {
        let (_, a) = split(end, 1);
        a
    } else {
        end
    };
    Some(
        CallHeader::Mixed {
            name: String::from_str(start),
            base_indent: String::from_str(indent),
            argument: String::from_str(argument),
        },
    )
}

/// A command call, parsed in full.
pub struct Call {
    pub name: String,
    pub body: Option<String>,
    pub argument: Option<String>,
}

/// The message with which [`parse_command`] refuses the headers it does not handle yet.
pub open spec fn unhandled_header_message() -> Seq<char> {
    "test"@
}

/// Completes a call from its header: a one-line command takes no block, so it is complete
/// as it stands and `text` is handed back whole. Block and argument headers are refused.
pub fn parse_command(header: CallHeader, text: &str) -> (r: Result<(Call, &str), String>)
    ensures
        match header@ {
            SpecCallHeader::Oneliner { name } => r matches Ok((call, rest)) && call.name@ == name
                && call.body is None && call.argument is None && rest@ == text@,
            _ => r matches Err(e) && e@ == unhandled_header_message(),
        },
{
    match header {
        CallHeader::Oneliner { name } => {
            return Ok((Call { name, body: None, argument: None }, text));
        },
        CallHeader::Block { name, base_indent } => {},
        CallHeader::Mixed { name, base_indent, argument } => {},
    }
    proof {
        reveal_strlit("test");
    }
    Err(String::from_str("test"))
}

/// The length of the block that continues after the first line of a block read by
/// [`parse_block2`]: each further line, with the blank lines before it, belongs to the block
/// while its indentation begins with `indent`.
pub open spec fn block2_len(text: Seq<char>, indent: Seq<char>) -> nat
    decreases text.len(),
{
    let e = empty_lines_len(text) as int;
    let left = text.skip(e);
    if left.len() == 0 {
        0
    } else {
        let n = line_len(left) as int;
        let line = left.take(n);
        if indent.is_prefix_of(line.take(indent_len(line) as int)) {
            proof {
                lemma_empty_lines_len_bounds(text);
                lemma_line_len_bounds(left);
            }
            (e + n) as nat + block2_len(left.skip(n), indent)
        } else {
            0
        }
    }
}

/// What [`parse_block2`] reads from `text`: the block and the text after it, or `None`.
pub open spec fn block2_of(text: Seq<char>, base_indent: Option<Seq<char>>) -> Option<
    (Seq<char>, Seq<char>),
> {
    let e = empty_lines_len(text) as int;
    let left = text.skip(e);
    if left.len() == 0 {
        None
    } else {
        let n = line_len(left) as int;
        let first = left.take(n);
        let indent = first.take(indent_len(first) as int);
        if base_indent matches Some(b) && !is_deeper(indent, b) {
            None
        } else {
            let len = e + n + block2_len(left.skip(n), indent);
            Some((text.take(len), text.skip(len)))
        }
    }
}

/// Reads an indented block from `text`: the blank lines and the first line that follows them
/// fix its indentation; the block then runs, blank lines included, up to the first line whose
/// indentation does not begin with that of the first line. With a `base_indent`, the first
/// line must be indented deeper than it, or there is no block.
fn parse_block2<'a>(text: &'a str, base_indent: Option<&str>) -> (r: Option<(String, &'a str)>)
    ensures
        match block2_of(text@, base_indent.deep_view()) {
            None => r is None,
            Some((block, rest)) => r matches Some((b, t)) && b@ == block && t@ == rest,
        },
{
    let (empty, left) = split_empty_lines(text);
    let result = split_line(left);
    if result.is_none() {
        return None;
    }
    let (first_line, left) = result.unwrap();
    let (indent, _line) = split_indent(first_line);
    if let Some(base_indent) = base_indent {
        if !(starts_with(indent, base_indent) && indent.unicode_len() > base_indent.unicode_len()) {
            return None;
        }
    }
    let ghost t0 = left@;
    let ghost p0 = empty@.len() + first_line@.len();
    let mut block: String = String::new();
    block.append(empty);
    block.append(first_line);
    let mut text_left = left;
    proof {
        lemma_empty_lines_len_bounds(text@);
        lemma_line_len_bounds(text@.skip(empty_lines_len(text@) as int));
        assert(block@ + text_left@ =~= text@);
        assert(text@.skip(empty_lines_len(text@) as int).skip(
            line_len(text@.skip(empty_lines_len(text@) as int)) as int,
        ) =~= t0);
        assert(block2_of(text@, base_indent.deep_view()) == Some(
            (
                text@.take((p0 + block2_len(t0, indent@)) as int),
                text@.skip((p0 + block2_len(t0, indent@)) as int),
            ),
        ));
    }
    loop
        invariant
            block2_of(text@, base_indent.deep_view()) == Some(
                (
                    text@.take((p0 + block2_len(t0, indent@)) as int),
                    text@.skip((p0 + block2_len(t0, indent@)) as int),
                ),
            ),
            block@ + text_left@ == text@,
            block@.len() >= p0,
            p0 == empty_lines_len(text@) + line_len(text@.skip(empty_lines_len(text@) as int)),
            block2_len(t0, indent@) == (block@.len() - p0) + block2_len(text_left@, indent@),
        decreases text_left@.len(),
    {
        let (empty, left) = split_empty_lines(text_left);
        match split_line(left) {
            None => {
                proof {
                    assert(text@.take(block@.len() as int) =~= block@);
                    assert(text@.skip(block@.len() as int) =~= text_left@);
                }
                return Some((block, text_left));
            },
            Some((full_line, left)) => {
                let (ind, _line) = split_indent(full_line);
                if !starts_with(ind, indent) {
                    proof {
                        assert(text@.take(block@.len() as int) =~= block@);
                        assert(text@.skip(block@.len() as int) =~= text_left@);
                    }
                    return Some((block, text_left));
                }
                let ghost old_block = block@;
                proof {
                    lemma_empty_lines_len_bounds(text_left@);
                    assert(block2_len(text_left@, indent@) == (empty@.len() + full_line@.len())
                        + block2_len(left@, indent@));
                }
                block.append(empty);
                block.append(full_line);
                proof {
                    assert(empty@ + full_line@ + left@ =~= text_left@);
                    assert(block@ + left@ =~= text@);
                }
                text_left = left;
            },
        }
    }
}

/// The name and the argument of a section, read before its block.
pub struct SectionHeader {
    pub name: String,
    pub argument: Option<String>,
}

/// A section of the text that a command is to replace: the command's name, its argument
/// and the block handed to it.
pub struct Section {
    pub name: String,
    pub argument: Option<String>,
    pub body: Option<String>,
}

/// The mathematical value of a [`Section`].
pub struct SpecSection {
    pub name: Seq<char>,
    pub argument: Option<Seq<char>>,
    pub body: Option<Seq<char>>,
}

impl View for Section {
    type V = SpecSection;

    open spec fn view(&self) -> SpecSection {
        SpecSection {
            name: self.name@,
            argument: self.argument.deep_view(),
            body: self.body.deep_view(),
        }
    }
}

/// The number of characters, from the start of `text`, of the lines whose indentation
/// begins with `indent`.
pub open spec fn block_len(text: Seq<char>, indent: Seq<char>) -> nat
    decreases text.len(),
{
    if text.len() == 0 {
        0
    } else {
        let n = line_len(text) as int;
        let line = text.take(n);
        if indent.is_prefix_of(line.take(indent_len(line) as int)) {
            proof {
                lemma_line_len_bounds(text);
            }
            n as nat + block_len(text.skip(n), indent)
        } else {
            0
        }
    }
}

/// Those same lines, each without its indentation.
pub open spec fn block_content(text: Seq<char>, indent: Seq<char>) -> Seq<char>
    decreases text.len(),
{
    if text.len() == 0 {
        seq![]
    } else {
        let n = line_len(text) as int;
        let line = text.take(n);
        if indent.is_prefix_of(line.take(indent_len(line) as int)) {
            proof {
                lemma_line_len_bounds(text);
            }
            line.skip(indent_len(line) as int) + block_content(text.skip(n), indent)
        } else {
            seq![]
        }
    }
}

pub proof fn lemma_block_len_bounds(text: Seq<char>, indent: Seq<char>)
    ensures
        block_len(text, indent) <= text.len(),
    decreases text.len(),
{
    if text.len() > 0 {
        lemma_line_len_bounds(text);
        lemma_block_len_bounds(text.skip(line_len(text) as int), indent);
    }
}

pub proof fn lemma_block_consumed_bounds(text: Seq<char>)
    ensures
        block_consumed(text) <= text.len(),
        text.len() > 0 ==> block_consumed(text) > 0,
{
    lemma_line_len_bounds(text);
    lemma_block_len_bounds(text.skip(line_len(text) as int), first_indent(text));
}

/// The indentation of the first line of `text`.
pub open spec fn first_indent(text: Seq<char>) -> Seq<char> {
    let first = text.take(line_len(text) as int);
    first.take(indent_len(first) as int)
}

/// The body of the block that opens `text`: its first line and every following line whose
/// indentation begins with that of the first line, each without its indentation.
pub open spec fn block_body(text: Seq<char>) -> Seq<char> {
    let first = text.take(line_len(text) as int);
    first.skip(indent_len(first) as int) + block_content(
        text.skip(line_len(text) as int),
        first_indent(text),
    )
}

/// The number of characters of the block that opens `text`.
pub open spec fn block_consumed(text: Seq<char>) -> nat {
    line_len(text) + block_len(text.skip(line_len(text) as int), first_indent(text))
}

/// Reads the block of a section from `text`: its first line sets the indentation, and the
/// block runs while the lines' indentation begins with it. Each line enters the body
/// without its indentation. `None` when `text` is empty.
pub fn parse_block(section: SectionHeader, text: &str) -> (r: Option<(Section, &str)>)
    ensures
        r is None <==> text@.len() == 0,
        r matches Some((s, rest)) ==> {
            &&& s.name@ == section.name@
            &&& s.argument.deep_view() == section.argument.deep_view()
            &&& s.body.deep_view() == Some(block_body(text@))
            &&& rest@ == text@.skip(block_consumed(text@) as int)
        },
{
    match split_line(text) {
        None => None,
        Some((line, text_left)) => {
            let (indent, rest) = split_indent(line);
            let ghost t0 = text_left@;
            let mut content = String::from_str(rest);
            let mut left = text_left;
            loop
                invariant
                    t0 == text@.skip(line_len(text@) as int),
                    indent@ == first_indent(text@),
                    block_body(text@) == content@ + block_content(left@, indent@),
                    block_consumed(text@) == line_len(text@) + (t0.len() - left@.len())
                        + block_len(left@, indent@),
                    left@ =~= t0.skip(t0.len() - left@.len()),
                    left@.len() <= t0.len(),
                    line_len(text@) <= text@.len(),
                    text@.len() > 0,
                decreases left@.len(),
            {
                match split_line(left) {
                    None => {
                        proof {
                            assert(text@.skip(block_consumed(text@) as int) =~= left@);
                        }
                        return Some(
                            (
                                Section {
                                    name: section.name,
                                    argument: section.argument,
                                    body: Some(content),
                                },
                                left,
                            ),
                        );
                    },
                    Some((line, next)) => {
                        let (ind, rest) = split_indent(line);
                        if starts_with(ind, indent) {
                            content.append(rest);
                            proof {
                                assert(next@ =~= t0.skip(t0.len() - next@.len()));
                            }
                            left = next;
                        } else {
                            proof {
                                assert(text@.skip(block_consumed(text@) as int) =~= left@);
                            }
                            return Some(
                                (
                                    Section {
                                        name: section.name,
                                        argument: section.argument,
                                        body: Some(content),
                                    },
                                    left,
                                ),
                            );
                        }
                    },
                }
            }
        },
    }
}

/// The first line of `text`, its line break included.
pub open spec fn first_line(text: Seq<char>) -> Seq<char> {
    text.take(line_len(text) as int)
}

/// The command name that a header carries.
pub open spec fn header_name(h: SpecCallHeader) -> Seq<char> {
    match h {
        SpecCallHeader::Block { name, .. } => name,
        SpecCallHeader::Oneliner { name } => name,
        SpecCallHeader::Mixed { name, .. } => name,
    }
}

/// Whether `indent` goes deeper than `base`: it begins with `base` and is longer.
pub open spec fn is_deeper(indent: Seq<char>, base: Seq<char>) -> bool {
    base.is_prefix_of(indent) && indent.len() > base.len()
}

/// The message of a command line that names no command.
pub open spec fn missing_name_message() -> Seq<char> {
    "a command line needs a name after the delimiter"@
}

/// The section that opens `text`, with the number of characters it takes up; `None` when
/// the first line of `text` is no command line.
///
/// A one-line command takes no block. A block header takes the block that follows it (an
/// empty body at the end of the text). An argument header takes a block only when the next
/// line is indented deeper than the header itself.
pub open spec fn section_of(text: Seq<char>) -> Option<Result<(SpecSection, nat), Seq<char>>> {
    if text.len() == 0 {
        None
    } else {
        let n = line_len(text);
        let rest = text.skip(n as int);
        match header_of(first_line(text)) {
            None => None,
            Some(h) => if header_name(h).len() == 0 {
                Some(Err(missing_name_message()))
            } else {
                match h {
                    SpecCallHeader::Oneliner { name } => Some(
                        Ok((SpecSection { name, argument: None, body: None }, n)),
                    ),
                    SpecCallHeader::Block { name, .. } => if rest.len() == 0 {
                        Some(Ok((SpecSection { name, argument: None, body: Some(seq![]) }, n)))
                    } else {
                        Some(
                            Ok(
                                (
                                    SpecSection {
                                        name,
                                        argument: None,
                                        body: Some(block_body(rest)),
                                    },
                                    n + block_consumed(rest),
                                ),
                            ),
                        )
                    },
                    SpecCallHeader::Mixed { name, base_indent, argument } => if rest.len() > 0
                        && is_deeper(first_indent(rest), base_indent) {
                        Some(
                            Ok(
                                (
                                    SpecSection {
                                        name,
                                        argument: Some(argument),
                                        body: Some(block_body(rest)),
                                    },
                                    n + block_consumed(rest),
                                ),
                            ),
                        )
                    } else {
                        Some(
                            Ok(
                                (
                                    SpecSection { name, argument: Some(argument), body: None },
                                    n,
                                ),
                            ),
                        )
                    },
                }
            },
        }
    }
}

/// Reads the section that opens `text` and returns it with the text after it; `None` when
/// the first line of `text` is no command line, an error when it names no command.
pub fn parse_section(text: &str) -> (r: Option<Result<(Section, &str), String>>)
    ensures
        match section_of(text@) {
            None => r is None,
            Some(Err(m)) => r matches Some(Err(e)) && e@ == m,
            Some(Ok((s, n))) => r matches Some(Ok((sec, rest))) && sec@ == s && rest@
                == text@.skip(n as int),
        },
{
    let (line, rest) = match split_line(text) {
        None => {
            return None;
        },
        Some(pair) => pair,
    };
    proof {
        lemma_line_len_bounds(text@);
    }
    let header = match parse_header(line) {
        None => {
            return None;
        },
        Some(h) => h,
    };
    let (name, base, argument) = match header {
        CallHeader::Oneliner { name } => (name, None, None),
        CallHeader::Block { name, base_indent } => (name, Some(base_indent), None),
        CallHeader::Mixed { name, base_indent, argument } => (
            name,
            Some(base_indent),
            Some(argument),
        ),
    };
    if name.as_str().is_empty() {
        return Some(Err(String::from_str("a command line needs a name after the delimiter")));
    }
    match (base, argument) {
        (None, _) => Some(Ok((Section { name, argument: None, body: None }, rest))),
        (Some(_), None) => {
            if rest.is_empty() {
                Some(
                    Ok(
                        (Section { name, argument: None, body: Some(String::new()) }, rest),
                    ),
                )
            } else {
                match parse_block(SectionHeader { name, argument: None }, rest) {
                    Some((section, left)) => {
                        proof {
                            lemma_block_consumed_bounds(rest@);
                            assert(left@ =~= text@.skip(
                                (line_len(text@) + block_consumed(rest@)) as int,
                            ));
                        }
                        Some(Ok((section, left)))
                    },
                    None => None,
                }
            }
        },
        (Some(base_indent), Some(argument)) => {
            let deeper = match split_line(rest) {
                None => false,
                Some((next_line, _)) => {
                    let (ind, _) = split_indent(next_line);
                    starts_with(ind, base_indent.as_str()) && ind.unicode_len()
                        > base_indent.as_str().unicode_len()
                },
            };
            if deeper {
                match parse_block(SectionHeader { name, argument: Some(argument) }, rest) {
                    Some((section, left)) => {
                        proof {
                            lemma_block_consumed_bounds(rest@);
                            assert(left@ =~= text@.skip(
                                (line_len(text@) + block_consumed(rest@)) as int,
                            ));
                        }
                        Some(Ok((section, left)))
                    },
                    None => None,
                }
            } else {
                Some(Ok((Section { name, argument: Some(argument), body: None }, rest)))
            }
        },
    }
}

/// The first line of what can be an indented block: a command with its indentation and
/// its argument.
pub struct CommandLine {
    pub base_indent: String,
    pub name: String,
    pub argument: Option<String>,
}

/// A command call, parsed in full.
pub enum Command {
    Oneliner { name: String, arg: Option<String> },
    Block { name: String, arg: Option<String>, content: String },
}

/// The mathematical value of a [`Command`].
pub enum SpecCommand {
    Oneliner { name: Seq<char>, arg: Option<Seq<char>> },
    Block { name: Seq<char>, arg: Option<Seq<char>>, content: Seq<char> },
}

impl View for Command {
    type V = SpecCommand;

    open spec fn view(&self) -> SpecCommand {
        match self {
            Command::Oneliner { name, arg } => SpecCommand::Oneliner {
                name: name@,
                arg: arg.deep_view(),
            },
            Command::Block { name, arg, content } => SpecCommand::Block {
                name: name@,
                arg: arg.deep_view(),
                content: content@,
            },
        }
    }
}

/// What [`parse_command_block`] makes of the command `name` (indented by `base`, with the
/// argument `arg`) and of the `text` after its line: the command and the number of
/// characters of `text` it takes up.
///
/// After the blank lines, a command with an argument whose next line is not indented under
/// it, or that has no next line, stands alone and takes nothing. Otherwise the blank lines
/// and the next line form its block.
pub open spec fn command_block_of(
    base: Seq<char>,
    name: Seq<char>,
    arg: Option<Seq<char>>,
    text: Seq<char>,
) -> (SpecCommand, nat) {
    let e = empty_lines_len(text);
    let left = text.skip(e as int);
    if left.len() == 0 {
        if arg is Some {
            (SpecCommand::Oneliner { name, arg }, 0)
        } else {
            (SpecCommand::Block { name, arg, content: text.take(e as int) }, e)
        }
    } else {
        let n = line_len(left);
        let line = left.take(n as int);
        if !base.is_prefix_of(line.take(indent_len(line) as int)) && arg is Some {
            (SpecCommand::Oneliner { name, arg }, 0)
        } else {
            (SpecCommand::Block { name, arg, content: text.take((e + n) as int) }, e + n)
        }
    }
}

/// Reads the block of the command that `command_header` opens from `text`.
pub fn parse_command_block(command_header: CommandLine, text: &str) -> (r: Result<
    (Command, &str),
    String,
>)
    ensures
        r matches Ok((c, rest)) && {
            let (spec_c, n) = command_block_of(
                command_header.base_indent@,
                command_header.name@,
                command_header.argument.deep_view(),
                text@,
            );
            c@ == spec_c && rest@ == text@.skip(n as int)
        },
{
    let (empty, left_text) = split_empty_lines(text);
    proof {
        lemma_empty_lines_len_bounds(text@);
    }
    match split_line(left_text) {
        None => {
            if command_header.argument.is_some() {
                Ok((Command::Oneliner { name: command_header.name, arg: command_header.argument }, text))
            } else {
                Ok(
                    (
                        Command::Block {
                            name: command_header.name,
                            arg: command_header.argument,
                            content: String::from_str(empty),
                        },
                        left_text,
                    ),
                )
            }
        },
        Some((line, rest)) => {
            let (indent, _line) = split_indent(line);
            if !starts_with(indent, command_header.base_indent.as_str())
                && command_header.argument.is_some() {
                Ok((Command::Oneliner { name: command_header.name, arg: command_header.argument }, text))
            } else {
                let mut content = String::from_str(empty);
                content.append(line);
                proof {
                    lemma_line_len_bounds(left_text@);
                    assert(content@ =~= text@.take((empty@.len() + line@.len()) as int));
                    assert(rest@ =~= text@.skip((empty@.len() + line@.len()) as int));
                }
                Ok(
                    (
                        Command::Block {
                            name: command_header.name,
                            arg: command_header.argument,
                            content,
                        },
                        rest,
                    ),
                )
            }
        },
    }
}

/// The warning owed when a command that waits for a block finds only blank lines after it.
pub open spec fn empty_block_warning_of(name: Seq<char>) -> Seq<char> {
    "Warning: only empty lines found in block under command "@ + name
}

/// The warning that reading the block of `command_header` from `text` calls for: a command
/// without an argument followed by nothing but blank lines gets an empty block and a warning.
pub fn empty_block_warning(command_header: &CommandLine, text: &str) -> (r: Option<String>)
    ensures
        (command_header.argument is None && text@.skip(empty_lines_len(text@) as int).len() == 0)
            ==> (r matches Some(w) && w@ == empty_block_warning_of(command_header.name@)),
        !(command_header.argument is None && text@.skip(empty_lines_len(text@) as int).len()
            == 0) ==> r is None,
{
    let (_empty, left_text) = split_empty_lines(text);
    if command_header.argument.is_none() && left_text.is_empty() {
        let mut warning = String::from_str("Warning: only empty lines found in block under command ");
        warning.append(command_header.name.as_str());
        Some(warning)
    } else {
        None
    }
}


/// Whether a line starts at position `i` of `s`.
pub open spec fn line_start(s: Seq<char>, i: int) -> bool {
    i == 0 || s[i - 1] == '\n'
}

/// `s` with each of its lines stripped of its indentation.
pub open spec fn strip_indents(s: Seq<char>) -> Seq<char>
    decreases s.len(),
{
    if s.len() == 0 {
        seq![]
    } else {
        proof {
            lemma_line_len_bounds(s);
        }
        let l = first_line(s);
        l.skip(indent_len(l) as int) + strip_indents(s.skip(line_len(s) as int))
    }
}

/// Whether the first `c` characters of `t` are whole lines whose indentations all begin with
/// `ind`, while the line at `c`, if any, has an indentation that does not.
pub open spec fn run_of(t: Seq<char>, ind: Seq<char>, c: int) -> bool {
    &&& 0 <= c <= t.len()
    &&& (c == 0 || c == t.len() || t[c - 1] == '\n')
    &&& forall|i: int|
        0 <= i < c && line_start(t, i) ==> ind.is_prefix_of(#[trigger] first_indent(t.skip(i)))
    &&& (c < t.len() ==> !ind.is_prefix_of(first_indent(t.skip(c))))
}

/// Whether the first `c` characters of `t` are the block that opens it: its first line and
/// every following line, as long as their indentations begin with that of the first line.
pub open spec fn is_block_run(t: Seq<char>, c: int) -> bool {
    run_of(t, first_indent(t), c) && (t.len() > 0 ==> c > 0)
}

proof fn lemma_line_len_take(s: Seq<char>, m: int)
    requires
        line_len(s) <= m <= s.len(),
    ensures
        line_len(s.take(m)) == line_len(s),
{
    lemma_char_pos_bounds(s, '\n');
    let p = char_pos(s, '\n') as int;
    if p < s.len() {
        lemma_char_pos(s.take(m), '\n', p);
    } else {
        assert(s.take(m) =~= s);
    }
}

proof fn lemma_block_len_run(t: Seq<char>, ind: Seq<char>)
    ensures
        run_of(t, ind, block_len(t, ind) as int),
        block_content(t, ind) == strip_indents(t.take(block_len(t, ind) as int)),
    decreases t.len(),
{
    lemma_block_len_bounds(t, ind);
    if t.len() == 0 {
        assert(t.take(0) =~= Seq::<char>::empty());
    } else {
        let n = line_len(t) as int;
        lemma_line_len_bounds(t);
        let line = t.take(n);
        assert(t.skip(0) =~= t);
        if ind.is_prefix_of(line.take(indent_len(line) as int)) {
            let t2 = t.skip(n);
            lemma_block_len_run(t2, ind);
            lemma_block_len_bounds(t2, ind);
            let c2 = block_len(t2, ind) as int;
            let c = n + c2;
            assert(block_len(t, ind) == c);
            assert forall|i: int| 0 <= i < c && line_start(t, i) implies ind.is_prefix_of(
                #[trigger] first_indent(t.skip(i)),
            ) by {
                if i == 0 {
                    assert(t.skip(i) =~= t);
                } else if i < n {
                    assert(t[i - 1] != '\n');
                } else {
                    assert(t.skip(i) =~= t2.skip(i - n));
                    if i > n {
                        assert(t[i - 1] == t2[i - n - 1]);
                    }
                    assert(line_start(t2, i - n));
                    assert(ind.is_prefix_of(first_indent(t2.skip(i - n))));
                }
            }
            if c < t.len() {
                assert(t.skip(c) =~= t2.skip(c2));
            }
            if c2 > 0 {
                assert(t[c - 1] == t2[c2 - 1]);
            }
            lemma_line_len_take(t, c);
            assert(t.take(c).take(n) =~= line);
            assert(t.take(c).skip(n) =~= t2.take(c2));
        } else {
            assert(block_len(t, ind) == 0);
            assert(t.take(0) =~= Seq::<char>::empty());
        }
    }
}

/// The block read from a non-empty text is exactly its longest run of lines, from the
/// first, whose indentations begin with that of the first line (blank lines included),
/// and its body is those lines without their indentation.
pub proof fn law_block_shape(text: Seq<char>)
    requires
        text.len() > 0,
    ensures
        is_block_run(text, block_consumed(text) as int),
        block_body(text) == strip_indents(text.take(block_consumed(text) as int)),
{
    let ind = first_indent(text);
    lemma_line_len_bounds(text);
    let n = line_len(text) as int;
    let line = text.take(n);
    assert(ind.is_prefix_of(line.take(indent_len(line) as int))) by {
        assert(ind =~= line.take(indent_len(line) as int));
    }
    assert(block_consumed(text) == block_len(text, ind));
    assert(block_body(text) == block_content(text, ind));
    lemma_block_len_run(text, ind);
}

/// A section starts with its command line and takes up the text in order: a one-line
/// command takes its line and nothing more; a block header takes the block that follows it;
/// an argument header takes the block that follows only when it is indented deeper, and
/// then all of it. The body of a block is its lines without their indentation.
pub proof fn law_section_shape(text: Seq<char>)
    ensures
        section_of(text) matches Some(Ok((s, m))) ==> {
            let n = line_len(text) as int;
            let rest = text.skip(n);
            let h = header_of(first_line(text)).unwrap();
            &&& 0 < n <= m <= text.len()
            &&& s.name == header_name(h)
            &&& match h {
                SpecCallHeader::Oneliner { .. } => m == n && s.argument is None && s.body is None,
                SpecCallHeader::Block { .. } => s.argument is None && is_block_run(rest, m - n)
                    && s.body == Some(strip_indents(rest.take(m - n))),
                SpecCallHeader::Mixed { base_indent, argument, .. } => s.argument == Some(
                    argument,
                ) && if rest.len() > 0 && is_deeper(first_indent(rest), base_indent) {
                    is_block_run(rest, m - n) && s.body == Some(strip_indents(rest.take(m - n)))
                } else {
                    m == n && s.body is None
                },
            }
        },
{
    if text.len() > 0 {
        lemma_line_len_bounds(text);
        let n = line_len(text) as int;
        let rest = text.skip(n);
        if rest.len() > 0 {
            law_block_shape(rest);
            lemma_block_consumed_bounds(rest);
        } else {
            assert(rest.take(0) =~= Seq::<char>::empty());
        }
    }
}

} // verus!
