use vstd::prelude::*;
use vstd::string::*;
use crate::parse::{
    first_line, header_of, parse_section, section_of, split_empty_lines,
    split_line, lemma_block_consumed_bounds, Section, SpecSection,
};
use crate::text::{
    empty_lines_len, lemma_after_last_bounds, lemma_empty_lines_len_bounds,
    lemma_line_len_bounds, lemma_whitespace_len_bounds, line_len, whitespace_len,
};

verus! {

/// What a compilation for one target works with: the file that receives the output, the
/// directory of the target's binaries, and the library directories searched first.
pub struct Context {
    pub outfile: String,
    pub target: String,
    pub libs: Vec<String>,
}

/// `added` followed by `text`.
pub fn combine_texts(added: &str, text: &str) -> (r: String)
    ensures
        r@ == added@ + text@,
{
    let mut result = String::new();
    result.append(added);
    result.append(text);
    result
}

/// The name of the command that turns the processed text into the target's output.
pub open spec fn generate_command() -> Seq<char> {
    "generate"@
}

/// The section that hands the processed text `result` to the target's `generate` command.
pub fn generate_section(result: String) -> (s: Section)
    ensures
        s@.name == generate_command(),
        s@.argument is None,
        s@.body == Some(result@),
{
    Section { name: String::from_str("generate"), argument: None, body: Some(result) }
}

/// How a scan of the text ends.
pub enum ScanEnd {
    /// The text ran out.
    End,
    /// A section to evaluate, and the text after it.
    Section(SpecSection, Seq<char>),
    /// A command line that cannot be read, and why.
    Error(Seq<char>),
}

/// Scans `text` up to its first section: the text copied on the way (blank lines and lines
/// that are no command lines), and how the scan ends.
#[verifier::opaque]
pub open spec fn scan(text: Seq<char>) -> (Seq<char>, ScanEnd)
    decreases text.len(),
{
    if text.len() == 0 {
        (seq![], ScanEnd::End)
    } else {
        let e = empty_lines_len(text);
        if e > 0 {
            proof {
                lemma_empty_lines_len_bounds(text);
            }
            let next = scan(text.skip(e as int));
            (text.take(e as int) + next.0, next.1)
        } else {
            match section_of(text) {
                Some(Ok((s, n))) => (seq![], ScanEnd::Section(s, text.skip(n as int))),
                Some(Err(m)) => (seq![], ScanEnd::Error(m)),
                None => {
                    let n = line_len(text);
                    proof {
                        lemma_line_len_bounds(text);
                    }
                    let next = scan(text.skip(n as int));
                    (text.take(n as int) + next.0, next.1)
                },
            }
        }
    }
}

proof fn lemma_scan_empty_step(t: Seq<char>)
    requires
        t.len() > 0,
        empty_lines_len(t) > 0,
    ensures
        empty_lines_len(t) <= t.len(),
        scan(t) == (
            t.take(empty_lines_len(t) as int) + scan(t.skip(empty_lines_len(t) as int)).0,
            scan(t.skip(empty_lines_len(t) as int)).1,
        ),
{
    reveal(scan);
    lemma_empty_lines_len_bounds(t);
}

proof fn lemma_scan_section_step(t: Seq<char>)
    requires
        t.len() > 0,
        empty_lines_len(t) == 0,
        section_of(t) is Some,
    ensures
        scan(t).0 == Seq::<char>::empty(),
        section_of(t) matches Some(Ok((s, n))) ==> scan(t).1 == ScanEnd::Section(
            s,
            t.skip(n as int),
        ),
        section_of(t) matches Some(Err(m)) ==> scan(t).1 == ScanEnd::Error(m),
{
    reveal(scan);
}

proof fn lemma_scan_empty(t: Seq<char>)
    requires
        t.len() == 0,
    ensures
        scan(t) == (Seq::<char>::empty(), ScanEnd::End),
{
    reveal(scan);
}

proof fn lemma_scan_line_step(t: Seq<char>)
    requires
        t.len() > 0,
        empty_lines_len(t) == 0,
        section_of(t) is None,
    ensures
        0 < line_len(t) <= t.len(),
        scan(t) == (
            t.take(line_len(t) as int) + scan(t.skip(line_len(t) as int)).0,
            scan(t.skip(line_len(t) as int)).1,
        ),
{
    reveal(scan);
    lemma_line_len_bounds(t);
}

/// Whether no line of `text` is a command line.
pub open spec fn no_command_lines(text: Seq<char>) -> bool {
    forall|i: int|
        0 <= i < text.len() && (i == 0 || text[i - 1] == '\n') ==> #[trigger] header_of(
            first_line(text.skip(i)),
        ) is None
}

/// A section takes up its command line at least, and no more than the text.
pub proof fn lemma_section_of_bounds(text: Seq<char>)
    ensures
        section_of(text) matches Some(Ok((_, n))) ==> 0 < n <= text.len(),
{
    lemma_line_len_bounds(text);
    if text.len() > 0 {
        lemma_block_consumed_bounds(text.skip(line_len(text) as int));
    }
}

/// Text without command lines comes out of the processing as it went in: the scan copies
/// all of it and reaches the end.
pub proof fn law_plain_text_unchanged(text: Seq<char>)
    requires
        no_command_lines(text),
    ensures
        scan(text) == (text, ScanEnd::End),
    decreases text.len(),
{
    reveal(scan);
    if text.len() == 0 {
        assert(scan(text).0 =~= text);
    } else {
        let e = empty_lines_len(text);
        lemma_empty_lines_len_bounds(text);
        if e > 0 {
            let sub = text.skip(e as int);
            lemma_whitespace_len_bounds(text);
            lemma_after_last_bounds(text, '\n', whitespace_len(text) as int);
            assert forall|i: int|
                0 <= i < sub.len() && (i == 0 || sub[i - 1] == '\n') implies #[trigger] header_of(
                first_line(sub.skip(i)),
            ) is None by {
                assert(sub.skip(i) =~= text.skip(e + i));
                if i > 0 {
                    assert(sub[i - 1] == text[e + i - 1]);
                }
                assert(header_of(first_line(text.skip(e + i))) is None);
            }
            law_plain_text_unchanged(sub);
            assert(text.take(e as int) + sub =~= text);
        } else {
            assert(text.skip(0) =~= text);
            assert(header_of(first_line(text.skip(0))) is None);
            assert(section_of(text) is None);
            let n = line_len(text);
            lemma_line_len_bounds(text);
            let sub = text.skip(n as int);
            assert forall|i: int|
                0 <= i < sub.len() && (i == 0 || sub[i - 1] == '\n') implies #[trigger] header_of(
                first_line(sub.skip(i)),
            ) is None by {
                assert(sub.skip(i) =~= text.skip(n + i));
                if i > 0 {
                    assert(sub[i - 1] == text[n + i - 1]);
                }
                assert(header_of(first_line(text.skip(n + i))) is None);
            }
            law_plain_text_unchanged(sub);
            assert(text.take(n as int) + sub =~= text);
        }
    }
}

/// The scan takes the text in order: what it copies opens the text; a section it stops at
/// follows, and the text left after that section closes it; when it reaches the end, it has
/// copied the whole text.
pub proof fn law_scan_in_order(text: Seq<char>)
    ensures
        scan(text).0.is_prefix_of(text),
        match scan(text).1 {
            ScanEnd::End => scan(text).0 == text,
            ScanEnd::Section(_, rest) => scan(text).0.len() + rest.len() < text.len()
                && rest == text.skip(text.len() - rest.len()),
            ScanEnd::Error(_) => true,
        },
    decreases text.len(),
{
    reveal(scan);
    if text.len() == 0 {
        assert(scan(text).0 =~= text);
    } else {
        let e = empty_lines_len(text);
        lemma_empty_lines_len_bounds(text);
        if e > 0 {
            let sub = text.skip(e as int);
            law_scan_in_order(sub);
            assert(text.take(e as int) + sub =~= text);
            assert((text.take(e as int) + scan(sub).0).is_prefix_of(text)) by {
                assert(text.take(e as int) + scan(sub).0 =~= text.subrange(
                    0,
                    (e + scan(sub).0.len()) as int,
                ));
            }
            if let ScanEnd::Section(_, rest) = scan(sub).1 {
                assert(rest =~= text.skip(text.len() - rest.len()));
            }
        } else {
            lemma_section_of_bounds(text);
            match section_of(text) {
                Some(Ok((s, n))) => {
                    assert(text.skip(n as int) =~= text.skip(text.len() - text.skip(n as int).len()));
                },
                Some(Err(m)) => {},
                None => {
                    let n = line_len(text);
                    lemma_line_len_bounds(text);
                    let sub = text.skip(n as int);
                    law_scan_in_order(sub);
                    assert(text.take(n as int) + sub =~= text);
                    assert((text.take(n as int) + scan(sub).0).is_prefix_of(text)) by {
                        assert(text.take(n as int) + scan(sub).0 =~= text.subrange(
                            0,
                            (n + scan(sub).0.len()) as int,
                        ));
                    }
                    if let ScanEnd::Section(_, rest) = scan(sub).1 {
                        assert(rest =~= text.skip(text.len() - rest.len()));
                    }
                },
            }
        }
    }
}

/// What the processing of a file asks for next.
pub enum Step {
    /// Run the command of this section and hand its output back with
    /// [`Processor::resume`].
    Run(Section),
    /// The file is processed; this is the result.
    Done(String),
    /// The processing failed, for this reason.
    Failed(String),
}

/// The processing of a source file: command sections are replaced by the output of their
/// command, which is processed in turn; all other text is copied.
pub struct Processor {
    processed: String,
    text: String,
}

impl View for Processor {
    /// The text processed so far, and the text still to process.
    type V = (Seq<char>, Seq<char>);

    closed spec fn view(&self) -> (Seq<char>, Seq<char>) {
        (self.processed@, self.text@)
    }
}

/// The message of a command that failed.
pub open spec fn command_error_message(name: Seq<char>, error: Seq<char>) -> Seq<char> {
    "error when running command "@ + name + ": "@ + error
}

impl Processor {
    /// Starts the processing of `source`.
    pub fn new(source: &str) -> (p: Processor)
        ensures
            p@ == (Seq::<char>::empty(), source@),
    {
        Processor { processed: String::new(), text: String::from_str(source) }
    }

    /// Copies text until the next section: returns it to be run, or the result when the text
    /// runs out, or the error of a command line that cannot be read.
    pub fn next_step(&mut self) -> (step: Step)
        ensures
            final(self)@.0 == old(self)@.0 + scan(old(self)@.1).0,
            match scan(old(self)@.1).1 {
                ScanEnd::End => step matches Step::Done(r) && r@ == final(self)@.0
                    && final(self)@.1.len() == 0,
                ScanEnd::Section(s, rest) => step matches Step::Run(sec) && sec@ == s
                    && final(self)@.1 == rest,
                ScanEnd::Error(m) => step matches Step::Failed(e) && e@ == m
                    && final(self)@.1 == old(self)@.1,
            },
    {
        let ghost orig = self.text@;
        let ghost start = self.processed@;
        let ghost mut consumed: int = 0;
        let text = self.text.clone();
        let mut left: &str = text.as_str();
        proof {
            assert(orig.take(0) + scan(orig).0 =~= scan(orig).0);
            assert(self.processed@ =~= start + orig.take(0));
            assert(orig.skip(0) =~= orig);
        }
        loop
            invariant
                orig == old(self)@.1,
                start == old(self)@.0,
                self.text@ == orig,
                0 <= consumed <= orig.len(),
                left@ == orig.skip(consumed),
                self.processed@ == start + orig.take(consumed),
                scan(orig).0 == orig.take(consumed) + scan(left@).0,
                scan(orig).1 == scan(left@).1,
            decreases left@.len(),
        {
            if left.is_empty() {
                self.text = String::new();
                proof {
                    lemma_scan_empty(left@);
                    assert(orig.take(consumed) =~= orig);
                    assert(scan(orig).0 =~= orig);
                }
                return Step::Done(self.processed.clone());
            }
            let (empty_lines, rest) = split_empty_lines(left);
            if !empty_lines.is_empty() {
                proof {
                    lemma_scan_empty_step(left@);
                    assert(orig.take(consumed + empty_lines@.len()) =~= orig.take(consumed)
                        + empty_lines@);
                    assert(rest@ =~= orig.skip(consumed + empty_lines@.len()));
                    consumed = consumed + empty_lines@.len();
                }
                self.processed.append(empty_lines);
                left = rest;
                continue ;
            }
            proof {
                lemma_empty_lines_len_bounds(left@);
                assert(empty_lines_len(left@) == 0);
            }
            match parse_section(left) {
                Some(Ok((section, rest))) => {
                    self.text = String::from_str(rest);
                    proof {
                        lemma_scan_section_step(left@);
                        assert(self.processed@ =~= start + scan(orig).0);
                    }
                    return Step::Run(section);
                },
                Some(Err(message)) => {
                    proof {
                        lemma_scan_section_step(left@);
                        assert(self.processed@ =~= start + scan(orig).0);
                    }
                    return Step::Failed(message);
                },
                None => {
                    match split_line(left) {
                        None => {
                            return Step::Done(self.processed.clone());
                        },
                        Some((line, rest)) => {
                            proof {
                                lemma_scan_line_step(left@);
                                assert(orig.take(consumed + line@.len()) =~= orig.take(consumed)
                                    + line@);
                                assert(rest@ =~= orig.skip(consumed + line@.len()));
                                consumed = consumed + line@.len();
                            }
                            self.processed.append(line);
                            left = rest;
                        },
                    }
                },
            }
        }
    }

    /// Hands back what running the command `name` gave: its output takes the place of its
    /// section and is processed in turn; a failure ends the processing with a message that
    /// names the command.
    pub fn resume(&mut self, name: &str, output: Result<String, String>) -> (r: Option<String>)
        ensures
            match output {
                Ok(out) => r is None && final(self)@ == (old(self)@.0, out@ + old(self)@.1),
                Err(e) => r matches Some(m) && m@ == command_error_message(name@, e@)
                    && final(self)@ == old(self)@,
            },
    {
        match output {
            Ok(out) => {
                self.text = combine_texts(out.as_str(), self.text.as_str());
                None
            },
            Err(e) => {
                let mut message = String::from_str("error when running command ");
                message.append(name);
                message.append(": ");
                message.append(e.as_str());
                Some(message)
            },
        }
    }
}

} // verus!
