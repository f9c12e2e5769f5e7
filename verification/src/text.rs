use vstd::prelude::*;
use vstd::string::*;
use vstd::std_specs::iter::IteratorSpec;

verus! {

/// A space or a tab: the characters that make up an indentation.
pub open spec fn is_blank(c: char) -> bool {
    c == ' ' || c == '\t'
}

/// A space, a tab or a line break.
pub open spec fn is_whitespace(c: char) -> bool {
    is_blank(c) || c == '\n'
}

/// The position of the first `c` in `s`, or the length of `s` when `c` does not occur.
pub open spec fn char_pos(s: Seq<char>, c: char) -> nat
    decreases s.len(),
{
    if s.len() == 0 {
        0
    } else if s[0] == c {
        0
    } else {
        1 + char_pos(s.drop_first(), c)
    }
}

/// The number of blank characters that open `s`.
pub open spec fn indent_len(s: Seq<char>) -> nat
    decreases s.len(),
{
    if s.len() > 0 && is_blank(s[0]) {
        1 + indent_len(s.drop_first())
    } else {
        0
    }
}

/// The number of whitespace characters (blanks and line breaks) that open `s`.
pub open spec fn whitespace_len(s: Seq<char>) -> nat
    decreases s.len(),
{
    if s.len() > 0 && is_whitespace(s[0]) {
        1 + whitespace_len(s.drop_first())
    } else {
        0
    }
}

/// The length of the first line of `s`, its line break included when it has one.
pub open spec fn line_len(s: Seq<char>) -> nat {
    if char_pos(s, '\n') < s.len() {
        char_pos(s, '\n') + 1
    } else {
        s.len()
    }
}

/// The position just after the last `c` among the first `k` characters of `s`,
/// or 0 when there is none.
pub open spec fn after_last(s: Seq<char>, c: char, k: int) -> nat
    decreases k,
{
    if k <= 0 {
        0
    } else if s[k - 1] == c {
        k as nat
    } else {
        after_last(s, c, k - 1)
    }
}

/// The length of the blank lines that open `s`: everything up to the last line break
/// within its leading whitespace.
pub open spec fn empty_lines_len(s: Seq<char>) -> nat {
    after_last(s, '\n', whitespace_len(s) as int)
}

/// A line (or the rest of a text) that holds nothing but blanks before its line break.
pub open spec fn is_empty_line(s: Seq<char>) -> bool {
    indent_len(s) == s.len() || s[indent_len(s) as int] == '\n'
}

pub proof fn lemma_char_pos(s: Seq<char>, c: char, i: int)
    requires
        0 <= i <= s.len(),
        forall|j: int| 0 <= j < i ==> s[j] != c,
        i == s.len() || s[i] == c,
    ensures
        char_pos(s, c) == i,
    decreases i,
{
    if i > 0 {
        assert forall|j: int| 0 <= j < i - 1 implies s.drop_first()[j] != c by {
            assert(s.drop_first()[j] == s[j + 1]);
        }
        lemma_char_pos(s.drop_first(), c, i - 1);
    }
}

pub proof fn lemma_char_pos_bounds(s: Seq<char>, c: char)
    ensures
        char_pos(s, c) <= s.len(),
        char_pos(s, c) < s.len() ==> s[char_pos(s, c) as int] == c,
        forall|j: int| 0 <= j < char_pos(s, c) ==> s[j] != c,
    decreases s.len(),
{
    if s.len() > 0 && s[0] != c {
        lemma_char_pos_bounds(s.drop_first(), c);
        assert forall|j: int| 0 <= j < char_pos(s, c) implies s[j] != c by {
            if j > 0 {
                assert(s[j] == s.drop_first()[j - 1]);
            }
        }
    }
}

pub proof fn lemma_indent_len(s: Seq<char>, i: int)
    requires
        0 <= i <= s.len(),
        forall|j: int| 0 <= j < i ==> is_blank(s[j]),
        i == s.len() || !is_blank(s[i]),
    ensures
        indent_len(s) == i,
    decreases i,
{
    if i > 0 {
        assert forall|j: int| 0 <= j < i - 1 implies is_blank(s.drop_first()[j]) by {
            assert(s.drop_first()[j] == s[j + 1]);
        }
        lemma_indent_len(s.drop_first(), i - 1);
    }
}

pub proof fn lemma_whitespace_len(s: Seq<char>, i: int)
    requires
        0 <= i <= s.len(),
        forall|j: int| 0 <= j < i ==> is_whitespace(s[j]),
        i == s.len() || !is_whitespace(s[i]),
    ensures
        whitespace_len(s) == i,
    decreases i,
{
    if i > 0 {
        assert forall|j: int| 0 <= j < i - 1 implies is_whitespace(s.drop_first()[j]) by {
            assert(s.drop_first()[j] == s[j + 1]);
        }
        lemma_whitespace_len(s.drop_first(), i - 1);
    }
}

pub proof fn lemma_line_len_bounds(s: Seq<char>)
    ensures
        line_len(s) <= s.len(),
        s.len() > 0 ==> line_len(s) > 0,
        forall|j: int| 0 <= j < line_len(s) - 1 ==> s[j] != '\n',
        line_len(s) > 0 ==> (s[line_len(s) - 1] == '\n' || line_len(s) == s.len()),
{
    lemma_char_pos_bounds(s, '\n');
}

pub proof fn lemma_after_last_bounds(s: Seq<char>, c: char, k: int)
    requires
        k <= s.len(),
    ensures
        after_last(s, c, k) <= k || k < 0,
        after_last(s, c, k) > 0 ==> s[after_last(s, c, k) - 1] == c,
    decreases k,
{
    if k > 0 && s[k - 1] != c {
        lemma_after_last_bounds(s, c, k - 1);
    }
}

pub proof fn lemma_whitespace_len_bounds(s: Seq<char>)
    ensures
        whitespace_len(s) <= s.len(),
    decreases s.len(),
{
    if s.len() > 0 && is_whitespace(s[0]) {
        lemma_whitespace_len_bounds(s.drop_first());
    }
}

pub proof fn lemma_empty_lines_len_bounds(s: Seq<char>)
    ensures
        empty_lines_len(s) <= s.len(),
{
    lemma_whitespace_len_bounds(s);
    lemma_after_last_bounds(s, '\n', whitespace_len(s) as int);
}

pub proof fn lemma_after_last_is_last(s: Seq<char>, c: char, k: int)
    requires
        0 <= k <= s.len(),
    ensures
        forall|j: int| after_last(s, c, k) <= j < k ==> s[j] != c,
    decreases k,
{
    if k > 0 && s[k - 1] != c {
        lemma_after_last_is_last(s, c, k - 1);
    }
}

pub proof fn lemma_whitespace_len_covers(s: Seq<char>, m: int)
    requires
        0 <= m <= s.len(),
        forall|j: int| 0 <= j < m ==> is_whitespace(s[j]),
    ensures
        whitespace_len(s) >= m,
    decreases m,
{
    if m > 0 {
        assert forall|j: int| 0 <= j < m - 1 implies is_whitespace(s.drop_first()[j]) by {
            assert(s.drop_first()[j] == s[j + 1]);
        }
        lemma_whitespace_len_covers(s.drop_first(), m - 1);
    }
}

pub proof fn lemma_whitespace_len_all(s: Seq<char>)
    ensures
        forall|j: int| 0 <= j < whitespace_len(s) ==> is_whitespace(s[j]),
    decreases s.len(),
{
    if s.len() > 0 && is_whitespace(s[0]) {
        lemma_whitespace_len_all(s.drop_first());
        lemma_whitespace_len_bounds(s.drop_first());
        assert forall|j: int| 0 <= j < whitespace_len(s) implies is_whitespace(s[j]) by {
            if j > 0 {
                assert(s[j] == s.drop_first()[j - 1]);
            }
        }
    }
}

/// The blank lines split off the start of a text are whitespace ending in a line break, and
/// what follows them does not open with another blank line.
pub proof fn law_empty_lines_shape(s: Seq<char>)
    ensures
        forall|j: int| 0 <= j < empty_lines_len(s) ==> is_whitespace(#[trigger] s[j]),
        empty_lines_len(s) > 0 ==> s[empty_lines_len(s) - 1] == '\n',
        !exists|j: int|
            0 <= j < s.skip(empty_lines_len(s) as int).len() && s.skip(
                empty_lines_len(s) as int,
            )[j] == '\n' && forall|i: int|
                0 <= i < j ==> is_blank(#[trigger] s.skip(empty_lines_len(s) as int)[i]),
{
    let w = whitespace_len(s) as int;
    let e = empty_lines_len(s) as int;
    lemma_whitespace_len_bounds(s);
    lemma_whitespace_len_all(s);
    lemma_after_last_bounds(s, '\n', w);
    lemma_after_last_is_last(s, '\n', w);
    let rest = s.skip(e);
    if exists|j: int|
        0 <= j < rest.len() && rest[j] == '\n' && forall|i: int|
            0 <= i < j ==> is_blank(#[trigger] rest[i]) {
        let j = choose|j: int|
            0 <= j < rest.len() && rest[j] == '\n' && forall|i: int|
                0 <= i < j ==> is_blank(#[trigger] rest[i]);
        assert forall|i: int| 0 <= i < e + j + 1 implies is_whitespace(s[i]) by {
            if i >= e && i < e + j {
                assert(s[i] == rest[i - e]);
                assert(is_blank(rest[i - e]));
            }
            if i == e + j {
                assert(s[i] == rest[j]);
            }
        }
        lemma_whitespace_len_covers(s, e + j + 1);
        assert(s[e + j] == rest[j]);
        assert(false);
    }
}

/// The characters of `s`, in order, in a vector.
pub fn chars_of(s: &str) -> (v: Vec<char>)
    ensures
        v@ == s@,
{
    let mut it = s.chars();
    let mut v: Vec<char> = Vec::new();
    proof {
        axiom_spec_iter(s);
    }
    loop
        invariant
            v@ + it.remaining() == s@,
        decreases s@.len() - v@.len(),
    {
        match it.next() {
            Some(c) => {
                v.push(c);
            },
            None => {
                return v;
            },
        }
    }
}

/// The position of the first `c` in `cs`, or its length when `c` does not occur.
pub fn find_char(cs: &Vec<char>, c: char) -> (k: usize)
    ensures
        k == char_pos(cs@, c),
        k <= cs@.len(),
        k < cs@.len() ==> cs@[k as int] == c,
        forall|j: int| 0 <= j < k ==> cs@[j] != c,
{
    let mut i: usize = 0;
    while i < cs.len() && cs[i] != c
        invariant
            i <= cs@.len(),
            forall|j: int| 0 <= j < i ==> cs@[j] != c,
        decreases cs@.len() - i,
    {
        i = i + 1;
    }
    proof {
        lemma_char_pos(cs@, c, i as int);
    }
    i
}

/// Whether `s` begins with `prefix`.
pub fn starts_with(s: &str, prefix: &str) -> (r: bool)
    ensures
        r == prefix@.is_prefix_of(s@),
{
    let a = chars_of(s);
    let b = chars_of(prefix);
    if b.len() > a.len() {
        return false;
    }
    let mut i: usize = 0;
    while i < b.len()
        invariant
            i <= b@.len() <= a@.len(),
            a@ == s@,
            b@ == prefix@,
            forall|j: int| 0 <= j < i ==> a@[j] == b@[j],
        decreases b@.len() - i,
    {
        if a[i] != b[i] {
            return false;
        }
        i = i + 1;
    }
    assert(prefix@ =~= s@.subrange(0, prefix@.len() as int));
    true
}

/// Whether `a` and `b` hold the same text.
pub fn same_text(a: &str, b: &str) -> (r: bool)
    ensures
        r == (a@ == b@),
{
    let x = chars_of(a);
    let y = chars_of(b);
    if x.len() != y.len() {
        return false;
    }
    let mut i: usize = 0;
    while i < x.len()
        invariant
            i <= x@.len() == y@.len(),
            x@ == a@,
            y@ == b@,
            forall|j: int| 0 <= j < i ==> x@[j] == y@[j],
        decreases x@.len() - i,
    {
        if x[i] != y[i] {
            return false;
        }
        i = i + 1;
    }
    assert(a@ =~= b@);
    true
}

} // verus!
