use vstd::prelude::*;
use vstd::string::*;
use crate::commands::views;
use crate::parse::split;
use crate::path::{same_path, same_path_of};
use crate::text::{char_pos, chars_of, find_char, lemma_char_pos_bounds, same_text};

verus! {

/// `s` cut at each `c`: the pieces between the occurrences of `c`, empty ones included.
pub open spec fn split_on(s: Seq<char>, c: char) -> Seq<Seq<char>>
    decreases s.len(),
{
    let k = char_pos(s, c);
    if k >= s.len() {
        seq![s]
    } else {
        proof {
            lemma_char_pos_bounds(s, c);
        }
        seq![s.take(k as int)] + split_on(s.skip(k + 1int), c)
    }
}

/// The pieces of `parts` with a `c` between each two.
pub open spec fn join_with(parts: Seq<Seq<char>>, c: char) -> Seq<char>
    decreases parts.len(),
{
    if parts.len() == 0 {
        seq![]
    } else if parts.len() == 1 {
        parts[0]
    } else {
        parts[0] + seq![c] + join_with(parts.drop_first(), c)
    }
}

/// The pieces of `s` cut at each `c` (see [`split_on`]).
pub fn split_pieces(s: &str, c: char) -> (r: Vec<String>)
    ensures
        views(r@) == split_on(s@, c),
{
    let mut r: Vec<String> = Vec::new();
    let mut left: &str = s;
    loop
        invariant
            split_on(s@, c) == views(r@) + split_on(left@, c),
        decreases left@.len(),
    {
        let cs = chars_of(left);
        let k: usize = find_char(&cs, c);
        if k == cs.len() {
            let ghost before = r@;
            r.push(String::from_str(left));
            proof {
                assert(views(r@) =~= views(before) + seq![left@]);
                assert(split_on(s@, c) =~= views(r@));
            }
            return r;
        }
        let (piece, rest) = split(left, k);
        let (_, next) = split(rest, 1);
        let ghost before = r@;
        r.push(String::from_str(piece));
        proof {
            assert(next@ =~= left@.skip(k + 1));
            assert(views(r@) =~= views(before) + seq![piece@]);
            assert(split_on(left@, c) == seq![piece@] + split_on(next@, c));
            assert(views(before) + split_on(left@, c) =~= views(r@) + split_on(next@, c));
        }
        left = next;
    }
}

/// The pieces of `s` cut at each `,` (see [`split_on`]).
pub fn split_list(s: &str) -> (r: Vec<String>)
    ensures
        views(r@) == split_on(s@, ','),
{
    split_pieces(s, ',')
}

/// Joining the pieces of `s`, cut at each `c`, with `c` gives back `s`; no piece holds a
/// `c`.
pub proof fn law_split_join(s: Seq<char>, c: char)
    ensures
        join_with(split_on(s, c), c) == s,
        forall|i: int|
            0 <= i < split_on(s, c).len() ==> !(#[trigger] split_on(s, c)[i]).contains(c),
    decreases s.len(),
{
    let k = char_pos(s, c);
    lemma_char_pos_bounds(s, c);
    if k >= s.len() {
        assert(split_on(s, c)[0] == s);
        assert(!s.contains(c)) by {
            if s.contains(c) {
                let j = choose|j: int| 0 <= j < s.len() && s[j] == c;
                assert(s[j] != c);
            }
        }
    } else {
        let rest = s.skip(k + 1int);
        law_split_join(rest, c);
        let parts = split_on(s, c);
        assert(parts.drop_first() =~= split_on(rest, c));
        assert(parts.len() >= 2) by {
            assert(split_on(rest, c).len() >= 1) by {
                reveal_with_fuel(split_on, 1);
            }
        }
        assert(s.take(k as int) + seq![c] + rest =~= s);
        assert forall|i: int| 0 <= i < parts.len() implies !(#[trigger] parts[i]).contains(c) by {
            if i == 0 {
                if parts[0].contains(c) {
                    let j = choose|j: int| 0 <= j < parts[0].len() && parts[0][j] == c;
                    assert(s[j] == c);
                }
            } else {
                assert(parts[i] == split_on(rest, c)[i - 1]);
            }
        }
    }
}

/// The command line of the program: the library directories, the target directories and
/// the source file.
pub struct Arguments {
    pub libs: Vec<String>,
    pub targets: Vec<String>,
    pub file: String,
}

/// The mathematical value of [`Arguments`].
pub struct SpecArguments {
    pub libs: Seq<Seq<char>>,
    pub targets: Seq<Seq<char>>,
    pub file: Seq<char>,
}

impl View for Arguments {
    type V = SpecArguments;

    open spec fn view(&self) -> SpecArguments {
        SpecArguments { libs: views(self.libs@), targets: views(self.targets@), file: self.file@ }
    }
}

/// The source file read when none is named: standard input.
pub open spec fn default_file() -> Seq<char> {
    "/dev/stdin"@
}

/// The arguments before any option has been read.
pub open spec fn initial_arguments() -> SpecArguments {
    SpecArguments { libs: seq![], targets: seq![], file: default_file() }
}

/// Reads the options `args` on top of `acc`. `--lib` and `--target` take the next argument,
/// a list of directories cut at each `,`; any other argument is the source file, which may
/// be named once: only while the file is still (as a path) the default one.
pub open spec fn read_args(args: Seq<Seq<char>>, acc: SpecArguments) -> Result<
    SpecArguments,
    Seq<char>,
>
    decreases args.len(),
{
    if args.len() == 0 {
        Ok(acc)
    } else if args[0] == "--lib"@ {
        if args.len() < 2 {
            Err("expected argument after --lib"@)
        } else {
            read_args(
                args.skip(2),
                SpecArguments { libs: acc.libs + split_on(args[1], ','), ..acc },
            )
        }
    } else if args[0] == "--target"@ {
        if args.len() < 2 {
            Err("expected argument after --target"@)
        } else {
            read_args(
                args.skip(2),
                SpecArguments { targets: acc.targets + split_on(args[1], ','), ..acc },
            )
        }
    } else if same_path_of(acc.file, default_file()) {
        read_args(args.skip(1), SpecArguments { file: args[0], ..acc })
    } else {
        Err("Already processing file "@ + acc.file)
    }
}

/// What the command line `argv` (the program's name first) asks for.
pub open spec fn arguments_of(argv: Seq<Seq<char>>) -> Result<SpecArguments, Seq<char>> {
    if argv.len() == 0 {
        Ok(initial_arguments())
    } else {
        read_args(argv.skip(1), initial_arguments())
    }
}

/// Pushes the pieces of `list`, cut at each `,`, onto `dirs`.
fn push_list(dirs: &mut Vec<String>, list: &str)
    ensures
        views(final(dirs)@) == views(old(dirs)@) + split_on(list@, ','),
{
    let pieces = split_list(list);
    let mut i: usize = 0;
    let ghost start = views(dirs@);
    while i < pieces.len()
        invariant
            i <= pieces@.len(),
            views(pieces@) == split_on(list@, ','),
            views(dirs@) =~= start + views(pieces@).take(i as int),
            start == views(old(dirs)@),
        decreases pieces@.len() - i,
    {
        let ghost before = views(dirs@);
        dirs.push(pieces[i].clone());
        proof {
            assert(views(dirs@) =~= before + seq![pieces@[i as int]@]);
            assert(views(pieces@).take(i + 1) =~= views(pieces@).take(i as int) + seq![
                pieces@[i as int]@,
            ]);
        }
        i = i + 1;
    }
    proof {
        assert(views(pieces@).take(i as int) =~= views(pieces@));
    }
}

/// Reads the command line `argv`, the program's name first (see [`arguments_of`]).
pub fn parse_args(argv: &Vec<String>) -> (r: Result<Arguments, String>)
    ensures
        match arguments_of(views(argv@)) {
            Ok(a) => r matches Ok(x) && x@ == a,
            Err(e) => r matches Err(m) && m@ == e,
        },
{
    let mut arguments = Arguments {
        libs: Vec::new(),
        targets: Vec::new(),
        file: String::from_str("/dev/stdin"),
    };
    if argv.len() == 0 {
        proof {
            assert(arguments@.libs =~= initial_arguments().libs);
            assert(arguments@.targets =~= initial_arguments().targets);
        }
        return Ok(arguments);
    }
    let ghost av = views(argv@);
    let mut i: usize = 1;
    proof {
        assert(arguments@.libs =~= initial_arguments().libs);
        assert(arguments@.targets =~= initial_arguments().targets);
    }
    while i < argv.len()
        invariant
            1 <= i <= argv@.len(),
            av == views(argv@),
            arguments_of(av) == read_args(av.skip(i as int), arguments@),
        decreases argv@.len() - i,
    {
        let arg = argv[i].as_str();
        let ghost rest = av.skip(i as int);
        proof {
            assert(rest[0] == arg@);
        }
        if same_text(arg, "--lib") {
            if i + 1 >= argv.len() {
                return Err(String::from_str("expected argument after --lib"));
            }
            push_list(&mut arguments.libs, argv[i + 1].as_str());
            proof {
                assert(rest[1] == argv@[i + 1]@);
                assert(rest.skip(2) =~= av.skip(i + 2));
            }
            i = i + 2;
        } else if same_text(arg, "--target") {
            if i + 1 >= argv.len() {
                return Err(String::from_str("expected argument after --target"));
            }
            push_list(&mut arguments.targets, argv[i + 1].as_str());
            proof {
                assert(rest[1] == argv@[i + 1]@);
                assert(rest.skip(2) =~= av.skip(i + 2));
            }
            i = i + 2;
        } else if same_path(arguments.file.as_str(), "/dev/stdin") {
            arguments.file = String::from_str(arg);
            proof {
                assert(rest.skip(1) =~= av.skip(i + 1));
            }
            i = i + 1;
        } else {
            let mut message = String::from_str("Already processing file ");
            message.append(arguments.file.as_str());
            return Err(message);
        }
    }
    proof {
        assert(av.skip(i as int).len() == 0);
    }
    Ok(arguments)
}


/// Reading options only ever adds to the library and target lists: the lists already read
/// open the lists that come out.
pub proof fn law_lists_only_grow(args: Seq<Seq<char>>, acc: SpecArguments)
    ensures
        read_args(args, acc) matches Ok(r) ==> acc.libs.is_prefix_of(r.libs)
            && acc.targets.is_prefix_of(r.targets),
    decreases args.len(),
{
    if args.len() > 0 {
        if args[0] == "--lib"@ {
            if args.len() >= 2 {
                let next = SpecArguments { libs: acc.libs + split_on(args[1], ','), ..acc };
                law_lists_only_grow(args.skip(2), next);
                if let Ok(r) = read_args(args, acc) {
                    assert(acc.libs.is_prefix_of(r.libs)) by {
                        assert(acc.libs =~= next.libs.subrange(0, acc.libs.len() as int));
                        assert(acc.libs =~= r.libs.subrange(0, acc.libs.len() as int));
                    }
                }
            }
        } else if args[0] == "--target"@ {
            if args.len() >= 2 {
                let next = SpecArguments { targets: acc.targets + split_on(args[1], ','), ..acc };
                law_lists_only_grow(args.skip(2), next);
                if let Ok(r) = read_args(args, acc) {
                    assert(acc.targets.is_prefix_of(r.targets)) by {
                        assert(acc.targets =~= next.targets.subrange(0, acc.targets.len() as int));
                        assert(acc.targets =~= r.targets.subrange(0, acc.targets.len() as int));
                    }
                }
            }
        } else if same_path_of(acc.file, default_file()) {
            law_lists_only_grow(args.skip(1), SpecArguments { file: args[0], ..acc });
        }
    }
}

/// Without a `--lib` (resp. `--target`) option, the library (resp. target) list stays as
/// it was.
pub proof fn law_lists_without_option(args: Seq<Seq<char>>, acc: SpecArguments)
    ensures
        read_args(args, acc) matches Ok(r) ==> {
            &&& !args.contains("--lib"@) ==> r.libs == acc.libs
            &&& !args.contains("--target"@) ==> r.targets == acc.targets
        },
    decreases args.len(),
{
    if args.len() > 0 {
        let k: int = if args[0] == "--lib"@ || args[0] == "--target"@ {
            2
        } else {
            1
        };
        if args.len() >= k {
            let tail = args.skip(k);
            assert forall|x: Seq<char>| tail.contains(x) implies args.contains(x) by {
                let j = choose|j: int| 0 <= j < tail.len() && tail[j] == x;
                assert(args[j + k] == x);
            }
            assert(args.contains(args[0]));
            if args[0] == "--lib"@ {
                law_lists_without_option(tail, SpecArguments { libs: acc.libs + split_on(args[1], ','), ..acc });
            } else if args[0] == "--target"@ {
                law_lists_without_option(tail, SpecArguments { targets: acc.targets + split_on(args[1], ','), ..acc });
            } else if same_path_of(acc.file, default_file()) {
                law_lists_without_option(tail, SpecArguments { file: args[0], ..acc });
            }
        }
    }
}

/// The pieces of the value after `--target` are appended to the targets already read, and
/// later options only append more; when no `--target` follows, they close the list.
pub proof fn law_target_value_appended(a: Seq<char>, rest: Seq<Seq<char>>, acc: SpecArguments)
    ensures
        read_args(seq!["--target"@, a] + rest, acc) matches Ok(r) ==> {
            &&& (acc.targets + split_on(a, ',')).is_prefix_of(r.targets)
            &&& acc.libs.is_prefix_of(r.libs)
            &&& !rest.contains("--target"@) ==> r.targets == acc.targets + split_on(a, ',')
        },
{
    let args = seq!["--target"@, a] + rest;
    reveal_strlit("--target");
    reveal_strlit("--lib");
    assert("--target"@ != "--lib"@) by {
        assert("--target"@.len() != "--lib"@.len());
    }
    assert(args[0] == "--target"@);
    assert(args[1] == a);
    assert(args.skip(2) =~= rest);
    let next = SpecArguments { targets: acc.targets + split_on(a, ','), ..acc };
    law_lists_only_grow(rest, next);
    law_lists_without_option(rest, next);
}

/// The pieces of the value after `--lib` are appended to the libraries already read, and
/// later options only append more; when no `--lib` follows, they close the list.
pub proof fn law_lib_value_appended(a: Seq<char>, rest: Seq<Seq<char>>, acc: SpecArguments)
    ensures
        read_args(seq!["--lib"@, a] + rest, acc) matches Ok(r) ==> {
            &&& (acc.libs + split_on(a, ',')).is_prefix_of(r.libs)
            &&& acc.targets.is_prefix_of(r.targets)
            &&& !rest.contains("--lib"@) ==> r.libs == acc.libs + split_on(a, ',')
        },
{
    let args = seq!["--lib"@, a] + rest;
    assert(args[0] == "--lib"@);
    assert(args[1] == a);
    assert(args.skip(2) =~= rest);
    let next = SpecArguments { libs: acc.libs + split_on(a, ','), ..acc };
    law_lists_only_grow(rest, next);
    law_lists_without_option(rest, next);
}

} // verus!
