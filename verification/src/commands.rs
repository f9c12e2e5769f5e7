use vstd::prelude::*;
use vstd::string::*;
use crate::generate::Context;
use crate::parse::Section;
use crate::path::{file_name, file_name_of, join_path, joined};

verus! {

/// The paths at which `command` is looked for, in order: in each library directory, then in
/// each target directory.
pub open spec fn search_order(
    command: Seq<char>,
    libs: Seq<Seq<char>>,
    targets: Seq<Seq<char>>,
) -> Seq<Seq<char>> {
    libs.map_values(|d: Seq<char>| joined(d, command)) + targets.map_values(
        |d: Seq<char>| joined(d, command),
    )
}

/// The views of a list of strings.
pub open spec fn views(v: Seq<String>) -> Seq<Seq<char>> {
    v.map_values(|s: String| s@)
}

/// The paths at which `command` is looked for (see [`search_order`]); the first that names
/// a file is the command.
pub fn search_paths(command: &str, libs: &Vec<String>, targets: &Vec<String>) -> (r: Vec<String>)
    ensures
        views(r@) == search_order(command@, views(libs@), views(targets@)),
{
    let mut r: Vec<String> = Vec::new();
    let mut i: usize = 0;
    while i < libs.len()
        invariant
            i <= libs@.len(),
            r@.len() == i,
            forall|k: int| 0 <= k < i ==> #[trigger] r@[k]@ == joined(libs@[k]@, command@),
        decreases libs@.len() - i,
    {
        r.push(join_path(libs[i].as_str(), command));
        i = i + 1;
    }
    let mut j: usize = 0;
    while j < targets.len()
        invariant
            j <= targets@.len(),
            i == libs@.len(),
            r@.len() == i + j,
            forall|k: int| 0 <= k < i ==> #[trigger] r@[k]@ == joined(libs@[k]@, command@),
            forall|k: int|
                0 <= k < j ==> #[trigger] r@[i + k]@ == joined(targets@[k]@, command@),
        decreases targets@.len() - j,
    {
        r.push(join_path(targets[j].as_str(), command));
        proof {
            assert(r@[i + j]@ == joined(targets@[j as int]@, command@));
        }
        j = j + 1;
    }
    proof {
        let want = search_order(command@, views(libs@), views(targets@));
        assert forall|k: int| 0 <= k < r@.len() implies views(r@)[k] == want[k] by {
            if k >= i {
                assert(r@[i + (k - i)]@ == joined(targets@[k - i]@, command@));
            }
        }
        assert(views(r@) =~= want);
    }
    r
}

/// The position of the first candidate found to name a file, given for each candidate
/// whether it does.
pub fn first_found(found: &Vec<bool>) -> (r: Option<usize>)
    ensures
        r matches Some(i) ==> i < found@.len() && found@[i as int] && forall|j: int|
            0 <= j < i ==> !found@[j],
        r is None ==> forall|j: int| 0 <= j < found@.len() ==> !found@[j],
{
    let mut i: usize = 0;
    while i < found.len()
        invariant
            i <= found@.len(),
            forall|j: int| 0 <= j < i ==> !found@[j],
        decreases found@.len() - i,
    {
        if found[i] {
            return Some(i);
        }
        i = i + 1;
    }
    None
}

/// How to run the command of a section: the paths to look it up at, in order, the argument
/// to pass it and the text to write to its standard input.
pub struct Invocation {
    pub candidates: Vec<String>,
    pub parameter: Option<String>,
    pub input: Option<String>,
}

/// Prepares the run of the command that `call` names: it is looked up in the library
/// directories, then in the target directory; its argument is passed on, and its body, if
/// any, is its input.
pub fn eval(call: Section, context: &Context) -> (inv: Invocation)
    ensures
        views(inv.candidates@) == search_order(
            call.name@,
            views(context.libs@),
            seq![context.target@],
        ),
        inv.parameter.deep_view() == call.argument.deep_view(),
        inv.input.deep_view() == call.body.deep_view(),
{
    let Section { name, argument, body } = call;
    let mut targets: Vec<String> = Vec::new();
    targets.push(context.target.clone());
    proof {
        assert(views(targets@) =~= seq![context.target@]);
    }
    Invocation {
        candidates: search_paths(name.as_str(), &context.libs, &targets),
        parameter: argument,
        input: body,
    }
}

/// The name of the cache directory kept beside the source file `file`: a dot, the file's
/// name, then `.tmp`.
pub open spec fn cache_dir_of(file: Seq<char>) -> Seq<char> {
    "."@ + file_name_of(file).unwrap() + ".tmp"@
}

/// The name of the cache directory kept beside the source file `file`; the path must name
/// a file.
pub fn cache_dir_name(file: &str) -> (r: String)
    requires
        file_name_of(file@) is Some,
    ensures
        r@ == cache_dir_of(file@),
{
    let name = match file_name(file) {
        Some(n) => n,
        None => String::new(),
    };
    let mut r = String::from_str(".");
    r.append(name.as_str());
    r.append(".tmp");
    r
}

} // verus!
