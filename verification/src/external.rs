use vstd::prelude::*;

verus! {

/// Finds the path of `command`; no lookup is made yet, so the path is empty.
fn find(command: &str) -> (r: String)
    ensures
        r@ == Seq::<char>::empty(),
{
    String::new()
}

/// Whether a command exists at `path`; none is known to exist yet.
fn command_exists(path: &str) -> (r: bool)
    ensures
        !r,
{
    false
}

} // verus!
