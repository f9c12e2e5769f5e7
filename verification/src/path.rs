use vstd::prelude::*;
use vstd::string::*;
use crate::args::{split_on, split_pieces};
use crate::commands::views;
use crate::parse::split;
use crate::text::{after_last, chars_of, lemma_after_last_bounds, lemma_after_last_is_last, same_text};

verus! {

/// `path` joined onto `base`: an absolute `path` (one that starts with `/`) replaces `base`;
/// otherwise a `/` separates the two, unless `base` is empty or already ends with one.
pub open spec fn joined(base: Seq<char>, path: Seq<char>) -> Seq<char> {
    if path.len() > 0 && path[0] == '/' {
        path
    } else if base.len() == 0 || base.last() == '/' {
        base + path
    } else {
        base + seq!['/'] + path
    }
}

/// `p` without its trailing separators and trailing `.` components; a lone `/` (the root)
/// stays.
pub open spec fn trim_end(p: Seq<char>) -> Seq<char>
    decreases p.len(),
{
    if p.len() > 1 && p.last() == '/' {
        trim_end(p.drop_last())
    } else if p.len() >= 2 && p.last() == '.' && p[p.len() - 2] == '/' {
        trim_end(p.drop_last())
    } else {
        p
    }
}

/// The final component of `p`: what follows its last separator once trailing separators
/// and `.` components are gone. There is none when that is empty, `.` or `..`.
pub open spec fn file_name_of(p: Seq<char>) -> Option<Seq<char>> {
    let t = trim_end(p);
    let last = t.skip(after_last(t, '/', t.len() as int) as int);
    if last.len() == 0 || last == seq!['.'] || last == seq!['.', '.'] {
        None
    } else {
        Some(last)
    }
}

/// `p` without its final component; none for the root and for the empty path, the empty
/// path for a single relative component.
pub open spec fn parent_of(p: Seq<char>) -> Option<Seq<char>> {
    let t = trim_end(p);
    if t.len() == 0 || t == seq!['/'] {
        None
    } else {
        let k = after_last(t, '/', t.len() as int);
        if k == 0 {
            Some(Seq::<char>::empty())
        } else {
            Some(trim_end(t.take(k as int)))
        }
    }
}

pub proof fn lemma_trim_end_prefix(p: Seq<char>)
    ensures
        trim_end(p).len() <= p.len(),
        trim_end(p) == p.take(trim_end(p).len() as int),
    decreases p.len(),
{
    if p.len() > 1 && p.last() == '/' {
        lemma_trim_end_prefix(p.drop_last());
        assert(p.drop_last().take(trim_end(p).len() as int) =~= p.take(trim_end(p).len() as int));
    } else if p.len() >= 2 && p.last() == '.' && p[p.len() - 2] == '/' {
        lemma_trim_end_prefix(p.drop_last());
        assert(p.drop_last().take(trim_end(p).len() as int) =~= p.take(trim_end(p).len() as int));
    } else {
        assert(p.take(p.len() as int) =~= p);
    }
}

/// The length of `trim_end` of the first `len` characters of `cs`.
fn trimmed_len(cs: &Vec<char>, len: usize) -> (k: usize)
    requires
        len <= cs@.len(),
    ensures
        k as int == trim_end(cs@.take(len as int)).len(),
        k <= len,
{
    let mut k: usize = len;
    proof {
        lemma_trim_end_prefix(cs@.take(len as int));
    }
    loop
        invariant
            k <= len <= cs@.len(),
            trim_end(cs@.take(len as int)) == trim_end(cs@.take(k as int)),
        decreases k,
    {
        if k > 1 && cs[k - 1] == '/' {
            assert(cs@.take(k as int).drop_last() =~= cs@.take(k - 1));
            k = k - 1;
        } else if k >= 2 && cs[k - 1] == '.' && cs[k - 2] == '/' {
            assert(cs@.take(k as int).drop_last() =~= cs@.take(k - 1));
            k = k - 1;
        } else {
            return k;
        }
    }
}

/// The position just after the last `c` among the first `k` characters of `cs`, or 0.
fn after_last_in(cs: &Vec<char>, c: char, k: usize) -> (r: usize)
    requires
        k <= cs@.len(),
    ensures
        r == after_last(cs@, c, k as int),
        r <= k,
{
    let mut i: usize = k;
    while i > 0 && cs[i - 1] != c
        invariant
            i <= k <= cs@.len(),
            after_last(cs@, c, k as int) == after_last(cs@, c, i as int),
        decreases i,
    {
        i = i - 1;
    }
    i
}

pub proof fn lemma_after_last_take(s: Seq<char>, c: char, n: int, k: int)
    requires
        0 <= k <= n <= s.len(),
    ensures
        after_last(s.take(n), c, k) == after_last(s, c, k),
    decreases k,
{
    if k > 0 {
        lemma_after_last_take(s, c, n, k - 1);
    }
}

/// `path` joined onto `base` (see [`joined`]).
pub fn join_path(base: &str, path: &str) -> (r: String)
    ensures
        r@ == joined(base@, path@),
{
    let b = chars_of(base);
    let p = chars_of(path);
    if p.len() > 0 && p[0] == '/' {
        return String::from_str(path);
    }
    let mut r = String::from_str(base);
    if !(b.len() == 0 || b[b.len() - 1] == '/') {
        r.append("/");
        proof {
            reveal_strlit("/");
        }
    }
    r.append(path);
    r
}

/// The final component of `path` (see [`file_name_of`]), if it has one.
pub fn file_name(path: &str) -> (r: Option<String>)
    ensures
        r.deep_view() == file_name_of(path@),
{
    let cs = chars_of(path);
    let t: usize = trimmed_len(&cs, cs.len());
    proof {
        assert(cs@.take(cs@.len() as int) =~= cs@);
        lemma_trim_end_prefix(cs@);
    }
    let ghost ts = cs@.take(t as int);
    let k: usize = after_last_in(&cs, '/', t);
    proof {
        lemma_after_last_take(cs@, '/', t as int, t as int);
    }
    let (head, _) = split(path, t);
    let (_, last) = split(head, k);
    let lc = chars_of(last);
    proof {
        assert(last@ =~= ts.skip(k as int));
    }
    if lc.len() == 0 || (lc.len() == 1 && lc[0] == '.') || (lc.len() == 2 && lc[0] == '.' && lc[1]
        == '.') {
        proof {
            if lc.len() == 1 {
                assert(last@ =~= seq!['.']);
            }
            if lc.len() == 2 {
                assert(last@ =~= seq!['.', '.']);
            }
        }
        None
    } else {
        proof {
            assert(last@ != seq!['.']);
            assert(last@ != seq!['.', '.']);
        }
        Some(String::from_str(last))
    }
}

/// The final component of `path`; the path must have one.
pub fn filename(path: &str) -> (r: String)
    requires
        file_name_of(path@) is Some,
    ensures
        Some(r@) == file_name_of(path@),
{
    match file_name(path) {
        Some(name) => name,
        None => String::new(),
    }
}

/// `path` without its final component (see [`parent_of`]), if it has one.
pub fn parent(path: &str) -> (r: Option<String>)
    ensures
        r.deep_view() == parent_of(path@),
{
    let cs = chars_of(path);
    let t: usize = trimmed_len(&cs, cs.len());
    proof {
        assert(cs@.take(cs@.len() as int) =~= cs@);
        lemma_trim_end_prefix(cs@);
    }
    let ghost ts = cs@.take(t as int);
    if t == 0 || (t == 1 && cs[0] == '/') {
        proof {
            if t == 1 {
                assert(ts =~= seq!['/']);
            }
        }
        return None;
    }
    proof {
        assert(ts != seq!['/']);
    }
    let k: usize = after_last_in(&cs, '/', t);
    proof {
        lemma_after_last_take(cs@, '/', t as int, t as int);
    }
    if k == 0 {
        return Some(String::new());
    }
    let h: usize = trimmed_len(&cs, k);
    proof {
        assert(ts.take(k as int) =~= cs@.take(k as int));
        lemma_trim_end_prefix(cs@.take(k as int));
        assert(trim_end(cs@.take(k as int)) =~= cs@.take(h as int));
    }
    let (head, _) = split(path, h);
    Some(String::from_str(head))
}

/// The length of the stem of the file name `name`: the name up to its last `.`, unless that
/// `.` opens the name or there is none, in which case the whole name.
pub open spec fn stem_len(name: Seq<char>) -> nat {
    let k = after_last(name, '.', name.len() as int);
    if k >= 2 {
        (k - 1) as nat
    } else {
        name.len()
    }
}

/// `p` with the extension of its final component replaced by `ext` (removed when `ext` is
/// empty): everything after the stem of the final component gives way to `.` and `ext`.
/// A path without final component stays as it is.
pub open spec fn with_extension_of(p: Seq<char>, ext: Seq<char>) -> Seq<char> {
    match file_name_of(p) {
        None => p,
        Some(name) => {
            let t = trim_end(p);
            let base = t.take(t.len() - name.len() + stem_len(name));
            if ext.len() == 0 {
                base
            } else {
                base + seq!['.'] + ext
            }
        },
    }
}

/// `path` with the extension of its final component replaced by `ext` (see
/// [`with_extension_of`]).
pub fn with_extension(path: &str, ext: &str) -> (r: String)
    ensures
        r@ == with_extension_of(path@, ext@),
{
    let name = match file_name(path) {
        None => {
            return String::from_str(path);
        },
        Some(n) => n,
    };
    let cs = chars_of(path);
    let t: usize = trimmed_len(&cs, cs.len());
    proof {
        assert(cs@.take(cs@.len() as int) =~= cs@);
        lemma_trim_end_prefix(cs@);
        let ts = trim_end(path@);
        lemma_after_last_bounds(ts, '/', ts.len() as int);
    }
    let ncs = chars_of(name.as_str());
    let k: usize = after_last_in(&ncs, '.', ncs.len());
    let stem: usize = if k >= 2 { k - 1 } else { ncs.len() };
    let (base, _) = split(path, t - ncs.len() + stem);
    proof {
        assert(base@ =~= trim_end(path@).take(t - ncs@.len() + stem));
    }
    let mut r = String::from_str(base);
    if !ext.is_empty() {
        r.append(".");
        r.append(ext);
        proof {
            reveal_strlit(".");
        }
    }
    r
}

/// The output file of `file` for `target`: `file` with its extension replaced by the final
/// component of `target`, which must have one.
pub fn output_path(file: &str, target: &str) -> (r: String)
    requires
        file_name_of(target@) is Some,
    ensures
        r@ == with_extension_of(file@, file_name_of(target@).unwrap()),
{
    let name = match file_name(target) {
        Some(n) => n,
        None => String::new(),
    };
    with_extension(file, name.as_str())
}

/// `path` taken relative to the directory `current_dir`.
pub fn absolute(path: &str, current_dir: &str) -> (r: String)
    ensures
        r@ == joined(current_dir@, path@),
{
    join_path(current_dir, path)
}

/// The directory that holds `path`, once `path` is taken relative to `current_dir`;
/// there must be one.
pub fn parent_folder(path: &str, current_dir: &str) -> (r: String)
    requires
        parent_of(joined(current_dir@, path@)) is Some,
    ensures
        Some(r@) == parent_of(joined(current_dir@, path@)),
{
    let full = absolute(path, current_dir);
    match parent(full.as_str()) {
        Some(p) => p,
        None => String::new(),
    }
}

/// Whether `p` starts at the root.
pub open spec fn has_root(p: Seq<char>) -> bool {
    p.len() > 0 && p[0] == '/'
}

/// Whether a relative `p` opens with a `.` component (`.` or `./...`), which counts as
/// the current directory.
pub open spec fn leading_cur_dir(p: Seq<char>) -> bool {
    !has_root(p) && split_on(p, '/')[0] == seq!['.']
}

/// A piece between separators that is a component: neither empty nor `.`.
pub open spec fn is_kept_segment(s: Seq<char>) -> bool {
    s.len() > 0 && s != seq!['.']
}

/// The pieces of `parts` that are components, in order.
pub open spec fn kept_segments(parts: Seq<Seq<char>>) -> Seq<Seq<char>>
    decreases parts.len(),
{
    if parts.len() == 0 {
        seq![]
    } else {
        kept_segments(parts.drop_last()) + if is_kept_segment(parts.last()) {
            seq![parts.last()]
        } else {
            seq![]
        }
    }
}

/// Whether `a` and `b` are the same path, component by component: both rooted or not,
/// both opening with `.` or not, with the same components, where repeated separators,
/// a trailing separator and inner `.` components count for nothing.
pub open spec fn same_path_of(a: Seq<char>, b: Seq<char>) -> bool {
    &&& has_root(a) == has_root(b)
    &&& leading_cur_dir(a) == leading_cur_dir(b)
    &&& kept_segments(split_on(a, '/')) == kept_segments(split_on(b, '/'))
}

/// Whether `p` is rooted, whether it opens with `.`, and its components.
fn path_shape(p: &str) -> (r: (bool, bool, Vec<String>))
    ensures
        r.0 == has_root(p@),
        r.1 == leading_cur_dir(p@),
        views(r.2@) == kept_segments(split_on(p@, '/')),
{
    let cs = chars_of(p);
    let root = cs.len() > 0 && cs[0] == '/';
    let pieces = split_pieces(p, '/');
    proof {
        reveal_strlit(".");
        assert("."@ =~= seq!['.']);
        assert(split_on(p@, '/').len() > 0);
        assert(views(pieces@)[0] == pieces@[0]@);
    }
    let cur = !root && same_text(pieces[0].as_str(), ".");
    let mut kept: Vec<String> = Vec::new();
    let mut i: usize = 0;
    while i < pieces.len()
        invariant
            i <= pieces@.len(),
            views(pieces@) == split_on(p@, '/'),
            views(kept@) == kept_segments(views(pieces@).take(i as int)),
        decreases pieces@.len() - i,
    {
        let piece = pieces[i].as_str();
        proof {
            assert(views(pieces@).take(i + 1).drop_last() =~= views(pieces@).take(i as int));
            assert(views(pieces@).take(i + 1).last() == piece@);
        }
        proof {
            reveal_strlit(".");
            assert("."@ =~= seq!['.']);
        }
        if piece.unicode_len() > 0 && !same_text(piece, ".") {
            let ghost before = kept@;
            kept.push(pieces[i].clone());
            proof {
                assert(views(kept@) =~= views(before) + seq![piece@]);
            }
        } else {
            proof {
                assert(views(pieces@).take(i + 1).last() == piece@);
                assert(!is_kept_segment(piece@));
                assert(kept_segments(views(pieces@).take(i + 1)) =~= kept_segments(
                    views(pieces@).take(i as int),
                ));
            }
        }
        i = i + 1;
    }
    proof {
        assert(views(pieces@).take(i as int) =~= views(pieces@));
    }
    (root, cur, kept)
}

/// Whether `a` and `b` are the same path, component by component (see [`same_path_of`]).
pub fn same_path(a: &str, b: &str) -> (r: bool)
    ensures
        r == same_path_of(a@, b@),
{
    let (ra, ca, ka) = path_shape(a);
    let (rb, cb, kb) = path_shape(b);
    if ra != rb || ca != cb || ka.len() != kb.len() {
        proof {
            assert(views(ka@).len() == ka@.len());
            assert(views(kb@).len() == kb@.len());
        }
        return false;
    }
    let mut i: usize = 0;
    while i < ka.len()
        invariant
            i <= ka@.len() == kb@.len(),
            forall|j: int| 0 <= j < i ==> ka@[j]@ == kb@[j]@,
            views(ka@) == kept_segments(split_on(a@, '/')),
            views(kb@) == kept_segments(split_on(b@, '/')),
        decreases ka@.len() - i,
    {
        if !same_text(ka[i].as_str(), kb[i].as_str()) {
            proof {
                assert(views(ka@)[i as int] == ka@[i as int]@);
                assert(views(kb@)[i as int] == kb@[i as int]@);
                assert(views(ka@) != views(kb@));
            }
            return false;
        }
        i = i + 1;
    }
    proof {
        assert(views(ka@) =~= views(kb@));
    }
    true
}

/// A single path component: not empty, without separator, neither `.` nor `..`.
pub open spec fn is_plain_name(name: Seq<char>) -> bool {
    name.len() > 0 && !name.contains('/') && name != seq!['.'] && name != seq!['.', '.']
}

pub proof fn lemma_after_last_over(s: Seq<char>, c: char, k0: int, k: int)
    requires
        0 <= k0 <= k <= s.len(),
        forall|j: int| k0 <= j < k ==> s[j] != c,
    ensures
        after_last(s, c, k) == after_last(s, c, k0),
    decreases k,
{
    if k > k0 {
        lemma_after_last_over(s, c, k0, k - 1);
    }
}

/// A plain name after a prefix that is empty or ends with a separator is the final
/// component, and the prefix, trimmed, is the parent.
proof fn lemma_prefix_name(prefix: Seq<char>, name: Seq<char>)
    requires
        is_plain_name(name),
        prefix.len() == 0 || prefix.last() == '/',
    ensures
        trim_end(prefix + name) == prefix + name,
        after_last(prefix + name, '/', (prefix + name).len() as int) == prefix.len(),
        file_name_of(prefix + name) == Some(name),
        parent_of(prefix + name) == Some(
            if prefix.len() == 0 {
                Seq::<char>::empty()
            } else {
                trim_end(prefix)
            },
        ),
{
    let p = prefix + name;
    assert(!name.contains('/'));
    assert(name[name.len() - 1] != '/') by {
        if name[name.len() - 1] == '/' {
            assert(name.contains('/'));
        }
    }
    assert(p.last() == name.last());
    if p.len() >= 2 && p.last() == '.' && p[p.len() - 2] == '/' {
        if name.len() >= 2 {
            assert(p[p.len() - 2] == name[name.len() - 2]);
            assert(name.contains('/'));
        } else {
            assert(name =~= seq!['.']);
        }
    }
    assert forall|j: int| prefix.len() <= j < p.len() implies p[j] != '/' by {
        assert(p[j] == name[j - prefix.len()]);
        if p[j] == '/' {
            assert(name.contains('/'));
        }
    }
    lemma_after_last_over(p, '/', prefix.len() as int, p.len() as int);
    if prefix.len() > 0 {
        lemma_after_last_bounds(prefix, '/', prefix.len() as int);
        assert(after_last(p, '/', prefix.len() as int) == prefix.len());
    } else {
        assert(after_last(p, '/', 0) == 0);
    }
    assert(p.skip(prefix.len() as int) =~= name);
    assert(p.take(prefix.len() as int) =~= prefix);
    if p =~= seq!['/'] {
        assert(name.contains('/'));
    }
}

/// A joined path splits back into the separator-ended prefix it was built from and the
/// plain name joined onto it.
proof fn lemma_joined_shape(base: Seq<char>, name: Seq<char>) -> (prefix: Seq<char>)
    requires
        is_plain_name(name),
    ensures
        joined(base, name) == prefix + name,
        prefix.len() == 0 <==> base.len() == 0,
        prefix.len() > 0 ==> prefix.last() == '/',
        prefix.len() > 0 ==> trim_end(prefix) == trim_end(base),
        trim_end(joined(base, name)) == joined(base, name),
        after_last(joined(base, name), '/', joined(base, name).len() as int) == prefix.len(),
{
    let prefix = if base.len() == 0 {
        base
    } else if base.last() == '/' {
        base
    } else {
        base + seq!['/']
    };
    let p = joined(base, name);
    assert(p =~= prefix + name);
    if prefix.len() > 0 && base.last() != '/' {
        assert(prefix.drop_last() =~= base);
    }
    lemma_prefix_name(prefix, name);
    prefix
}

/// Replacing the extension changes the final component only: the parent stays, and the new
/// final component is the stem of the old one (what precedes its last `.`, unless that `.`
/// opens it), a `.`, and the extension.
pub proof fn law_with_extension_keeps_the_parent(p: Seq<char>, ext: Seq<char>)
    requires
        file_name_of(p) is Some,
        ext.len() > 0,
        !ext.contains('/'),
    ensures
        ({
            let name = file_name_of(p).unwrap();
            let stem = name.take(stem_len(name) as int);
            &&& parent_of(with_extension_of(p, ext)) == parent_of(p)
            &&& file_name_of(with_extension_of(p, ext)) == Some(stem + seq!['.'] + ext)
            &&& 0 < stem.len() <= name.len()
            &&& stem.len() < name.len() ==> name[stem.len() as int] == '.'
            &&& forall|j: int| stem.len() < j < name.len() ==> name[j] != '.'
        }),
{
    let t = trim_end(p);
    let k = after_last(t, '/', t.len() as int) as int;
    let name = file_name_of(p).unwrap();
    lemma_after_last_bounds(t, '/', t.len() as int);
    lemma_after_last_is_last(t, '/', t.len() as int);
    assert(name == t.skip(k));
    let kd = after_last(name, '.', name.len() as int) as int;
    lemma_after_last_bounds(name, '.', name.len() as int);
    lemma_after_last_is_last(name, '.', name.len() as int);
    let sl = stem_len(name) as int;
    let stem = name.take(sl);
    let nn = stem + seq!['.'] + ext;
    let prefix = t.take(k);
    assert(t.take(t.len() - name.len() + sl) =~= prefix + stem);
    assert(with_extension_of(p, ext) =~= prefix + nn);
    assert forall|j: int| 0 <= j < nn.len() implies nn[j] != '/' by {
        if j < sl {
            assert(nn[j] == t[k + j]);
        } else if j > sl {
            assert(nn[j] == ext[j - sl - 1]);
            if ext[j - sl - 1] == '/' {
                assert(ext.contains('/'));
            }
        }
    }
    assert(!nn.contains('/'));
    assert(nn.len() >= 3);
    if nn =~= seq!['.'] || nn =~= seq!['.', '.'] {
        assert(false);
    }
    if k > 0 {
        assert(prefix.last() == '/');
    }
    lemma_prefix_name(prefix, nn);
    if t =~= seq!['/'] {
        assert(false);
    }
}

/// The final component of a plain name joined onto a directory is that name.
pub proof fn law_file_name_of_joined(base: Seq<char>, name: Seq<char>)
    requires
        is_plain_name(name),
    ensures
        file_name_of(joined(base, name)) == Some(name),
{
    let prefix = lemma_joined_shape(base, name);
    let p = joined(base, name);
    assert(p.skip(prefix.len() as int) =~= name);
}

/// The parent of a plain name joined onto a directory is that directory, without its
/// trailing separators and `.` components.
pub proof fn law_parent_of_joined(base: Seq<char>, name: Seq<char>)
    requires
        is_plain_name(name),
    ensures
        parent_of(joined(base, name)) == Some(trim_end(base)),
{
    let prefix = lemma_joined_shape(base, name);
    let p = joined(base, name);
    assert(p.len() > 0);
    if p =~= seq!['/'] {
        assert(p.last() == name.last());
        assert(name.contains('/'));
    }
    if prefix.len() > 0 {
        assert(p.take(prefix.len() as int) =~= prefix);
    } else {
        assert(base.len() == 0);
        assert(trim_end(base) =~= Seq::<char>::empty());
    }
}

} // verus!
