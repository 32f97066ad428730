use vstd::prelude::*;

use crate::error::Error;
use crate::text::{chars_of, string_of};
use crate::tree::{is_prefix, names};

verus! {

/// The pieces of `s` between the slashes, as `str::split('/')` gives them.
pub open spec fn split_slash(s: Seq<char>) -> Seq<Seq<char>>
    decreases s.len(),
{
    if s.len() == 0 {
        seq![Seq::empty()]
    } else {
        let rest = split_slash(s.drop_last());
        if s.last() == '/' {
            rest.push(Seq::empty())
        } else {
            rest.update(rest.len() - 1, rest.last().push(s.last()))
        }
    }
}

/// `s` is an absolute path.
pub open spec fn is_absolute(s: Seq<char>) -> bool {
    s.len() > 0 && s[0] == '/'
}

/// The names left after one more segment: empty segments and `.` change nothing, `..`
/// drops the last name (at the top of an absolute path it stays at the root, at the top
/// of a relative one it is kept), any other segment is appended.
pub open spec fn lex_step(abs: bool, acc: Seq<Seq<char>>, seg: Seq<char>) -> Seq<Seq<char>> {
    if seg.len() == 0 || seg == seq!['.'] {
        acc
    } else if seg == seq!['.', '.'] {
        if acc.len() > 0 && acc.last() != seq!['.', '.'] {
            acc.drop_last()
        } else if abs {
            acc
        } else {
            acc.push(seg)
        }
    } else {
        acc.push(seg)
    }
}

/// The names reached from `acc` by the segments `segs`, one after the other.
pub open spec fn lex_fold(abs: bool, acc: Seq<Seq<char>>, segs: Seq<Seq<char>>) -> Seq<Seq<char>>
    decreases segs.len(),
{
    if segs.len() == 0 {
        acc
    } else {
        lex_step(abs, lex_fold(abs, acc, segs.drop_last()), segs.last())
    }
}

/// The lexical normal form of the path `s`, as names.
pub open spec fn path_names(s: Seq<char>) -> Seq<Seq<char>> {
    lex_fold(is_absolute(s), Seq::empty(), split_slash(s))
}

/// The names of `request` laid over `base`: an absolute request starts from the root.
pub open spec fn joined_names(base: Seq<char>, request: Seq<char>) -> Seq<Seq<char>> {
    if is_absolute(request) {
        path_names(request)
    } else {
        lex_fold(is_absolute(base), path_names(base), split_slash(request))
    }
}

/// The normal form of `request` laid over `base` lies within `base`.
pub open spec fn inside_base(base: Seq<char>, request: Seq<char>) -> bool {
    &&& (is_absolute(request) ==> is_absolute(base))
    &&& is_prefix(path_names(base), joined_names(base, request))
}

/// Names joined by `/`.
pub open spec fn join_names(segs: Seq<Seq<char>>) -> Seq<char>
    decreases segs.len(),
{
    if segs.len() == 0 {
        Seq::empty()
    } else if segs.len() == 1 {
        segs[0]
    } else {
        join_names(segs.drop_last()) + seq!['/'] + segs.last()
    }
}

/// The path written out from its names: led by `/` where absolute, `.` where relative and empty.
pub open spec fn render(abs: bool, segs: Seq<Seq<char>>) -> Seq<char> {
    if abs {
        seq!['/'] + join_names(segs)
    } else if segs.len() == 0 {
        seq!['.']
    } else {
        join_names(segs)
    }
}

/// Where a request for `request` under `base` leads: `None` where its normal form lies
/// outside `base`.
pub open spec fn resolution(base: Seq<char>, request: Seq<char>) -> Option<Seq<char>> {
    if inside_base(base, request) {
        Some(render(is_absolute(base), joined_names(base, request)))
    } else {
        None
    }
}

/// The path of a command, lexically inside the command directory. Only
/// `resolve_command` makes one.
pub struct ResolvedCommandPath {
    path: String,
}

impl ResolvedCommandPath {
    pub closed spec fn view(&self) -> Seq<char> {
        self.path@
    }

    /// The path, to hand to the process launcher.
    pub fn as_str(&self) -> (r: &str)
        ensures
            r@ == self@,
    {
        self.path.as_str()
    }
}

/// Splits `s` at each `/`, keeping empty pieces.
pub fn split_path(s: &str) -> (r: Vec<String>)
    ensures
        names(r@) == split_slash(s@),
{
    let cs = chars_of(s);
    let mut out: Vec<String> = Vec::new();
    let mut cur: Vec<char> = Vec::new();
    let mut i: usize = 0;
    while i < cs.len()
        invariant
            cs@ == s@,
            i <= cs.len(),
            names(out@).push(cur@) == split_slash(cs@.take(i as int)),
        decreases cs.len() - i,
    {
        let c = cs[i];
        proof {
            assert(cs@.take(i + 1).drop_last() =~= cs@.take(i as int));
        }
        if c == '/' {
            let piece = string_of(&cur);
            out.push(piece);
            cur = Vec::new();
            assert(names(out@).push(cur@) =~= split_slash(cs@.take(i + 1)));
        } else {
            let ghost prev = names(out@).push(cur@);
            cur.push(c);
            assert(names(out@).push(cur@) =~= prev.update(prev.len() - 1, prev.last().push(c)));
        }
        i += 1;
    }
    let piece = string_of(&cur);
    out.push(piece);
    assert(cs@.take(cs.len() as int) =~= cs@);
    assert(names(out@) =~= split_slash(s@));
    out
}

/// `s` is empty or `.` (`Some(false)`), `..` (`Some(true)`) or a name (`None`).
fn dot_kind(s: &String) -> (r: Option<bool>)
    ensures
        r == (if s@.len() == 0 || s@ == seq!['.'] {
            Some(false)
        } else if s@ == seq!['.', '.'] {
            Some(true)
        } else {
            None
        }),
{
    let cs = chars_of(s.as_str());
    if cs.len() == 0 {
        Some(false)
    } else if cs.len() == 1 && cs[0] == '.' {
        assert(cs@ =~= seq!['.']);
        Some(false)
    } else if cs.len() == 2 && cs[0] == '.' && cs[1] == '.' {
        assert(cs@ =~= seq!['.', '.']);
        Some(true)
    } else {
        assert(cs@ != seq!['.']);
        assert(cs@ != seq!['.', '.']);
        None
    }
}

/// Applies the segments `segs` to the names `start` (see `lex_step`).
pub fn apply_segments(abs: bool, start: Vec<String>, segs: &Vec<String>) -> (r: Vec<String>)
    ensures
        names(r@) == lex_fold(abs, names(start@), names(segs@)),
{
    let ghost ss = names(segs@);
    let ghost s0 = names(start@);
    let mut acc = start;
    let mut i: usize = 0;
    while i < segs.len()
        invariant
            ss == names(segs@),
            i <= segs.len(),
            lex_fold(abs, s0, ss.take(i as int)) == names(acc@),
        decreases segs.len() - i,
    {
        let ghost before = names(acc@);
        assert(ss.take(i + 1).drop_last() =~= ss.take(i as int));
        assert(ss.take(i + 1).last() == segs@[i as int]@);
        let seg = &segs[i];
        match dot_kind(seg) {
            Some(false) => {},
            Some(true) => {
                let n = acc.len();
                let up = if n > 0 {
                    match dot_kind(&acc[n - 1]) {
                        Some(true) => false,
                        _ => true,
                    }
                } else {
                    false
                };
                if up {
                    acc.pop();
                    assert(names(acc@) =~= before.drop_last());
                } else if !abs {
                    acc.push(seg.clone());
                    assert(names(acc@) =~= before.push(seg@));
                }
            },
            None => {
                acc.push(seg.clone());
                assert(names(acc@) =~= before.push(seg@));
            },
        }
        i += 1;
    }
    assert(ss.take(segs.len() as int) =~= ss);
    acc
}

/// `s` starts with `/`.
pub fn is_absolute_path(s: &str) -> (r: bool)
    ensures
        r == is_absolute(s@),
{
    let cs = chars_of(s);
    cs.len() > 0 && cs[0] == '/'
}

/// The lexical normal form of the path `s`, as names.
pub fn normal_names(s: &str) -> (r: Vec<String>)
    ensures
        names(r@) == path_names(s@),
{
    let abs = is_absolute_path(s);
    let segs = split_path(s);
    let start: Vec<String> = Vec::new();
    assert(names(start@) =~= Seq::<Seq<char>>::empty());
    apply_segments(abs, start, &segs)
}

fn names_prefix(a: &Vec<String>, b: &Vec<String>) -> (r: bool)
    ensures
        r == is_prefix(names(a@), names(b@)),
{
    if a.len() > b.len() {
        return false;
    }
    let mut i: usize = 0;
    while i < a.len()
        invariant
            a.len() <= b.len(),
            i <= a.len(),
            forall|j: int| 0 <= j < i ==> names(a@)[j] == names(b@)[j],
        decreases a.len() - i,
    {
        if a[i] != b[i] {
            assert(names(a@)[i as int] != names(b@)[i as int]);
            return false;
        }
        i += 1;
    }
    true
}

fn render_names(abs: bool, segs: &Vec<String>) -> (r: String)
    ensures
        r@ == render(abs, names(segs@)),
{
    let ghost ns = names(segs@);
    let mut out: Vec<char> = Vec::new();
    let mut i: usize = 0;
    while i < segs.len()
        invariant
            ns == names(segs@),
            i <= segs.len(),
            out@ == join_names(ns.take(i as int)),
        decreases segs.len() - i,
    {
        assert(ns.take(i + 1).drop_last() =~= ns.take(i as int));
        assert(ns.take(i + 1).last() == segs@[i as int]@);
        if i > 0 {
            out.push('/');
        } else {
            assert(out@ =~= Seq::<char>::empty());
        }
        let mut name = chars_of(segs[i].as_str());
        out.append(&mut name);
        i += 1;
    }
    assert(ns.take(segs.len() as int) =~= ns);
    if abs {
        let mut full: Vec<char> = Vec::new();
        full.push('/');
        full.append(&mut out);
        string_of(&full)
    } else if segs.len() == 0 {
        let mut dot: Vec<char> = Vec::new();
        dot.push('.');
        string_of(&dot)
    } else {
        string_of(&out)
    }
}

/// Maps a requested command path onto the command directory `base`: the request's
/// segments are laid over `base` and normalized. Fails with `PathEscape` exactly where
/// the result does not lie within `base`; the result's names extend those of `base`.
pub fn resolve_command(base: &str, request: &str) -> (r: Result<ResolvedCommandPath, Error>)
    ensures
        match resolution(base@, request@) {
            Some(p) => r matches Ok(c) && c@ == p,
            None => r == Err::<ResolvedCommandPath, Error>(Error::PathEscape),
        },
        r is Ok ==> is_prefix(path_names(base@), joined_names(base@, request@)),
{
    let base_abs = is_absolute_path(base);
    let req_abs = is_absolute_path(request);
    if req_abs && !base_abs {
        return Err(Error::PathEscape);
    }
    let base_names = normal_names(base);
    let joined = if req_abs {
        normal_names(request)
    } else {
        let segs = split_path(request);
        let start = base_names.clone();
        assert(names(start@) =~= names(base_names@));
        apply_segments(base_abs, start, &segs)
    };
    if !names_prefix(&base_names, &joined) {
        return Err(Error::PathEscape);
    }
    Ok(ResolvedCommandPath { path: render_names(base_abs, &joined) })
}

/// The canonical path `target` is `base` itself or lies below it (both without a
/// trailing `/` but for the root).
pub open spec fn lies_within(base: Seq<char>, target: Seq<char>) -> bool {
    &&& base.len() <= target.len()
    &&& target.take(base.len() as int) == base
    &&& (target.len() == base.len() || (base.len() > 0 && base.last() == '/') || target[base.len() as int] == '/')
}

/// Whether `target` is `base` or a path below it, name by name (so `/a/bc` is not below `/a/b`).
pub fn is_within(base: &str, target: &str) -> (r: bool)
    ensures
        r == lies_within(base@, target@),
{
    let b = chars_of(base);
    let t = chars_of(target);
    if b.len() > t.len() {
        return false;
    }
    let mut i: usize = 0;
    while i < b.len()
        invariant
            b@ == base@,
            t@ == target@,
            b.len() <= t.len(),
            i <= b.len(),
            forall|j: int| 0 <= j < i ==> b@[j] == t@[j],
        decreases b.len() - i,
    {
        if b[i] != t[i] {
            assert(t@.take(b.len() as int)[i as int] != b@[i as int]);
            return false;
        }
        i += 1;
    }
    assert(t@.take(b.len() as int) =~= b@);
    t.len() == b.len() || (b.len() > 0 && b[b.len() - 1] == '/') || t[b.len()] == '/'
}

/// Decides, from the canonical forms of the command directory and of a resolved command
/// (`None` where the path could not be made canonical), whether the command may run: a
/// missing command cannot be started, an unreadable directory is an I/O failure, and a
/// command that symlinks lead out of the directory is a path escape.
pub fn confirm_real_path(real_base: Option<String>, real_target: Option<String>) -> (r: Result<(), Error>)
    ensures
        r == (match (real_base, real_target) {
            (None, _) => Err(Error::IoError),
            (Some(_), None) => Err(Error::SpawnFailed),
            (Some(b), Some(t)) => if lies_within(b@, t@) {
                Ok(())
            } else {
                Err(Error::PathEscape)
            },
        }),
{
    match (real_base, real_target) {
        (None, _) => Err(Error::IoError),
        (Some(_), None) => Err(Error::SpawnFailed),
        (Some(b), Some(t)) => {
            if is_within(b.as_str(), t.as_str()) {
                Ok(())
            } else {
                Err(Error::PathEscape)
            }
        },
    }
}

} // verus!
