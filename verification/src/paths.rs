//! Path reasoning on path strings: the component view of a path, its
//! lexical resolution ('/' separates, and '\\' too where the platform's
//! separator is '\\'; "." and ".." are resolved), the guard that refuses a
//! source/target pair that would copy into itself, and the names derived
//! from a relative path.

use vstd::prelude::*;
use crate::text::{chars_eq, chars_of, copy_chars, lemma_split_on, push_char, split_chars, split_on, views};

verus! {

/// A piece of a split path that names something: not empty, not ".".
pub open spec fn is_named(seg: Seq<char>) -> bool {
    seg.len() > 0 && seg != seq!['.']
}

/// The named pieces of `segs`, in order.
pub open spec fn named(segs: Seq<Seq<char>>) -> Seq<Seq<char>>
    decreases segs.len(),
{
    if segs.len() == 0 {
        seq![]
    } else if is_named(segs.last()) {
        named(segs.drop_last()).push(segs.last())
    } else {
        named(segs.drop_last())
    }
}

/// The leading component: "/" for an absolute path, "." for a path that
/// starts with the current directory, nothing otherwise.
pub open spec fn head_component(p: Seq<char>) -> Seq<Seq<char>> {
    if p.len() > 0 && p[0] == '/' {
        seq![seq!['/']]
    } else if p.len() > 0 && p[0] == '.' && (p.len() == 1 || p[1] == '/') {
        seq![seq!['.']]
    } else {
        seq![]
    }
}

/// The components of a path: its leading component, then every named
/// piece between separators. Repeated separators, a trailing separator
/// and inner "." pieces leave the components unchanged.
pub open spec fn components(p: Seq<char>) -> Seq<Seq<char>> {
    head_component(p) + named(split_on(p, '/'))
}

/// A component that names a directory entry (not the root, ".", "..").
pub open spec fn is_entry(c: Seq<char>) -> bool {
    c != seq!['/'] && c != seq!['.'] && c != seq!['.', '.']
}

/// Resolving one more component: "." stays put; ".." goes back over the
/// last entry, and stays at the root; anything else is appended.
pub open spec fn resolve_step(r: Seq<Seq<char>>, c: Seq<char>) -> Seq<Seq<char>> {
    if c == seq!['.'] {
        r
    } else if c == seq!['.', '.'] && r.len() > 0 && is_entry(r.last()) {
        r.drop_last()
    } else if c == seq!['.', '.'] && r.len() > 0 && r.last() == seq!['/'] {
        r
    } else {
        r.push(c)
    }
}

/// The lexical resolution of a list of components.
pub open spec fn resolve(cs: Seq<Seq<char>>) -> Seq<Seq<char>>
    decreases cs.len(),
{
    if cs.len() == 0 {
        seq![]
    } else {
        resolve_step(resolve(cs.drop_last()), cs.last())
    }
}

/// A path with its separators written as '/': backslashes become slashes
/// when they separate (`backslash`), and are ordinary characters otherwise.
pub open spec fn unified(p: Seq<char>, backslash: bool) -> Seq<char> {
    if backslash {
        slashed(p)
    } else {
        p
    }
}

/// The resolved components of a path: "." and ".." are resolved lexically;
/// `backslash` says whether '\\' separates too.
pub open spec fn resolved(p: Seq<char>, backslash: bool) -> Seq<Seq<char>> {
    resolve(components(unified(p, backslash)))
}

/// Two paths name the same location when their resolved components are
/// equal.
pub open spec fn same_path(a: Seq<char>, b: Seq<char>, backslash: bool) -> bool {
    resolved(a, backslash) == resolved(b, backslash)
}

/// `p` lies at or below `base`: the resolved components of `base` begin
/// those of `p`.
pub open spec fn within(p: Seq<char>, base: Seq<char>, backslash: bool) -> bool {
    let pc = resolved(p, backslash);
    let bc = resolved(base, backslash);
    bc.len() <= pc.len() && pc.take(bc.len() as int) == bc
}

fn named_components(segs: &Vec<Vec<char>>, out: &mut Vec<Vec<char>>)
    ensures
        views(final(out)@) == views(old(out)@) + named(views(segs@)),
{
    let ghost start = views(out@);
    let mut i: usize = 0;
    assert(views(segs@).take(0) =~= Seq::<Seq<char>>::empty());
    assert(views(out@) =~= start + named(views(segs@).take(0)));
    while i < segs.len()
        invariant
            i <= segs.len(),
            views(out@) == start + named(views(segs@).take(i as int)),
        decreases segs.len() - i,
    {
        let seg = &segs[i];
        proof {
            assert(views(segs@).take(i + 1).drop_last() =~= views(segs@).take(i as int));
            assert(views(segs@).take(i + 1).last() == seg@);
        }
        let dot = seg.len() == 1 && seg[0] == '.';
        if seg.len() > 0 && !dot {
            assert(seg@ != seq!['.']) by {
                if seg@ == seq!['.'] {
                    assert(seg@.len() == 1);
                    assert(seg@[0] == seq!['.'][0]);
                }
            }
            let ghost before = views(out@);
            out.push(copy_chars(seg));
            assert(views(out@) =~= before.push(seg@));
            assert(named(views(segs@).take(i + 1)) == named(views(segs@).take(i as int)).push(seg@));
            assert(views(out@) =~= start + named(views(segs@).take(i + 1)));
        } else {
            proof {
                if dot {
                    assert(seg@ =~= seq!['.']);
                }
            }
            assert(views(out@) =~= start + named(views(segs@).take(i + 1)));
        }
        i = i + 1;
    }
    assert(views(segs@).take(segs.len() as int) =~= views(segs@));
}

/// The components of a path.
pub fn path_components(p: &str) -> (c: Vec<Vec<char>>)
    ensures
        views(c@) == components(p@),
{
    let chars = chars_of(p);
    let mut out: Vec<Vec<char>> = Vec::new();
    if chars.len() > 0 && chars[0] == '/' {
        let mut root: Vec<char> = Vec::new();
        root.push('/');
        assert(root@ =~= seq!['/']);
        out.push(root);
    } else if chars.len() > 0 && chars[0] == '.' && (chars.len() == 1 || chars[1] == '/') {
        let mut cur: Vec<char> = Vec::new();
        cur.push('.');
        assert(cur@ =~= seq!['.']);
        out.push(cur);
    }
    assert(views(out@) =~= head_component(p@));
    let segs = split_chars(&chars, '/');
    named_components(&segs, &mut out);
    out
}

fn components_prefix(a: &Vec<Vec<char>>, b: &Vec<Vec<char>>) -> (r: bool)
    ensures
        r == (views(a@).len() <= views(b@).len() && views(b@).take(views(a@).len() as int)
            == views(a@)),
{
    if a.len() > b.len() {
        return false;
    }
    let mut i: usize = 0;
    while i < a.len()
        invariant
            a.len() <= b.len(),
            i <= a.len(),
            forall|k: int| 0 <= k < i ==> views(a@)[k] == views(b@)[k],
        decreases a.len() - i,
    {
        if !chars_eq(&a[i], &b[i]) {
            assert(views(b@).take(views(a@).len() as int)[i as int] != views(a@)[i as int]);
            return false;
        }
        i = i + 1;
    }
    assert(views(b@).take(views(a@).len() as int) =~= views(a@));
    true
}

/// Why a source/target pair is refused.
#[derive(Debug, Clone, Copy, PartialEq, Eq, Structural)]
pub enum DirError {
    /// The source directory does not exist.
    SourceMissing,
    /// Source and target name the same directory (syncing would loop).
    SameDirectory,
    /// The target lies inside the source (syncing would copy recursively).
    TargetInsideSource,
}

/// The verdict on a source/target pair; `backslash` says whether '\\'
/// separates path components.
pub open spec fn dir_verdict(src: Seq<char>, dst: Seq<char>, src_exists: bool, backslash: bool) -> Result<(), DirError> {
    if !src_exists {
        Err(DirError::SourceMissing)
    } else if same_path(src, dst, backslash) {
        Err(DirError::SameDirectory)
    } else if within(dst, src, backslash) {
        Err(DirError::TargetInsideSource)
    } else {
        Ok(())
    }
}

fn is_dot(c: &Vec<char>) -> (r: bool)
    ensures
        r == (c@ == seq!['.']),
{
    if c.len() == 1 && c[0] == '.' {
        assert(c@ =~= seq!['.']);
        true
    } else {
        proof {
            if c@ == seq!['.'] {
                assert(c@[0] == seq!['.'][0]);
            }
        }
        false
    }
}

fn is_dot_dot(c: &Vec<char>) -> (r: bool)
    ensures
        r == (c@ == seq!['.', '.']),
{
    if c.len() == 2 && c[0] == '.' && c[1] == '.' {
        assert(c@ =~= seq!['.', '.']);
        true
    } else {
        proof {
            if c@ == seq!['.', '.'] {
                assert(c@[0] == seq!['.', '.'][0]);
                assert(c@[1] == seq!['.', '.'][1]);
            }
        }
        false
    }
}

fn is_root(c: &Vec<char>) -> (r: bool)
    ensures
        r == (c@ == seq!['/']),
{
    if c.len() == 1 && c[0] == '/' {
        assert(c@ =~= seq!['/']);
        true
    } else {
        proof {
            if c@ == seq!['/'] {
                assert(c@[0] == seq!['/'][0]);
            }
        }
        false
    }
}

/// The resolved components of a path (see `resolved`).
pub fn resolved_components(p: &str, backslash: bool) -> (r: Vec<Vec<char>>)
    ensures
        views(r@) == resolved(p@, backslash),
{
    let unified = if backslash {
        normalize_rel(p)
    } else {
        String::from_str(p)
    };
    let cs = path_components(unified.as_str());
    let mut out: Vec<Vec<char>> = Vec::new();
    let mut i: usize = 0;
    assert(views(cs@).take(0) =~= Seq::<Seq<char>>::empty());
    assert(views(out@) =~= resolve(views(cs@).take(0)));
    while i < cs.len()
        invariant
            i <= cs.len(),
            views(out@) == resolve(views(cs@).take(i as int)),
        decreases cs.len() - i,
    {
        let c = &cs[i];
        let ghost before = views(out@);
        proof {
            assert(views(cs@).take(i + 1).drop_last() =~= views(cs@).take(i as int));
            assert(views(cs@).take(i + 1).last() == c@);
        }
        if is_dot(c) {
        } else if is_dot_dot(c) && out.len() > 0 && !is_root(&out[out.len() - 1])
            && !is_dot(&out[out.len() - 1]) && !is_dot_dot(&out[out.len() - 1]) {
            let _last = out.pop();
            assert(views(out@) =~= before.drop_last());
        } else if is_dot_dot(c) && out.len() > 0 && is_root(&out[out.len() - 1]) {
        } else {
            out.push(copy_chars(c));
            assert(views(out@) =~= before.push(c@));
        }
        i = i + 1;
    }
    assert(views(cs@).take(cs.len() as int) =~= views(cs@));
    out
}

/// Checks a source/target pair before syncing starts: the source must
/// exist, must differ from the target, and must not contain it, all after
/// lexical resolution (so "/a/x/../b" is the same as "/a/b"; with
/// `backslash`, "C:\\a" is the same as "C:/a").
pub fn check_dirs_with(src: &str, dst: &str, src_exists: bool, backslash: bool) -> (r: Result<(), DirError>)
    ensures
        r == dir_verdict(src@, dst@, src_exists, backslash),
{
    if !src_exists {
        return Err(DirError::SourceMissing);
    }
    let sc = resolved_components(src, backslash);
    let dc = resolved_components(dst, backslash);
    let same = sc.len() == dc.len() && components_prefix(&sc, &dc);
    proof {
        if views(sc@).len() == views(dc@).len() && views(dc@).take(views(sc@).len() as int) == views(sc@) {
            assert(views(dc@).take(views(sc@).len() as int) =~= views(dc@));
        }
        if views(sc@) == views(dc@) {
            assert(views(dc@).take(views(sc@).len() as int) =~= views(sc@));
        }
    }
    if same {
        return Err(DirError::SameDirectory);
    }
    if components_prefix(&sc, &dc) {
        return Err(DirError::TargetInsideSource);
    }
    Ok(())
}

/// The platform's main path separator: `std::path::MAIN_SEPARATOR` ('/' on
/// Unix, '\\' on Windows). Nothing is stated of it here; the caller's
/// contract holds whichever it is.
#[verifier::external_body]
fn main_separator() -> (c: char) {
    std::path::MAIN_SEPARATOR
}

/// `check_dirs_with` for this platform: '\\' separates where it is the
/// platform's separator. For paths without a backslash the verdict is the
/// same on every platform.
pub fn check_dirs(src: &str, dst: &str, src_exists: bool) -> (r: Result<(), DirError>)
    ensures
        r == dir_verdict(src@, dst@, src_exists, false) || r == dir_verdict(src@, dst@, src_exists, true),
        !src@.contains('\\') && !dst@.contains('\\') ==> r == dir_verdict(src@, dst@, src_exists, false),
{
    proof {
        lemma_unified_plain(src@);
        lemma_unified_plain(dst@);
    }
    let sep = main_separator();
    check_dirs_with(src, dst, src_exists, sep == '\\')
}

proof fn lemma_unified_plain(p: Seq<char>)
    ensures
        !p.contains('\\') ==> unified(p, true) == unified(p, false),
{
    if !p.contains('\\') {
        assert forall|i: int| 0 <= i < p.len() implies p[i] != '\\' by {
            if p[i] == '\\' {
                assert(p.contains('\\'));
            }
        }
        assert(slashed(p) =~= p);
    }
}

/// A relative path with every backslash turned into a slash.
pub open spec fn slashed(s: Seq<char>) -> Seq<char> {
    s.map_values(|c: char| if c == '\\' { '/' } else { c })
}

/// Normalises a relative path for use as a store key: backslashes become
/// slashes, so keys agree across platforms.
pub fn normalize_rel(rel: &str) -> (r: String)
    ensures
        r@ == slashed(rel@),
{
    let chars = chars_of(rel);
    let mut r = String::new();
    let mut i: usize = 0;
    while i < chars.len()
        invariant
            i <= chars.len(),
            chars@ == rel@,
            r@ == slashed(rel@.take(i as int)),
        decreases chars.len() - i,
    {
        let c = chars[i];
        if c == '\\' {
            push_char(&mut r, '/');
        } else {
            push_char(&mut r, c);
        }
        i = i + 1;
        assert(r@ =~= slashed(rel@.take(i as int)));
    }
    assert(rel@.take(chars.len() as int) =~= rel@);
    r
}

/// The name under which a file is written before it is renamed into
/// place: its full name with ".svtmp" appended (the extension is kept).
pub fn temp_file_name(name: &str) -> (r: String)
    ensures
        r@ == name@ + seq!['.', 's', 'v', 't', 'm', 'p'],
{
    let mut r = String::from_str(name);
    push_char(&mut r, '.');
    push_char(&mut r, 's');
    push_char(&mut r, 'v');
    push_char(&mut r, 't');
    push_char(&mut r, 'm');
    push_char(&mut r, 'p');
    assert(r@ =~= name@ + seq!['.', 's', 'v', 't', 'm', 'p']);
    r
}

} // verus!

verus! {

proof fn lemma_split_append_piece(q: Seq<char>, n: Seq<char>)
    requires
        forall|j: int| 0 <= j < n.len() ==> n[j] != '/',
    ensures
        split_on(q + n, '/') == split_on(q, '/').update(
            split_on(q, '/').len() - 1,
            split_on(q, '/').last() + n,
        ),
    decreases n.len(),
{
    lemma_split_on(q, '/');
    if n.len() == 0 {
        assert(q + n =~= q);
        assert(split_on(q, '/').last() + n =~= split_on(q, '/').last());
        assert(split_on(q, '/').update(split_on(q, '/').len() - 1, split_on(q, '/').last())
            =~= split_on(q, '/'));
    } else {
        let m = n.drop_last();
        lemma_split_append_piece(q, m);
        assert((q + n).drop_last() =~= q + m);
        assert((q + n).last() == n.last());
        let segs = split_on(q, '/');
        let rest = split_on(q + m, '/');
        assert(rest.last() == segs.last() + m);
        assert((segs.last() + m).push(n.last()) =~= segs.last() + n);
        assert(split_on(q + n, '/') =~= segs.update(segs.len() - 1, segs.last() + n));
    }
}

proof fn lemma_trailing_components(p: Seq<char>)
    requires
        p.len() > 0,
    ensures
        components(p) == components(p.push('/')),
{
    let q = p.push('/');
    assert(q.drop_last() =~= p);
    lemma_split_on(p, '/');
    assert(split_on(q, '/') == split_on(p, '/').push(Seq::<char>::empty()));
    assert(split_on(q, '/').drop_last() =~= split_on(p, '/'));
    assert(named(split_on(q, '/')) == named(split_on(p, '/')));
    assert(q[0] == p[0]);
    if p.len() > 1 {
        assert(q[1] == p[1]);
    }
    assert(head_component(q) == head_component(p));
}

proof fn lemma_child_components(src: Seq<char>, name: Seq<char>)
    requires
        src.len() > 0,
        is_named(name),
        forall|j: int| 0 <= j < name.len() ==> name[j] != '/',
    ensures
        components(src.push('/') + name) == components(src).push(name),
{
    let q = src.push('/');
    let dst = q + name;
    lemma_split_on(src, '/');
    lemma_split_append_piece(q, name);
    let segs = split_on(src, '/');
    assert(q.drop_last() =~= src);
    assert(split_on(q, '/') == segs.push(Seq::<char>::empty()));
    assert(Seq::<char>::empty() + name =~= name);
    assert(split_on(dst, '/') =~= segs.push(name));
    assert(split_on(dst, '/').drop_last() =~= segs);
    assert(named(split_on(dst, '/')) == named(segs).push(name));
    assert(dst[0] == src[0]);
    if src.len() > 1 {
        assert(dst[1] == src[1]);
    } else {
        assert(dst[1] == '/');
    }
    assert(head_component(dst) == head_component(src));
    assert(components(dst) =~= components(src).push(name));
}

/// A trailing separator ('/', or '\\' where it separates) does not change
/// which directory a path names.
pub proof fn lemma_trailing_separator(p: Seq<char>, sep: char, backslash: bool)
    requires
        p.len() > 0,
        sep == '/' || (backslash && sep == '\\'),
    ensures
        same_path(p, p.push(sep), backslash),
{
    if backslash {
        assert(slashed(p.push(sep)) =~= slashed(p).push('/'));
    }
    assert(unified(p.push(sep), backslash) =~= unified(p, backslash).push('/'));
    assert(unified(p, backslash).len() > 0);
    lemma_trailing_components(unified(p, backslash));
}

/// A directory named inside the source, `src/name` (or `src\\name` where
/// '\\' separates), lies within the source and is not the source itself;
/// so it is refused as a target.
pub proof fn lemma_child_is_within(src: Seq<char>, name: Seq<char>, sep: char, backslash: bool)
    requires
        src.len() > 0,
        sep == '/' || (backslash && sep == '\\'),
        is_named(name),
        name != seq!['.', '.'],
        forall|j: int| 0 <= j < name.len() ==> name[j] != '/' && (backslash ==> name[j] != '\\'),
    ensures
        resolved(src.push(sep) + name, backslash) == resolved(src, backslash).push(name),
        within(src.push(sep) + name, src, backslash),
        !same_path(src.push(sep) + name, src, backslash),
        dir_verdict(src, src.push(sep) + name, true, backslash) == Err::<(), DirError>(DirError::TargetInsideSource),
{
    let dst = src.push(sep) + name;
    let u = unified(src, backslash);
    if backslash {
        assert(slashed(name) =~= name);
        assert(slashed(dst) =~= slashed(src).push('/') + name);
    } else {
        assert(dst =~= src.push('/') + name);
    }
    assert(unified(dst, backslash) =~= u.push('/') + name);
    assert(u.len() > 0);
    lemma_child_components(u, name);
    let cs = components(u);
    assert(cs.push(name).drop_last() =~= cs);
    assert(resolve(cs.push(name)) == resolve_step(resolve(cs), name));
    assert(resolved(dst, backslash) == resolved(src, backslash).push(name));
    assert(resolved(dst, backslash).take(resolved(src, backslash).len() as int) =~= resolved(src, backslash));
}

/// Going into a directory and back out again names the starting point:
/// `base/name/..` is the same as `base`.
pub proof fn lemma_up_after_down(base: Seq<char>, name: Seq<char>, backslash: bool)
    requires
        base.len() > 0,
        is_named(name),
        name != seq!['.', '.'],
        forall|j: int| 0 <= j < name.len() ==> name[j] != '/' && (backslash ==> name[j] != '\\'),
    ensures
        same_path((base.push('/') + name).push('/') + seq!['.', '.'], base, backslash),
{
    let child = base.push('/') + name;
    let up = seq!['.', '.'];
    lemma_child_is_within(base, name, '/', backslash);
    let dst = child.push('/') + up;
    let u = unified(child, backslash);
    if backslash {
        assert(slashed(up) =~= up);
        assert(slashed(dst) =~= slashed(child).push('/') + up);
    }
    assert(unified(dst, backslash) =~= u.push('/') + up);
    assert(is_named(up)) by {
        assert(up.len() == 2);
        if up == seq!['.'] {
            assert(up.len() == 1);
        }
    }
    assert(u.len() > 0);
    lemma_child_components(u, up);
    let cs = components(u);
    assert(cs.push(up).drop_last() =~= cs);
    assert(resolve(cs.push(up)) == resolve_step(resolve(cs), up));
    assert(resolved(child, backslash).last() == name);
    assert(is_entry(name)) by {
        if name == seq!['/'] {
            assert(name[0] == '/');
        }
    }
    assert(resolved(child, backslash).drop_last() =~= resolved(base, backslash));
}

/// The guard refuses every target below the source, at any depth: when the
/// resolved components of `dst` begin with those of `src` and go further,
/// the verdict (for an existing source) is `TargetInsideSource`; when they
/// are equal it is `SameDirectory`; and a target whose components do not
/// begin with the source's is accepted.
pub proof fn lemma_guard_verdicts(src: Seq<char>, dst: Seq<char>, backslash: bool)
    ensures
        ({
            let sc = resolved(src, backslash);
            let dc = resolved(dst, backslash);
            &&& (sc.len() < dc.len() && dc.take(sc.len() as int) == sc)
                ==> dir_verdict(src, dst, true, backslash) == Err::<(), DirError>(DirError::TargetInsideSource)
            &&& sc == dc ==> dir_verdict(src, dst, true, backslash) == Err::<(), DirError>(DirError::SameDirectory)
            &&& !(sc.len() <= dc.len() && dc.take(sc.len() as int) == sc)
                ==> dir_verdict(src, dst, true, backslash) == Ok::<(), DirError>(())
            &&& dir_verdict(src, dst, false, backslash) == Err::<(), DirError>(DirError::SourceMissing)
        }),
{
    let sc = resolved(src, backslash);
    let dc = resolved(dst, backslash);
    if sc == dc {
        assert(dc.take(sc.len() as int) =~= sc);
    }
}

} // verus!
