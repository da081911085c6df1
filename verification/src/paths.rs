//! Lexical path handling for sysfs and procfs walks: splitting a path into
//! components the way `std::path::Path::components` does, resolving a
//! symlink target against the directory that holds the link, and joining.
//! Nothing here touches the filesystem.

use vstd::prelude::*;

use crate::text::{append_chars, append_str, chars_of, eq_chars, join_with, split, split_of, vecs_view};

verus! {

/// Path segments without the empty ones (repeated or trailing `/`) and
/// without `.`.
pub open spec fn keep_segments(segs: Seq<Seq<char>>) -> Seq<Seq<char>>
    decreases segs.len(),
{
    if segs.len() == 0 {
        seq![]
    } else {
        let rest = keep_segments(segs.drop_last());
        if segs.last().len() == 0 || segs.last() == "."@ {
            rest
        } else {
            rest.push(segs.last())
        }
    }
}

/// Components of a path: `/` for a leading root, `.` when a relative path
/// starts with it, then every non-empty segment other than `.`.
pub open spec fn components(p: Seq<char>) -> Seq<Seq<char>> {
    let segs = split(p, '/');
    if p.len() > 0 && p[0] == '/' {
        seq!["/"@] + keep_segments(segs)
    } else if segs.len() > 0 && segs[0] == "."@ {
        seq!["."@] + keep_segments(segs)
    } else {
        keep_segments(segs)
    }
}

pub fn lit_vec(s: &str) -> (r: Vec<char>)
    ensures
        r@ == s@,
{
    chars_of(s)
}

/// Components of `p` (see [`components`]).
pub fn components_of(p: &str) -> (r: Vec<Vec<char>>)
    ensures
        vecs_view(r@) == components(p@),
{
    let v = chars_of(p);
    let segs = split_of(&v, '/');
    let ghost sv = split(p@, '/');
    let dot = lit_vec(".");
    let mut kept: Vec<Vec<char>> = Vec::new();
    for i in 0..segs.len()
        invariant
            sv == split(p@, '/'),
            segs@.len() == sv.len(),
            forall|k: int| 0 <= k < segs@.len() ==> #[trigger] segs@[k]@ == sv[k],
            dot@ == "."@,
            vecs_view(kept@) == keep_segments(sv.take(i as int)),
    {
        let ghost pre = sv.take(i as int);
        let ghost nxt = sv.take(i + 1);
        assert(nxt.drop_last() =~= pre);
        assert(nxt.last() == segs@[i as int]@);
        let seg = &segs[i];
        if !(seg.len() == 0 || eq_chars(seg.as_slice(), dot.as_slice())) {
            kept.push(lit_clone(seg));
            assert(vecs_view(kept@) =~= keep_segments(pre).push(seg@));
        }
    }
    assert(sv.take(segs@.len() as int) =~= sv);
    let mut out: Vec<Vec<char>> = Vec::new();
    if v.len() > 0 && v[0] == '/' {
        out.push(lit_vec("/"));
    } else if segs.len() > 0 && eq_chars(segs[0].as_slice(), dot.as_slice()) {
        out.push(lit_vec("."));
    }
    let ghost head = vecs_view(out@);
    for i in 0..kept.len()
        invariant
            vecs_view(out@) == head + vecs_view(kept@).take(i as int),
    {
        let ghost before = vecs_view(out@);
        let c = lit_clone(&kept[i]);
        out.push(c);
        assert(vecs_view(out@) =~= before.push(kept@[i as int]@));
        assert(vecs_view(out@) =~= head + vecs_view(kept@).take(i + 1));
    }
    assert(vecs_view(kept@).take(kept@.len() as int) =~= vecs_view(kept@));
    assert(vecs_view(out@) =~= components(p@));
    out
}

pub fn lit_clone(v: &Vec<char>) -> (r: Vec<char>)
    ensures
        r@ == v@,
{
    let mut r: Vec<char> = Vec::new();
    append_chars(&mut r, v.as_slice());
    r
}

// ---------------------------------------------------------------------------
// Symlink resolution
// ---------------------------------------------------------------------------

/// One component of a link target applied to the parts built so far: `..`
/// drops the last part unless that is the root, `.` does nothing, anything
/// else is appended.
pub open spec fn resolve_step(parts: Seq<Seq<char>>, c: Seq<char>) -> Seq<Seq<char>> {
    if c == ".."@ {
        if parts.len() > 0 && parts.last() != "/"@ {
            parts.drop_last()
        } else {
            parts
        }
    } else if c == "."@ {
        parts
    } else {
        parts.push(c)
    }
}

pub open spec fn resolve_all(parts: Seq<Seq<char>>, cs: Seq<Seq<char>>) -> Seq<Seq<char>>
    decreases cs.len(),
{
    if cs.len() == 0 {
        parts
    } else {
        resolve_step(resolve_all(parts, cs.drop_last()), cs.last())
    }
}

/// Components of `target` resolved against the directory `base` that holds
/// the link, without touching the filesystem. An absolute target ignores
/// `base`; `..` above the root stays at the root.
pub open spec fn resolve_link_spec(base: Seq<char>, target: Seq<char>) -> Seq<Seq<char>> {
    let start = if target.len() > 0 && target[0] == '/' {
        Seq::<Seq<char>>::empty()
    } else {
        components(base)
    };
    resolve_all(start, components(target))
}

/// The path made of `parts`: the root, then the other parts joined by `/`.
pub open spec fn render_path(parts: Seq<Seq<char>>) -> Seq<char> {
    if parts.len() > 0 && parts[0] == "/"@ {
        "/"@ + join_with(parts.drop_first(), "/"@)
    } else {
        join_with(parts, "/"@)
    }
}

/// Resolved components of a link target (see [`resolve_link_spec`]).
pub fn resolve_link_parts(base: &str, target: &str) -> (r: Vec<Vec<char>>)
    ensures
        vecs_view(r@) == resolve_link_spec(base@, target@),
{
    let tv = chars_of(target);
    let mut parts: Vec<Vec<char>> = if tv.len() > 0 && tv[0] == '/' {
        Vec::new()
    } else {
        components_of(base)
    };
    let ghost start = vecs_view(parts@);
    assert(start == (if target@.len() > 0 && target@[0] == '/' {
        Seq::<Seq<char>>::empty()
    } else {
        components(base@)
    }));
    let tc = components_of(target);
    let dotdot = lit_vec("..");
    let dot = lit_vec(".");
    let root = lit_vec("/");
    for i in 0..tc.len()
        invariant
            vecs_view(tc@) == components(target@),
            dotdot@ == ".."@,
            dot@ == "."@,
            root@ == "/"@,
            vecs_view(parts@) == resolve_all(start, components(target@).take(i as int)),
    {
        let ghost cs = components(target@);
        assert(cs.take(i + 1).drop_last() =~= cs.take(i as int));
        assert(cs.take(i + 1).last() == tc@[i as int]@);
        let ghost before = vecs_view(parts@);
        let c = &tc[i];
        if eq_chars(c.as_slice(), dotdot.as_slice()) {
            if parts.len() > 0 && !eq_chars(parts[parts.len() - 1].as_slice(), root.as_slice()) {
                parts.pop();
                assert(vecs_view(parts@) =~= before.drop_last());
            }
        } else if eq_chars(c.as_slice(), dot.as_slice()) {
        } else {
            parts.push(lit_clone(c));
            assert(vecs_view(parts@) =~= before.push(c@));
        }
    }
    assert(components(target@).take(tc@.len() as int) =~= components(target@));
    parts
}

/// The path made of `parts` (see [`render_path`]).
pub fn render_parts(parts: &Vec<Vec<char>>) -> (r: Vec<char>)
    ensures
        r@ == render_path(vecs_view(parts@)),
{
    let ghost pv = vecs_view(parts@);
    let rooted = parts.len() > 0 && eq_chars(parts[0].as_slice(), lit_vec("/").as_slice());
    let mut out: Vec<char> = Vec::new();
    let lo: usize = if rooted {
        append_str(&mut out, "/");
        1
    } else {
        0
    };
    let ghost body = pv.skip(lo as int);
    let ghost head = out@;
    for i in lo..parts.len()
        invariant
            pv == vecs_view(parts@),
            body == pv.skip(lo as int),
            lo <= i <= parts@.len(),
            out@ == head + join_with(body.take(i - lo), "/"@),
    {
        let ghost pre = body.take(i - lo);
        let ghost nxt = body.take(i - lo + 1);
        assert(nxt.drop_last() =~= pre);
        assert(nxt.last() == parts@[i as int]@);
        if i > lo {
            append_str(&mut out, "/");
        } else {
            assert(nxt.len() == 1);
        }
        append_chars(&mut out, parts[i].as_slice());
        assert(out@ =~= head + join_with(nxt, "/"@));
    }
    assert(body.take(parts@.len() - lo) =~= body);
    if rooted {
        assert(body =~= pv.drop_first());
    } else {
        assert(body =~= pv);
        assert(head =~= Seq::<char>::empty());
    }
    assert(out@ =~= render_path(pv));
    out
}

/// Resolve a (possibly relative) symlink target against the directory that
/// contains the link. Handles `..` segments without touching the filesystem;
/// `..` above the root clamps to `/`, like the kernel.
pub fn resolve_link(base: &str, target: &str) -> (r: Option<String>)
    ensures
        r is Some,
        r->0@ == render_path(resolve_link_spec(base@, target@)),
{
    let parts = resolve_link_parts(base, target);
    Some(crate::text::string_of(render_parts(&parts).as_slice()))
}

// ---------------------------------------------------------------------------
// Parents, joins, last components
// ---------------------------------------------------------------------------

/// `Path::parent` on components: nothing above the root or the empty path.
pub open spec fn parent_parts(parts: Seq<Seq<char>>) -> Option<Seq<Seq<char>>> {
    if parts.len() == 0 || (parts.len() == 1 && parts[0] == "/"@) {
        None
    } else {
        Some(parts.drop_last())
    }
}

pub fn parent_of(parts: &Vec<Vec<char>>) -> (r: Option<Vec<Vec<char>>>)
    ensures
        match r {
            Some(p) => parent_parts(vecs_view(parts@)) == Some(vecs_view(p@)),
            None => parent_parts(vecs_view(parts@)) is None,
        },
{
    let n = parts.len();
    if n == 0 || (n == 1 && eq_chars(parts[0].as_slice(), lit_vec("/").as_slice())) {
        return None;
    }
    let mut out: Vec<Vec<char>> = Vec::new();
    for i in 0..n - 1
        invariant
            n == parts@.len() > 0,
            vecs_view(out@) == vecs_view(parts@).take(i as int),
    {
        let ghost before = vecs_view(out@);
        let c = lit_clone(&parts[i]);
        out.push(c);
        assert(vecs_view(out@) =~= before.push(parts@[i as int]@));
        assert(vecs_view(out@) =~= vecs_view(parts@).take(i + 1));
    }
    assert(vecs_view(out@) =~= vecs_view(parts@).drop_last());
    Some(out)
}

/// `PathBuf::join`: an absolute `rel` replaces `base`; otherwise one `/`
/// separates them (none after an empty base or a trailing `/`).
pub open spec fn path_join(base: Seq<char>, rel: Seq<char>) -> Seq<char> {
    if rel.len() > 0 && rel[0] == '/' {
        rel
    } else if base.len() == 0 {
        rel
    } else if base.last() == '/' {
        base + rel
    } else {
        base + "/"@ + rel
    }
}

pub fn path_join_exec(base: &[char], rel: &[char]) -> (r: Vec<char>)
    ensures
        r@ == path_join(base@, rel@),
{
    let mut out: Vec<char> = Vec::new();
    if rel.len() > 0 && rel[0] == '/' {
        append_chars(&mut out, rel);
        assert(out@ =~= rel@);
        return out;
    }
    append_chars(&mut out, base);
    if base.len() > 0 && base[base.len() - 1] != '/' {
        append_str(&mut out, "/");
    }
    append_chars(&mut out, rel);
    assert(out@ =~= path_join(base@, rel@));
    out
}

/// `base` joined with `rel`, as a `String`.
pub fn join_str(base: &[char], rel: &str) -> (r: String)
    ensures
        r@ == path_join(base@, rel@),
{
    let rv = chars_of(rel);
    crate::text::string_of(path_join_exec(base, rv.as_slice()).as_slice())
}

/// Final component of a path, if it has any.
pub open spec fn last_component(p: Seq<char>) -> Option<Seq<char>> {
    let cs = components(p);
    if cs.len() == 0 {
        None
    } else {
        Some(cs.last())
    }
}

pub fn last_component_of(p: &str) -> (r: Option<Vec<char>>)
    ensures
        match r {
            Some(c) => last_component(p@) == Some(c@),
            None => last_component(p@) is None,
        },
{
    let cs = components_of(p);
    if cs.len() == 0 {
        None
    } else {
        Some(lit_clone(&cs[cs.len() - 1]))
    }
}

/// `Path::file_name`: the last component unless it is the root, `.` or `..`.
pub open spec fn file_name(p: Seq<char>) -> Option<Seq<char>> {
    let cs = components(p);
    if cs.len() == 0 {
        None
    } else if cs.last() == "/"@ || cs.last() == "."@ || cs.last() == ".."@ {
        None
    } else {
        Some(cs.last())
    }
}

pub fn file_name_of(p: &str) -> (r: Option<Vec<char>>)
    ensures
        match r {
            Some(n) => file_name(p@) == Some(n@),
            None => file_name(p@) is None,
        },
{
    let cs = components_of(p);
    proof {
        reveal_strlit("/");
        reveal_strlit(".");
        reveal_strlit("..");
    }
    if cs.len() == 0 {
        return None;
    }
    let last = &cs[cs.len() - 1];
    assert(last@ == components(p@).last());
    if eq_chars(last.as_slice(), chars_of("/").as_slice()) || eq_chars(
        last.as_slice(),
        chars_of(".").as_slice(),
    ) || eq_chars(last.as_slice(), chars_of("..").as_slice()) {
        None
    } else {
        Some(lit_clone(last))
    }
}

} // verus!
