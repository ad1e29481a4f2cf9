//! A model of Unix path syntax, as `std::path::Path` reads it: components, joining,
//! prefix stripping, file names and the component-wise order in which paths sort.
//!
//! A path is held as a string. Its components are strings too: the root is `"/"`, a leading
//! current-directory marker is `"."`, a parent marker is `".."`, and every other component is its
//! name. Empty segments (repeated separators) and interior `"."` segments are not components.
use vstd::prelude::*;
use crate::text::chars_of;

verus! {

/// The segments of `s` between `'/'` separators, empty ones included (at least one).
pub open spec fn split_slash(s: Seq<char>) -> Seq<Seq<char>>
    decreases s.len(),
{
    if s.len() == 0 {
        seq![Seq::<char>::empty()]
    } else {
        let p = split_slash(s.drop_last());
        if s.last() == '/' {
            p.push(Seq::<char>::empty())
        } else {
            p.update(p.len() - 1, p.last().push(s.last()))
        }
    }
}

/// The root component.
pub open spec fn root_marker() -> Seq<char> {
    seq!['/']
}

/// The current-directory component.
pub open spec fn cur_marker() -> Seq<char> {
    seq!['.']
}

/// The parent-directory component.
pub open spec fn parent_marker() -> Seq<char> {
    seq!['.', '.']
}

/// A segment that is a component wherever it stands: neither empty nor `"."`.
pub open spec fn is_plain_segment(seg: Seq<char>) -> bool {
    seg.len() > 0 && seg != cur_marker()
}

/// The plain segments of `segs`, in order.
pub open spec fn keep_plain(segs: Seq<Seq<char>>) -> Seq<Seq<char>>
    decreases segs.len(),
{
    if segs.len() == 0 {
        Seq::<Seq<char>>::empty()
    } else {
        let r = keep_plain(segs.drop_last());
        if is_plain_segment(segs.last()) {
            r.push(segs.last())
        } else {
            r
        }
    }
}

/// The components of path `s`, as `Path::components` yields them on Unix.
pub open spec fn path_components(s: Seq<char>) -> Seq<Seq<char>> {
    let segs = split_slash(s);
    if s.len() > 0 && s[0] == '/' {
        seq![root_marker()] + keep_plain(segs)
    } else if segs[0] == cur_marker() {
        seq![cur_marker()] + keep_plain(segs)
    } else {
        keep_plain(segs)
    }
}

proof fn lemma_split_slash_nonempty(s: Seq<char>)
    ensures
        split_slash(s).len() >= 1,
    decreases s.len(),
{
    if s.len() > 0 {
        lemma_split_slash_nonempty(s.drop_last());
    }
}

proof fn lemma_split_step(s: Seq<char>, i: int)
    requires
        0 <= i < s.len(),
    ensures
        split_slash(s.take(i + 1)) == (if s[i] == '/' {
            split_slash(s.take(i)).push(Seq::<char>::empty())
        } else {
            split_slash(s.take(i)).update(
                split_slash(s.take(i)).len() - 1,
                split_slash(s.take(i)).last().push(s[i]),
            )
        }),
{
    assert(s.take(i + 1).drop_last() =~= s.take(i));
}

proof fn lemma_keep_plain_push(segs: Seq<Seq<char>>, seg: Seq<char>)
    ensures
        keep_plain(segs.push(seg)) == (if is_plain_segment(seg) {
            keep_plain(segs).push(seg)
        } else {
            keep_plain(segs)
        }),
{
    assert(segs.push(seg).drop_last() =~= segs);
}

/// Whether the characters `cs[start..end]` form a plain segment.
fn plain_segment(cs: &Vec<char>, start: usize, end: usize) -> (r: bool)
    requires
        start <= end <= cs@.len(),
    ensures
        r == is_plain_segment(cs@.subrange(start as int, end as int)),
{
    let r = end > start && !(end == start + 1 && cs[start] == '.');
    proof {
        let seg = cs@.subrange(start as int, end as int);
        if end == start + 1 && cs@[start as int] == '.' {
            assert(seg =~= cur_marker());
        }
        if end == start + 1 && cs@[start as int] != '.' {
            assert(seg[0] != cur_marker()[0]);
        }
    }
    r
}

/// The components of path `s`, in order.
pub fn components(s: &str) -> (r: Vec<String>)
    ensures
        r.deep_view() == path_components(s@),
{
    let cs = chars_of(s);
    let n = cs.len();
    let mut out: Vec<String> = Vec::new();
    let mut start: usize = 0;
    let mut first_is_dot = false;
    let mut seen_sep = false;
    let ghost mut done: Seq<Seq<char>> = Seq::empty();
    let mut i: usize = 0;
    proof {
        assert(s@.take(0) =~= Seq::<char>::empty());
        assert(done.push(s@.subrange(0, 0)) =~= seq![Seq::<char>::empty()]);
    }
    while i < n
        invariant
            n == cs@.len(),
            cs@ == s@,
            start <= i <= n,
            split_slash(s@.take(i as int)) == done.push(s@.subrange(start as int, i as int)),
            keep_plain(done) == out.deep_view(),
            done.len() > 0 ==> first_is_dot == (done[0] == cur_marker()),
            seen_sep == (done.len() > 0),
        decreases n - i,
    {
        proof {
            lemma_split_step(s@, i as int);
        }
        if cs[i] == '/' {
            let keep = plain_segment(&cs, start, i);
            let ghost seg = s@.subrange(start as int, i as int);
            proof {
                lemma_keep_plain_push(done, seg);
            }
            if !seen_sep {
                first_is_dot = i == start + 1 && cs[start] == '.';
                proof {
                    if i == start + 1 && cs@[start as int] == '.' {
                        assert(seg =~= cur_marker());
                    } else if seg.len() != 1 {
                    } else {
                        assert(seg[0] != cur_marker()[0]);
                    }
                }
            }
            if keep {
                let part = s.substring_char(start, i);
                let owned = part.to_owned();
                out.push(owned);
                proof {
                    assert(out.deep_view() =~= keep_plain(done).push(seg));
                }
            }
            proof {
                done = done.push(seg);
                assert(s@.subrange((i + 1) as int, (i + 1) as int) =~= Seq::<char>::empty());
            }
            start = i + 1;
            seen_sep = true;
        } else {
            proof {
                assert(s@.subrange(start as int, (i + 1) as int) =~= s@.subrange(
                    start as int,
                    i as int,
                ).push(s@[i as int]));
                assert(done.push(s@.subrange(start as int, i as int)).update(
                    done.len() as int,
                    s@.subrange(start as int, (i + 1) as int),
                ) =~= done.push(s@.subrange(start as int, (i + 1) as int)));
            }
        }
        i = i + 1;
    }
    // The last segment ends at the end of the path.
    let keep = plain_segment(&cs, start, n);
    let ghost seg = s@.subrange(start as int, n as int);
    proof {
        lemma_keep_plain_push(done, seg);
        assert(s@.take(n as int) =~= s@);
        if done.len() == 0 {
            assert(done.push(seg)[0] == seg);
        } else {
            assert(done.push(seg)[0] == done[0]);
        }
    }
    if !seen_sep {
        first_is_dot = start < n && n - start == 1 && cs[start] == '.';
        proof {
            if n == start + 1 && cs@[start as int] == '.' {
                assert(seg =~= cur_marker());
            } else if seg.len() != 1 {
            } else {
                assert(seg[0] != cur_marker()[0]);
            }
        }
    }
    if keep {
        let part = s.substring_char(start, n);
        out.push(part.to_owned());
        proof {
            assert(out.deep_view() =~= keep_plain(done).push(seg));
        }
    }
    proof {
        done = done.push(seg);
    }
    if n > 0 && cs[0] == '/' {
        let root = "/".to_owned();
        proof {
            reveal_strlit("/");
            assert(root@ =~= root_marker());
        }
        let ghost before = out.deep_view();
        out.insert(0, root);
        proof {
            assert(out.deep_view() =~= seq![root_marker()] + before);
            assert(out.deep_view() =~= seq![root_marker()] + keep_plain(done));
        }
    } else if first_is_dot {
        let cur = ".".to_owned();
        proof {
            reveal_strlit(".");
            assert(cur@ =~= cur_marker());
        }
        let ghost before = out.deep_view();
        out.insert(0, cur);
        proof {
            assert(out.deep_view() =~= seq![cur_marker()] + before);
            assert(out.deep_view() =~= seq![cur_marker()] + keep_plain(done));
        }
    }
    out
}


/// `base` joined with `rel`, as `Path::join` does on Unix: an absolute `rel` replaces `base`,
/// otherwise a separator is put between them unless `base` is empty or already ends in one.
pub open spec fn path_join(base: Seq<char>, rel: Seq<char>) -> Seq<char> {
    if rel.len() > 0 && rel[0] == '/' {
        rel
    } else if base.len() > 0 && base.last() != '/' {
        base + seq!['/'] + rel
    } else {
        base + rel
    }
}

/// `base` joined with `rel`.
pub fn join(base: &str, rel: &str) -> (r: String)
    ensures
        r@ == path_join(base@, rel@),
{
    if !rel.is_empty() && rel.get_char(0) == '/' {
        return rel.to_owned();
    }
    let mut out = base.to_owned();
    if !base.is_empty() && base.get_char(base.unicode_len() - 1) != '/' {
        let sep = "/";
        proof {
            reveal_strlit("/");
        }
        out.append(sep);
    }
    out.append(rel);
    out
}

/// A component that names a file or directory (not the root, `"."` or `".."`).
pub open spec fn is_name_component(c: Seq<char>) -> bool {
    c != root_marker() && c != cur_marker() && c != parent_marker()
}

/// The final component of `s` when it is a name, as `Path::file_name` gives it.
pub open spec fn file_name(s: Seq<char>) -> Option<Seq<char>> {
    let c = path_components(s);
    if c.len() > 0 && is_name_component(c.last()) {
        Some(c.last())
    } else {
        None
    }
}

/// Whether component `c` is a name.
fn name_component(c: &String) -> (r: bool)
    ensures
        r == is_name_component(c@),
{
    let root = "/".to_owned();
    let cur = ".".to_owned();
    let parent = "..".to_owned();
    proof {
        reveal_strlit("/");
        reveal_strlit(".");
        reveal_strlit("..");
        assert(root@ =~= root_marker());
        assert(cur@ =~= cur_marker());
        assert(parent@ =~= parent_marker());
    }
    !(*c == root) && !(*c == cur) && !(*c == parent)
}

/// The final component of `s` when it is a name.
pub fn path_file_name(s: &str) -> (r: Option<String>)
    ensures
        r.deep_view() == file_name(s@),
{
    let comps = components(s);
    let n = comps.len();
    if n > 0 && name_component(&comps[n - 1]) {
        let last = comps[n - 1].clone();
        proof {
            assert(comps.deep_view()[n - 1] == comps@[n - 1]@);
        }
        Some(last)
    } else {
        proof {
            if n > 0 {
                assert(comps.deep_view()[n - 1] == comps@[n - 1]@);
            }
        }
        None
    }
}

/// The components of `path` after those of `base`, when `base`'s components are a prefix of
/// `path`'s, as `Path::strip_prefix` decides it.
pub open spec fn strip_components(path: Seq<char>, base: Seq<char>) -> Option<Seq<Seq<char>>> {
    let p = path_components(path);
    let b = path_components(base);
    if b.is_prefix_of(p) {
        Some(p.skip(b.len() as int))
    } else {
        None
    }
}

/// The components of `path` that follow `base`, or `None` when `path` does not start with `base`.
pub fn strip_prefix(path: &str, base: &str) -> (r: Option<Vec<String>>)
    ensures
        r.deep_view() == strip_components(path@, base@),
{
    let p = components(path);
    let b = components(base);
    if b.len() > p.len() {
        return None;
    }
    let mut i: usize = 0;
    while i < b.len()
        invariant
            b.len() <= p.len(),
            i <= b.len(),
            p.deep_view() == path_components(path@),
            b.deep_view() == path_components(base@),
            forall|j: int| 0 <= j < i ==> p@[j]@ == b@[j]@,
        decreases b.len() - i,
    {
        if !(p[i] == b[i]) {
            proof {
                assert(p.deep_view().subrange(0, b.len() as int)[i as int]
                    != b.deep_view()[i as int]);
                assert(!b.deep_view().is_prefix_of(p.deep_view()));
            }
            return None;
        }
        i = i + 1;
    }
    let mut rest: Vec<String> = Vec::new();
    let mut k: usize = b.len();
    while k < p.len()
        invariant
            b.len() <= k <= p.len(),
            rest.deep_view() == p.deep_view().subrange(b.len() as int, k as int),
        decreases p.len() - k,
    {
        let ghost before = rest.deep_view();
        rest.push(p[k].clone());
        proof {
            assert(rest.deep_view() =~= before.push(p@[k as int]@));
            assert(rest.deep_view() =~= p.deep_view().subrange(b.len() as int, k + 1));
        }
        k = k + 1;
    }
    proof {
        assert(b.deep_view() =~= p.deep_view().subrange(0, b.len() as int));
        assert(rest.deep_view() =~= p.deep_view().skip(b.len() as int));
    }
    Some(rest)
}


/// A name that joins as a single component: not empty, not `"."`, and free of separators.
pub open spec fn is_plain_name(name: Seq<char>) -> bool {
    name.len() > 0 && name != cur_marker() && forall|i: int| 0 <= i < name.len() ==> name[i] != '/'
}

proof fn lemma_split_append_plain(x: Seq<char>, y: Seq<char>)
    requires
        forall|i: int| 0 <= i < y.len() ==> y[i] != '/',
    ensures
        split_slash(x + y) == split_slash(x).update(
            split_slash(x).len() - 1,
            split_slash(x).last() + y,
        ),
    decreases y.len(),
{
    lemma_split_slash_nonempty(x);
    if y.len() == 0 {
        assert(x + y =~= x);
        assert(split_slash(x).last() + y =~= split_slash(x).last());
        assert(split_slash(x).update(split_slash(x).len() - 1, split_slash(x).last())
            =~= split_slash(x));
    } else {
        let y1 = y.drop_last();
        assert((x + y).drop_last() =~= x + y1);
        assert((x + y).last() == y.last());
        lemma_split_append_plain(x, y1);
        let p = split_slash(x + y1);
        assert(p.last() == split_slash(x).last() + y1);
        assert(p.last().push(y.last()) =~= split_slash(x).last() + y);
        assert(p.update(p.len() - 1, p.last().push(y.last())) =~= split_slash(x).update(
            split_slash(x).len() - 1,
            split_slash(x).last() + y,
        ));
    }
}

proof fn lemma_split_push_slash(x: Seq<char>)
    ensures
        split_slash(x.push('/')) == split_slash(x).push(Seq::<char>::empty()),
{
    assert(x.push('/').drop_last() =~= x);
}

/// Joining a plain name onto a path adds exactly that name as its last component.
pub proof fn lemma_join_plain_name(dir: Seq<char>, name: Seq<char>)
    requires
        is_plain_name(name),
    ensures
        path_components(path_join(dir, name)) == path_components(dir).push(name),
{
    lemma_split_slash_nonempty(dir);
    let s = path_join(dir, name);
    if dir.len() == 0 {
        assert(s =~= Seq::<char>::empty() + name);
        lemma_split_append_plain(Seq::<char>::empty(), name);
        assert(split_slash(s) =~= seq![name]);
        assert(keep_plain(seq![name]) =~= seq![name]) by {
            assert(seq![name] =~= Seq::<Seq<char>>::empty().push(name));
            lemma_keep_plain_push(Seq::<Seq<char>>::empty(), name);
        }
        assert(split_slash(dir) =~= seq![Seq::<char>::empty()]);
        assert(keep_plain(split_slash(dir)) =~= Seq::<Seq<char>>::empty()) by {
            assert(split_slash(dir) =~= Seq::<Seq<char>>::empty().push(Seq::<char>::empty()));
            lemma_keep_plain_push(Seq::<Seq<char>>::empty(), Seq::<char>::empty());
        }
        assert(split_slash(dir)[0] != cur_marker()) by {
            assert(split_slash(dir)[0].len() == 0);
        }
        assert(s[0] == name[0]);
    } else if dir.last() != '/' {
        assert(s =~= dir.push('/') + name);
        lemma_split_push_slash(dir);
        lemma_split_append_plain(dir.push('/'), name);
        let segs = split_slash(dir);
        assert(split_slash(s) =~= segs.push(name));
        lemma_keep_plain_push(segs, name);
        assert(split_slash(s)[0] == segs[0]);
        assert(s[0] == dir[0]);
        assert(path_components(s) =~= path_components(dir).push(name));
    } else {
        let d1 = dir.drop_last();
        assert(dir =~= d1.push('/'));
        lemma_split_push_slash(d1);
        lemma_split_slash_nonempty(d1);
        assert(s =~= dir + name);
        lemma_split_append_plain(dir, name);
        let segs1 = split_slash(d1);
        assert(split_slash(dir) == segs1.push(Seq::<char>::empty()));
        assert(Seq::<char>::empty() + name =~= name);
        assert(split_slash(s) =~= segs1.push(name));
        lemma_keep_plain_push(segs1, name);
        lemma_keep_plain_push(segs1, Seq::<char>::empty());
        assert(split_slash(s)[0] == segs1[0]);
        assert(split_slash(dir)[0] == segs1[0]);
        assert(s[0] == dir[0]);
        assert(path_components(s) =~= path_components(dir).push(name));
    }
}

/// `root` with `names` joined onto it one by one.
pub open spec fn join_all(root: Seq<char>, names: Seq<Seq<char>>) -> Seq<char>
    decreases names.len(),
{
    if names.len() == 0 {
        root
    } else {
        path_join(join_all(root, names.drop_last()), names.last())
    }
}

/// Joining plain names onto a path appends exactly those names to its components.
pub proof fn lemma_join_all_components(root: Seq<char>, names: Seq<Seq<char>>)
    requires
        forall|i: int| 0 <= i < names.len() ==> is_plain_name(#[trigger] names[i]),
    ensures
        path_components(join_all(root, names)) == path_components(root) + names,
    decreases names.len(),
{
    if names.len() == 0 {
        assert(path_components(root) + names =~= path_components(root));
    } else {
        let init = names.drop_last();
        assert forall|i: int| 0 <= i < init.len() implies is_plain_name(#[trigger] init[i]) by {
            assert(init[i] == names[i]);
        }
        lemma_join_all_components(root, init);
        lemma_join_plain_name(join_all(root, init), names.last());
        assert((path_components(root) + init).push(names.last()) =~= path_components(root)
            + names);
    }
}

}
