//! The order in which `std::path::Path` values compare: component by component, the root before
//! `"."` before `".."` before names, and names by their characters. Sorting a list of paths by it.
use vstd::prelude::*;
use vstd::relations::*;
use crate::pathname::{components, path_components, root_marker, cur_marker, parent_marker};
use crate::text::chars_of;

verus! {

/// Strict lexicographic order on character sequences (code point by code point, which is the
/// byte order of their UTF-8 encodings).
pub open spec fn chars_lt(a: Seq<char>, b: Seq<char>) -> bool
    decreases a.len(),
{
    if a.len() == 0 {
        b.len() > 0
    } else if b.len() == 0 {
        false
    } else if a[0] != b[0] {
        a[0] < b[0]
    } else {
        chars_lt(a.drop_first(), b.drop_first())
    }
}

/// The rank of a component's kind: root, current directory, parent directory, name.
pub open spec fn component_rank(c: Seq<char>) -> int {
    if c == root_marker() {
        0
    } else if c == cur_marker() {
        1
    } else if c == parent_marker() {
        2
    } else {
        3
    }
}

/// Strict order on components: by kind, then names by their characters.
pub open spec fn component_lt(a: Seq<char>, b: Seq<char>) -> bool {
    if component_rank(a) != component_rank(b) {
        component_rank(a) < component_rank(b)
    } else {
        component_rank(a) == 3 && chars_lt(a, b)
    }
}

/// Strict lexicographic order on component sequences.
pub open spec fn components_lt(a: Seq<Seq<char>>, b: Seq<Seq<char>>) -> bool
    decreases a.len(),
{
    if a.len() == 0 {
        b.len() > 0
    } else if b.len() == 0 {
        false
    } else if a[0] != b[0] {
        component_lt(a[0], b[0])
    } else {
        components_lt(a.drop_first(), b.drop_first())
    }
}

/// Non-strict order on component sequences.
pub open spec fn components_le(a: Seq<Seq<char>>, b: Seq<Seq<char>>) -> bool {
    !components_lt(b, a)
}

/// Whether path `a` sorts strictly before path `b`.
pub open spec fn path_lt(a: Seq<char>, b: Seq<char>) -> bool {
    components_lt(path_components(a), path_components(b))
}

/// Whether the paths in `ps` are in ascending path order.
pub open spec fn paths_sorted(ps: Seq<Seq<char>>) -> bool {
    forall|i: int, j: int|
        0 <= i < j < ps.len() ==> components_le(
            path_components(#[trigger] ps[i]),
            path_components(#[trigger] ps[j]),
        )
}

proof fn lemma_chars_lt_irreflexive(a: Seq<char>)
    ensures
        !chars_lt(a, a),
    decreases a.len(),
{
    if a.len() > 0 {
        lemma_chars_lt_irreflexive(a.drop_first());
    }
}

proof fn lemma_chars_lt_transitive(a: Seq<char>, b: Seq<char>, c: Seq<char>)
    requires
        chars_lt(a, b),
        chars_lt(b, c),
    ensures
        chars_lt(a, c),
    decreases a.len(),
{
    if a.len() > 0 && b.len() > 0 && c.len() > 0 {
        if a[0] == b[0] && b[0] == c[0] {
            lemma_chars_lt_transitive(a.drop_first(), b.drop_first(), c.drop_first());
        }
    }
}

proof fn lemma_chars_lt_total(a: Seq<char>, b: Seq<char>)
    requires
        a != b,
    ensures
        chars_lt(a, b) || chars_lt(b, a),
    decreases a.len(),
{
    if a.len() == 0 {
        assert(b.len() > 0) by {
            if b.len() == 0 {
                assert(a =~= b);
            }
        }
    } else if b.len() == 0 {
    } else if a[0] != b[0] {

    } else {
        if a.drop_first() == b.drop_first() {
            assert(a =~= seq![a[0]] + a.drop_first());
            assert(b =~= seq![b[0]] + b.drop_first());
        }
        lemma_chars_lt_total(a.drop_first(), b.drop_first());
    }
}

proof fn lemma_component_lt_irreflexive(a: Seq<char>)
    ensures
        !component_lt(a, a),
{
    lemma_chars_lt_irreflexive(a);
}

proof fn lemma_component_lt_transitive(a: Seq<char>, b: Seq<char>, c: Seq<char>)
    requires
        component_lt(a, b),
        component_lt(b, c),
    ensures
        component_lt(a, c),
{
    if component_rank(a) == 3 && component_rank(b) == 3 && component_rank(c) == 3 {
        lemma_chars_lt_transitive(a, b, c);
    }
}

proof fn lemma_component_lt_total(a: Seq<char>, b: Seq<char>)
    requires
        a != b,
    ensures
        component_lt(a, b) || component_lt(b, a),
{
    if component_rank(a) == component_rank(b) && component_rank(a) == 3 {
        lemma_chars_lt_total(a, b);
    }
}

/// No path sorts strictly before itself.
pub proof fn lemma_components_lt_irreflexive(a: Seq<Seq<char>>)
    ensures
        !components_lt(a, a),
    decreases a.len(),
{
    if a.len() > 0 {
        lemma_components_lt_irreflexive(a.drop_first());
    }
}

/// Sorting strictly before is transitive.
pub proof fn lemma_components_lt_transitive(
    a: Seq<Seq<char>>,
    b: Seq<Seq<char>>,
    c: Seq<Seq<char>>,
)
    requires
        components_lt(a, b),
        components_lt(b, c),
    ensures
        components_lt(a, c),
    decreases a.len(),
{
    if a.len() > 0 && b.len() > 0 && c.len() > 0 {
        if a[0] == b[0] && b[0] == c[0] {
            lemma_components_lt_transitive(a.drop_first(), b.drop_first(), c.drop_first());
        } else if a[0] == b[0] {
        } else if b[0] == c[0] {
        } else {
            lemma_component_lt_transitive(a[0], b[0], c[0]);
            if a[0] == c[0] {
                lemma_component_lt_irreflexive(a[0]);
            }
        }
    }
}

/// Of two different component sequences, one sorts strictly before the other.
pub proof fn lemma_components_lt_total(a: Seq<Seq<char>>, b: Seq<Seq<char>>)
    requires
        a != b,
    ensures
        components_lt(a, b) || components_lt(b, a),
    decreases a.len(),
{
    if a.len() == 0 {
        assert(b.len() > 0) by {
            if b.len() == 0 {
                assert(a =~= b);
            }
        }
    } else if b.len() == 0 {
    } else if a[0] != b[0] {
        lemma_component_lt_total(a[0], b[0]);
    } else {
        if a.drop_first() == b.drop_first() {
            assert(a =~= seq![a[0]] + a.drop_first());
            assert(b =~= seq![b[0]] + b.drop_first());
        }
        lemma_components_lt_total(a.drop_first(), b.drop_first());
    }
}

/// The order on component sequences is a total order.
pub proof fn lemma_components_le_total_ordering()
    ensures
        total_ordering(|a: Seq<Seq<char>>, b: Seq<Seq<char>>| components_le(a, b)),
{
    let le = |a: Seq<Seq<char>>, b: Seq<Seq<char>>| components_le(a, b);
    assert forall|x: Seq<Seq<char>>| #[trigger] le(x, x) by {
        lemma_components_lt_irreflexive(x);
    }
    assert forall|x: Seq<Seq<char>>, y: Seq<Seq<char>>|
        #[trigger] le(x, y) && #[trigger] le(y, x) implies x == y by {
        if x != y {
            lemma_components_lt_total(x, y);
        }
    }
    assert forall|x: Seq<Seq<char>>, y: Seq<Seq<char>>, z: Seq<Seq<char>>|
        #[trigger] le(x, y) && #[trigger] le(y, z) implies le(x, z) by {
        lemma_components_le_transitive(x, y, z);
    }
    assert forall|x: Seq<Seq<char>>, y: Seq<Seq<char>>| #[trigger] le(x, y) || #[trigger] le(y, x) by {
        if components_lt(y, x) && components_lt(x, y) {
            lemma_components_lt_transitive(x, y, x);
            lemma_components_lt_irreflexive(x);
        }
    }
}

/// Sorting no later than is transitive.
pub proof fn lemma_components_le_transitive(a: Seq<Seq<char>>, b: Seq<Seq<char>>, c: Seq<Seq<char>>)
    requires
        components_le(a, b),
        components_le(b, c),
    ensures
        components_le(a, c),
{
    if components_lt(c, a) {
        if a == b {
        } else {
            lemma_components_lt_total(a, b);
            lemma_components_lt_transitive(c, a, b);
        }
    }
}


proof fn lemma_chars_lt_skip(a: Seq<char>, b: Seq<char>, i: int)
    requires
        0 <= i < a.len(),
        i < b.len(),
        a[i] == b[i],
    ensures
        chars_lt(a.skip(i), b.skip(i)) == chars_lt(a.skip(i + 1), b.skip(i + 1)),
{
    assert(a.skip(i).drop_first() =~= a.skip(i + 1));
    assert(b.skip(i).drop_first() =~= b.skip(i + 1));
}

/// Whether `a` comes strictly before `b`, character by character.
fn chars_less(a: &Vec<char>, b: &Vec<char>) -> (r: bool)
    ensures
        r == chars_lt(a@, b@),
{
    let mut i: usize = 0;
    proof {
        assert(a@.skip(0) =~= a@);
        assert(b@.skip(0) =~= b@);
    }
    while i < a.len() && i < b.len() && a[i] == b[i]
        invariant
            i <= a.len(),
            i <= b.len(),
            chars_lt(a@, b@) == chars_lt(a@.skip(i as int), b@.skip(i as int)),
        decreases a.len() - i,
    {
        proof {
            lemma_chars_lt_skip(a@, b@, i as int);
        }
        i = i + 1;
    }
    if i == a.len() {
        i < b.len()
    } else if i == b.len() {
        false
    } else {
        proof {
            assert(a@.skip(i as int)[0] == a@[i as int]);
            assert(b@.skip(i as int)[0] == b@[i as int]);
        }
        a[i] < b[i]
    }
}

/// The kind rank of component `c`.
fn rank_of(c: &String) -> (r: u8)
    ensures
        r == component_rank(c@),
{
    let root = "/".to_owned();
    let cur = ".".to_owned();
    let parent = "..".to_owned();
    proof {
        reveal_strlit("/");
        reveal_strlit(".");
        reveal_strlit("..");
        assert(root@ =~= root_marker());
        assert(cur@ =~= cur_marker());
        assert(parent@ =~= parent_marker());
    }
    if *c == root {
        0
    } else if *c == cur {
        1
    } else if *c == parent {
        2
    } else {
        3
    }
}

/// Whether component `a` sorts strictly before component `b`.
fn component_less(a: &String, b: &String) -> (r: bool)
    ensures
        r == component_lt(a@, b@),
{
    let ra = rank_of(a);
    let rb = rank_of(b);
    if ra != rb {
        ra < rb
    } else if ra == 3 {
        let ca = chars_of(a.as_str());
        let cb = chars_of(b.as_str());
        chars_less(&ca, &cb)
    } else {
        false
    }
}

proof fn lemma_components_lt_skip(a: Seq<Seq<char>>, b: Seq<Seq<char>>, i: int)
    requires
        0 <= i < a.len(),
        i < b.len(),
        a[i] == b[i],
    ensures
        components_lt(a.skip(i), b.skip(i)) == components_lt(a.skip(i + 1), b.skip(i + 1)),
{
    assert(a.skip(i).drop_first() =~= a.skip(i + 1));
    assert(b.skip(i).drop_first() =~= b.skip(i + 1));
}

/// Whether path `a` sorts strictly before path `b`, as `Path`'s `Ord` decides it.
pub fn path_less(a: &str, b: &str) -> (r: bool)
    ensures
        r == path_lt(a@, b@),
{
    let ca = components(a);
    let cb = components(b);
    let ghost da = ca.deep_view();
    let ghost db = cb.deep_view();
    let mut i: usize = 0;
    proof {
        assert(da.skip(0) =~= da);
        assert(db.skip(0) =~= db);
    }
    while i < ca.len() && i < cb.len() && ca[i] == cb[i]
        invariant
            i <= ca.len(),
            i <= cb.len(),
            da == ca.deep_view(),
            db == cb.deep_view(),
            components_lt(da, db) == components_lt(da.skip(i as int), db.skip(i as int)),
        decreases ca.len() - i,
    {
        proof {
            assert(da[i as int] == ca@[i as int]@);
            assert(db[i as int] == cb@[i as int]@);
            lemma_components_lt_skip(da, db, i as int);
        }
        i = i + 1;
    }
    if i == ca.len() {
        i < cb.len()
    } else if i == cb.len() {
        false
    } else {
        proof {
            assert(da.skip(i as int)[0] == ca@[i as int]@);
            assert(db.skip(i as int)[0] == cb@[i as int]@);
        }
        component_less(&ca[i], &cb[i])
    }
}

proof fn lemma_insert_multiset<A>(s: Seq<A>, i: int, x: A)
    requires
        0 <= i <= s.len(),
    ensures
        s.insert(i, x).to_multiset() =~= s.to_multiset().insert(x),
{
    broadcast use vstd::seq_lib::group_to_multiset_ensures;
    broadcast use vstd::multiset::group_multiset_axioms;

    let t = s.insert(i, x);
    assert(t.remove(i) =~= s);
    assert(t[i] == x);
    assert(t.contains(x));
    assert(t.to_multiset().remove(x) =~= s.to_multiset());
    assert(t.to_multiset().count(x) > 0);
}

/// `out` lists the entries of `input` as arranged by `idx` (`out[i]` is `input[idx[i]]`, each
/// entry once), and entries whose paths have the same components keep their relative order.
pub open spec fn stable_arrangement(out: Seq<Seq<char>>, input: Seq<Seq<char>>, idx: Seq<int>) -> bool {
    &&& idx.len() == out.len()
    &&& out.len() == input.len()
    &&& forall|i: int| 0 <= i < idx.len() ==> 0 <= #[trigger] idx[i] < input.len()
    &&& forall|i: int| 0 <= i < out.len() ==> #[trigger] out[i] == input[idx[i]]
    &&& forall|i: int, j: int| 0 <= i < j < idx.len() ==> #[trigger] idx[i] != #[trigger] idx[j]
    &&& forall|i: int, j: int|
        0 <= i < j < out.len() && path_components(#[trigger] out[i]) == path_components(
            #[trigger] out[j],
        ) ==> idx[i] < idx[j]
}

/// `paths` in ascending path order; paths with the same components keep their relative order
/// (a stable insertion sort).
pub fn sort_paths(paths: Vec<String>) -> (r: Vec<String>)
    ensures
        paths_sorted(r.deep_view()),
        r.deep_view().to_multiset() == paths.deep_view().to_multiset(),
        exists|idx: Seq<int>| stable_arrangement(r.deep_view(), paths.deep_view(), idx),
{
    let mut out: Vec<String> = Vec::new();
    let n = paths.len();
    let mut k: usize = 0;
    let ghost mut idx: Seq<int> = Seq::empty();
    proof {
        assert(paths.deep_view().take(0) =~= Seq::<Seq<char>>::empty());
        assert(out.deep_view() =~= Seq::<Seq<char>>::empty());
    }
    while k < n
        invariant
            n == paths.len(),
            k <= n,
            paths_sorted(out.deep_view()),
            out.deep_view().to_multiset() == paths.deep_view().take(k as int).to_multiset(),
            stable_arrangement(out.deep_view(), paths.deep_view().take(k as int), idx),
        decreases n - k,
    {
        let x = paths[k].clone();
        // The first position whose path sorts strictly after `x`.
        let mut p: usize = 0;
        while p < out.len() && !path_less(x.as_str(), out[p].as_str())
            invariant
                p <= out.len(),
                forall|q: int|
                    0 <= q < p ==> !path_lt(x@, #[trigger] out.deep_view()[q]),
            decreases out.len() - p,
        {
            proof {
                assert(out.deep_view()[p as int] == out@[p as int]@);
            }
            p = p + 1;
        }
        let ghost before = out.deep_view();
        let ghost before_idx = idx;
        proof {
            if p < out.len() {
                assert(before[p as int] == out@[p as int]@);
            }
        }
        out.insert(p, x);
        proof {
            let after = out.deep_view();
            let input = paths.deep_view().take(k as int);
            let input1 = paths.deep_view().take(k + 1);
            assert(after =~= before.insert(p as int, x@));
            lemma_insert_multiset(before, p as int, x@);
            assert(input1 =~= input.push(x@));
            broadcast use vstd::seq_lib::group_to_multiset_ensures;
            assert(input.push(x@).to_multiset() =~= input.to_multiset().insert(x@));
            let xi = path_components(x@);
            // Everything from position `p` on sorts strictly after `x`.
            assert forall|j: int| p <= j < before.len() implies components_lt(
                xi,
                path_components(#[trigger] before[j]),
            ) by {
                let bp = path_components(before[p as int]);
                let bj = path_components(before[j]);
                assert(components_lt(xi, bp));
                if j > p {
                    assert(components_le(bp, bj));
                    if !components_lt(xi, bj) {
                        if xi == bj {
                            lemma_components_lt_irreflexive(bp);
                        } else {
                            lemma_components_lt_total(xi, bj);
                            lemma_components_lt_transitive(bj, xi, bp);
                        }
                    }
                }
            }
            assert forall|i: int, j: int| 0 <= i < j < after.len() implies components_le(
                path_components(#[trigger] after[i]),
                path_components(#[trigger] after[j]),
            ) by {
                if i < p && j == p {
                    assert(!path_lt(x@, before[i]));
                } else if i == p && j > p {
                    let bj1 = path_components(before[j - 1]);
                    assert(components_lt(xi, bj1));
                    if components_lt(bj1, xi) {
                        lemma_components_lt_transitive(xi, bj1, xi);
                        lemma_components_lt_irreflexive(xi);
                    }
                } else if j < p {
                    assert(after[i] == before[i] && after[j] == before[j]);
                } else if i > p {
                    assert(after[i] == before[i - 1] && after[j] == before[j - 1]);
                } else {
                    assert(after[i] == before[i] && after[j] == before[j - 1]);
                }
            }
            idx = before_idx.insert(p as int, k as int);
            assert forall|i: int| 0 <= i < after.len() implies #[trigger] after[i] == input1[idx[i]] by {
                if i < p {
                    assert(after[i] == before[i]);
                } else if i > p {
                    assert(after[i] == before[i - 1]);
                }
            }
            assert forall|i: int, j: int| 0 <= i < j < idx.len() implies #[trigger] idx[i]
                != #[trigger] idx[j] by {
                if i < p && j == p {
                    assert(before_idx[i] < k);
                } else if i == p && j > p {
                    assert(before_idx[j - 1] < k);
                } else if j < p {
                } else if i > p {
                    assert(idx[i] == before_idx[i - 1] && idx[j] == before_idx[j - 1]);
                } else {
                    assert(idx[i] == before_idx[i] && idx[j] == before_idx[j - 1]);
                }
            }
            assert forall|i: int, j: int|
                0 <= i < j < after.len() && path_components(#[trigger] after[i])
                    == path_components(#[trigger] after[j]) implies idx[i] < idx[j] by {
                if i < p && j == p {
                    assert(before_idx[i] < k);
                } else if i == p && j > p {
                    assert(components_lt(xi, path_components(before[j - 1])));
                    lemma_components_lt_irreflexive(xi);
                } else if j < p {
                    assert(after[i] == before[i] && after[j] == before[j]);
                } else if i > p {
                    assert(after[i] == before[i - 1] && after[j] == before[j - 1]);
                    assert(idx[i] == before_idx[i - 1] && idx[j] == before_idx[j - 1]);
                } else {
                    assert(after[i] == before[i] && after[j] == before[j - 1]);
                    assert(idx[i] == before_idx[i] && idx[j] == before_idx[j - 1]);
                }
            }
            assert forall|i: int| 0 <= i < idx.len() implies 0 <= #[trigger] idx[i] < input1.len() by {
                if i < p {
                    assert(idx[i] == before_idx[i]);
                } else if i > p {
                    assert(idx[i] == before_idx[i - 1]);
                }
            }
        }
        k = k + 1;
    }
    proof {
        assert(paths.deep_view().take(n as int) =~= paths.deep_view());
    }
    out
}

}
