//! Project-tree roots and discovery, shared by the apps that list git projects. A root is a
//! directory scanned for git repositories: every `.git` (directory or file, as worktrees use) marks
//! a project, a git root is never descended into, hidden directories are skipped, symlinks are not
//! followed, and `depth` counts levels below the root directory.
//!
//! The directory reads are the caller's: [`ProjectScan`] holds the walk's decisions and is fed what
//! the file system answered.
use vstd::prelude::*;
use vstd::multiset::Multiset;
use crate::pathname::{
    file_name, is_plain_name, join, join_all, lemma_join_all_components, lemma_join_plain_name,
    path_components, path_file_name,
    path_join, strip_components, strip_prefix,
};
use crate::paths::{home_dir, home_or_dot, opt_view, possible_home};
use crate::path_order::{
    components_le, lemma_components_lt_irreflexive, lemma_components_lt_total,
    lemma_components_lt_transitive, path_lt, paths_sorted, sort_paths, stable_arrangement,
};
use crate::text::{trim, trimmed};

verus! {

/// Default scan depth below a root's directory when `depth` is omitted: a safety floor against
/// runaway walks on a deep or huge tree.
pub const DEFAULT_ROOT_DEPTH: u32 = 6;

/// A validated project-tree root: a scanned directory, its section name and scan depth.
#[derive(Debug, Clone, PartialEq)]
pub struct RootDir {
    pub name: String,
    pub dir: String,
    pub depth: u32,
}

/// Why a raw root failed validation.
#[derive(Debug, Clone, Copy, PartialEq, Eq, Structural)]
pub enum RootError {
    /// The root's `dir` is empty (or only whitespace).
    EmptyDir,
    /// The root's explicit `name` is empty (or only whitespace).
    EmptyName,
    /// The root's `depth` is below 1.
    ZeroDepth(u32),
}

/// One discovered project: its path, the folder segments between the root directory and it, and
/// the section (root) name it belongs to.
#[derive(Debug, Clone, PartialEq)]
pub struct DiscoveredProject {
    pub path: String,
    pub tree_path: Vec<String>,
    pub section: String,
}

/// The folder segments strictly between `root` and `project` (the project's own name excluded);
/// empty when `project` does not lie under `root`.
pub open spec fn tree_segments(root: Seq<char>, project: Seq<char>) -> Seq<Seq<char>> {
    match strip_components(project, root) {
        None => Seq::<Seq<char>>::empty(),
        Some(rest) => if rest.len() == 0 {
            rest
        } else {
            rest.drop_last()
        },
    }
}

/// Folder segments strictly between `root_dir` and `project` (project name excluded).
pub fn tree_path(root_dir: &str, project: &str) -> (r: Vec<String>)
    ensures
        r.deep_view() == tree_segments(root_dir@, project@),
{
    match strip_prefix(project, root_dir) {
        None => Vec::new(),
        Some(mut segs) => {
            let ghost all = segs.deep_view();
            if segs.len() > 0 {
                segs.pop();
                proof {
                    assert(segs.deep_view() =~= all.drop_last());
                }
            }
            segs
        },
    }
}

/// A project reached from `root` through the directories `names` (its own name last) has exactly
/// the directories before it as its tree path.
pub proof fn lemma_tree_path_of_nested_project(root: Seq<char>, names: Seq<Seq<char>>)
    requires
        names.len() > 0,
        forall|i: int| 0 <= i < names.len() ==> is_plain_name(#[trigger] names[i]),
    ensures
        tree_segments(root, join_all(root, names)) == names.drop_last(),
{
    lemma_join_all_components(root, names);
    let p = path_components(join_all(root, names));
    let b = path_components(root);
    assert(b.is_prefix_of(p)) by {
        assert(p.subrange(0, b.len() as int) =~= b);
    }
    assert(p.skip(b.len() as int) =~= names);
}

/// `s` trimmed, with a leading `~` standing for the home directory: `"~"` alone is the home
/// directory (`"."` when there is none), `"~/rest"` is `rest` under it (left as written when
/// there is none), and anything else is left as written.
pub open spec fn expanded(home: Option<Seq<char>>, s: Seq<char>) -> Seq<char> {
    let t = trimmed(s);
    if t == seq!['~'] {
        home_or_dot(home)
    } else if t.len() >= 2 && t[0] == '~' && t[1] == '/' && home is Some {
        path_join(home.unwrap(), t.skip(2))
    } else {
        t
    }
}

/// `s` trimmed and tilde-expanded against `home`.
pub fn expand_tilde_in(home: Option<&str>, s: &str) -> (r: String)
    ensures
        r@ == expanded(opt_view(home), s@),
{
    let t = trim(s);
    let n = t.unicode_len();
    if n == 1 && t.get_char(0) == '~' {
        proof {
            assert(t@ =~= seq!['~']);
        }
        match home {
            Some(h) => h.to_owned(),
            None => {
                let dot = ".";
                proof {
                    reveal_strlit(".");
                }
                dot.to_owned()
            },
        }
    } else {
        proof {
            if t@ == seq!['~'] {
                assert(t@.len() == 1);
            }
        }
        if n >= 2 && t.get_char(0) == '~' && t.get_char(1) == '/' {
            if let Some(h) = home {
                let rest = t.substring_char(2, n);
                proof {
                    assert(rest@ =~= t@.skip(2));
                }
                return join(h, rest);
            }
        }
        t.to_owned()
    }
}

/// `dir`'s final name component, or all of `dir` when it has none (`"/"`, `".."`).
pub open spec fn base_name(dir: Seq<char>) -> Seq<char> {
    match file_name(dir) {
        Some(n) => n,
        None => dir,
    }
}

/// `dir`'s final name component, or all of `dir` when it has none.
pub fn basename(dir: &str) -> (r: String)
    ensures
        r@ == base_name(dir@),
{
    match path_file_name(dir) {
        Some(n) => n,
        None => dir.to_owned(),
    }
}

/// The validation error for a raw root, if any: an empty `dir` first, then an explicit empty
/// `name`, then a zero `depth`.
pub open spec fn root_error(name: Option<Seq<char>>, dir: Seq<char>, depth: Option<u32>) -> Option<
    RootError,
> {
    if trimmed(dir).len() == 0 {
        Some(RootError::EmptyDir)
    } else if name matches Some(n) && trimmed(n).len() == 0 {
        Some(RootError::EmptyName)
    } else if depth == Some(0u32) {
        Some(RootError::ZeroDepth(0))
    } else {
        None
    }
}

/// The resolved (name, dir, depth) of a raw root that passes validation: `dir` tilde-expanded
/// (not canonicalized), `name` trimmed or else the expanded dir's base name, `depth` or else
/// [`DEFAULT_ROOT_DEPTH`].
pub open spec fn resolved_root(home: Option<Seq<char>>, name: Option<Seq<char>>, dir: Seq<char>, depth: Option<u32>) -> (Seq<char>, Seq<char>, u32) {
    let path = expanded(home, dir);
    (
        match name {
            Some(n) => trimmed(n),
            None => base_name(path),
        },
        path,
        match depth {
            Some(d) => d,
            None => 6u32,
        },
    )
}

/// The (name, dir, depth) a root holds.
pub open spec fn root_view(r: RootDir) -> (Seq<char>, Seq<char>, u32) {
    (r.name@, r.dir@, r.depth)
}

/// Validate and resolve a raw root's fields against a given home directory.
pub fn resolve_root_dir_in(home: Option<&str>, name: Option<&str>, dir: &str, depth: Option<u32>) -> (r: Result<RootDir, RootError>)
    ensures
        match root_error(opt_view(name), dir@, depth) {
            Some(e) => r == Err::<RootDir, RootError>(e),
            None => r matches Ok(root) && root_view(root) == resolved_root(
                opt_view(home),
                opt_view(name),
                dir@,
                depth,
            ),
        },
{
    if trim(dir).is_empty() {
        return Err(RootError::EmptyDir);
    }
    let path = expand_tilde_in(home, dir);
    let name = match name {
        Some(n) => {
            let t = trim(n);
            if t.is_empty() {
                return Err(RootError::EmptyName);
            }
            t.to_owned()
        },
        None => basename(path.as_str()),
    };
    let depth = match depth {
        Some(d) => d,
        None => DEFAULT_ROOT_DEPTH,
    };
    if depth == 0 {
        return Err(RootError::ZeroDepth(0));
    }
    Ok(RootDir { name, dir: path, depth })
}

/// Validate and resolve a raw root's fields. `name` defaults to the base name of the expanded
/// `dir`; an explicit empty name is an error. `dir` is tilde-expanded against the user's home
/// directory (not canonicalized: a missing directory still resolves). `depth` defaults to
/// [`DEFAULT_ROOT_DEPTH`]; `0` is an error. The stored name is trimmed.
pub fn resolve_root_dir(name: Option<&str>, dir: &str, depth: Option<u32>) -> (r: Result<RootDir, RootError>)
    ensures
        match root_error(opt_view(name), dir@, depth) {
            Some(e) => r == Err::<RootDir, RootError>(e),
            None => r matches Ok(root) && exists|home: Option<Seq<char>>|
                possible_home(home) && root_view(root) == #[trigger] resolved_root(
                    home,
                    opt_view(name),
                    dir@,
                    depth,
                ),
        },
{
    let home = home_dir();
    match home {
        Some(h) => {
            let hs = h.as_str();
            let r = resolve_root_dir_in(Some(hs), name, dir, depth);
            proof {
                assert(opt_view(Some(hs)) == Some(h@));
            }
            r
        },
        None => resolve_root_dir_in(None, name, dir, depth),
    }
}


/// What a discovered project holds: its path, its tree segments, its section name.
pub open spec fn project_view(p: DiscoveredProject) -> (Seq<char>, Seq<Seq<char>>, Seq<char>) {
    (p.path@, p.tree_path.deep_view(), p.section@)
}

/// The projects of one root, in the order its scan listed them.
pub open spec fn root_projects(root: RootDir, paths: Seq<String>) -> Seq<
    (Seq<char>, Seq<Seq<char>>, Seq<char>),
> {
    Seq::new(paths.len(), |i: int| (paths[i]@, tree_segments(root.dir@, paths[i]@), root.name@))
}

/// The projects of every root, roots in order.
pub open spec fn discovered(scans: Seq<(RootDir, Vec<String>)>) -> Seq<
    (Seq<char>, Seq<Seq<char>>, Seq<char>),
>
    decreases scans.len(),
{
    if scans.len() == 0 {
        Seq::empty()
    } else {
        discovered(scans.drop_last()) + root_projects(scans.last().0, scans.last().1@)
    }
}

/// The number of paths over all scans.
pub open spec fn scanned_count(scans: Seq<(RootDir, Vec<String>)>) -> nat
    decreases scans.len(),
{
    if scans.len() == 0 {
        0
    } else {
        scanned_count(scans.drop_last()) + scans.last().1@.len()
    }
}

/// Flatten each root with the project paths its scan found into discovered projects: roots in
/// order, each root's projects in its scan's order. There is no cross-root dedup: a project
/// reachable via two roots appears once per root.
pub fn discover_projects(scans: &[(RootDir, Vec<String>)]) -> (r: Vec<DiscoveredProject>)
    ensures
        Seq::new(r@.len(), |i: int| project_view(r@[i])) == discovered(scans@),
{
    let mut out: Vec<DiscoveredProject> = Vec::new();
    let mut k: usize = 0;
    while k < scans.len()
        invariant
            k <= scans@.len(),
            Seq::new(out@.len(), |i: int| project_view(out@[i])) == discovered(
                scans@.take(k as int),
            ),
        decreases scans@.len() - k,
    {
        let root = &scans[k].0;
        let paths = &scans[k].1;
        let ghost base = Seq::new(out@.len(), |i: int| project_view(out@[i]));
        let mut j: usize = 0;
        while j < paths.len()
            invariant
                j <= paths@.len(),
                base.len() <= out@.len(),
                Seq::new(out@.len(), |i: int| project_view(out@[i])) == base + root_projects(
                    *root,
                    paths@.take(j as int),
                ),
            decreases paths@.len() - j,
        {
            let path = paths[j].clone();
            let tp = tree_path(root.dir.as_str(), path.as_str());
            let section = root.name.clone();
            let ghost prev = Seq::new(out@.len(), |i: int| project_view(out@[i]));
            out.push(DiscoveredProject { path, tree_path: tp, section });
            proof {
                let now = Seq::new(out@.len(), |i: int| project_view(out@[i]));
                assert(now =~= prev.push(project_view(out@[out@.len() - 1])));
                assert(root_projects(*root, paths@.take(j + 1)) =~= root_projects(
                    *root,
                    paths@.take(j as int),
                ).push((paths@[j as int]@, tree_segments(root.dir@, paths@[j as int]@), root.name@)));
                assert(now =~= base + root_projects(*root, paths@.take(j + 1)));
            }
            j = j + 1;
        }
        proof {
            assert(paths@.take(paths@.len() as int) =~= paths@);
            assert(scans@.take(k + 1).drop_last() =~= scans@.take(k as int));
            assert(scans@.take(k + 1).last() == scans@[k as int]);
        }
        k = k + 1;
    }
    proof {
        assert(scans@.take(scans@.len() as int) =~= scans@);
    }
    out
}

/// Every scanned path is discovered exactly once per root that listed it: the discovered list is
/// as long as all scans together.
pub proof fn lemma_discovered_count(scans: Seq<(RootDir, Vec<String>)>)
    ensures
        discovered(scans).len() == scanned_count(scans),
    decreases scans.len(),
{
    if scans.len() > 0 {
        lemma_discovered_count(scans.drop_last());
    }
}


/// One directory entry as a scan sees it: its file name, whether it is a directory, and whether
/// it is a symbolic link (its type is read without following links).
#[derive(Debug, Clone)]
pub struct DirEntryInfo {
    pub name: String,
    pub is_dir: bool,
    pub is_symlink: bool,
}

/// Whether a scan descends into entry `e`: a directory, not a symlink, not hidden.
pub open spec fn is_scan_candidate(e: DirEntryInfo) -> bool {
    e.is_dir && !e.is_symlink && !(e.name@.len() > 0 && e.name@[0] == '.')
}

/// The directories a scan goes on to from `dir`, given its entries in listing order, each with
/// the depth budget `remaining` left below it.
pub open spec fn child_dirs(dir: Seq<char>, entries: Seq<DirEntryInfo>, remaining: u32) -> Seq<
    (Seq<char>, u32),
>
    decreases entries.len(),
{
    if entries.len() == 0 {
        Seq::empty()
    } else {
        let r = child_dirs(dir, entries.drop_last(), remaining);
        if is_scan_candidate(entries.last()) {
            r.push((path_join(dir, entries.last().name@), remaining))
        } else {
            r
        }
    }
}

/// The plain view of a list of (directory, depth budget) pairs.
pub open spec fn dirs_view(v: Seq<(String, u32)>) -> Seq<(Seq<char>, u32)> {
    Seq::new(v.len(), |i: int| (v[i].0@, v[i].1))
}

/// Whether a scan descends into `entry`.
pub fn scan_candidate(entry: &DirEntryInfo) -> (r: bool)
    ensures
        r == is_scan_candidate(*entry),
{
    entry.is_dir && !entry.is_symlink && !(!entry.name.as_str().is_empty()
        && entry.name.as_str().get_char(0) == '.')
}

/// Append to `pending` the directories a scan goes on to from `dir`.
fn push_children(
    pending: &mut Vec<(String, u32)>,
    dir: &str,
    entries: &Vec<DirEntryInfo>,
    remaining: u32,
)
    ensures
        dirs_view(final(pending)@) == dirs_view(old(pending)@) + child_dirs(
            dir@,
            entries@,
            remaining,
        ),
{
    let ghost start = dirs_view(pending@);
    let mut i: usize = 0;
    proof {
        assert(entries@.take(0) =~= Seq::<DirEntryInfo>::empty());
        assert(start + child_dirs(dir@, entries@.take(0), remaining) =~= start);
    }
    while i < entries.len()
        invariant
            i <= entries@.len(),
            dirs_view(pending@) == start + child_dirs(dir@, entries@.take(i as int), remaining),
        decreases entries@.len() - i,
    {
        let e = &entries[i];
        proof {
            assert(entries@.take(i + 1).drop_last() =~= entries@.take(i as int));
            assert(entries@.take(i + 1).last() == entries@[i as int]);
        }
        if scan_candidate(e) {
            let child = join(dir, e.name.as_str());
            let ghost prev = dirs_view(pending@);
            pending.push((child, remaining));
            proof {
                assert(dirs_view(pending@) =~= prev.push((path_join(dir@, e.name@), remaining)));
            }
        }
        i = i + 1;
    }
    proof {
        assert(entries@.take(entries@.len() as int) =~= entries@);
    }
}

/// The path whose existence marks `dir` as a git root (`.git`, a directory or a worktree file).
pub fn git_marker(dir: &str) -> (r: String)
    ensures
        r@ == path_join(dir@, ".git"@),
{
    join(dir, ".git")
}

/// A project-tree scan in progress: the directories still to visit, each with its depth budget,
/// and the git roots found so far. The caller performs the file-system reads: it takes each
/// directory from [`ProjectScan::next_dir`], checks for a `.git` marker, lists the directory when
/// [`ProjectScan::needs_listing`] says so, and hands the answers to [`ProjectScan::record`].
pub struct ProjectScan {
    pending: Vec<(String, u32)>,
    found: Vec<String>,
}

impl ProjectScan {
    /// The directories still to visit, with their depth budgets.
    pub closed spec fn pending_view(&self) -> Seq<(Seq<char>, u32)> {
        dirs_view(self.pending@)
    }

    /// The git roots found so far.
    pub closed spec fn found_view(&self) -> Seq<Seq<char>> {
        self.found.deep_view()
    }

    /// Begin scanning `dir` to `max_depth` levels below it, given its entries (`None` when it
    /// could not be read). The root itself never counts as a project: the scan starts at its
    /// child directories, each with `max_depth - 1` levels left (saturating at 0).
    pub fn start(dir: &str, max_depth: u32, entries: Option<Vec<DirEntryInfo>>) -> (s: Self)
        ensures
            s.pending_view() == match entries {
                Some(es) => child_dirs(
                    dir@,
                    es@,
                    if max_depth == 0 {
                        0u32
                    } else {
                        (max_depth - 1) as u32
                    },
                ),
                None => Seq::<(Seq<char>, u32)>::empty(),
            },
            s.found_view() == Seq::<Seq<char>>::empty(),
    {
        let mut pending: Vec<(String, u32)> = Vec::new();
        let budget = if max_depth == 0 {
            0
        } else {
            max_depth - 1
        };
        proof {
            assert(dirs_view(pending@) =~= Seq::<(Seq<char>, u32)>::empty());
        }
        if let Some(es) = entries {
            push_children(&mut pending, dir, &es, budget);
            proof {
                assert(dirs_view(pending@) =~= child_dirs(dir@, es@, budget));
            }
        }
        let found: Vec<String> = Vec::new();
        proof {
            assert(found.deep_view() =~= Seq::<Seq<char>>::empty());
        }
        ProjectScan { pending, found }
    }

    /// The next directory to visit, with its depth budget, taken off the pending list; `None`
    /// when the scan has visited everything.
    pub fn next_dir(&mut self) -> (r: Option<(String, u32)>)
        ensures
            old(self).pending_view().len() == 0 ==> r is None && final(self).pending_view()
                == old(self).pending_view(),
            old(self).pending_view().len() > 0 ==> (r matches Some(d) && (d.0@, d.1)
                == old(self).pending_view().last() && final(self).pending_view() == old(
                self,
            ).pending_view().drop_last()),
            final(self).found_view() == old(self).found_view(),
    {
        let ghost before = dirs_view(self.pending@);
        let r = self.pending.pop();
        proof {
            if before.len() > 0 {
                assert(dirs_view(self.pending@) =~= before.drop_last());
            }
        }
        r
    }

    /// Whether a visited directory must be listed: only a directory that is not a git root and
    /// still has depth budget is descended into.
    pub fn needs_listing(is_git_root: bool, remaining: u32) -> (r: bool)
        ensures
            r == (!is_git_root && remaining > 0),
    {
        !is_git_root && remaining > 0
    }

    /// Record a visit of `dir` (budget `remaining`): a git root is found and not descended into;
    /// otherwise, with budget left and its entries read, its child directories are added with one
    /// level less. An unreadable directory (`entries` `None`) is skipped.
    pub fn record(
        &mut self,
        dir: String,
        remaining: u32,
        is_git_root: bool,
        entries: Option<Vec<DirEntryInfo>>,
    )
        ensures
            final(self).found_view() == visit_found(old(self).found_view(), dir@, is_git_root),
            final(self).pending_view() == visit_pending(
                old(self).pending_view().push((dir@, remaining)),
                is_git_root,
                match entries {
                    Some(es) => Some(es@),
                    None => None,
                },
            ),
    {
        if is_git_root {
            let ghost before = self.found.deep_view();
            let ghost d = dir@;
            self.found.push(dir);
            proof {
                assert(self.found.deep_view() =~= before.push(d));
                assert(old(self).pending_view().push((d, remaining)).drop_last() =~= old(
                    self,
                ).pending_view());
            }
            return;
        }
        if remaining > 0 {
            if let Some(es) = entries {
                push_children(&mut self.pending, dir.as_str(), &es, remaining - 1);
            }
        }
        proof {
            assert(old(self).pending_view().push((dir@, remaining)).drop_last() =~= old(
                self,
            ).pending_view());
        }
    }

    /// The git roots found, in ascending path order.
    pub fn finish(self) -> (r: Vec<String>)
        ensures
            paths_sorted(r.deep_view()),
            r.deep_view().to_multiset() == self.found_view().to_multiset(),
            exists|idx: Seq<int>| stable_arrangement(r.deep_view(), self.found_view(), idx),
    {
        sort_paths(self.found)
    }
}


/// The directories a scan goes on to from `dir`, given its entries in listing order.
pub open spec fn child_paths(dir: Seq<char>, entries: Seq<DirEntryInfo>) -> Seq<Seq<char>>
    decreases entries.len(),
{
    if entries.len() == 0 {
        Seq::empty()
    } else {
        let r = child_paths(dir, entries.drop_last());
        if is_scan_candidate(entries.last()) {
            r.push(path_join(dir, entries.last().name@))
        } else {
            r
        }
    }
}

/// The git roots that a walk from `dir`, with `remaining` levels of budget below it, finds in a
/// tree where `is_git(d)` tells whether `d` holds a `.git` entry and `list(d)` gives `d`'s entries
/// (`None` when it cannot be read): `dir` itself when it is a git root (and nothing below it),
/// else, with budget left, what the walks from its child directories find.
pub open spec fn walk_found(
    is_git: spec_fn(Seq<char>) -> bool,
    list: spec_fn(Seq<char>) -> Option<Seq<DirEntryInfo>>,
    dir: Seq<char>,
    remaining: nat,
) -> Multiset<Seq<char>>
    decreases remaining, 0nat, 0nat,
{
    if is_git(dir) {
        Multiset::singleton(dir)
    } else if remaining == 0 {
        Multiset::empty()
    } else {
        match list(dir) {
            None => Multiset::empty(),
            Some(es) => walk_found_all(is_git, list, child_paths(dir, es), (remaining - 1) as nat),
        }
    }
}

/// What the walks from each of `dirs`, each with budget `budget`, find together.
pub open spec fn walk_found_all(
    is_git: spec_fn(Seq<char>) -> bool,
    list: spec_fn(Seq<char>) -> Option<Seq<DirEntryInfo>>,
    dirs: Seq<Seq<char>>,
    budget: nat,
) -> Multiset<Seq<char>>
    decreases budget, 1nat, dirs.len(),
{
    if dirs.len() == 0 {
        Multiset::empty()
    } else {
        walk_found_all(is_git, list, dirs.drop_last(), budget).add(
            walk_found(is_git, list, dirs.last(), budget),
        )
    }
}

/// The git roots a scan of `dir` to `max_depth` levels finds in the tree: the walks from the
/// root's child directories, each with `max_depth - 1` levels (saturating); the root itself does
/// not count.
pub open spec fn scan_found(
    is_git: spec_fn(Seq<char>) -> bool,
    list: spec_fn(Seq<char>) -> Option<Seq<DirEntryInfo>>,
    dir: Seq<char>,
    max_depth: u32,
) -> Multiset<Seq<char>> {
    match list(dir) {
        None => Multiset::empty(),
        Some(es) => walk_found_all(
            is_git,
            list,
            child_paths(dir, es),
            if max_depth == 0 {
                0nat
            } else {
                (max_depth - 1) as nat
            },
        ),
    }
}

/// What the pending directories of a scan will yield.
pub open spec fn pending_yield(
    is_git: spec_fn(Seq<char>) -> bool,
    list: spec_fn(Seq<char>) -> Option<Seq<DirEntryInfo>>,
    pending: Seq<(Seq<char>, u32)>,
) -> Multiset<Seq<char>>
    decreases pending.len(),
{
    if pending.len() == 0 {
        Multiset::empty()
    } else {
        pending_yield(is_git, list, pending.drop_last()).add(
            walk_found(is_git, list, pending.last().0, pending.last().1 as nat),
        )
    }
}

/// The pending directories after visiting the last one, `dir` with budget `remaining`, given
/// whether it is a git root and its entries.
pub open spec fn visit_pending(
    pending: Seq<(Seq<char>, u32)>,
    is_git_root: bool,
    entries: Option<Seq<DirEntryInfo>>,
) -> Seq<(Seq<char>, u32)> {
    let (dir, remaining) = pending.last();
    let rest = pending.drop_last();
    if !is_git_root && remaining > 0 && entries is Some {
        rest + child_dirs(dir, entries.unwrap(), (remaining - 1) as u32)
    } else {
        rest
    }
}

/// The git roots found after visiting `dir`.
pub open spec fn visit_found(found: Seq<Seq<char>>, dir: Seq<char>, is_git_root: bool) -> Seq<
    Seq<char>,
> {
    if is_git_root {
        found.push(dir)
    } else {
        found
    }
}

proof fn lemma_child_dirs_yield(
    is_git: spec_fn(Seq<char>) -> bool,
    list: spec_fn(Seq<char>) -> Option<Seq<DirEntryInfo>>,
    dir: Seq<char>,
    entries: Seq<DirEntryInfo>,
    budget: u32,
)
    ensures
        pending_yield(is_git, list, child_dirs(dir, entries, budget)) == walk_found_all(
            is_git,
            list,
            child_paths(dir, entries),
            budget as nat,
        ),
    decreases entries.len(),
{
    if entries.len() > 0 {
        lemma_child_dirs_yield(is_git, list, dir, entries.drop_last(), budget);
        let cd = child_dirs(dir, entries.drop_last(), budget);
        let cp = child_paths(dir, entries.drop_last());
        if is_scan_candidate(entries.last()) {
            let d = path_join(dir, entries.last().name@);
            assert(cd.push((d, budget)).drop_last() =~= cd);
            assert(cp.push(d).drop_last() =~= cp);
        }
    }
}

proof fn lemma_pending_yield_append(
    is_git: spec_fn(Seq<char>) -> bool,
    list: spec_fn(Seq<char>) -> Option<Seq<DirEntryInfo>>,
    a: Seq<(Seq<char>, u32)>,
    b: Seq<(Seq<char>, u32)>,
)
    ensures
        pending_yield(is_git, list, a + b) == pending_yield(is_git, list, a).add(
            pending_yield(is_git, list, b),
        ),
    decreases b.len(),
{
    broadcast use vstd::multiset::group_multiset_axioms;

    if b.len() == 0 {
        assert(a + b =~= a);
        assert(pending_yield(is_git, list, a).add(Multiset::empty()) =~= pending_yield(
            is_git,
            list,
            a,
        ));
    } else {
        assert((a + b).drop_last() =~= a + b.drop_last());
        assert((a + b).last() == b.last());
        lemma_pending_yield_append(is_git, list, a, b.drop_last());
        let ya = pending_yield(is_git, list, a);
        let yb1 = pending_yield(is_git, list, b.drop_last());
        let w = walk_found(is_git, list, b.last().0, b.last().1 as nat);
        assert(ya.add(yb1).add(w) =~= ya.add(yb1.add(w)));
    }
}

/// A scan fed the truth about its tree keeps its yield: visiting the last pending directory with
/// the tree's answers (whether it is a git root, and, when it must be listed, its entries) leaves
/// "found so far" plus "what the pending directories will yield" unchanged.
pub proof fn lemma_truthful_visit(
    is_git: spec_fn(Seq<char>) -> bool,
    list: spec_fn(Seq<char>) -> Option<Seq<DirEntryInfo>>,
    pending: Seq<(Seq<char>, u32)>,
    found: Seq<Seq<char>>,
    is_git_root: bool,
    entries: Option<Seq<DirEntryInfo>>,
)
    requires
        pending.len() > 0,
        is_git_root == is_git(pending.last().0),
        !is_git_root && pending.last().1 > 0 ==> entries == list(pending.last().0),
    ensures
        visit_found(found, pending.last().0, is_git_root).to_multiset().add(
            pending_yield(is_git, list, visit_pending(pending, is_git_root, entries)),
        ) == found.to_multiset().add(pending_yield(is_git, list, pending)),
{
    broadcast use vstd::multiset::group_multiset_axioms;
    broadcast use vstd::seq_lib::group_to_multiset_ensures;

    let (dir, remaining) = pending.last();
    let rest = pending.drop_last();
    let w = walk_found(is_git, list, dir, remaining as nat);
    let yr = pending_yield(is_git, list, rest);
    let fm = found.to_multiset();
    if is_git_root {
        assert(w == Multiset::singleton(dir));
        assert(found.push(dir).to_multiset() =~= fm.insert(dir));
        assert(fm.insert(dir).add(yr) =~= fm.add(yr.add(Multiset::singleton(dir))));
    } else if remaining > 0 && entries is Some {
        let es = entries.unwrap();
        lemma_pending_yield_append(is_git, list, rest, child_dirs(dir, es, (remaining - 1) as u32));
        lemma_child_dirs_yield(is_git, list, dir, es, (remaining - 1) as u32);
        assert(fm.add(yr.add(w)) =~= fm.add(yr).add(w));
    } else {
        assert(w =~= Multiset::<Seq<char>>::empty());
        assert(yr.add(w) =~= yr);
    }
}

/// A scan started with the tree's true listing of its root will yield exactly what the scan rules
/// find in that tree.
pub proof fn lemma_truthful_start(
    is_git: spec_fn(Seq<char>) -> bool,
    list: spec_fn(Seq<char>) -> Option<Seq<DirEntryInfo>>,
    dir: Seq<char>,
    max_depth: u32,
)
    ensures
        pending_yield(
            is_git,
            list,
            match list(dir) {
                Some(es) => child_dirs(
                    dir,
                    es,
                    if max_depth == 0 {
                        0u32
                    } else {
                        (max_depth - 1) as u32
                    },
                ),
                None => Seq::<(Seq<char>, u32)>::empty(),
            },
        ) == scan_found(is_git, list, dir, max_depth),
{
    if let Some(es) = list(dir) {
        lemma_child_dirs_yield(
            is_git,
            list,
            dir,
            es,
            if max_depth == 0 {
                0u32
            } else {
                (max_depth - 1) as u32
            },
        );
    }
}


proof fn lemma_walk_found_monotone(
    is_git: spec_fn(Seq<char>) -> bool,
    list: spec_fn(Seq<char>) -> Option<Seq<DirEntryInfo>>,
    dir: Seq<char>,
    r1: nat,
    r2: nat,
)
    requires
        r1 <= r2,
    ensures
        walk_found(is_git, list, dir, r1).subset_of(walk_found(is_git, list, dir, r2)),
    decreases r1, 0nat, 0nat,
{
    broadcast use vstd::multiset::group_multiset_axioms;

    if !is_git(dir) && r1 > 0 {
        if let Some(es) = list(dir) {
            lemma_walk_found_all_monotone(
                is_git,
                list,
                child_paths(dir, es),
                (r1 - 1) as nat,
                (r2 - 1) as nat,
            );
        }
    }
}

proof fn lemma_walk_found_all_monotone(
    is_git: spec_fn(Seq<char>) -> bool,
    list: spec_fn(Seq<char>) -> Option<Seq<DirEntryInfo>>,
    dirs: Seq<Seq<char>>,
    b1: nat,
    b2: nat,
)
    requires
        b1 <= b2,
    ensures
        walk_found_all(is_git, list, dirs, b1).subset_of(walk_found_all(is_git, list, dirs, b2)),
    decreases b1, 1nat, dirs.len(),
{
    broadcast use vstd::multiset::group_multiset_axioms;

    if dirs.len() > 0 {
        lemma_walk_found_all_monotone(is_git, list, dirs.drop_last(), b1, b2);
        lemma_walk_found_monotone(is_git, list, dirs.last(), b1, b2);
        let a1 = walk_found_all(is_git, list, dirs.drop_last(), b1);
        let a2 = walk_found_all(is_git, list, dirs.drop_last(), b2);
        let w1 = walk_found(is_git, list, dirs.last(), b1);
        let w2 = walk_found(is_git, list, dirs.last(), b2);
        assert forall|v: Seq<char>| #[trigger] a1.add(w1).count(v) <= a2.add(w2).count(v) by {
            assert(a1.count(v) <= a2.count(v));
            assert(w1.count(v) <= w2.count(v));
        }
    }
}

/// A larger depth budget never loses a project: what a scan to `d1` levels finds, a scan of the
/// same tree to `d2 >= d1` levels finds too.
pub proof fn lemma_scan_found_monotone(
    is_git: spec_fn(Seq<char>) -> bool,
    list: spec_fn(Seq<char>) -> Option<Seq<DirEntryInfo>>,
    dir: Seq<char>,
    d1: u32,
    d2: u32,
)
    requires
        d1 <= d2,
    ensures
        scan_found(is_git, list, dir, d1).subset_of(scan_found(is_git, list, dir, d2)),
{
    broadcast use vstd::multiset::group_multiset_axioms;

    if let Some(es) = list(dir) {
        let b1: nat = if d1 == 0 {
            0
        } else {
            (d1 - 1) as nat
        };
        let b2: nat = if d2 == 0 {
            0
        } else {
            (d2 - 1) as nat
        };
        lemma_walk_found_all_monotone(is_git, list, child_paths(dir, es), b1, b2);
    }
}

/// A scan fed the truth finds exactly what the scan rules define: started with the root's true
/// listing and nothing found, it yields `scan_found` (by [`lemma_truthful_start`]); every
/// truthful visit keeps the yield (by [`lemma_truthful_visit`]); so once no directory is pending,
/// what it has found is exactly `scan_found`.
pub proof fn lemma_truthful_scan_complete(
    is_git: spec_fn(Seq<char>) -> bool,
    list: spec_fn(Seq<char>) -> Option<Seq<DirEntryInfo>>,
    dir: Seq<char>,
    max_depth: u32,
    pending: Seq<(Seq<char>, u32)>,
    found: Seq<Seq<char>>,
)
    requires
        pending.len() == 0,
        found.to_multiset().add(pending_yield(is_git, list, pending)) == scan_found(
            is_git,
            list,
            dir,
            max_depth,
        ),
    ensures
        found.to_multiset() == scan_found(is_git, list, dir, max_depth),
{
    broadcast use vstd::multiset::group_multiset_axioms;

    assert(found.to_multiset().add(Multiset::empty()) =~= found.to_multiset());
}

/// A scan starts with nothing found, so its first yield is exactly what the pending directories
/// will yield.
pub proof fn lemma_nothing_found_yet(
    is_git: spec_fn(Seq<char>) -> bool,
    list: spec_fn(Seq<char>) -> Option<Seq<DirEntryInfo>>,
    pending: Seq<(Seq<char>, u32)>,
)
    ensures
        Seq::<Seq<char>>::empty().to_multiset().add(pending_yield(is_git, list, pending))
            == pending_yield(is_git, list, pending),
{
    broadcast use vstd::multiset::group_multiset_axioms;
    broadcast use vstd::seq_lib::group_to_multiset_ensures;

    assert(Seq::<Seq<char>>::empty().to_multiset() =~= Multiset::empty());
    assert(Multiset::<Seq<char>>::empty().add(pending_yield(is_git, list, pending))
        =~= pending_yield(is_git, list, pending));
}


/// The git roots a walk finds, in the walk's own order (depth first, child directories in listing
/// order); [`walk_found`] holds the same paths as a multiset.
spec fn walk_list(
    is_git: spec_fn(Seq<char>) -> bool,
    list: spec_fn(Seq<char>) -> Option<Seq<DirEntryInfo>>,
    dir: Seq<char>,
    remaining: nat,
) -> Seq<Seq<char>>
    decreases remaining, 0nat, 0nat,
{
    if is_git(dir) {
        seq![dir]
    } else if remaining == 0 {
        Seq::empty()
    } else {
        match list(dir) {
            None => Seq::empty(),
            Some(es) => walk_list_all(is_git, list, child_paths(dir, es), (remaining - 1) as nat),
        }
    }
}

/// The walks from each of `dirs`, one after another.
spec fn walk_list_all(
    is_git: spec_fn(Seq<char>) -> bool,
    list: spec_fn(Seq<char>) -> Option<Seq<DirEntryInfo>>,
    dirs: Seq<Seq<char>>,
    budget: nat,
) -> Seq<Seq<char>>
    decreases budget, 1nat, dirs.len(),
{
    if dirs.len() == 0 {
        Seq::empty()
    } else {
        walk_list_all(is_git, list, dirs.drop_last(), budget) + walk_list(
            is_git,
            list,
            dirs.last(),
            budget,
        )
    }
}

proof fn lemma_walk_list_found(
    is_git: spec_fn(Seq<char>) -> bool,
    list: spec_fn(Seq<char>) -> Option<Seq<DirEntryInfo>>,
    dir: Seq<char>,
    remaining: nat,
)
    ensures
        walk_list(is_git, list, dir, remaining).to_multiset() == walk_found(
            is_git,
            list,
            dir,
            remaining,
        ),
    decreases remaining, 0nat, 0nat,
{
    broadcast use vstd::multiset::group_multiset_axioms;
    broadcast use vstd::seq_lib::group_to_multiset_ensures;

    assert(Seq::<Seq<char>>::empty().to_multiset() =~= Multiset::empty());
    if is_git(dir) {
        assert(seq![dir] =~= Seq::<Seq<char>>::empty().push(dir));
        assert(Multiset::<Seq<char>>::empty().insert(dir) =~= Multiset::singleton(dir));
    } else if remaining > 0 {
        if let Some(es) = list(dir) {
            lemma_walk_list_all_found(is_git, list, child_paths(dir, es), (remaining - 1) as nat);
        }
    }
}

proof fn lemma_walk_list_all_found(
    is_git: spec_fn(Seq<char>) -> bool,
    list: spec_fn(Seq<char>) -> Option<Seq<DirEntryInfo>>,
    dirs: Seq<Seq<char>>,
    budget: nat,
)
    ensures
        walk_list_all(is_git, list, dirs, budget).to_multiset() == walk_found_all(
            is_git,
            list,
            dirs,
            budget,
        ),
    decreases budget, 1nat, dirs.len(),
{
    broadcast use vstd::multiset::group_multiset_axioms;
    broadcast use vstd::seq_lib::group_to_multiset_ensures;

    if dirs.len() == 0 {
        assert(Seq::<Seq<char>>::empty().to_multiset() =~= Multiset::empty());
    } else {
        lemma_walk_list_all_found(is_git, list, dirs.drop_last(), budget);
        lemma_walk_list_found(is_git, list, dirs.last(), budget);
        vstd::seq_lib::lemma_multiset_commutative(
            walk_list_all(is_git, list, dirs.drop_last(), budget),
            walk_list(is_git, list, dirs.last(), budget),
        );
    }
}

/// Whether a directory's entries are ones a file system lists: every name is a plain name
/// (non-empty, no `/`, not `.`), and no two entries share a name.
pub open spec fn entries_well_formed(es: Seq<DirEntryInfo>) -> bool {
    &&& forall|i: int| 0 <= i < es.len() ==> is_plain_name(#[trigger] es[i].name@)
    &&& forall|i: int, j: int|
        0 <= i < j < es.len() ==> #[trigger] es[i].name@ != #[trigger] es[j].name@
}

/// Whether every listing of a tree is one a file system gives.
pub open spec fn listings_well_formed(list: spec_fn(Seq<char>) -> Option<Seq<DirEntryInfo>>) -> bool {
    forall|d: Seq<char>| #![trigger list(d)] list(d) is Some ==> entries_well_formed(list(d).unwrap())
}

/// The names of the entries a scan descends into, in listing order.
pub open spec fn candidate_names(es: Seq<DirEntryInfo>) -> Seq<Seq<char>>
    decreases es.len(),
{
    if es.len() == 0 {
        Seq::empty()
    } else {
        let r = candidate_names(es.drop_last());
        if is_scan_candidate(es.last()) {
            r.push(es.last().name@)
        } else {
            r
        }
    }
}

proof fn lemma_candidate_names(dir: Seq<char>, es: Seq<DirEntryInfo>)
    requires
        entries_well_formed(es),
    ensures
        candidate_names(es).len() == child_paths(dir, es).len(),
        forall|k: int|
            0 <= k < candidate_names(es).len() ==> #[trigger] child_paths(dir, es)[k] == path_join(
                dir,
                candidate_names(es)[k],
            ),
        forall|k: int|
            0 <= k < candidate_names(es).len() ==> is_plain_name(#[trigger] candidate_names(es)[k]),
        forall|k: int|
            #![trigger candidate_names(es)[k]]
            0 <= k < candidate_names(es).len() ==> exists|i: int|
                0 <= i < es.len() && candidate_names(es)[k] == #[trigger] es[i].name@,
        candidate_names(es).no_duplicates(),
    decreases es.len(),
{
    if es.len() > 0 {
        let init = es.drop_last();
        assert(entries_well_formed(init)) by {
            assert forall|i: int| 0 <= i < init.len() implies is_plain_name(#[trigger] init[i].name@) by {
                assert(init[i] == es[i]);
            }
            assert forall|i: int, j: int| 0 <= i < j < init.len() implies #[trigger] init[i].name@
                != #[trigger] init[j].name@ by {
                assert(init[i] == es[i]);
                assert(init[j] == es[j]);
            }
        }
        lemma_candidate_names(dir, init);
        let cn = candidate_names(init);
        let last = es.last();
        assert forall|k: int| #![trigger cn[k]] 0 <= k < cn.len() implies exists|i: int|
            0 <= i < es.len() && cn[k] == #[trigger] es[i].name@ by {
            let i = choose|i: int| 0 <= i < init.len() && cn[k] == #[trigger] init[i].name@;
            assert(init[i] == es[i]);
        }
        if is_scan_candidate(last) {
            let n = last.name@;
            assert(es[es.len() - 1] == last);
            assert forall|k: int| 0 <= k < cn.len() implies #[trigger] cn[k] != n by {
                let i = choose|i: int| 0 <= i < init.len() && cn[k] == #[trigger] init[i].name@;
                assert(init[i] == es[i]);
                assert(es[i].name@ != es[es.len() - 1].name@);
            }
            assert(cn.push(n)[cn.len() as int] == n);
        }
    }
}


/// Whether no two paths of `s` have the same components.
spec fn components_distinct(s: Seq<Seq<char>>) -> bool {
    forall|i: int, j: int|
        0 <= i < s.len() && 0 <= j < s.len() && i != j ==> path_components(#[trigger] s[i])
            != path_components(#[trigger] s[j])
}

/// Whether `dirs` are directories one level below a directory with components `base`, no two with
/// the same components.
spec fn siblings_under(base: Seq<Seq<char>>, dirs: Seq<Seq<char>>) -> bool {
    &&& forall|k: int|
        0 <= k < dirs.len() ==> path_components(#[trigger] dirs[k]).len() == base.len() + 1
            && base.is_prefix_of(path_components(dirs[k]))
    &&& components_distinct(dirs)
}

proof fn lemma_child_paths_siblings(dir: Seq<char>, es: Seq<DirEntryInfo>)
    requires
        entries_well_formed(es),
    ensures
        siblings_under(path_components(dir), child_paths(dir, es)),
{
    lemma_candidate_names(dir, es);
    let cp = child_paths(dir, es);
    let cn = candidate_names(es);
    let b = path_components(dir);
    assert forall|k: int| 0 <= k < cp.len() implies path_components(#[trigger] cp[k]).len() == b.len()
        + 1 && b.is_prefix_of(path_components(cp[k])) by {
        lemma_join_plain_name(dir, cn[k]);
        assert(path_components(cp[k]).subrange(0, b.len() as int) =~= b);
    }
    assert forall|i: int, j: int|
        0 <= i < cp.len() && 0 <= j < cp.len() && i != j implies path_components(#[trigger] cp[i])
        != path_components(#[trigger] cp[j]) by {
        lemma_join_plain_name(dir, cn[i]);
        lemma_join_plain_name(dir, cn[j]);
        assert(cn[i] != cn[j]);
        assert(b.push(cn[i]).last() == cn[i]);
        assert(b.push(cn[j]).last() == cn[j]);
    }
}

proof fn lemma_walk_list_distinct(
    is_git: spec_fn(Seq<char>) -> bool,
    list: spec_fn(Seq<char>) -> Option<Seq<DirEntryInfo>>,
    dir: Seq<char>,
    remaining: nat,
)
    requires
        listings_well_formed(list),
    ensures
        components_distinct(walk_list(is_git, list, dir, remaining)),
        forall|q: int|
            0 <= q < walk_list(is_git, list, dir, remaining).len() ==> path_components(dir).is_prefix_of(
                path_components(#[trigger] walk_list(is_git, list, dir, remaining)[q]),
            ),
    decreases remaining, 0nat, 0nat,
{
    let w = walk_list(is_git, list, dir, remaining);
    let b = path_components(dir);
    if is_git(dir) {
        assert(w.len() == 1 && w[0] == dir);
        assert(b.subrange(0, b.len() as int) =~= b);
    } else if remaining > 0 {
        if let Some(es) = list(dir) {
            assert(entries_well_formed(es));
            let dirs = child_paths(dir, es);
            lemma_child_paths_siblings(dir, es);
            lemma_walk_list_all_distinct(is_git, list, dirs, (remaining - 1) as nat, b);
        }
    }
}

#[verifier::spinoff_prover]
#[verifier::rlimit(30)]
proof fn lemma_walk_list_all_distinct(
    is_git: spec_fn(Seq<char>) -> bool,
    list: spec_fn(Seq<char>) -> Option<Seq<DirEntryInfo>>,
    dirs: Seq<Seq<char>>,
    budget: nat,
    base: Seq<Seq<char>>,
)
    requires
        listings_well_formed(list),
        siblings_under(base, dirs),
    ensures
        components_distinct(walk_list_all(is_git, list, dirs, budget)),
        forall|q: int|
            #![trigger walk_list_all(is_git, list, dirs, budget)[q]]
            0 <= q < walk_list_all(is_git, list, dirs, budget).len() ==> exists|k: int|
                0 <= k < dirs.len() && path_components(#[trigger] dirs[k]).is_prefix_of(
                    path_components(walk_list_all(is_git, list, dirs, budget)[q]),
                ),
    decreases budget, 1nat, dirs.len(),
{
    if dirs.len() > 0 {
        let init = dirs.drop_last();
        let last = dirs.last();
        assert(siblings_under(base, init)) by {
            assert forall|k: int| 0 <= k < init.len() implies path_components(#[trigger] init[k]).len()
                == base.len() + 1 && base.is_prefix_of(path_components(init[k])) by {
                assert(init[k] == dirs[k]);
            }
            assert forall|i: int, j: int|
                0 <= i < init.len() && 0 <= j < init.len() && i != j implies path_components(
                #[trigger] init[i],
            ) != path_components(#[trigger] init[j]) by {
                assert(init[i] == dirs[i]);
                assert(init[j] == dirs[j]);
            }
        }
        lemma_walk_list_all_distinct(is_git, list, init, budget, base);
        lemma_walk_list_distinct(is_git, list, last, budget);
        let a = walk_list_all(is_git, list, init, budget);
        let bl = walk_list(is_git, list, last, budget);
        let all = walk_list_all(is_git, list, dirs, budget);
        assert(all == a + bl);
        let n = base.len() + 1;
        let cl = path_components(last);
        assert(dirs[dirs.len() - 1] == last);
        assert(cl.len() == n);
        assert forall|q: int| #![trigger all[q]] 0 <= q < all.len() implies exists|k: int|
            0 <= k < dirs.len() && path_components(#[trigger] dirs[k]).is_prefix_of(
                path_components(all[q]),
            ) by {
            if q < a.len() {
                assert(all[q] == a[q]);
                let k = choose|k: int|
                    0 <= k < init.len() && path_components(#[trigger] init[k]).is_prefix_of(
                        path_components(a[q]),
                    );
                assert(init[k] == dirs[k]);
            } else {
                assert(all[q] == bl[q - a.len()]);
                assert(path_components(dirs[dirs.len() - 1]).is_prefix_of(path_components(all[q])));
            }
        }
        assert forall|i: int, j: int|
            0 <= i < all.len() && 0 <= j < all.len() && i != j implies path_components(
            #[trigger] all[i],
        ) != path_components(#[trigger] all[j]) by {
            if i < a.len() && j < a.len() {
                assert(all[i] == a[i] && all[j] == a[j]);
            } else if i >= a.len() && j >= a.len() {
                assert(all[i] == bl[i - a.len()] && all[j] == bl[j - a.len()]);
            } else {
                let (x, y) = if i < a.len() {
                    (i, j)
                } else {
                    (j, i)
                };
                assert(all[x] == a[x]);
                assert(all[y] == bl[y - a.len()]);
                let k = choose|k: int|
                    0 <= k < init.len() && path_components(#[trigger] init[k]).is_prefix_of(
                        path_components(a[x]),
                    );
                assert(init[k] == dirs[k]);
                let ck = path_components(dirs[k]);
                assert(ck.len() == n);
                assert(ck != cl);
                let cx = path_components(all[x]);
                let cy = path_components(all[y]);
                assert(ck =~= cx.subrange(0, n as int));
                assert(cl =~= cy.subrange(0, n as int));
            }
        }
    }
}


/// The git roots a scan of `dir` finds, in the walk's own order.
spec fn scan_list(
    is_git: spec_fn(Seq<char>) -> bool,
    list: spec_fn(Seq<char>) -> Option<Seq<DirEntryInfo>>,
    dir: Seq<char>,
    max_depth: u32,
) -> Seq<Seq<char>> {
    match list(dir) {
        None => Seq::empty(),
        Some(es) => walk_list_all(
            is_git,
            list,
            child_paths(dir, es),
            if max_depth == 0 {
                0nat
            } else {
                (max_depth - 1) as nat
            },
        ),
    }
}

proof fn lemma_scan_list(
    is_git: spec_fn(Seq<char>) -> bool,
    list: spec_fn(Seq<char>) -> Option<Seq<DirEntryInfo>>,
    dir: Seq<char>,
    max_depth: u32,
)
    requires
        listings_well_formed(list),
    ensures
        scan_list(is_git, list, dir, max_depth).to_multiset() == scan_found(
            is_git,
            list,
            dir,
            max_depth,
        ),
        components_distinct(scan_list(is_git, list, dir, max_depth)),
{
    broadcast use vstd::multiset::group_multiset_axioms;
    broadcast use vstd::seq_lib::group_to_multiset_ensures;

    let b: nat = if max_depth == 0 {
        0
    } else {
        (max_depth - 1) as nat
    };
    match list(dir) {
        None => {
            assert(Seq::<Seq<char>>::empty().to_multiset() =~= Multiset::empty());
        },
        Some(es) => {
            assert(entries_well_formed(es));
            lemma_child_paths_siblings(dir, es);
            lemma_walk_list_all_found(is_git, list, child_paths(dir, es), b);
            lemma_walk_list_all_distinct(is_git, list, child_paths(dir, es), b, path_components(dir));
        },
    }
}

/// A scan's result lists each project once, in strictly ascending path order. In a tree whose
/// listings are ones a file system gives (plain names, none twice in one directory), a sorted
/// list that holds exactly what a scan finds has no two paths with the same components, so each
/// path sorts strictly before the next.
pub proof fn lemma_scan_result_strictly_sorted(
    is_git: spec_fn(Seq<char>) -> bool,
    list: spec_fn(Seq<char>) -> Option<Seq<DirEntryInfo>>,
    dir: Seq<char>,
    max_depth: u32,
    r: Seq<Seq<char>>,
)
    requires
        listings_well_formed(list),
        paths_sorted(r),
        r.to_multiset() == scan_found(is_git, list, dir, max_depth),
    ensures
        forall|i: int, j: int| 0 <= i < j < r.len() ==> path_lt(#[trigger] r[i], #[trigger] r[j]),
{
    broadcast use vstd::multiset::group_multiset_axioms;
    broadcast use vstd::seq_lib::group_to_multiset_ensures;

    let s = scan_list(is_git, list, dir, max_depth);
    lemma_scan_list(is_git, list, dir, max_depth);
    assert(s.no_duplicates()) by {
        assert forall|i: int, j: int| 0 <= i < s.len() && 0 <= j < s.len() && i != j implies s[i]
            != s[j] by {
            if s[i] == s[j] {
                assert(path_components(s[i]) == path_components(s[j]));
            }
        }
    }
    s.lemma_multiset_has_no_duplicates();
    r.lemma_multiset_has_no_duplicates_conv();
    assert forall|i: int, j: int| 0 <= i < j < r.len() implies path_lt(#[trigger] r[i], #[trigger] r[j]) by {
        let ci = path_components(r[i]);
        let cj = path_components(r[j]);
        assert(r[i] != r[j]);
        if ci == cj {
            assert(r.to_multiset().count(r[i]) > 0);
            assert(r.to_multiset().count(r[j]) > 0);
            assert(s.contains(r[i]));
            assert(s.contains(r[j]));
            let a = choose|a: int| 0 <= a < s.len() && s[a] == r[i];
            let b = choose|b: int| 0 <= b < s.len() && s[b] == r[j];
            assert(path_components(s[a]) == path_components(s[b]));
        }
        assert(components_le(ci, cj));
        if ci != cj {
            lemma_components_lt_total(ci, cj);
        }
    }
}

proof fn lemma_strictly_sorted_equal(a: Seq<Seq<char>>, b: Seq<Seq<char>>)
    requires
        forall|i: int, j: int| 0 <= i < j < a.len() ==> path_lt(#[trigger] a[i], #[trigger] a[j]),
        forall|i: int, j: int| 0 <= i < j < b.len() ==> path_lt(#[trigger] b[i], #[trigger] b[j]),
        a.to_multiset() == b.to_multiset(),
    ensures
        a == b,
    decreases a.len(),
{
    broadcast use vstd::multiset::group_multiset_axioms;
    broadcast use vstd::seq_lib::group_to_multiset_ensures;

    a.to_multiset_ensures();
    b.to_multiset_ensures();
    assert(a.len() == b.len());
    if a.len() > 0 {
        assert(a.to_multiset().count(a[0]) > 0);
        assert(b.contains(a[0]));
        assert(b.to_multiset().count(b[0]) > 0);
        assert(a.contains(b[0]));
        let j = choose|j: int| 0 <= j < b.len() && b[j] == a[0];
        let i = choose|i: int| 0 <= i < a.len() && a[i] == b[0];
        if a[0] != b[0] {
            assert(i > 0 && j > 0);
            assert(path_lt(a[0], a[i]));
            assert(path_lt(b[0], b[j]));
            lemma_components_lt_transitive(
                path_components(a[0]),
                path_components(b[0]),
                path_components(a[0]),
            );
            lemma_components_lt_irreflexive(path_components(a[0]));
        }
        let a1 = a.drop_first();
        let b1 = b.drop_first();
        assert(a.remove(0) =~= a1);
        assert(b.remove(0) =~= b1);
        assert forall|x: int, y: int| 0 <= x < y < a1.len() implies path_lt(#[trigger] a1[x], #[trigger] a1[y]) by {
            assert(a1[x] == a[x + 1] && a1[y] == a[y + 1]);
        }
        assert forall|x: int, y: int| 0 <= x < y < b1.len() implies path_lt(#[trigger] b1[x], #[trigger] b1[y]) by {
            assert(b1[x] == b[x + 1] && b1[y] == b[y + 1]);
        }
        lemma_strictly_sorted_equal(a1, b1);
        assert(a =~= b) by {
            assert forall|k: int| 0 <= k < a.len() implies a[k] == b[k] by {
                if k > 0 {
                    assert(a[k] == a1[k - 1] && b[k] == b1[k - 1]);
                }
            }
        }
    }
}

/// Two scans of one tree to one depth agree: in a tree whose listings are ones a file system
/// gives, two sorted lists that each hold exactly what the scan finds are equal.
pub proof fn lemma_scan_results_agree(
    is_git: spec_fn(Seq<char>) -> bool,
    list: spec_fn(Seq<char>) -> Option<Seq<DirEntryInfo>>,
    dir: Seq<char>,
    max_depth: u32,
    r1: Seq<Seq<char>>,
    r2: Seq<Seq<char>>,
)
    requires
        listings_well_formed(list),
        paths_sorted(r1),
        paths_sorted(r2),
        r1.to_multiset() == scan_found(is_git, list, dir, max_depth),
        r2.to_multiset() == scan_found(is_git, list, dir, max_depth),
    ensures
        r1 == r2,
{
    lemma_scan_result_strictly_sorted(is_git, list, dir, max_depth, r1);
    lemma_scan_result_strictly_sorted(is_git, list, dir, max_depth, r2);
    lemma_strictly_sorted_equal(r1, r2);
}


/// Whether a walk from `dir` with `remaining` levels of budget goes down through the directories
/// named `names`, one level of budget per step, and finds a git root at the end: each directory
/// it leaves is readable and not a git root, each name is a scan candidate of its parent's
/// listing, and the directory it ends in is a git root.
pub open spec fn walk_reaches(
    is_git: spec_fn(Seq<char>) -> bool,
    list: spec_fn(Seq<char>) -> Option<Seq<DirEntryInfo>>,
    dir: Seq<char>,
    remaining: nat,
    names: Seq<Seq<char>>,
) -> bool
    decreases names.len(),
{
    if names.len() == 0 {
        is_git(dir)
    } else {
        &&& !is_git(dir)
        &&& remaining > 0
        &&& list(dir) is Some
        &&& candidate_names(list(dir).unwrap()).contains(names[0])
        &&& walk_reaches(
            is_git,
            list,
            path_join(dir, names[0]),
            (remaining - 1) as nat,
            names.drop_first(),
        )
    }
}

proof fn lemma_join_all_first(root: Seq<char>, names: Seq<Seq<char>>)
    requires
        names.len() > 0,
    ensures
        join_all(root, names) == join_all(path_join(root, names[0]), names.drop_first()),
    decreases names.len(),
{
    let p = path_join(root, names[0]);
    if names.len() == 1 {
        assert(names.drop_first() =~= Seq::<Seq<char>>::empty());
        assert(names.drop_last() =~= Seq::<Seq<char>>::empty());
        assert(join_all(root, names.drop_last()) == root);
        assert(join_all(p, names.drop_first()) == p);
    } else {
        let init = names.drop_last();
        let tail = names.drop_first();
        lemma_join_all_first(root, init);
        assert(init[0] == names[0]);
        assert(init.drop_first() =~= tail.drop_last());
        assert(tail.last() == names.last());
        assert(join_all(p, tail) == path_join(join_all(p, tail.drop_last()), tail.last()));
    }
}

proof fn lemma_walk_found_all_count(
    is_git: spec_fn(Seq<char>) -> bool,
    list: spec_fn(Seq<char>) -> Option<Seq<DirEntryInfo>>,
    dirs: Seq<Seq<char>>,
    budget: nat,
    q: Seq<char>,
)
    ensures
        walk_found_all(is_git, list, dirs, budget).count(q) > 0 <==> exists|k: int|
            0 <= k < dirs.len() && walk_found(is_git, list, #[trigger] dirs[k], budget).count(q) > 0,
    decreases dirs.len(),
{
    broadcast use vstd::multiset::group_multiset_axioms;

    if dirs.len() > 0 {
        let init = dirs.drop_last();
        lemma_walk_found_all_count(is_git, list, init, budget, q);
        if walk_found_all(is_git, list, dirs, budget).count(q) > 0 {
            if walk_found_all(is_git, list, init, budget).count(q) > 0 {
                let k = choose|k: int|
                    0 <= k < init.len() && walk_found(is_git, list, #[trigger] init[k], budget).count(q) > 0;
                assert(init[k] == dirs[k]);
            } else {
                assert(dirs[dirs.len() - 1] == dirs.last());
            }
        }
        if exists|k: int|
            0 <= k < dirs.len() && walk_found(is_git, list, #[trigger] dirs[k], budget).count(q) > 0 {
            let k = choose|k: int|
                0 <= k < dirs.len() && walk_found(is_git, list, #[trigger] dirs[k], budget).count(q) > 0;
            if k < init.len() {
                assert(init[k] == dirs[k]);
            }
        }
    }
}

/// What a walk finds, path by path: in a tree whose listings are ones a file system gives, `q` is
/// among the git roots a walk from `dir` with `remaining` levels of budget finds exactly when `q`
/// is `dir` joined with names along which the walk reaches a git root ([`walk_reaches`]).
pub proof fn lemma_walk_found_paths(
    is_git: spec_fn(Seq<char>) -> bool,
    list: spec_fn(Seq<char>) -> Option<Seq<DirEntryInfo>>,
    dir: Seq<char>,
    remaining: nat,
    q: Seq<char>,
)
    requires
        listings_well_formed(list),
    ensures
        walk_found(is_git, list, dir, remaining).count(q) > 0 <==> exists|names: Seq<Seq<char>>|
            walk_reaches(is_git, list, dir, remaining, names) && q == #[trigger] join_all(dir, names),
    decreases remaining,
{
    broadcast use vstd::multiset::group_multiset_axioms;

    let found = walk_found(is_git, list, dir, remaining);
    if is_git(dir) {
        if found.count(q) > 0 {
            assert(walk_reaches(is_git, list, dir, remaining, Seq::<Seq<char>>::empty()));
            assert(q == join_all(dir, Seq::<Seq<char>>::empty()));
        }
        if exists|names: Seq<Seq<char>>|
            walk_reaches(is_git, list, dir, remaining, names) && q == #[trigger] join_all(dir, names) {
            let names = choose|names: Seq<Seq<char>>|
                walk_reaches(is_git, list, dir, remaining, names) && q == #[trigger] join_all(dir, names);
            assert(names.len() == 0);
        }
    } else if remaining == 0 || list(dir) is None {
        assert(found =~= Multiset::<Seq<char>>::empty());
    } else {
        let es = list(dir).unwrap();
        assert(entries_well_formed(es));
        let cp = child_paths(dir, es);
        let cn = candidate_names(es);
        let b = (remaining - 1) as nat;
        lemma_candidate_names(dir, es);
        lemma_walk_found_all_count(is_git, list, cp, b, q);
        if found.count(q) > 0 {
            let k = choose|k: int| 0 <= k < cp.len() && walk_found(is_git, list, #[trigger] cp[k], b).count(q) > 0;
            lemma_walk_found_paths(is_git, list, cp[k], b, q);
            let rest = choose|names: Seq<Seq<char>>|
                walk_reaches(is_git, list, cp[k], b, names) && q == #[trigger] join_all(cp[k], names);
            let names = seq![cn[k]] + rest;
            assert(names[0] == cn[k]);
            assert(names.drop_first() =~= rest);
            assert(cn.contains(cn[k]));
            lemma_join_all_first(dir, names);
            assert(walk_reaches(is_git, list, dir, remaining, names));
            assert(q == join_all(dir, names));
        }
        if exists|names: Seq<Seq<char>>|
            walk_reaches(is_git, list, dir, remaining, names) && q == #[trigger] join_all(dir, names) {
            let names = choose|names: Seq<Seq<char>>|
                walk_reaches(is_git, list, dir, remaining, names) && q == #[trigger] join_all(dir, names);
            assert(names.len() > 0);
            let k = choose|k: int| 0 <= k < cn.len() && cn[k] == names[0];
            lemma_walk_found_paths(is_git, list, cp[k], b, q);
            lemma_join_all_first(dir, names);
            assert(walk_reaches(is_git, list, cp[k], b, names.drop_first()));
            assert(q == join_all(cp[k], names.drop_first()));
            assert(walk_found(is_git, list, cp[k], b).count(q) > 0);
        }
    }
}

/// What a scan finds, path by path: in a tree whose listings are ones a file system gives, `q` is
/// among the git roots a scan of `dir` to `max_depth` levels finds exactly when `dir` can be read
/// and `q` is `dir` joined with names `n1 .. nk` (at least one; `dir` itself never counts) where
/// `n1` is a scan candidate of `dir`'s listing and a walk from `dir`/`n1`, with `max_depth - 1`
/// levels of budget (saturating), goes down through the rest to a git root.
pub proof fn lemma_scan_found_paths(
    is_git: spec_fn(Seq<char>) -> bool,
    list: spec_fn(Seq<char>) -> Option<Seq<DirEntryInfo>>,
    dir: Seq<char>,
    max_depth: u32,
    q: Seq<char>,
)
    requires
        listings_well_formed(list),
    ensures
        scan_found(is_git, list, dir, max_depth).count(q) > 0 <==> (list(dir) is Some && exists|
            names: Seq<Seq<char>>,
        |
            names.len() > 0 && candidate_names(list(dir).unwrap()).contains(names[0])
                && walk_reaches(
                is_git,
                list,
                path_join(dir, names[0]),
                if max_depth == 0 {
                    0nat
                } else {
                    (max_depth - 1) as nat
                },
                names.drop_first(),
            ) && q == #[trigger] join_all(dir, names)),
{
    broadcast use vstd::multiset::group_multiset_axioms;

    let b: nat = if max_depth == 0 {
        0
    } else {
        (max_depth - 1) as nat
    };
    if let Some(es) = list(dir) {
        assert(entries_well_formed(es));
        let cp = child_paths(dir, es);
        let cn = candidate_names(es);
        lemma_candidate_names(dir, es);
        lemma_walk_found_all_count(is_git, list, cp, b, q);
        if scan_found(is_git, list, dir, max_depth).count(q) > 0 {
            let k = choose|k: int| 0 <= k < cp.len() && walk_found(is_git, list, #[trigger] cp[k], b).count(q) > 0;
            lemma_walk_found_paths(is_git, list, cp[k], b, q);
            let rest = choose|names: Seq<Seq<char>>|
                walk_reaches(is_git, list, cp[k], b, names) && q == #[trigger] join_all(cp[k], names);
            let names = seq![cn[k]] + rest;
            assert(names[0] == cn[k]);
            assert(names.drop_first() =~= rest);
            assert(cn.contains(cn[k]));
            lemma_join_all_first(dir, names);
            assert(q == join_all(dir, names));
        }
        if exists|names: Seq<Seq<char>>|
            names.len() > 0 && cn.contains(names[0]) && walk_reaches(
                is_git,
                list,
                path_join(dir, names[0]),
                b,
                names.drop_first(),
            ) && q == #[trigger] join_all(dir, names) {
            let names = choose|names: Seq<Seq<char>>|
                names.len() > 0 && cn.contains(names[0]) && walk_reaches(
                    is_git,
                    list,
                    path_join(dir, names[0]),
                    b,
                    names.drop_first(),
                ) && q == #[trigger] join_all(dir, names);
            let k = choose|k: int| 0 <= k < cn.len() && cn[k] == names[0];
            lemma_walk_found_paths(is_git, list, cp[k], b, q);
            lemma_join_all_first(dir, names);
            assert(q == join_all(cp[k], names.drop_first()));
            assert(walk_found(is_git, list, cp[k], b).count(q) > 0);
        }
    }
}


/// A walk finds each git root at most once: in a tree whose listings are ones a file system
/// gives, no path occurs twice among what a walk from `dir` finds.
pub proof fn lemma_walk_found_once(
    is_git: spec_fn(Seq<char>) -> bool,
    list: spec_fn(Seq<char>) -> Option<Seq<DirEntryInfo>>,
    dir: Seq<char>,
    remaining: nat,
    q: Seq<char>,
)
    requires
        listings_well_formed(list),
    ensures
        walk_found(is_git, list, dir, remaining).count(q) <= 1,
{
    broadcast use vstd::multiset::group_multiset_axioms;

    let s = walk_list(is_git, list, dir, remaining);
    lemma_walk_list_found(is_git, list, dir, remaining);
    lemma_walk_list_distinct(is_git, list, dir, remaining);
    assert(s.no_duplicates()) by {
        assert forall|i: int, j: int| 0 <= i < s.len() && 0 <= j < s.len() && i != j implies s[i]
            != s[j] by {
            if s[i] == s[j] {
                assert(path_components(s[i]) == path_components(s[j]));
            }
        }
    }
    s.lemma_multiset_has_no_duplicates();
    if s.to_multiset().count(q) > 0 {
        assert(s.to_multiset().contains(q));
    }
}


/// Whether entry `e` is hidden: its name starts with `.`.
pub open spec fn is_hidden_name(name: Seq<char>) -> bool {
    name.len() > 0 && name[0] == '.'
}

proof fn lemma_child_paths_has(dir: Seq<char>, es: Seq<DirEntryInfo>, i: int)
    requires
        0 <= i < es.len(),
        es[i].is_dir,
        !es[i].is_symlink,
        !is_hidden_name(es[i].name@),
    ensures
        child_paths(dir, es).contains(path_join(dir, es[i].name@)),
    decreases es.len(),
{
    let p = path_join(dir, es[i].name@);
    let init = es.drop_last();
    let cp0 = child_paths(dir, init);
    if i == es.len() - 1 {
        assert(es.last() == es[i]);
        assert(child_paths(dir, es) == cp0.push(p));
        assert(cp0.push(p)[cp0.len() as int] == p);
    } else {
        assert(init[i] == es[i]);
        lemma_child_paths_has(dir, init, i);
        let k = choose|k: int| 0 <= k < cp0.len() && cp0[k] == p;
        if is_scan_candidate(es.last()) {
            assert(cp0.push(path_join(dir, es.last().name@))[k] == p);
        }
    }
}

proof fn lemma_child_paths_none(dir: Seq<char>, es: Seq<DirEntryInfo>)
    requires
        forall|i: int|
            0 <= i < es.len() ==> !(#[trigger] es[i]).is_dir || es[i].is_symlink || is_hidden_name(
                es[i].name@,
            ),
    ensures
        child_paths(dir, es).len() == 0,
    decreases es.len(),
{
    if es.len() > 0 {
        let init = es.drop_last();
        assert forall|i: int| 0 <= i < init.len() implies !(#[trigger] init[i]).is_dir
            || init[i].is_symlink || is_hidden_name(init[i].name@) by {
            assert(init[i] == es[i]);
        }
        lemma_child_paths_none(dir, init);
        assert(es[es.len() - 1] == es.last());
    }
}

/// A scan goes into every visible directory of the root: when the root's listing has an entry
/// that is a directory, not a symbolic link, and whose name does not start with `.` (a dot
/// elsewhere in the name, as in `github.com`, does not hide it), and that directory is a git root,
/// the scan finds it, whatever the depth.
pub proof fn lemma_scan_enters_visible_dirs(
    is_git: spec_fn(Seq<char>) -> bool,
    list: spec_fn(Seq<char>) -> Option<Seq<DirEntryInfo>>,
    dir: Seq<char>,
    max_depth: u32,
    es: Seq<DirEntryInfo>,
    i: int,
)
    requires
        list(dir) == Some(es),
        0 <= i < es.len(),
        es[i].is_dir,
        !es[i].is_symlink,
        !is_hidden_name(es[i].name@),
        is_git(path_join(dir, es[i].name@)),
    ensures
        scan_found(is_git, list, dir, max_depth).count(path_join(dir, es[i].name@)) > 0,
{
    broadcast use vstd::multiset::group_multiset_axioms;

    let p = path_join(dir, es[i].name@);
    let b: nat = if max_depth == 0 {
        0
    } else {
        (max_depth - 1) as nat
    };
    let cp = child_paths(dir, es);
    lemma_child_paths_has(dir, es, i);
    let k = choose|k: int| 0 <= k < cp.len() && cp[k] == p;
    assert(walk_found(is_git, list, cp[k], b) == Multiset::singleton(p));
    lemma_walk_found_all_count(is_git, list, cp, b, p);
}

/// A scan never goes into a hidden directory, a symbolic link or a plain file: when none of the
/// root's entries is a visible directory, the scan finds nothing.
pub proof fn lemma_scan_skips_hidden(
    is_git: spec_fn(Seq<char>) -> bool,
    list: spec_fn(Seq<char>) -> Option<Seq<DirEntryInfo>>,
    dir: Seq<char>,
    max_depth: u32,
    es: Seq<DirEntryInfo>,
)
    requires
        list(dir) == Some(es),
        forall|i: int|
            0 <= i < es.len() ==> !(#[trigger] es[i]).is_dir || es[i].is_symlink || is_hidden_name(
                es[i].name@,
            ),
    ensures
        scan_found(is_git, list, dir, max_depth) == Multiset::<Seq<char>>::empty(),
{
    lemma_child_paths_none(dir, es);
    let b: nat = if max_depth == 0 {
        0
    } else {
        (max_depth - 1) as nat
    };
    assert(walk_found_all(is_git, list, child_paths(dir, es), b) == Multiset::<Seq<char>>::empty());
}

/// Every depth of at least one is accepted: a root whose `dir` is not blank and whose explicit
/// name (if any) is not blank resolves with exactly the depth asked for; only a depth of zero is
/// refused, and with that depth in the error.
pub proof fn lemma_root_depth_accepted(
    home: Option<Seq<char>>,
    name: Option<Seq<char>>,
    dir: Seq<char>,
    d: u32,
)
    requires
        trimmed(dir).len() > 0,
        name matches Some(n) ==> trimmed(n).len() > 0,
    ensures
        d >= 1 ==> root_error(name, dir, Some(d)) is None && resolved_root(home, name, dir, Some(d)).2
            == d,
        d == 0 ==> root_error(name, dir, Some(d)) == Some(RootError::ZeroDepth(0)),
        root_error(name, dir, None) is None && resolved_root(home, name, dir, None).2 == DEFAULT_ROOT_DEPTH,
{
}

/// Where the projects of each root stand in the discovered list: the `j`-th path of the `k`-th
/// scan comes after all paths of the earlier scans, with its tree path taken against its own
/// root's directory and its own root's name as section.
pub proof fn lemma_discovered_at(scans: Seq<(RootDir, Vec<String>)>, k: int, j: int)
    requires
        0 <= k < scans.len(),
        0 <= j < scans[k].1@.len(),
    ensures
        scanned_count(scans.take(k)) + j < discovered(scans).len(),
        discovered(scans)[scanned_count(scans.take(k)) + j] == (
            scans[k].1@[j]@,
            tree_segments(scans[k].0.dir@, scans[k].1@[j]@),
            scans[k].0.name@,
        ),
    decreases scans.len(),
{
    let init = scans.drop_last();
    lemma_discovered_count(init);
    lemma_discovered_count(scans);
    if k == scans.len() - 1 {
        assert(scans.take(k) =~= init);
        assert(scans.last() == scans[k]);
    } else {
        assert(init[k] == scans[k]);
        assert(init.take(k) =~= scans.take(k));
        lemma_discovered_at(init, k, j);
    }
}

}
