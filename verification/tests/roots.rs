use config_core::roots::{
    discover_projects, git_marker, resolve_root_dir, resolve_root_dir_in, tree_path, DirEntryInfo,
    ProjectScan, RootDir, RootError, DEFAULT_ROOT_DEPTH,
};

/// An in-memory directory tree: directories, and `.git` files (worktrees). A `.git` directory is
/// listed among the directories.
struct Tree {
    dirs: Vec<String>,
    files: Vec<String>,
}

impl Tree {
    fn new(base: &str) -> Tree {
        Tree { dirs: vec![base.to_string()], files: Vec::new() }
    }
    fn mkdir(&mut self, path: &str) {
        let mut cur = String::new();
        for (i, seg) in path.split('/').enumerate() {
            if i > 0 {
                cur.push('/');
            }
            cur.push_str(seg);
            if !cur.is_empty() && !self.dirs.contains(&cur) {
                self.dirs.push(cur.clone());
            }
        }
    }
    fn git(&mut self, dir: &str) {
        self.mkdir(&format!("{}/.git", dir));
    }
    fn has_path(&self, p: &str) -> bool {
        self.dirs.iter().any(|d| d == p) || self.files.iter().any(|f| f == p)
    }
    fn list(&self, dir: &str) -> Option<Vec<DirEntryInfo>> {
        if !self.dirs.iter().any(|d| d == dir) {
            return None;
        }
        let prefix = format!("{}/", dir);
        let mut out = Vec::new();
        for (p, is_dir) in self.dirs.iter().map(|d| (d, true)).chain(self.files.iter().map(|f| (f, false))) {
            if let Some(rest) = p.strip_prefix(&prefix) {
                if !rest.is_empty() && !rest.contains('/') {
                    out.push(DirEntryInfo { name: rest.to_string(), is_dir, is_symlink: false });
                }
            }
        }
        Some(out)
    }
    /// Drive a scan against this tree, as a caller performing the reads would.
    fn scan(&self, dir: &str, depth: u32) -> Vec<String> {
        let mut scan = ProjectScan::start(dir, depth, self.list(dir));
        while let Some((d, remaining)) = scan.next_dir() {
            let is_git = self.has_path(&git_marker(&d));
            let entries = if ProjectScan::needs_listing(is_git, remaining) { self.list(&d) } else { None };
            scan.record(d, remaining, is_git, entries);
        }
        scan.finish()
    }
}

#[test]
fn finds_git_roots_and_stops_at_them() {
    let base = "/tmp/stop";
    let mut t = Tree::new(base);
    t.git(&format!("{base}/gh/lockyc/warden"));
    t.git(&format!("{base}/gh/lockyc/warden/vendor/sub"));
    t.git(&format!("{base}/gh/other/proj"));
    t.mkdir(&format!("{base}/gh/empty"));
    assert_eq!(
        t.scan(base, 6),
        vec![format!("{base}/gh/lockyc/warden"), format!("{base}/gh/other/proj")]
    );
}

#[test]
fn respects_depth_and_skips_hidden() {
    let base = "/tmp/depth";
    let mut t = Tree::new(base);
    t.git(&format!("{base}/a/b/c/deep"));
    t.git(&format!("{base}/.hidden/repo"));
    assert!(t.scan(base, 2).is_empty());
    assert_eq!(t.scan(base, 6), vec![format!("{base}/a/b/c/deep")]);
}

#[test]
fn git_file_worktree_counts_as_root() {
    let base = "/tmp/wt";
    let mut t = Tree::new(base);
    t.mkdir(&format!("{base}/worktree"));
    t.files.push(format!("{base}/worktree/.git"));
    assert_eq!(t.scan(base, 6), vec![format!("{base}/worktree")]);
}

#[test]
fn scan_skips_symlinks_and_sorts_by_path() {
    let mut scan = ProjectScan::start(
        "/r",
        3,
        Some(vec![
            DirEntryInfo { name: "b".into(), is_dir: true, is_symlink: false },
            DirEntryInfo { name: "link".into(), is_dir: false, is_symlink: true },
            DirEntryInfo { name: "a-b".into(), is_dir: true, is_symlink: false },
            DirEntryInfo { name: "a".into(), is_dir: true, is_symlink: false },
            DirEntryInfo { name: "f.txt".into(), is_dir: false, is_symlink: false },
        ]),
    );
    let mut seen = Vec::new();
    while let Some((d, remaining)) = scan.next_dir() {
        assert_eq!(remaining, 2);
        seen.push(d.clone());
        scan.record(d, remaining, true, None);
    }
    seen.sort();
    assert_eq!(seen, vec!["/r/a", "/r/a-b", "/r/b"]);
    // Path order puts "a" (and everything under it) before "a-b".
    assert_eq!(scan.finish(), vec!["/r/a", "/r/a-b", "/r/b"]);
    assert!(!ProjectScan::needs_listing(true, 5));
    assert!(!ProjectScan::needs_listing(false, 0));
    assert!(ProjectScan::needs_listing(false, 1));
}

#[test]
fn tree_path_is_segments_between_root_and_project() {
    let root = "/r/Developer";
    assert_eq!(
        tree_path(root, "/r/Developer/gh/lockyc/warden"),
        vec!["gh".to_string(), "lockyc".to_string()]
    );
    assert!(tree_path(root, "/r/Developer/loose").is_empty());
}

#[test]
fn tree_path_outside_the_root_is_empty() {
    assert!(tree_path("/r/Developer", "/elsewhere/x/y").is_empty());
    assert!(tree_path("/r/Developer", "/r/Dev/x").is_empty());
    assert_eq!(tree_path("/r/Developer/", "/r/Developer//a/./b/c"), vec!["a", "b"]);
}

#[test]
fn resolve_defaults_name_to_basename_and_depth_to_default() {
    let r = resolve_root_dir(None, "~/Developer", None).unwrap();
    assert_eq!(r.name, "Developer");
    assert_eq!(r.depth, DEFAULT_ROOT_DEPTH);
    assert!(r.dir.starts_with('/'), "tilde must expand");
}

#[test]
fn resolve_trims_explicit_name_and_keeps_depth() {
    let r = resolve_root_dir(Some("  Dev  "), "/tmp/x", Some(3)).unwrap();
    assert_eq!(r.name, "Dev");
    assert_eq!(r.depth, 3);
}

#[test]
fn resolve_rejects_empty_dir_name_and_zero_depth() {
    assert_eq!(resolve_root_dir(None, "  ", None), Err(RootError::EmptyDir));
    assert_eq!(resolve_root_dir(Some(" "), "/tmp/x", None), Err(RootError::EmptyName));
    assert_eq!(resolve_root_dir(None, "/tmp/x", Some(0)), Err(RootError::ZeroDepth(0)));
}

#[test]
fn resolve_expands_tilde_against_a_given_home() {
    let r = resolve_root_dir_in(Some("/home/u"), None, " ~/Developer ", None).unwrap();
    assert_eq!(r, RootDir { name: "Developer".into(), dir: "/home/u/Developer".into(), depth: 6 });
    let r = resolve_root_dir_in(Some("/home/u"), None, "~", Some(2)).unwrap();
    assert_eq!(r, RootDir { name: "u".into(), dir: "/home/u".into(), depth: 2 });
    let r = resolve_root_dir_in(None, None, "~/x", None).unwrap();
    assert_eq!(r.dir, "~/x");
    let r = resolve_root_dir_in(None, None, "~", None).unwrap();
    assert_eq!(r.dir, ".");
    let r = resolve_root_dir_in(Some("/h"), None, "/", None).unwrap();
    assert_eq!(r.name, "/");
    let r = resolve_root_dir_in(Some("/h"), None, "~user/x", None).unwrap();
    assert_eq!(r.dir, "~user/x");
}

#[test]
fn discover_maps_each_project_with_treepath_and_section() {
    let base = "/tmp/discover";
    let mut t = Tree::new(base);
    t.git(&format!("{base}/gh/lockyc/lector"));
    t.git(&format!("{base}/solo"));
    let root = RootDir { name: "Dev".into(), dir: base.into(), depth: 6 };
    let found = t.scan(&root.dir, root.depth);
    let got = discover_projects(&[(root.clone(), found)]);
    assert_eq!(got.len(), 2);
    assert_eq!(got[0].path, format!("{base}/gh/lockyc/lector"));
    assert_eq!(got[0].tree_path, vec!["gh".to_string(), "lockyc".to_string()]);
    assert_eq!(got[0].section, "Dev");
    assert!(got[1].tree_path.is_empty());
    assert_eq!(got[1].section, "Dev");
}

#[test]
fn discover_preserves_root_order_and_emits_overlap_twice() {
    let base = "/tmp/discover-order";
    let mut t = Tree::new(base);
    t.git(&format!("{base}/proj"));
    let a = RootDir { name: "A".into(), dir: base.into(), depth: 6 };
    let b = RootDir { name: "B".into(), dir: base.into(), depth: 6 };
    let got = discover_projects(&[
        (a.clone(), t.scan(&a.dir, a.depth)),
        (b.clone(), t.scan(&b.dir, b.depth)),
    ]);
    assert_eq!(got.len(), 2);
    assert_eq!(got[0].section, "A");
    assert_eq!(got[1].section, "B");
}

#[test]
fn two_scans_of_one_tree_agree_and_list_each_project_once() {
    let base = "/tmp/agree";
    let mut t = Tree::new(base);
    t.git(&format!("{base}/b/two"));
    t.git(&format!("{base}/a/one"));
    t.git(&format!("{base}/a/one-more"));
    t.git(&format!("{base}/c"));
    let first = t.scan(base, 4);
    let second = t.scan(base, 4);
    assert_eq!(first, second);
    assert_eq!(
        first,
        vec![
            format!("{base}/a/one"),
            format!("{base}/a/one-more"),
            format!("{base}/b/two"),
            format!("{base}/c"),
        ]
    );
    for w in first.windows(2) {
        assert!(config_core::path_order::path_less(&w[0], &w[1]));
    }
}

#[test]
fn a_deeper_scan_keeps_what_a_shallower_one_found() {
    let base = "/tmp/monotone";
    let mut t = Tree::new(base);
    t.git(&format!("{base}/x"));
    t.git(&format!("{base}/y/z"));
    t.git(&format!("{base}/y/w/v"));
    let shallow = t.scan(base, 1);
    let middle = t.scan(base, 2);
    let deep = t.scan(base, 3);
    assert_eq!(shallow, vec![format!("{base}/x")]);
    assert_eq!(middle, vec![format!("{base}/x"), format!("{base}/y/z")]);
    assert_eq!(deep, vec![format!("{base}/x"), format!("{base}/y/w/v"), format!("{base}/y/z")]);
    for p in &shallow {
        assert!(middle.contains(p));
    }
    for p in &middle {
        assert!(deep.contains(p));
    }
}
