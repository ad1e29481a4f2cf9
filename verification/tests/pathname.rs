use config_core::path_order::{path_less, sort_paths};
use config_core::pathname::{components, join, path_file_name, strip_prefix};
use std::path::{Path, PathBuf};

fn std_components(s: &str) -> Vec<String> {
    Path::new(s)
        .components()
        .map(|c| c.as_os_str().to_string_lossy().into_owned())
        .collect()
}

const SAMPLES: [&str; 16] = [
    "", "/", "//", "a", "/a/b", "a//b/", "./a", ".", "./", "a/./b", "../x", "a/..", "/./a",
    ".hidden/x", "a/b/.", "/r/Developer/gh/lockyc/warden",
];

#[test]
fn components_match_std_path() {
    for s in SAMPLES {
        assert_eq!(components(s), std_components(s), "{:?}", s);
    }
}

#[test]
fn join_matches_std_path() {
    for base in ["", "/", "a", "a/", "/home/u"] {
        for rel in ["", "b", "b/c", "/abs", ".git"] {
            let expected = PathBuf::from(base).join(rel).to_string_lossy().into_owned();
            assert_eq!(join(base, rel), expected, "{:?} {:?}", base, rel);
        }
    }
}

#[test]
fn file_name_matches_std_path() {
    for s in SAMPLES {
        let expected = Path::new(s).file_name().map(|n| n.to_string_lossy().into_owned());
        assert_eq!(path_file_name(s), expected, "{:?}", s);
    }
}

#[test]
fn strip_prefix_matches_std_path() {
    for p in SAMPLES {
        for b in SAMPLES {
            let expected = Path::new(p)
                .strip_prefix(b)
                .ok()
                .map(|r| std_components(&r.to_string_lossy()));
            assert_eq!(strip_prefix(p, b), expected, "{:?} {:?}", p, b);
        }
    }
}

#[test]
fn order_matches_std_path() {
    let extra = ["a-b", "a/b", "a.b", "a", "b", "/a", "A", "é", "z/é", "z/e"];
    let all: Vec<&str> = SAMPLES.iter().copied().chain(extra.iter().copied()).collect();
    for a in &all {
        for b in &all {
            assert_eq!(path_less(a, b), Path::new(a) < Path::new(b), "{:?} {:?}", a, b);
        }
    }
}

#[test]
fn sort_matches_std_path_sort() {
    let input: Vec<String> = ["/b/x", "/a-b", "/a/b", "/a", "/a/b/c", "/a.b", "/B"]
        .iter()
        .map(|s| s.to_string())
        .collect();
    let mut expected: Vec<PathBuf> = input.iter().map(PathBuf::from).collect();
    expected.sort();
    let expected: Vec<String> =
        expected.iter().map(|p| p.to_string_lossy().into_owned()).collect();
    assert_eq!(sort_paths(input), expected);
    assert_eq!(sort_paths(Vec::new()), Vec::<String>::new());
}
