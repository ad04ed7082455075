use std::path::PathBuf;
use vincenzo::paths::test_same_path;

fn texts(v: &[&str]) -> Vec<String> {
    v.iter().map(|s| s.to_string()).collect()
}

#[test]
fn same_paths() {
    assert!(test_same_path(&texts(&["a", "b"]), &texts(&["a/b"])));
    assert!(test_same_path(&texts(&["a", "b"]), &texts(&["a/", "", ".", "b//"])));
    assert!(test_same_path(&texts(&["x", "/a"]), &texts(&["/a"])));
    assert!(!test_same_path(&texts(&["a"]), &texts(&["/a"])));
    assert!(!test_same_path(&texts(&["a"]), &texts(&["./a"])));
    assert!(!test_same_path(&texts(&["a", "b"]), &texts(&["b", "a"])));
    assert!(!test_same_path(&texts(&["a", "..", "b"]), &texts(&["b"])));
}

/// Paths are compared as the paths of the standard library, where `/` is the separator.
#[test]
fn paths_of_the_standard_library() {
    let parts = ["", ".", "..", "a", "b", "/", "/a", "a/", "a/b", "./a", "a/./b", "a//b", ".a"];
    let mut paths: Vec<Vec<String>> = vec![vec![]];
    for first in parts {
        paths.push(texts(&[first]));
        for second in parts {
            paths.push(texts(&[first, second]));
        }
    }
    for second in parts {
        paths.push(texts(&["a", second, "b"]));
        paths.push(texts(&[".", second, "b"]));
    }
    for x in &paths {
        for y in &paths {
            let a: PathBuf = x.iter().collect();
            let b: PathBuf = y.iter().collect();
            assert_eq!(test_same_path(x, y), a == b, "{:?} {:?}", x, y);
        }
    }
}
