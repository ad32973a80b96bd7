use hf_hub::path::CachePath;
use hf_hub::path_set::PathSet;
use std::path::{Path, PathBuf};

const SPELLINGS: [&str; 22] = [
    "", "/", "//", ".", "..", "./", "/.", "a", "a/", "a//", "/a", "//a", "./a", "a/.", "a/./b", "a/b", "a//b", "a/../b",
    "./.", "a/..", "/a/b.git", ".locks",
];

#[test]
fn paths_compare_by_components() {
    for left in SPELLINGS {
        for right in SPELLINGS {
            let expected = Path::new(left) == Path::new(right);
            assert_eq!(CachePath::new(left).same_path(&CachePath::new(right)), expected, "{left:?} {right:?}");
            assert_eq!(CachePath::new(left) == CachePath::new(right), expected);
        }
    }
}

#[test]
fn joining_follows_the_platform() {
    for left in SPELLINGS {
        for right in SPELLINGS {
            let expected: PathBuf = Path::new(left).join(right);
            let joined = CachePath::new(left).join(right.as_bytes());
            assert_eq!(joined.bytes, expected.as_os_str().as_encoded_bytes(), "{left:?} {right:?}");
        }
    }
}

#[test]
fn file_names_follow_the_platform() {
    for text in SPELLINGS {
        let expected = Path::new(text).file_name().map(|n| n.as_encoded_bytes().to_vec());
        assert_eq!(CachePath::new(text).file_name(), expected, "{text:?}");
        assert_eq!(CachePath::new(text).rooted(), Path::new(text).is_absolute());
    }
}

#[test]
fn joined_names_become_the_last_component() {
    let path = CachePath::new("/cache/").join(b".locks").join(b"models--a--b");
    let names: Vec<&[u8]> = vec![b"cache", b".locks", b"models--a--b"];
    assert_eq!(path.components(), names);
}

#[test]
fn sets_keep_one_spelling_of_a_path() {
    let mut set = PathSet::new();
    assert!(set.is_empty());
    assert!(set.insert(CachePath::new("a/b")));
    assert!(!set.insert(CachePath::new("a//b/")));
    assert!(set.insert(CachePath::new("/a/b")));
    assert_eq!(set.len(), 2);
    assert!(set.contains(&CachePath::new("a/./b")));
    assert!(!set.contains(&CachePath::new("b")));
    assert_eq!(set.get(0).bytes, b"a/b");
    assert_eq!(set.get(1).bytes, b"/a/b");
    let copy = set.clone();
    assert_eq!(copy.len(), 2);
    assert_eq!(copy.get(1).bytes, b"/a/b");
}
