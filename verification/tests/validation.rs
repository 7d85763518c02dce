use local_exec::paths::{CacheDest, CacheName, RelativePath};

#[test]
fn cache_name_accepts_simple_name() {
    let name = CacheName::new("geo".to_owned()).unwrap();
    assert_eq!(name.as_str(), "geo");
}

#[test]
fn cache_name_rejects_empty() {
    assert!(CacheName::new(String::new()).is_err());
}

#[test]
fn cache_name_rejects_path_separator() {
    assert!(CacheName::new("a/b".to_owned()).is_err());
}

#[test]
fn cache_dest_accepts_nested_path() {
    let dest = CacheDest::new(".cache/geo".to_owned()).unwrap();
    assert_eq!(dest.as_path().to_path_string(), ".cache/geo");
}

#[test]
fn cache_dest_rejects_absolute() {
    assert!(CacheDest::new("/var/cache".to_owned()).is_err());
}

#[test]
fn cache_dest_rejects_parent_traversal() {
    assert!(CacheDest::new("a/../b".to_owned()).is_err());
    assert!(CacheDest::new("..".to_owned()).is_err());
}

#[test]
fn relative_path_splits_components() {
    let p = RelativePath::new("cats/roland.ext".to_owned()).unwrap();
    assert_eq!(p.num_parts(), 2);
    assert_eq!(p.part(0).as_str(), "cats");
    assert_eq!(p.part(1).as_str(), "roland.ext");
    assert_eq!(p.to_path_string(), "cats/roland.ext");
}

#[test]
fn relative_path_rejects_absolute() {
    assert!(RelativePath::new("/bin/echo".to_owned()).is_err());
}

#[test]
fn relative_path_rejects_parent_traversal() {
    assert!(RelativePath::new("cats/../../etc".to_owned()).is_err());
}

#[test]
fn relative_path_drops_empty_and_dot_segments() {
    let p = RelativePath::new("./cats//roland.ext".to_owned()).unwrap();
    assert_eq!(p.num_parts(), 2);
    assert_eq!(p.to_path_string(), "cats/roland.ext");
}

#[test]
fn relative_path_parent() {
    let p = RelativePath::new("cats/roland.ext".to_owned()).unwrap();
    let parent = p.parent().unwrap();
    assert_eq!(parent.to_path_string(), "cats");
    let root = parent.parent().unwrap();
    assert_eq!(root.num_parts(), 0);
    assert!(root.parent().is_none());
}
