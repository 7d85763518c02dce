use local_exec::digest::Digest;
use local_exec::outputs::{capture_outputs, empty_tree_digest, CapturedDir, CapturedFile, DirNode};
use local_exec::paths::RelativePath;
use sha2::Digest as _;

fn rel(s: &str) -> RelativePath {
    RelativePath::new(s.to_owned()).unwrap()
}

fn file(path: &str, content: &[u8]) -> CapturedFile {
    CapturedFile {
        path: rel(path),
        digest: Digest::of_bytes(content),
        is_executable: false,
    }
}

#[test]
fn sha256_wrapper_matches_the_hash_itself() {
    // The library's digest must be the real SHA-256 of the bytes, not the
    // bytes handed back unchanged.
    let d = Digest::of_bytes(b"roland");
    let expected = sha2::Sha256::digest(b"roland").to_vec();
    assert_eq!(d.fingerprint, expected);
    assert_eq!(d.size_bytes, 6);
    assert_ne!(d.fingerprint, b"roland".to_vec());
}

#[test]
fn no_captures_yield_the_empty_directory_digest() {
    let d = capture_outputs(&Vec::new(), &Vec::new());
    assert_eq!(d, empty_tree_digest());
}

#[test]
fn a_captured_file_changes_the_digest() {
    let d = capture_outputs(&vec![file("roland.ext", b"R")], &Vec::new());
    assert_ne!(d, empty_tree_digest());
}

#[test]
fn missing_declared_outputs_leave_no_trace() {
    // A declared output that was never created is simply absent from the
    // walk, so capturing with it declared equals capturing without it.
    let with_only_found = capture_outputs(&vec![file("roland.ext", b"R")], &Vec::new());
    let direct = capture_outputs(&vec![file("roland.ext", b"R")], &Vec::new());
    assert_eq!(with_only_found, direct);
    assert_ne!(with_only_found, empty_tree_digest());
}

#[test]
fn overlapping_file_and_directory_merge_without_duplication() {
    // Declaring `cats` as an output directory and `cats/roland.ext` as an
    // output file captures the file once.
    let overlap = capture_outputs(
        &vec![file("cats/roland.ext", b"R"), file("cats/roland.ext", b"R")],
        &vec![CapturedDir { path: rel("cats") }],
    );
    let once = capture_outputs(&vec![file("cats/roland.ext", b"R")], &Vec::new());
    assert_eq!(overlap, once);
}

#[test]
fn capture_order_does_not_change_the_digest() {
    let a = capture_outputs(
        &vec![file("cats/roland.ext", b"R"), file("treats.ext", b"C")],
        &Vec::new(),
    );
    let b = capture_outputs(
        &vec![file("treats.ext", b"C"), file("cats/roland.ext", b"R")],
        &Vec::new(),
    );
    assert_eq!(a, b);
}

#[test]
fn declared_route_does_not_change_the_digest() {
    // Capturing `cats/roland.ext` as a declared file equals capturing the
    // directory `cats` whose walk found the same file.
    let as_files = capture_outputs(
        &vec![file("treats.ext", b"C"), file("cats/roland.ext", b"R")],
        &Vec::new(),
    );
    let as_dir_walk = capture_outputs(
        &vec![file("cats/roland.ext", b"R"), file("treats.ext", b"C")],
        &vec![CapturedDir { path: rel("cats") }],
    );
    assert_eq!(as_files, as_dir_walk);
}

#[test]
fn an_empty_directory_is_part_of_the_digest() {
    let with_dir = capture_outputs(&Vec::new(), &vec![CapturedDir { path: rel("falcons") }]);
    assert_ne!(with_dir, empty_tree_digest());
    let again = capture_outputs(&Vec::new(), &vec![CapturedDir { path: rel("falcons") }]);
    assert_eq!(with_dir, again);
}

#[test]
fn file_content_changes_the_digest() {
    let a = capture_outputs(&vec![file("roland.ext", b"R")], &Vec::new());
    let b = capture_outputs(&vec![file("roland.ext", b"S")], &Vec::new());
    assert_ne!(a, b);
}

#[test]
fn executable_bit_changes_the_digest() {
    let plain = capture_outputs(&vec![file("run.ext", b"R")], &Vec::new());
    let exec_file = CapturedFile {
        path: rel("run.ext"),
        digest: Digest::of_bytes(b"R"),
        is_executable: true,
    };
    let executable = capture_outputs(&vec![exec_file], &Vec::new());
    assert_ne!(plain, executable);
}

#[test]
fn tree_digest_matches_capture_of_same_entries() {
    let t = DirNode::empty()
        .add_file(&rel("cats/roland.ext"), Digest::of_bytes(b"R"), false)
        .add_file(&rel("treats.ext"), Digest::of_bytes(b"C"), false);
    let d = t.digest();
    let captured = capture_outputs(
        &vec![file("cats/roland.ext", b"R"), file("treats.ext", b"C")],
        &Vec::new(),
    );
    assert_eq!(d, captured);
}
