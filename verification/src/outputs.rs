//! Assembly of captured outputs into one Merkle directory tree.
//!
//! After a run, the declared output files and directories that exist on disk
//! are handed in as plain captured entries. They are merged into a canonical
//! tree — children sorted by name, one entry per name — and the tree is
//! digested bottom-up: each directory's fingerprint is the hash of an
//! encoding of its children, a file child contributing its content digest and
//! a directory child its own fingerprint.

use crate::digest::{dec_bytes, sha256, sha256_of, spec_dec_bytes, Digest, DigestModel};
use crate::paths::RelativePath;
use vstd::prelude::*;

verus! {

/// Model of a file child: its name, content digest, and executable bit.
pub struct FileModel {
    pub name: Seq<char>,
    pub digest: DigestModel,
    pub is_executable: bool,
}

/// Model of a directory child.
pub struct DirChildModel {
    pub name: Seq<char>,
    pub node: DirModel,
}

/// Model of a directory: file children and directory children, in order.
pub struct DirModel {
    pub files: Seq<FileModel>,
    pub dirs: Seq<DirChildModel>,
}

impl DirModel {
    pub open spec fn empty() -> DirModel {
        DirModel { files: Seq::empty(), dirs: Seq::empty() }
    }
}

/// Byte-wise lexicographic order.
pub open spec fn bytes_lt(a: Seq<u8>, b: Seq<u8>) -> bool
    decreases a.len(),
{
    if b.len() == 0 {
        false
    } else if a.len() == 0 {
        true
    } else if a[0] != b[0] {
        a[0] < b[0]
    } else {
        bytes_lt(a.skip(1), b.skip(1))
    }
}

/// Name order: lexicographic over the UTF-8 encoding.
pub open spec fn name_lt(a: Seq<char>, b: Seq<char>) -> bool {
    bytes_lt(vstd::utf8::encode_utf8(a), vstd::utf8::encode_utf8(b))
}

/// A common prefix does not affect the order of what follows it.
proof fn lemma_bytes_lt_skip(a: Seq<u8>, b: Seq<u8>, i: int)
    requires
        0 <= i <= a.len(),
        i <= b.len(),
        forall|k: int| 0 <= k < i ==> a[k] == b[k],
    ensures
        bytes_lt(a, b) == bytes_lt(a.skip(i), b.skip(i)),
    decreases i,
{
    if i > 0 {
        if b.len() == 0 {
        } else if a.len() == 0 {
        } else {
            assert(a[0] == b[0]);
            lemma_bytes_lt_skip(a.skip(1), b.skip(1), i - 1);
            assert(a.skip(1).skip(i - 1) =~= a.skip(i));
            assert(b.skip(1).skip(i - 1) =~= b.skip(i));
        }
    } else {
        assert(a.skip(0) =~= a);
        assert(b.skip(0) =~= b);
    }
}

/// Compare two names in the tree's canonical order.
pub fn name_bytes_lt(a: &str, b: &str) -> (r: bool)
    ensures
        r == name_lt(a@, b@),
{
    let ab = a.as_bytes();
    let bb = b.as_bytes();
    let n = if ab.len() < bb.len() {
        ab.len()
    } else {
        bb.len()
    };
    let mut i: usize = 0;
    while i < n
        invariant
            n <= ab@.len(),
            n <= bb@.len(),
            n == ab@.len() || n == bb@.len(),
            i <= n,
            ab@ == vstd::utf8::encode_utf8(a@),
            bb@ == vstd::utf8::encode_utf8(b@),
            forall|k: int| 0 <= k < i ==> ab@[k] == bb@[k],
        decreases n - i,
    {
        if ab[i] < bb[i] {
            proof {
                lemma_bytes_lt_skip(ab@, bb@, i as int);
            }
            return true;
        }
        if ab[i] > bb[i] {
            proof {
                lemma_bytes_lt_skip(ab@, bb@, i as int);
            }
            return false;
        }
        i += 1;
    }
    proof {
        lemma_bytes_lt_skip(ab@, bb@, n as int);
    }
    ab.len() < bb.len()
}

/// An executable file child of the tree.
pub struct FileChild {
    pub name: String,
    pub digest: Digest,
    pub is_executable: bool,
}

impl View for FileChild {
    type V = FileModel;

    open spec fn view(&self) -> FileModel {
        FileModel { name: self.name@, digest: self.digest@, is_executable: self.is_executable }
    }
}

/// An executable directory child of the tree.
pub struct DirChild {
    pub name: String,
    pub node: DirNode,
}

/// A directory of the output tree.
pub struct DirNode {
    pub files: Vec<FileChild>,
    pub dirs: Vec<DirChild>,
}

/// The model of a directory node.
pub open spec fn dir_model(n: DirNode) -> DirModel
    decreases n, 0int,
{
    DirModel { files: files_view(n.files@), dirs: dirs_model(n.dirs@, n.dirs@.len() as int) }
}

/// The models of the first `k` directory children.
pub open spec fn dirs_model(dirs: Seq<DirChild>, k: int) -> Seq<DirChildModel>
    decreases dirs, k,
    via dirs_model_decreases
{
    if k <= 0 || k > dirs.len() {
        Seq::empty()
    } else {
        dirs_model(dirs, k - 1).push(
            DirChildModel { name: dirs[k - 1].name@, node: dir_model(dirs[k - 1].node) },
        )
    }
}

#[via_fn]
proof fn dirs_model_decreases(dirs: Seq<DirChild>, k: int) {
    if 0 < k <= dirs.len() {
        assert(decreases_to!(dirs => dirs[k - 1]));
        assert(decreases_to!(dirs[k - 1] => dirs[k - 1].node));
    }
}

/// The models of a list of file children.
pub open spec fn files_view(files: Seq<FileChild>) -> Seq<FileModel> {
    Seq::new(files.len(), |i: int| files[i]@)
}

/// The models of a list of directory children, pointwise.
pub open spec fn dirs_view(dirs: Seq<DirChild>) -> Seq<DirChildModel> {
    Seq::new(
        dirs.len(),
        |i: int| DirChildModel { name: dirs[i].name@, node: dir_model(dirs[i].node) },
    )
}

proof fn lemma_dirs_model_view_rec(dirs: Seq<DirChild>, k: int)
    requires
        0 <= k <= dirs.len(),
    ensures
        dirs_model(dirs, k).len() == k,
        forall|j: int| 0 <= j < k ==> dirs_model(dirs, k)[j] == dirs_view(dirs)[j],
    decreases k,
{
    if k > 0 {
        lemma_dirs_model_view_rec(dirs, k - 1);
    }
}

/// A directory node's child models are the pointwise models of its children.
proof fn lemma_dirs_model_view(dirs: Seq<DirChild>)
    ensures
        dirs_model(dirs, dirs.len() as int) == dirs_view(dirs),
{
    lemma_dirs_model_view_rec(dirs, dirs.len() as int);
    assert(dirs_model(dirs, dirs.len() as int) =~~= dirs_view(dirs));
}

impl View for DirNode {
    type V = DirModel;

    open spec fn view(&self) -> DirModel {
        dir_model(*self)
    }
}

/// Sorted insertion of a file child: replaces the entry of the same name if
/// one exists, otherwise takes the first position in name order.
pub open spec fn spec_insert_file(files: Seq<FileModel>, f: FileModel) -> Seq<FileModel>
    decreases files.len(),
{
    if files.len() == 0 {
        seq![f]
    } else if files[0].name == f.name {
        seq![f] + files.skip(1)
    } else if name_lt(f.name, files[0].name) {
        seq![f] + files
    } else {
        seq![files[0]] + spec_insert_file(files.skip(1), f)
    }
}

proof fn lemma_insert_file_skip(files: Seq<FileModel>, f: FileModel, i: int)
    requires
        0 <= i <= files.len(),
        forall|k: int|
            0 <= k < i ==> (#[trigger] files[k]).name != f.name && !name_lt(f.name, files[k].name),
    ensures
        spec_insert_file(files, f) =~~= files.subrange(0, i) + spec_insert_file(files.skip(i), f),
    decreases i,
{
    if i == 0 {
        assert(files.skip(0) =~= files);
        assert(files.subrange(0, 0) + spec_insert_file(files, f) =~= spec_insert_file(files, f));
    } else {
        lemma_insert_file_skip(files.skip(1), f, i - 1);
        assert(files.skip(1).skip(i - 1) =~= files.skip(i));
        assert(files.skip(1).subrange(0, i - 1) =~= files.subrange(1, i));
        assert(seq![files[0]] + files.subrange(1, i) =~= files.subrange(0, i));
        assert(spec_insert_file(files, f) =~~= files.subrange(0, i) + spec_insert_file(
            files.skip(i),
            f,
        ));
    }
}

/// Sorted insertion of a directory child at the first position in name order.
pub open spec fn spec_insert_dir(dirs: Seq<DirChildModel>, c: DirChildModel) -> Seq<DirChildModel>
    decreases dirs.len(),
{
    if dirs.len() == 0 {
        seq![c]
    } else if name_lt(c.name, dirs[0].name) {
        seq![c] + dirs
    } else {
        seq![dirs[0]] + spec_insert_dir(dirs.skip(1), c)
    }
}

proof fn lemma_insert_dir_skip(dirs: Seq<DirChildModel>, c: DirChildModel, i: int)
    requires
        0 <= i <= dirs.len(),
        forall|k: int| 0 <= k < i ==> !name_lt(c.name, (#[trigger] dirs[k]).name),
    ensures
        spec_insert_dir(dirs, c) =~~= dirs.subrange(0, i) + spec_insert_dir(dirs.skip(i), c),
    decreases i,
{
    if i == 0 {
        assert(dirs.skip(0) =~= dirs);
        assert(dirs.subrange(0, 0) + spec_insert_dir(dirs, c) =~= spec_insert_dir(dirs, c));
    } else {
        lemma_insert_dir_skip(dirs.skip(1), c, i - 1);
        assert(dirs.skip(1).skip(i - 1) =~= dirs.skip(i));
        assert(dirs.skip(1).subrange(0, i - 1) =~= dirs.subrange(1, i));
        assert(seq![dirs[0]] + dirs.subrange(1, i) =~= dirs.subrange(0, i));
        assert(spec_insert_dir(dirs, c) =~~= dirs.subrange(0, i) + spec_insert_dir(
            dirs.skip(i),
            c,
        ));
    }
}

/// The first index holding a directory child of the given name; the length
/// if there is none.
pub open spec fn spec_dir_find(dirs: Seq<DirChildModel>, name: Seq<char>) -> int
    decreases dirs.len(),
{
    if dirs.len() == 0 {
        0
    } else if dirs[0].name == name {
        0
    } else {
        1 + spec_dir_find(dirs.skip(1), name)
    }
}

proof fn lemma_dir_find_props(dirs: Seq<DirChildModel>, name: Seq<char>)
    ensures
        0 <= spec_dir_find(dirs, name) <= dirs.len(),
        spec_dir_find(dirs, name) < dirs.len() ==> dirs[spec_dir_find(dirs, name)].name == name,
        forall|k: int| 0 <= k < spec_dir_find(dirs, name) ==> (#[trigger] dirs[k]).name != name,
    decreases dirs.len(),
{
    if dirs.len() > 0 && dirs[0].name != name {
        lemma_dir_find_props(dirs.skip(1), name);
        assert(forall|k: int|
            0 < k < spec_dir_find(dirs, name) ==> (#[trigger] dirs[k]).name == dirs.skip(1)[k
                - 1].name);
    }
}

/// Adding a file at a path: descends through directory children, creating
/// them as needed, and places the file at the final component. Adding at an
/// empty path leaves the tree unchanged.
pub open spec fn spec_add_file(
    n: DirModel,
    path: Seq<Seq<char>>,
    d: DigestModel,
    x: bool,
) -> DirModel
    decreases path.len(),
{
    if path.len() == 0 {
        n
    } else if path.len() == 1 {
        DirModel {
            files: spec_insert_file(n.files, FileModel { name: path[0], digest: d, is_executable: x }),
            dirs: n.dirs,
        }
    } else {
        let j = spec_dir_find(n.dirs, path[0]);
        if j < n.dirs.len() {
            DirModel {
                files: n.files,
                dirs: n.dirs.update(
                    j,
                    DirChildModel {
                        name: path[0],
                        node: spec_add_file(n.dirs[j].node, path.skip(1), d, x),
                    },
                ),
            }
        } else {
            DirModel {
                files: n.files,
                dirs: spec_insert_dir(
                    n.dirs,
                    DirChildModel {
                        name: path[0],
                        node: spec_add_file(DirModel::empty(), path.skip(1), d, x),
                    },
                ),
            }
        }
    }
}

/// Adding a directory at a path: descends as for a file, creating missing
/// directory children, and ensures the final component exists as a directory.
pub open spec fn spec_add_dir(n: DirModel, path: Seq<Seq<char>>) -> DirModel
    decreases path.len(),
{
    if path.len() == 0 {
        n
    } else {
        let j = spec_dir_find(n.dirs, path[0]);
        if j < n.dirs.len() {
            DirModel {
                files: n.files,
                dirs: n.dirs.update(
                    j,
                    DirChildModel {
                        name: path[0],
                        node: spec_add_dir(n.dirs[j].node, path.skip(1)),
                    },
                ),
            }
        } else {
            DirModel {
                files: n.files,
                dirs: spec_insert_dir(
                    n.dirs,
                    DirChildModel { name: path[0], node: spec_add_dir(DirModel::empty(), path.skip(1)) },
                ),
            }
        }
    }
}

/// Insert a file child into a sorted child list.
fn insert_file_child(files: &mut Vec<FileChild>, f: FileChild)
    ensures
        files_view(final(files)@) =~~= spec_insert_file(
            files_view(old(files)@),
            f@,
        ),
{
    let ghost fm = files_view(files@);
    let ghost fv = f@;
    let mut i: usize = 0;
    while i < files.len()
        invariant
            i <= files@.len(),
            files@ == old(files)@,
            fm == files_view(files@),
            fv == f@,
            forall|k: int|
                0 <= k < i ==> (#[trigger] fm[k]).name != fv.name && !name_lt(fv.name, fm[k].name),
        decreases files@.len() - i,
    {
        if files[i].name.eq(&f.name) {
            proof {
                lemma_insert_file_skip(fm, fv, i as int);
            }
            files.remove(i);
            files.insert(i, f);
            proof {
                assert(files_view(files@) =~~= fm.subrange(0, i as int)
                    + spec_insert_file(fm.skip(i as int), fv));
            }
            return ;
        }
        if name_bytes_lt(f.name.as_str(), files[i].name.as_str()) {
            proof {
                lemma_insert_file_skip(fm, fv, i as int);
            }
            files.insert(i, f);
            proof {
                assert(files_view(files@) =~~= fm.subrange(0, i as int)
                    + spec_insert_file(fm.skip(i as int), fv));
            }
            return ;
        }
        i += 1;
    }
    proof {
        lemma_insert_file_skip(fm, fv, fm.len() as int);
        assert(fm.skip(fm.len() as int) =~= Seq::<FileModel>::empty());
    }
    files.push(f);
    proof {
        assert(files_view(files@) =~~= fm.subrange(0, fm.len() as int)
            + spec_insert_file(Seq::<FileModel>::empty(), fv));
    }
}

impl DirNode {
    /// A directory with no children.
    pub fn empty() -> (r: DirNode)
        ensures
            r@ == DirModel::empty(),
    {
        let r = DirNode { files: Vec::new(), dirs: Vec::new() };
        proof {
            assert(r@.files =~= Seq::<FileModel>::empty());
            assert(r@.dirs =~= Seq::<DirChildModel>::empty());
            assert(r@ == DirModel::empty());
        }
        r
    }

    /// Add a captured file at a sandbox-relative path.
    pub fn add_file(self, path: &RelativePath, digest: Digest, is_executable: bool) -> (r: DirNode)
        ensures
            r@ == spec_add_file(self@, path@, digest@, is_executable),
    {
        let parts = path.parts();
        let r = add_file_from(self, parts, 0, digest, is_executable);
        proof {
            assert(parts.deep_view().skip(0) =~= path@);
        }
        r
    }

    /// Record that a captured directory exists at a sandbox-relative path.
    pub fn add_dir(self, path: &RelativePath) -> (r: DirNode)
        ensures
            r@ == spec_add_dir(self@, path@),
    {
        let parts = path.parts();
        let r = add_dir_from(self, parts, 0);
        proof {
            assert(parts.deep_view().skip(0) =~= path@);
        }
        r
    }
}

/// Descend from component `i`, adding the file at the remaining path.
fn add_file_from(n: DirNode, parts: &Vec<String>, i: usize, digest: Digest, x: bool) -> (r: DirNode)
    requires
        i <= parts@.len(),
    ensures
        r@ == spec_add_file(n@, parts.deep_view().skip(i as int), digest@, x),
    decreases parts@.len() - i,
{
    let ghost path = parts.deep_view().skip(i as int);
    if i == parts.len() {
        proof {
            assert(path.len() == 0);
        }
        return n;
    }
    let ghost nm = n@;
    let DirNode { files, dirs } = n;
    proof {
        assert(nm.files == files_view(files@));
        lemma_dirs_model_view(dirs@);
        assert(nm.dirs == dirs_view(dirs@));
        assert(path[0] == parts.deep_view()[i as int]);
    }
    if i + 1 == parts.len() {
        let fc = FileChild { name: parts[i].clone(), digest, is_executable: x };
        let mut files = files;
        insert_file_child(&mut files, fc);
        let r = DirNode { files, dirs };
        proof {
            lemma_dirs_model_view(r.dirs@);
            assert(r@.files =~~= spec_insert_file(
                nm.files,
                FileModel { name: path[0], digest: digest@, is_executable: x },
            ));
            assert(r@.dirs =~= nm.dirs);
            assert(r@ == spec_add_file(nm, path, digest@, x));
        }
        return r;
    }
    proof {
        assert(path.len() >= 2);
        assert(path.skip(1) =~= parts.deep_view().skip(i + 1));
    }
    let mut dirs = dirs;
    let mut j: usize = 0;
    let mut found = false;
    while j < dirs.len() && !found
        invariant
            j <= dirs@.len(),
            i < parts@.len(),
            nm.dirs == dirs_view(dirs@),
            path[0] == parts.deep_view()[i as int],
            !found ==> forall|k: int| 0 <= k < j ==> (#[trigger] nm.dirs[k]).name != path[0],
            found ==> j < dirs@.len() && nm.dirs[j as int].name == path[0] && (forall|k: int|
                0 <= k < j ==> (#[trigger] nm.dirs[k]).name != path[0]),
        decreases dirs@.len() - j, !found as int,
    {
        if dirs[j].name.eq(&parts[i]) {
            found = true;
        } else {
            j += 1;
        }
    }
    proof {
        lemma_dir_find_props(nm.dirs, path[0]);
    }
    if found {
        proof {
            assert(spec_dir_find(nm.dirs, path[0]) == j as int);
        }
        let child = dirs.remove(j);
        let DirChild { name, node } = child;
        let new_node = add_file_from(node, parts, i + 1, digest, x);
        dirs.insert(j, DirChild { name, node: new_node });
        let r = DirNode { files, dirs };
        proof {
            lemma_dirs_model_view(r.dirs@);
            assert(r@.dirs =~~= nm.dirs.update(
                j as int,
                DirChildModel {
                    name: path[0],
                    node: spec_add_file(nm.dirs[j as int].node, path.skip(1), digest@, x),
                },
            ));
            assert(r@.files =~= nm.files);
            assert(r@ == spec_add_file(nm, path, digest@, x));
        }
        r
    } else {
        proof {
            assert(spec_dir_find(nm.dirs, path[0]) == nm.dirs.len());
        }
        let sub = add_file_from(DirNode::empty(), parts, i + 1, digest, x);
        let c = DirChild { name: parts[i].clone(), node: sub };
        let ghost cm = DirChildModel {
            name: path[0],
            node: spec_add_file(DirModel::empty(), path.skip(1), digest@, x),
        };
        let mut dirs = dirs;
        insert_dir_child(&mut dirs, c);
        let r = DirNode { files, dirs };
        proof {
            lemma_dirs_model_view(r.dirs@);
            assert(r@.dirs =~~= spec_insert_dir(nm.dirs, cm));
            assert(r@.files =~= nm.files);
            assert(r@ == spec_add_file(nm, path, digest@, x));
        }
        r
    }
}

/// Descend from component `i`, ensuring the remaining path exists as a
/// directory chain.
fn add_dir_from(n: DirNode, parts: &Vec<String>, i: usize) -> (r: DirNode)
    requires
        i <= parts@.len(),
    ensures
        r@ == spec_add_dir(n@, parts.deep_view().skip(i as int)),
    decreases parts@.len() - i,
{
    let ghost path = parts.deep_view().skip(i as int);
    if i == parts.len() {
        proof {
            assert(path.len() == 0);
        }
        return n;
    }
    let ghost nm = n@;
    let DirNode { files, dirs } = n;
    proof {
        assert(nm.files == files_view(files@));
        lemma_dirs_model_view(dirs@);
        assert(nm.dirs == dirs_view(dirs@));
        assert(path[0] == parts.deep_view()[i as int]);
        assert(path.skip(1) =~= parts.deep_view().skip(i + 1));
    }
    let mut dirs = dirs;
    let mut j: usize = 0;
    let mut found = false;
    while j < dirs.len() && !found
        invariant
            j <= dirs@.len(),
            i < parts@.len(),
            nm.dirs == dirs_view(dirs@),
            path[0] == parts.deep_view()[i as int],
            !found ==> forall|k: int| 0 <= k < j ==> (#[trigger] nm.dirs[k]).name != path[0],
            found ==> j < dirs@.len() && nm.dirs[j as int].name == path[0] && (forall|k: int|
                0 <= k < j ==> (#[trigger] nm.dirs[k]).name != path[0]),
        decreases dirs@.len() - j, !found as int,
    {
        if dirs[j].name.eq(&parts[i]) {
            found = true;
        } else {
            j += 1;
        }
    }
    proof {
        lemma_dir_find_props(nm.dirs, path[0]);
    }
    if found {
        proof {
            assert(spec_dir_find(nm.dirs, path[0]) == j as int);
        }
        let child = dirs.remove(j);
        let DirChild { name, node } = child;
        let new_node = add_dir_from(node, parts, i + 1);
        dirs.insert(j, DirChild { name, node: new_node });
        let r = DirNode { files, dirs };
        proof {
            lemma_dirs_model_view(r.dirs@);
            assert(r@.dirs =~~= nm.dirs.update(
                j as int,
                DirChildModel {
                    name: path[0],
                    node: spec_add_dir(nm.dirs[j as int].node, path.skip(1)),
                },
            ));
            assert(r@.files =~= nm.files);
            assert(r@ == spec_add_dir(nm, path));
        }
        r
    } else {
        proof {
            assert(spec_dir_find(nm.dirs, path[0]) == nm.dirs.len());
        }
        let sub = add_dir_from(DirNode::empty(), parts, i + 1);
        let c = DirChild { name: parts[i].clone(), node: sub };
        let ghost cm = DirChildModel { name: path[0], node: spec_add_dir(DirModel::empty(), path.skip(1)) };
        let mut dirs = dirs;
        insert_dir_child(&mut dirs, c);
        let r = DirNode { files, dirs };
        proof {
            lemma_dirs_model_view(r.dirs@);
            assert(r@.dirs =~~= spec_insert_dir(nm.dirs, cm));
            assert(r@.files =~= nm.files);
            assert(r@ == spec_add_dir(nm, path));
        }
        r
    }
}

/// Insert a directory child into a sorted child list.
fn insert_dir_child(dirs: &mut Vec<DirChild>, c: DirChild)
    ensures
        dirs_view(final(dirs)@) =~~= spec_insert_dir(
            dirs_view(old(dirs)@),
            DirChildModel { name: c.name@, node: dir_model(c.node) },
        ),
{
    let ghost dm = dirs_view(dirs@);
    let ghost cv = DirChildModel { name: c.name@, node: dir_model(c.node) };
    let mut i: usize = 0;
    while i < dirs.len()
        invariant
            i <= dirs@.len(),
            dirs@ == old(dirs)@,
            dm == dirs_view(dirs@),
            cv == (DirChildModel { name: c.name@, node: dir_model(c.node) }),
            forall|k: int| 0 <= k < i ==> !name_lt(cv.name, (#[trigger] dm[k]).name),
        decreases dirs@.len() - i,
    {
        if name_bytes_lt(c.name.as_str(), dirs[i].name.as_str()) {
            proof {
                lemma_insert_dir_skip(dm, cv, i as int);
            }
            dirs.insert(i, c);
            proof {
                assert(dirs_view(dirs@) =~~= dm.subrange(0, i as int) + spec_insert_dir(dm.skip(i as int), cv));
            }
            return ;
        }
        i += 1;
    }
    proof {
        lemma_insert_dir_skip(dm, cv, dm.len() as int);
        assert(dm.skip(dm.len() as int) =~= Seq::<DirChildModel>::empty());
    }
    dirs.push(c);
    proof {
        assert(dirs_view(dirs@) =~~= dm.subrange(0, dm.len() as int) + spec_insert_dir(
            Seq::<DirChildModel>::empty(),
            cv,
        ));
    }
}

/// Append a slice's bytes to a buffer.
pub(crate) fn push_bytes(out: &mut Vec<u8>, s: &[u8])
    ensures
        final(out)@ == old(out)@ + s@,
{
    let mut i: usize = 0;
    proof {
        assert(out@ =~= old(out)@ + s@.subrange(0, 0));
    }
    while i < s.len()
        invariant
            i <= s@.len(),
            out@ == old(out)@ + s@.subrange(0, i as int),
        decreases s@.len() - i,
    {
        out.push(s[i]);
        proof {
            assert(old(out)@ + s@.subrange(0, i + 1) =~= (old(out)@ + s@.subrange(
                0,
                i as int,
            )).push(s@[i as int]));
        }
        i += 1;
    }
    proof {
        assert(s@.subrange(0, s@.len() as int) =~= s@);
    }
}

/// Encoding of one file child: a tag, the name, the content fingerprint, the
/// content length in decimal, and an executable marker, separated by bytes
/// that cannot occur in a name.
pub open spec fn spec_file_entry_enc(f: FileModel) -> Seq<u8> {
    seq![70u8] + vstd::utf8::encode_utf8(f.name) + seq![47u8] + f.digest.fingerprint + seq![47u8]
        + spec_dec_bytes(f.digest.size_bytes) + seq![47u8, if f.is_executable { 120u8 } else { 45u8 }]
}

/// Encoding of a directory's file children, in order.
pub open spec fn spec_files_enc(files: Seq<FileModel>) -> Seq<u8>
    decreases files.len(),
{
    if files.len() == 0 {
        Seq::empty()
    } else {
        spec_files_enc(files.drop_last()) + spec_file_entry_enc(files.last())
    }
}

/// A directory's fingerprint: the hash of its canonical encoding. Each
/// directory child contributes its own fingerprint, which makes the whole a
/// Merkle tree.
pub open spec fn spec_dir_fingerprint(n: DirModel) -> Seq<u8>
    decreases n, 1int, 0int,
{
    sha256_of(spec_dir_enc(n))
}

/// A directory's canonical encoding: its file children, then its directory
/// children, each directory child by name and fingerprint.
pub open spec fn spec_dir_enc(n: DirModel) -> Seq<u8>
    decreases n, 0int, n.dirs.len() + 1,
{
    spec_files_enc(n.files) + spec_dirs_enc(n, n.dirs.len() as int)
}

/// Encoding of the first `k` directory children.
pub open spec fn spec_dirs_enc(n: DirModel, k: int) -> Seq<u8>
    decreases n, 0int, k,
    via spec_dirs_enc_decreases
{
    if k <= 0 || k > n.dirs.len() {
        Seq::empty()
    } else {
        spec_dirs_enc(n, k - 1) + seq![68u8] + vstd::utf8::encode_utf8(n.dirs[k - 1].name)
            + seq![47u8] + spec_dir_fingerprint(n.dirs[k - 1].node)
    }
}

#[via_fn]
proof fn spec_dirs_enc_decreases(n: DirModel, k: int) {
    if 0 < k <= n.dirs.len() {
        assert(decreases_to!(n => n.dirs));
        assert(decreases_to!(n.dirs => n.dirs[k - 1]));
        assert(decreases_to!(n.dirs[k - 1] => n.dirs[k - 1].node));
    }
}

/// Compute a directory node's canonical encoding.
fn encode_node(n: &DirNode) -> (r: Vec<u8>)
    ensures
        r@ == spec_dir_enc(n@),
    decreases *n,
{
    let ghost m = n@;
    let mut out: Vec<u8> = Vec::new();
    proof {
        lemma_dirs_model_view(n.dirs@);
        assert(m.files == files_view(n.files@));
        assert(m.dirs == dirs_view(n.dirs@));
        assert(m.files.subrange(0, 0) =~= Seq::<FileModel>::empty());
        assert(out@ =~= spec_files_enc(m.files.subrange(0, 0)));
    }
    let mut i: usize = 0;
    while i < n.files.len()
        invariant
            i <= n.files@.len(),
            m == n@,
            m.files == files_view(n.files@),
            out@ == spec_files_enc(m.files.subrange(0, i as int)),
        decreases n.files@.len() - i,
    {
        let f = &n.files[i];
        out.push(70);
        push_bytes(&mut out, f.name.as_str().as_bytes());
        out.push(47);
        push_bytes(&mut out, f.digest.fingerprint.as_slice());
        out.push(47);
        let size_dec = dec_bytes(f.digest.size_bytes);
        push_bytes(&mut out, size_dec.as_slice());
        out.push(47);
        if f.is_executable {
            out.push(120);
        } else {
            out.push(45);
        }
        proof {
            let pre = m.files.subrange(0, i as int);
            assert(m.files.subrange(0, i + 1) =~= pre.push(m.files[i as int]));
            assert(pre.push(m.files[i as int]).drop_last() =~= pre);
            assert(m.files[i as int] == f@);
            assert(out@ =~= spec_files_enc(pre) + spec_file_entry_enc(m.files[i as int]));
        }
        i += 1;
    }
    proof {
        assert(m.files.subrange(0, m.files.len() as int) =~= m.files);
        assert(out@ =~= spec_files_enc(m.files) + spec_dirs_enc(m, 0));
    }
    let mut j: usize = 0;
    while j < n.dirs.len()
        invariant
            j <= n.dirs@.len(),
            m == n@,
            m.dirs == dirs_view(n.dirs@),
            out@ == spec_files_enc(m.files) + spec_dirs_enc(m, j as int),
        decreases n.dirs@.len() - j,
    {
        let child = &n.dirs[j];
        proof {
            let ghost nn = *n;
            assert(decreases_to!(nn => nn.dirs));
            assert(decreases_to!(nn.dirs => nn.dirs[j as int]));
            assert(decreases_to!(nn.dirs[j as int] => nn.dirs[j as int].node));
        }
        let enc = encode_node(&child.node);
        let fp = sha256(enc.as_slice());
        out.push(68);
        push_bytes(&mut out, child.name.as_str().as_bytes());
        out.push(47);
        push_bytes(&mut out, fp.as_slice());
        proof {
            assert(m.dirs[j as int].name == child.name@);
            assert(m.dirs[j as int].node == dir_model(child.node));
            assert(fp@ == spec_dir_fingerprint(m.dirs[j as int].node));
            assert(out@ =~= spec_files_enc(m.files) + spec_dirs_enc(m, j + 1));
        }
        j += 1;
    }
    proof {
        assert(out@ =~= spec_dir_enc(m));
    }
    out
}

/// The digest of a whole tree: the root fingerprint plus the length of the
/// root's canonical encoding.
pub open spec fn spec_tree_digest(n: DirModel) -> DigestModel {
    DigestModel { fingerprint: spec_dir_fingerprint(n), size_bytes: spec_dir_enc(n).len() }
}

impl DirNode {
    /// Digest this tree bottom-up.
    pub fn digest(&self) -> (r: Digest)
        ensures
            r@ == spec_tree_digest(self@),
            r.wf(),
    {
        let enc = encode_node(self);
        let fp = sha256(enc.as_slice());
        Digest { fingerprint: fp, size_bytes: enc.len() as u64 }
    }
}

/// The canonical digest of an empty directory: what a run with no declared
/// or no existing outputs reports.
pub fn empty_tree_digest() -> (r: Digest)
    ensures
        r@ == spec_tree_digest(DirModel::empty()),
        r.wf(),
{
    DirNode::empty().digest()
}

/// Model of a captured output file.
pub struct CapturedFileModel {
    pub path: Seq<Seq<char>>,
    pub digest: DigestModel,
    pub is_executable: bool,
}

/// A declared output file found on disk after the run, with its content
/// digest.
pub struct CapturedFile {
    pub path: RelativePath,
    pub digest: Digest,
    pub is_executable: bool,
}

impl View for CapturedFile {
    type V = CapturedFileModel;

    open spec fn view(&self) -> CapturedFileModel {
        CapturedFileModel {
            path: self.path@,
            digest: self.digest@,
            is_executable: self.is_executable,
        }
    }
}

impl DeepView for CapturedFile {
    type V = CapturedFileModel;

    open spec fn deep_view(&self) -> CapturedFileModel {
        self@
    }
}

/// A declared output directory found on disk after the run.
pub struct CapturedDir {
    pub path: RelativePath,
}

impl View for CapturedDir {
    type V = Seq<Seq<char>>;

    open spec fn view(&self) -> Seq<Seq<char>> {
        self.path@
    }
}

impl DeepView for CapturedDir {
    type V = Seq<Seq<char>>;

    open spec fn deep_view(&self) -> Seq<Seq<char>> {
        self@
    }
}

/// Fold the captured files into a tree, in order.
pub open spec fn spec_add_files(n: DirModel, fs: Seq<CapturedFileModel>) -> DirModel
    decreases fs.len(),
{
    if fs.len() == 0 {
        n
    } else {
        spec_add_files(spec_add_file(n, fs[0].path, fs[0].digest, fs[0].is_executable), fs.skip(1))
    }
}

/// Fold the captured directories into a tree, in order.
pub open spec fn spec_add_dirs(n: DirModel, ds: Seq<Seq<Seq<char>>>) -> DirModel
    decreases ds.len(),
{
    if ds.len() == 0 {
        n
    } else {
        spec_add_dirs(spec_add_dir(n, ds[0]), ds.skip(1))
    }
}

/// The output digest that a list of captured entries assembles to.
pub open spec fn spec_capture(fs: Seq<CapturedFileModel>, ds: Seq<Seq<Seq<char>>>) -> DigestModel {
    spec_tree_digest(spec_add_dirs(spec_add_files(DirModel::empty(), fs), ds))
}

/// Merge all captured entries into one canonical tree and digest it.
/// Declared outputs that were not found on disk are simply not in the input,
/// so they leave no trace in the digest.
pub fn capture_outputs(files: &Vec<CapturedFile>, dirs: &Vec<CapturedDir>) -> (r: Digest)
    ensures
        r@ == spec_capture(files.deep_view(), dirs.deep_view()),
        r.wf(),
{
    let ghost fdv = files.deep_view();
    let ghost ddv = dirs.deep_view();
    let mut t = DirNode::empty();
    proof {
        assert(fdv.skip(0) =~= fdv);
    }
    let mut i: usize = 0;
    while i < files.len()
        invariant
            i <= files@.len(),
            fdv == files.deep_view(),
            spec_add_files(DirModel::empty(), fdv) == spec_add_files(t@, fdv.skip(i as int)),
        decreases files@.len() - i,
    {
        let cf = &files[i];
        let t2 = t.add_file(&cf.path, cf.digest.duplicate(), cf.is_executable);
        proof {
            assert(fdv.skip(i as int)[0] == fdv[i as int]);
            assert(fdv.skip(i as int).skip(1) =~= fdv.skip(i + 1));
            assert(fdv[i as int] == cf@);
        }
        t = t2;
        i += 1;
    }
    proof {
        assert(fdv.skip(fdv.len() as int) =~= Seq::<CapturedFileModel>::empty());
        assert(t@ == spec_add_files(DirModel::empty(), fdv));
        assert(ddv.skip(0) =~= ddv);
    }
    let ghost mid = t@;
    let mut j: usize = 0;
    while j < dirs.len()
        invariant
            j <= dirs@.len(),
            ddv == dirs.deep_view(),
            spec_add_dirs(mid, ddv) == spec_add_dirs(t@, ddv.skip(j as int)),
        decreases dirs@.len() - j,
    {
        let cd = &dirs[j];
        let t2 = t.add_dir(&cd.path);
        proof {
            assert(ddv.skip(j as int)[0] == ddv[j as int]);
            assert(ddv.skip(j as int).skip(1) =~= ddv.skip(j + 1));
            assert(ddv[j as int] == cd@);
        }
        t = t2;
        j += 1;
    }
    proof {
        assert(ddv.skip(ddv.len() as int) =~= Seq::<Seq<Seq<char>>>::empty());
        assert(t@ == spec_add_dirs(mid, ddv));
    }
    t.digest()
}

/// With nothing declared, or nothing found on disk, the capture digest is
/// the canonical empty-directory digest — whatever else the process wrote.
pub proof fn lemma_capture_empty()
    ensures
        spec_capture(Seq::<CapturedFileModel>::empty(), Seq::<Seq<Seq<char>>>::empty())
            == spec_tree_digest(DirModel::empty()),
{
}

proof fn lemma_insert_file_idem(files: Seq<FileModel>, f: FileModel)
    ensures
        spec_insert_file(spec_insert_file(files, f), f) =~~= spec_insert_file(files, f),
    decreases files.len(),
{
    let r = spec_insert_file(files, f);
    if files.len() == 0 {
        assert(spec_insert_file(r, f) =~~= r);
    } else if files[0].name == f.name {
        assert(r.skip(1) =~= files.skip(1));
        assert(spec_insert_file(r, f) =~~= r);
    } else if name_lt(f.name, files[0].name) {
        assert(r.skip(1) =~= files);
        assert(spec_insert_file(r, f) =~~= r);
    } else {
        lemma_insert_file_idem(files.skip(1), f);
        assert(r[0] == files[0]);
        assert(r.skip(1) =~= spec_insert_file(files.skip(1), f));
        assert(spec_insert_file(r, f) =~~= seq![r[0]] + spec_insert_file(r.skip(1), f));
        assert(spec_insert_file(r, f) =~~= r);
    }
}

proof fn lemma_dir_find_at(dirs: Seq<DirChildModel>, name: Seq<char>, j: int)
    requires
        0 <= j < dirs.len(),
        dirs[j].name == name,
        forall|k: int| 0 <= k < j ==> (#[trigger] dirs[k]).name != name,
    ensures
        spec_dir_find(dirs, name) == j,
    decreases j,
{
    if j > 0 {
        lemma_dir_find_at(dirs.skip(1), name, j - 1);
    }
}

proof fn lemma_insert_dir_find(dirs: Seq<DirChildModel>, c: DirChildModel)
    requires
        forall|k: int| 0 <= k < dirs.len() ==> (#[trigger] dirs[k]).name != c.name,
    ensures
        ({
            let r = spec_insert_dir(dirs, c);
            let p = spec_dir_find(r, c.name);
            0 <= p < r.len() && r[p] == c
        }),
    decreases dirs.len(),
{
    let r = spec_insert_dir(dirs, c);
    if dirs.len() == 0 {
        assert(r[0] == c);
    } else if name_lt(c.name, dirs[0].name) {
        assert(r[0] == c);
    } else {
        lemma_insert_dir_find(dirs.skip(1), c);
        assert(r[0] == dirs[0]);
        assert(r.skip(1) =~= spec_insert_dir(dirs.skip(1), c));
        assert(r[0].name != c.name);
        let p = spec_dir_find(r, c.name);
        assert(p == 1 + spec_dir_find(r.skip(1), c.name));
        assert(r[p] == r.skip(1)[p - 1]);
    }
}

/// Adding the same file twice — as happens when a declared output file is
/// also walked inside a declared output directory — leaves the tree as one
/// addition leaves it: overlaps never duplicate an entry.
pub proof fn lemma_add_file_idempotent(n: DirModel, path: Seq<Seq<char>>, d: DigestModel, x: bool)
    ensures
        spec_add_file(spec_add_file(n, path, d, x), path, d, x) == spec_add_file(n, path, d, x),
    decreases path.len(),
{
    if path.len() == 0 {
    } else if path.len() == 1 {
        lemma_insert_file_idem(n.files, FileModel { name: path[0], digest: d, is_executable: x });
    } else {
        let m1 = spec_add_file(n, path, d, x);
        let j = spec_dir_find(n.dirs, path[0]);
        lemma_dir_find_props(n.dirs, path[0]);
        if j < n.dirs.len() {
            lemma_add_file_idempotent(n.dirs[j].node, path.skip(1), d, x);
            lemma_dir_find_at(m1.dirs, path[0], j);
            assert(spec_add_file(m1, path, d, x).dirs =~= m1.dirs);
        } else {
            let c = DirChildModel {
                name: path[0],
                node: spec_add_file(DirModel::empty(), path.skip(1), d, x),
            };
            lemma_insert_dir_find(n.dirs, c);
            let p = spec_dir_find(m1.dirs, path[0]);
            lemma_add_file_idempotent(DirModel::empty(), path.skip(1), d, x);
            assert(m1.dirs[p] == c);
            assert(spec_add_file(m1, path, d, x).dirs =~= m1.dirs);
        }
    }
}

/// Recording the same directory twice leaves the tree as one recording
/// leaves it.
pub proof fn lemma_add_dir_idempotent(n: DirModel, path: Seq<Seq<char>>)
    ensures
        spec_add_dir(spec_add_dir(n, path), path) == spec_add_dir(n, path),
    decreases path.len(),
{
    if path.len() == 0 {
    } else {
        let m1 = spec_add_dir(n, path);
        let j = spec_dir_find(n.dirs, path[0]);
        lemma_dir_find_props(n.dirs, path[0]);
        if j < n.dirs.len() {
            lemma_add_dir_idempotent(n.dirs[j].node, path.skip(1));
            lemma_dir_find_at(m1.dirs, path[0], j);
            assert(spec_add_dir(m1, path).dirs =~= m1.dirs);
        } else {
            let c = DirChildModel { name: path[0], node: spec_add_dir(DirModel::empty(), path.skip(1)) };
            lemma_insert_dir_find(n.dirs, c);
            let p = spec_dir_find(m1.dirs, path[0]);
            lemma_add_dir_idempotent(DirModel::empty(), path.skip(1));
            assert(m1.dirs[p] == c);
            assert(spec_add_dir(m1, path).dirs =~= m1.dirs);
        }
    }
}

/// Non-strict name order: strictly before, or the same encoded name.
pub open spec fn name_le(a: Seq<char>, b: Seq<char>) -> bool {
    name_lt(a, b) || vstd::utf8::encode_utf8(a) == vstd::utf8::encode_utf8(b)
}

proof fn lemma_bytes_lt_trans(a: Seq<u8>, b: Seq<u8>, c: Seq<u8>)
    requires
        bytes_lt(a, b),
        bytes_lt(b, c),
    ensures
        bytes_lt(a, c),
    decreases a.len(),
{
    if a.len() > 0 && b.len() > 0 && c.len() > 0 && a[0] == b[0] && b[0] == c[0] {
        lemma_bytes_lt_trans(a.skip(1), b.skip(1), c.skip(1));
    }
}

proof fn lemma_bytes_order_total(a: Seq<u8>, b: Seq<u8>)
    ensures
        bytes_lt(a, b) || bytes_lt(b, a) || a == b,
    decreases a.len(),
{
    if a.len() == 0 && b.len() == 0 {
        assert(a =~= b);
    } else if a.len() > 0 && b.len() > 0 && a[0] == b[0] {
        lemma_bytes_order_total(a.skip(1), b.skip(1));
        if !bytes_lt(a, b) && !bytes_lt(b, a) {
            assert(a.skip(1) == b.skip(1));
            assert(forall|k: int| 1 <= k < a.len() ==> a[k] == a.skip(1)[k - 1]);
            assert(forall|k: int| 1 <= k < b.len() ==> b[k] == b.skip(1)[k - 1]);
            assert(a =~= b);
        }
    }
}

proof fn lemma_name_le_trans(a: Seq<char>, b: Seq<char>, c: Seq<char>)
    requires
        name_le(a, b),
        name_le(b, c),
    ensures
        name_le(a, c),
{
    if name_lt(a, b) && name_lt(b, c) {
        lemma_bytes_lt_trans(
            vstd::utf8::encode_utf8(a),
            vstd::utf8::encode_utf8(b),
            vstd::utf8::encode_utf8(c),
        );
    }
}

/// A file child list whose names never step backwards: sorted, so each name
/// can occur only in one run of equal encodings.
pub open spec fn wf_files(fs: Seq<FileModel>) -> bool {
    forall|i: int, j: int|
        0 <= i < j < fs.len() ==> name_le((#[trigger] fs[i]).name, (#[trigger] fs[j]).name)
}

/// A directory child list whose names never step backwards.
pub open spec fn wf_dirs(ds: Seq<DirChildModel>) -> bool {
    forall|i: int, j: int|
        0 <= i < j < ds.len() ==> name_le((#[trigger] ds[i]).name, (#[trigger] ds[j]).name)
}

proof fn lemma_insert_file_elements(files: Seq<FileModel>, f: FileModel)
    ensures
        forall|j: int|
            0 <= j < spec_insert_file(files, f).len() ==> #[trigger] spec_insert_file(files, f)[j]
                == f || files.contains(spec_insert_file(files, f)[j]),
    decreases files.len(),
{
    let r = spec_insert_file(files, f);
    if files.len() == 0 {
    } else if files[0].name == f.name {
        assert forall|j: int| 0 <= j < r.len() implies #[trigger] r[j] == f || files.contains(
            r[j],
        ) by {
            if j > 0 {
                assert(r[j] == files[j]);
            }
        }
    } else if name_lt(f.name, files[0].name) {
        assert forall|j: int| 0 <= j < r.len() implies #[trigger] r[j] == f || files.contains(
            r[j],
        ) by {
            if j > 0 {
                assert(r[j] == files[j - 1]);
            }
        }
    } else {
        lemma_insert_file_elements(files.skip(1), f);
        assert forall|j: int| 0 <= j < r.len() implies #[trigger] r[j] == f || files.contains(
            r[j],
        ) by {
            if j == 0 {
                assert(r[0] == files[0]);
                assert(files.contains(files[0]));
            } else {
                let rest = spec_insert_file(files.skip(1), f);
                assert(r[j] == rest[j - 1]);
                if rest[j - 1] != f {
                    assert(files.skip(1).contains(rest[j - 1]));
                    let w = choose|w: int|
                        0 <= w < files.skip(1).len() && files.skip(1)[w] == rest[j - 1];
                    assert(files[w + 1] == rest[j - 1]);
                }
            }
        }
    }
}

/// Sorted insertion keeps the file children sorted: merging never breaks
/// the canonical order of a directory's entries.
pub proof fn lemma_insert_file_keeps_order(files: Seq<FileModel>, f: FileModel)
    requires
        wf_files(files),
    ensures
        wf_files(spec_insert_file(files, f)),
    decreases files.len(),
{
    let r = spec_insert_file(files, f);
    if files.len() == 0 {
    } else if files[0].name == f.name {
        assert forall|i: int, j: int| 0 <= i < j < r.len() implies name_le(
            (#[trigger] r[i]).name,
            (#[trigger] r[j]).name,
        ) by {
            if i == 0 {
                assert(r[j] == files[j]);
                assert(name_le(files[0].name, files[j].name));
                assert(name_le(f.name, files[0].name));
                lemma_name_le_trans(f.name, files[0].name, files[j].name);
            } else {
                assert(r[i] == files[i]);
                assert(r[j] == files[j]);
            }
        }
    } else if name_lt(f.name, files[0].name) {
        assert forall|i: int, j: int| 0 <= i < j < r.len() implies name_le(
            (#[trigger] r[i]).name,
            (#[trigger] r[j]).name,
        ) by {
            if i == 0 {
                assert(r[j] == files[j - 1]);
                if j > 1 {
                    assert(name_le(files[0].name, files[j - 1].name));
                }
                lemma_name_le_trans(f.name, files[0].name, files[j - 1].name);
            } else {
                assert(r[i] == files[i - 1]);
                assert(r[j] == files[j - 1]);
            }
        }
    } else {
        assert(wf_files(files.skip(1))) by {
            assert(forall|i: int, j: int|
                0 <= i < j < files.skip(1).len() ==> (#[trigger] files.skip(1)[i])
                    == files[i + 1] && (#[trigger] files.skip(1)[j]) == files[j + 1]);
        }
        lemma_insert_file_keeps_order(files.skip(1), f);
        lemma_insert_file_elements(files.skip(1), f);
        let rest = spec_insert_file(files.skip(1), f);
        lemma_bytes_order_total(
            vstd::utf8::encode_utf8(f.name),
            vstd::utf8::encode_utf8(files[0].name),
        );
        assert(name_le(files[0].name, f.name));
        assert forall|i: int, j: int| 0 <= i < j < r.len() implies name_le(
            (#[trigger] r[i]).name,
            (#[trigger] r[j]).name,
        ) by {
            if i == 0 {
                assert(r[j] == rest[j - 1]);
                if rest[j - 1] == f {
                } else {
                    assert(files.skip(1).contains(rest[j - 1]));
                    let w = choose|w: int|
                        0 <= w < files.skip(1).len() && files.skip(1)[w] == rest[j - 1];
                    assert(files[w + 1] == rest[j - 1]);
                    assert(name_le(files[0].name, files[w + 1].name));
                }
            } else {
                assert(r[i] == rest[i - 1]);
                assert(r[j] == rest[j - 1]);
            }
        }
    }
}

proof fn lemma_insert_dir_elements(dirs: Seq<DirChildModel>, c: DirChildModel)
    ensures
        forall|j: int|
            0 <= j < spec_insert_dir(dirs, c).len() ==> #[trigger] spec_insert_dir(dirs, c)[j]
                == c || dirs.contains(spec_insert_dir(dirs, c)[j]),
    decreases dirs.len(),
{
    let r = spec_insert_dir(dirs, c);
    if dirs.len() == 0 {
    } else if name_lt(c.name, dirs[0].name) {
        assert forall|j: int| 0 <= j < r.len() implies #[trigger] r[j] == c || dirs.contains(
            r[j],
        ) by {
            if j > 0 {
                assert(r[j] == dirs[j - 1]);
            }
        }
    } else {
        lemma_insert_dir_elements(dirs.skip(1), c);
        assert forall|j: int| 0 <= j < r.len() implies #[trigger] r[j] == c || dirs.contains(
            r[j],
        ) by {
            if j == 0 {
                assert(r[0] == dirs[0]);
                assert(dirs.contains(dirs[0]));
            } else {
                let rest = spec_insert_dir(dirs.skip(1), c);
                assert(r[j] == rest[j - 1]);
                if rest[j - 1] != c {
                    assert(dirs.skip(1).contains(rest[j - 1]));
                    let w = choose|w: int|
                        0 <= w < dirs.skip(1).len() && dirs.skip(1)[w] == rest[j - 1];
                    assert(dirs[w + 1] == rest[j - 1]);
                }
            }
        }
    }
}

/// Sorted insertion keeps the directory children sorted too: every level of
/// the assembled tree stays in its canonical order.
pub proof fn lemma_insert_dir_keeps_order(dirs: Seq<DirChildModel>, c: DirChildModel)
    requires
        wf_dirs(dirs),
    ensures
        wf_dirs(spec_insert_dir(dirs, c)),
    decreases dirs.len(),
{
    let r = spec_insert_dir(dirs, c);
    if dirs.len() == 0 {
    } else if name_lt(c.name, dirs[0].name) {
        assert forall|i: int, j: int| 0 <= i < j < r.len() implies name_le(
            (#[trigger] r[i]).name,
            (#[trigger] r[j]).name,
        ) by {
            if i == 0 {
                assert(r[j] == dirs[j - 1]);
                if j > 1 {
                    assert(name_le(dirs[0].name, dirs[j - 1].name));
                }
                lemma_name_le_trans(c.name, dirs[0].name, dirs[j - 1].name);
            } else {
                assert(r[i] == dirs[i - 1]);
                assert(r[j] == dirs[j - 1]);
            }
        }
    } else {
        assert(wf_dirs(dirs.skip(1))) by {
            assert(forall|i: int, j: int|
                0 <= i < j < dirs.skip(1).len() ==> (#[trigger] dirs.skip(1)[i]) == dirs[i + 1]
                    && (#[trigger] dirs.skip(1)[j]) == dirs[j + 1]);
        }
        lemma_insert_dir_keeps_order(dirs.skip(1), c);
        lemma_insert_dir_elements(dirs.skip(1), c);
        let rest = spec_insert_dir(dirs.skip(1), c);
        lemma_bytes_order_total(
            vstd::utf8::encode_utf8(c.name),
            vstd::utf8::encode_utf8(dirs[0].name),
        );
        assert(name_le(dirs[0].name, c.name));
        assert forall|i: int, j: int| 0 <= i < j < r.len() implies name_le(
            (#[trigger] r[i]).name,
            (#[trigger] r[j]).name,
        ) by {
            if i == 0 {
                assert(r[j] == rest[j - 1]);
                if rest[j - 1] == c {
                } else {
                    assert(dirs.skip(1).contains(rest[j - 1]));
                    let w = choose|w: int|
                        0 <= w < dirs.skip(1).len() && dirs.skip(1)[w] == rest[j - 1];
                    assert(dirs[w + 1] == rest[j - 1]);
                    assert(name_le(dirs[0].name, dirs[w + 1].name));
                }
            } else {
                assert(r[i] == rest[i - 1]);
                assert(r[j] == rest[j - 1]);
            }
        }
    }
}

/// A canonical tree: every directory's file children and directory children
/// are in name order, at every level.
pub open spec fn wf_dir(n: DirModel) -> bool
    decreases n, 1int, 0int,
{
    wf_files(n.files) && wf_dirs(n.dirs) && wf_children(n, n.dirs.len() as int)
}

/// The first `k` directory children are themselves canonical.
pub open spec fn wf_children(n: DirModel, k: int) -> bool
    decreases n, 0int, k,
    via wf_children_decreases
{
    if k <= 0 || k > n.dirs.len() {
        true
    } else {
        wf_children(n, k - 1) && wf_dir(n.dirs[k - 1].node)
    }
}

#[via_fn]
proof fn wf_children_decreases(n: DirModel, k: int) {
    if 0 < k <= n.dirs.len() {
        assert(decreases_to!(n => n.dirs));
        assert(decreases_to!(n.dirs => n.dirs[k - 1]));
        assert(decreases_to!(n.dirs[k - 1] => n.dirs[k - 1].node));
    }
}

proof fn lemma_wf_children_pointwise(n: DirModel, k: int)
    requires
        0 <= k <= n.dirs.len(),
    ensures
        wf_children(n, k) <==> (forall|j: int| 0 <= j < k ==> wf_dir(#[trigger] n.dirs[j].node)),
    decreases k,
{
    if k > 0 {
        lemma_wf_children_pointwise(n, k - 1);
    }
}

/// Adding a file keeps the tree canonical.
pub proof fn lemma_add_file_keeps_wf(n: DirModel, path: Seq<Seq<char>>, d: DigestModel, x: bool)
    requires
        wf_dir(n),
    ensures
        wf_dir(spec_add_file(n, path, d, x)),
    decreases path.len(),
{
    let r = spec_add_file(n, path, d, x);
    lemma_wf_children_pointwise(n, n.dirs.len() as int);
    if path.len() == 0 {
    } else if path.len() == 1 {
        lemma_insert_file_keeps_order(
            n.files,
            FileModel { name: path[0], digest: d, is_executable: x },
        );
        lemma_wf_children_pointwise(r, r.dirs.len() as int);
    } else {
        let j = spec_dir_find(n.dirs, path[0]);
        lemma_dir_find_props(n.dirs, path[0]);
        if j < n.dirs.len() {
            lemma_add_file_keeps_wf(n.dirs[j].node, path.skip(1), d, x);
            assert(wf_dirs(r.dirs)) by {
                assert(forall|i: int|
                    0 <= i < r.dirs.len() ==> (#[trigger] r.dirs[i]).name == n.dirs[i].name);
            }
            lemma_wf_children_pointwise(r, r.dirs.len() as int);
            assert(forall|jj: int|
                0 <= jj < r.dirs.len() && jj != j ==> #[trigger] r.dirs[jj] == n.dirs[jj]);
        } else {
            let c = DirChildModel {
                name: path[0],
                node: spec_add_file(DirModel::empty(), path.skip(1), d, x),
            };
            assert(wf_dir(DirModel::empty())) by {
                lemma_wf_children_pointwise(DirModel::empty(), 0);
            }
            lemma_add_file_keeps_wf(DirModel::empty(), path.skip(1), d, x);
            lemma_insert_dir_keeps_order(n.dirs, c);
            lemma_insert_dir_elements(n.dirs, c);
            lemma_wf_children_pointwise(r, r.dirs.len() as int);
            assert forall|jj: int| 0 <= jj < r.dirs.len() implies wf_dir(
                #[trigger] r.dirs[jj].node,
            ) by {
                if r.dirs[jj] == c {
                } else {
                    assert(n.dirs.contains(r.dirs[jj]));
                    let w = choose|w: int| 0 <= w < n.dirs.len() && n.dirs[w] == r.dirs[jj];
                    assert(wf_dir(n.dirs[w].node));
                }
            }
        }
    }
}

/// Recording a directory keeps the tree canonical.
pub proof fn lemma_add_dir_keeps_wf(n: DirModel, path: Seq<Seq<char>>)
    requires
        wf_dir(n),
    ensures
        wf_dir(spec_add_dir(n, path)),
    decreases path.len(),
{
    let r = spec_add_dir(n, path);
    lemma_wf_children_pointwise(n, n.dirs.len() as int);
    if path.len() == 0 {
    } else {
        let j = spec_dir_find(n.dirs, path[0]);
        lemma_dir_find_props(n.dirs, path[0]);
        if j < n.dirs.len() {
            lemma_add_dir_keeps_wf(n.dirs[j].node, path.skip(1));
            assert(wf_dirs(r.dirs)) by {
                assert(forall|i: int|
                    0 <= i < r.dirs.len() ==> (#[trigger] r.dirs[i]).name == n.dirs[i].name);
            }
            lemma_wf_children_pointwise(r, r.dirs.len() as int);
            assert(forall|jj: int|
                0 <= jj < r.dirs.len() && jj != j ==> #[trigger] r.dirs[jj] == n.dirs[jj]);
        } else {
            let c = DirChildModel { name: path[0], node: spec_add_dir(DirModel::empty(), path.skip(1)) };
            assert(wf_dir(DirModel::empty())) by {
                lemma_wf_children_pointwise(DirModel::empty(), 0);
            }
            lemma_add_dir_keeps_wf(DirModel::empty(), path.skip(1));
            lemma_insert_dir_keeps_order(n.dirs, c);
            lemma_insert_dir_elements(n.dirs, c);
            lemma_wf_children_pointwise(r, r.dirs.len() as int);
            assert forall|jj: int| 0 <= jj < r.dirs.len() implies wf_dir(
                #[trigger] r.dirs[jj].node,
            ) by {
                if r.dirs[jj] == c {
                } else {
                    assert(n.dirs.contains(r.dirs[jj]));
                    let w = choose|w: int| 0 <= w < n.dirs.len() && n.dirs[w] == r.dirs[jj];
                    assert(wf_dir(n.dirs[w].node));
                }
            }
        }
    }
}

proof fn lemma_add_files_keeps_wf(n: DirModel, fs: Seq<CapturedFileModel>)
    requires
        wf_dir(n),
    ensures
        wf_dir(spec_add_files(n, fs)),
    decreases fs.len(),
{
    if fs.len() > 0 {
        lemma_add_file_keeps_wf(n, fs[0].path, fs[0].digest, fs[0].is_executable);
        lemma_add_files_keeps_wf(
            spec_add_file(n, fs[0].path, fs[0].digest, fs[0].is_executable),
            fs.skip(1),
        );
    }
}

proof fn lemma_add_dirs_keeps_wf(n: DirModel, ds: Seq<Seq<Seq<char>>>)
    requires
        wf_dir(n),
    ensures
        wf_dir(spec_add_dirs(n, ds)),
    decreases ds.len(),
{
    if ds.len() > 0 {
        lemma_add_dir_keeps_wf(n, ds[0]);
        lemma_add_dirs_keeps_wf(spec_add_dir(n, ds[0]), ds.skip(1));
    }
}

/// The tree that any list of captured entries assembles to is canonical:
/// at every level the children stand in name order, so a declared file and
/// a declared directory that overlap can never produce a duplicated or
/// misplaced entry.
pub proof fn lemma_capture_tree_canonical(fs: Seq<CapturedFileModel>, ds: Seq<Seq<Seq<char>>>)
    ensures
        wf_dir(spec_add_dirs(spec_add_files(DirModel::empty(), fs), ds)),
{
    assert(wf_dir(DirModel::empty())) by {
        lemma_wf_children_pointwise(DirModel::empty(), 0);
    }
    lemma_add_files_keeps_wf(DirModel::empty(), fs);
    lemma_add_dirs_keeps_wf(spec_add_files(DirModel::empty(), fs), ds);
}

} // verus!
