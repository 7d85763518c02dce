//! Validated path and cache-name newtypes.
//!
//! A sandbox-relative path is a sequence of components obtained by splitting
//! on `/`. Construction rejects absolute paths and parent-traversal segments;
//! empty and `.` segments are dropped. A cache name rejects the empty string
//! and path separators.

use vstd::prelude::*;

verus! {

/// Splitting a character sequence on `/`: the list of segments between
/// separators. The split of the empty sequence is one empty segment.
pub open spec fn spec_split(s: Seq<char>) -> Seq<Seq<char>>
    decreases s.len(),
{
    if s.len() == 0 {
        seq![Seq::<char>::empty()]
    } else if s[0] == '/' {
        seq![Seq::<char>::empty()] + spec_split(s.skip(1))
    } else {
        let rest = spec_split(s.skip(1));
        seq![seq![s[0]] + rest[0]] + rest.skip(1)
    }
}

/// A sequence without separators splits into itself alone.
proof fn lemma_split_sep_free(s: Seq<char>)
    requires
        forall|k: int| 0 <= k < s.len() ==> s[k] != '/',
    ensures
        spec_split(s) =~~= seq![s],
    decreases s.len(),
{
    if s.len() == 0 {
        assert(spec_split(s) =~~= seq![s]);
    } else {
        lemma_split_sep_free(s.skip(1));
        assert(seq![s[0]] + s.skip(1) =~= s);
        assert(spec_split(s) =~~= seq![s]);
    }
}

/// Splitting at the first separator: the segment before it, then the split of
/// what follows it.
proof fn lemma_split_step(s: Seq<char>, j: int)
    requires
        0 <= j < s.len(),
        s[j] == '/',
        forall|k: int| 0 <= k < j ==> s[k] != '/',
    ensures
        spec_split(s) =~~= seq![s.subrange(0, j)] + spec_split(s.skip(j + 1)),
    decreases j,
{
    if j == 0 {
        assert(s.subrange(0, 0) =~= Seq::<char>::empty());
    } else {
        lemma_split_step(s.skip(1), j - 1);
        assert(s.skip(1).skip(j) =~= s.skip(j + 1));
        let rest = spec_split(s.skip(1));
        assert(rest =~~= seq![s.skip(1).subrange(0, j - 1)] + spec_split(s.skip(j + 1)));
        assert(seq![s[0]] + s.skip(1).subrange(0, j - 1) =~= s.subrange(0, j));
        assert(spec_split(s) =~~= seq![s.subrange(0, j)] + spec_split(s.skip(j + 1)));
    }
}

/// Split a path string on `/`, keeping empty segments.
pub fn split_path(s: &str) -> (parts: Vec<String>)
    ensures
        parts.deep_view() == spec_split(s@),
{
    let n = s.unicode_len();
    let mut parts: Vec<String> = Vec::new();
    let mut start: usize = 0;
    let mut i: usize = 0;
    proof {
        assert(s@.skip(0) =~= s@);
        assert(parts.deep_view() =~= Seq::<Seq<char>>::empty());
        assert(Seq::<Seq<char>>::empty() + spec_split(s@) =~= spec_split(s@));
    }
    while i < n
        invariant
            n == s@.len(),
            start <= i <= n,
            spec_split(s@) =~~= parts.deep_view() + spec_split(s@.skip(start as int)),
            forall|k: int| start <= k < i ==> s@[k] != '/',
        decreases n - i,
    {
        if s.get_char(i) == '/' {
            let piece = s.substring_char(start, i).to_owned();
            proof {
                let suffix = s@.skip(start as int);
                assert(forall|k: int| 0 <= k < i - start ==> suffix[k] != '/');
                lemma_split_step(suffix, i - start);
                assert(suffix.subrange(0, i - start) =~= s@.subrange(start as int, i as int));
                assert(suffix.skip(i - start + 1) =~= s@.skip(i + 1));
                assert(piece@ == s@.subrange(start as int, i as int));
            }
            let ghost old_dv = parts.deep_view();
            parts.push(piece);
            proof {
                assert(parts.deep_view() =~= old_dv.push(piece@));
                assert(spec_split(s@) =~~= parts.deep_view() + spec_split(s@.skip(i + 1)));
            }
            start = i + 1;
        }
        i += 1;
    }
    let piece = s.substring_char(start, n).to_owned();
    proof {
        let suffix = s@.skip(start as int);
        assert(forall|k: int| 0 <= k < suffix.len() ==> suffix[k] != '/');
        lemma_split_sep_free(suffix);
        assert(piece@ == s@.subrange(start as int, n as int));
        assert(piece@ =~= suffix);
    }
    let ghost old_dv = parts.deep_view();
    parts.push(piece);
    proof {
        assert(parts.deep_view() =~= old_dv.push(piece@));
        assert(parts.deep_view() =~~= spec_split(s@));
    }
    parts
}

/// A segment that names a real component: not empty and not `.`.
pub open spec fn is_real_component(p: Seq<char>) -> bool {
    p.len() > 0 && p != "."@
}

/// A string is rejected as a relative path when it is absolute or when any
/// of its segments traverses to a parent.
pub open spec fn relative_path_rejected(s: Seq<char>) -> bool {
    (s.len() > 0 && s[0] == '/') || spec_split(s).contains(".."@)
}

/// A path relative to the sandbox root: its components, in order, with empty
/// and `.` segments dropped. Never absolute, never parent-traversing.
#[derive(Debug, Clone, PartialEq, Eq, PartialOrd, Ord, Hash)]
pub struct RelativePath {
    parts: Vec<String>,
}

impl View for RelativePath {
    type V = Seq<Seq<char>>;

    closed spec fn view(&self) -> Seq<Seq<char>> {
        self.parts.deep_view()
    }
}

impl DeepView for RelativePath {
    type V = Seq<Seq<char>>;

    open spec fn deep_view(&self) -> Seq<Seq<char>> {
        self@
    }
}

/// What every constructed [`RelativePath`] satisfies: each component is a
/// real segment and none traverses upward.
pub open spec fn wf_path(parts: Seq<Seq<char>>) -> bool {
    forall|i: int|
        0 <= i < parts.len() ==> is_real_component(#[trigger] parts[i]) && parts[i] != ".."@
}

impl RelativePath {
    pub open spec fn wf(&self) -> bool {
        wf_path(self@)
    }

    /// Validate and normalize a path string. Fails exactly on absolute paths
    /// and on paths with a parent-traversal segment; otherwise the result's
    /// components are the real segments of the split, in order.
    pub fn new(s: String) -> (r: Result<RelativePath, String>)
        ensures
            r is Err <==> relative_path_rejected(s@),
            r matches Ok(p) ==> p@ =~~= spec_split(s@).filter(|q: Seq<char>| is_real_component(q))
                && p.wf(),
    {
        let n = s.as_str().unicode_len();
        if n > 0 && s.as_str().get_char(0) == '/' {
            return Err("absolute path is not sandbox-relative: ".to_owned().concat(s.as_str()));
        }
        let raw = split_path(s.as_str());
        let dotdot: String = "..".to_owned();
        let dot: String = ".".to_owned();
        let mut kept: Vec<String> = Vec::new();
        let mut idx: usize = 0;
        while idx < raw.len()
            invariant
                idx <= raw@.len(),
                raw.deep_view() == spec_split(s@),
                forall|k: int| 0 <= k < idx ==> raw.deep_view()[k] != ".."@,
                dotdot@ == ".."@,
                dot@ == "."@,
                kept.deep_view() =~~= raw.deep_view().subrange(0, idx as int).filter(
                    |q: Seq<char>| is_real_component(q),
                ),
                forall|k: int| 0 <= k < kept.deep_view().len() ==> is_real_component(
                    #[trigger] kept.deep_view()[k],
                ) && kept.deep_view()[k] != ".."@,
            decreases raw@.len() - idx,
        {
            let part = &raw[idx];
            if part.eq(&dotdot) {
                proof {
                    assert(raw.deep_view()[idx as int] == part@);
                    assert(spec_split(s@)[idx as int] == ".."@);
                    assert(spec_split(s@).contains(".."@));
                }
                return Err(
                    "path contains a parent-traversal segment: ".to_owned().concat(s.as_str()),
                );
            }
            let keep = !part.as_str().is_empty() && !part.eq(&dot);
            let ghost prefix = raw.deep_view().subrange(0, idx as int);
            let ghost pv = raw.deep_view()[idx as int];
            proof {
                assert(raw.deep_view().subrange(0, idx + 1) =~= prefix.push(pv));
                assert(prefix.push(pv).drop_last() =~= prefix);
                reveal(Seq::filter);
                assert(prefix.push(pv).filter(|q: Seq<char>| is_real_component(q)) =~~= if is_real_component(
                    pv,
                ) {
                    prefix.filter(|q: Seq<char>| is_real_component(q)).push(pv)
                } else {
                    prefix.filter(|q: Seq<char>| is_real_component(q))
                });
            }
            if keep {
                let ghost old_dv = kept.deep_view();
                kept.push(part.clone());
                proof {
                    assert(kept.deep_view() =~= old_dv.push(pv));
                }
            }
            idx += 1;
        }
        proof {
            assert(raw.deep_view().subrange(0, raw.deep_view().len() as int) =~= raw.deep_view());
            if spec_split(s@).contains(".."@) {
                let w = choose|w: int|
                    0 <= w < spec_split(s@).len() && spec_split(s@)[w] == ".."@;
                assert(raw.deep_view()[w] == ".."@);
                assert(false);
            }
        }
        Ok(RelativePath { parts: kept })
    }

    /// A copy of the path whose model is known to be the same.
    pub fn duplicate(&self) -> (r: RelativePath)
        ensures
            r@ == self@,
    {
        let mut q: Vec<String> = Vec::new();
        let mut i: usize = 0;
        while i < self.parts.len()
            invariant
                i <= self.parts@.len(),
                q.deep_view() == self@.subrange(0, i as int),
            decreases self.parts@.len() - i,
        {
            let ghost old_dv = q.deep_view();
            q.push(self.parts[i].clone());
            proof {
                assert(q.deep_view() =~= old_dv.push(self@[i as int]));
                assert(q.deep_view() =~= self@.subrange(0, i + 1));
            }
            i += 1;
        }
        proof {
            assert(q.deep_view() =~= self@);
        }
        RelativePath { parts: q }
    }

    /// The number of components.
    pub fn num_parts(&self) -> (r: usize)
        ensures
            r == self@.len(),
    {
        self.parts.len()
    }

    /// One component of the path.
    pub fn part(&self, i: usize) -> (r: &String)
        requires
            i < self@.len(),
        ensures
            r@ == self@[i as int],
    {
        &self.parts[i]
    }

    /// The components of the path.
    pub fn parts(&self) -> (r: &Vec<String>)
        ensures
            r.deep_view() == self@,
    {
        &self.parts
    }

    /// The containing path: everything but the last component. `None` for a
    /// path with no components (the sandbox root itself).
    pub fn parent(&self) -> (r: Option<RelativePath>)
        ensures
            self@.len() == 0 ==> r is None,
            self@.len() > 0 ==> (r matches Some(p) && p@ =~= self@.drop_last()),
            self.wf() && self@.len() > 0 ==> (r matches Some(p) && p.wf()),
    {
        if self.parts.len() == 0 {
            None
        } else {
            let mut q = self.parts.clone();
            q.pop();
            proof {
                assert(q.deep_view() =~= self@.drop_last());
            }
            Some(RelativePath { parts: q })
        }
    }

    /// The components joined with `/`.
    pub open spec fn spec_joined(parts: Seq<Seq<char>>) -> Seq<char>
        decreases parts.len(),
    {
        if parts.len() == 0 {
            Seq::empty()
        } else if parts.len() == 1 {
            parts[0]
        } else {
            Self::spec_joined(parts.drop_last()) + seq!['/'] + parts.last()
        }
    }

    /// Render the path as a `/`-joined string.
    pub fn to_path_string(&self) -> (r: String)
        ensures
            r@ == Self::spec_joined(self@),
    {
        let mut r = String::new();
        let mut i: usize = 0;
        while i < self.parts.len()
            invariant
                i <= self@.len(),
                r@ == Self::spec_joined(self@.subrange(0, i as int)),
            decreases self@.len() - i,
        {
            if i > 0 {
                r.append("/");
            }
            r.append(self.parts[i].as_str());
            proof {
                let pre = self@.subrange(0, i as int);
                assert(self@.subrange(0, i + 1) =~= pre.push(self@[i as int]));
                assert(pre.push(self@[i as int]).drop_last() =~= pre);
                if i == 0 {
                    assert(r@ =~= self@[0]);
                } else {
                    reveal_strlit("/");
                    assert(("/")@ =~= seq!['/']);
                    assert(r@ =~= Self::spec_joined(pre) + seq!['/'] + self@[i as int]);
                }
                assert(r@ =~= Self::spec_joined(self@.subrange(0, i + 1)));
            }
            i += 1;
        }
        proof {
            assert(self@.subrange(0, self@.len() as int) =~= self@);
        }
        r
    }
}

/// A validated name for a persistent, append-only cache: not empty and free
/// of path separators.
#[derive(Debug, Clone, PartialEq, Eq, PartialOrd, Ord, Hash)]
pub struct CacheName {
    name: String,
}

impl View for CacheName {
    type V = Seq<char>;

    closed spec fn view(&self) -> Seq<char> {
        self.name@
    }
}

/// A cache name is rejected when it is empty or holds a path separator.
pub open spec fn cache_name_rejected(s: Seq<char>) -> bool {
    s.len() == 0 || s.contains('/')
}

impl CacheName {
    /// Validate a cache name. Fails exactly on the empty string and on names
    /// holding a path separator.
    pub fn new(name: String) -> (r: Result<CacheName, String>)
        ensures
            r is Err <==> cache_name_rejected(name@),
            r matches Ok(c) ==> c@ == name@,
    {
        let n = name.as_str().unicode_len();
        if n == 0 {
            return Err("cache name must not be empty".to_owned());
        }
        let mut i: usize = 0;
        while i < n
            invariant
                n == name@.len(),
                i <= n,
                forall|k: int| 0 <= k < i ==> name@[k] != '/',
            decreases n - i,
        {
            if name.as_str().get_char(i) == '/' {
                return Err(
                    "cache name must not hold a path separator: ".to_owned().concat(name.as_str()),
                );
            }
            i += 1;
        }
        Ok(CacheName { name })
    }

    pub fn as_str(&self) -> (r: &str)
        ensures
            r@ == self@,
    {
        self.name.as_str()
    }
}

/// A validated sandbox-relative mount point for a cache: neither absolute
/// nor parent-traversing.
#[derive(Debug, Clone, PartialEq, Eq, PartialOrd, Ord, Hash)]
pub struct CacheDest {
    path: RelativePath,
}

impl View for CacheDest {
    type V = Seq<Seq<char>>;

    closed spec fn view(&self) -> Seq<Seq<char>> {
        self.path@
    }
}

impl CacheDest {
    /// Validate a mount destination. Fails exactly on absolute paths and on
    /// paths with a parent-traversal segment.
    pub fn new(dest: String) -> (r: Result<CacheDest, String>)
        ensures
            r is Err <==> relative_path_rejected(dest@),
            r matches Ok(d) ==> d@ =~~= spec_split(dest@).filter(
                |q: Seq<char>| is_real_component(q),
            ) && wf_path(d@),
    {
        match RelativePath::new(dest) {
            Ok(path) => Ok(CacheDest { path }),
            Err(e) => Err(e),
        }
    }

    /// The destination as a sandbox-relative path.
    pub fn as_path(&self) -> (r: &RelativePath)
        ensures
            r@ == self@,
    {
        &self.path
    }
}

} // verus!
