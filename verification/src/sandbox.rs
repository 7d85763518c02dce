//! Sandbox construction plan, the named-cache registry, and the
//! reproduction script written when a sandbox is preserved.
//!
//! The plan is pure data: which directories to pre-create inside the
//! sandbox, which symbolic links to lay down for cache mounts and the
//! toolchain, computed from the descriptor alone. The host layer performs
//! the filesystem work.

use crate::outputs::push_bytes;
use crate::paths::{CacheDest, CacheName, RelativePath};
use crate::process::Process;
use vstd::prelude::*;

verus! {

/// The process-wide registry of named, append-only caches, rooted at a
/// configured base directory. It maps a validated cache name to the
/// persistent directory for it; the directory itself is created lazily by
/// the host layer and never deleted.
pub struct NamedCaches {
    base: String,
}

impl View for NamedCaches {
    type V = Seq<char>;

    closed spec fn view(&self) -> Seq<char> {
        self.base@
    }
}

impl NamedCaches {
    /// A registry rooted at the given base directory.
    pub fn new(base: String) -> (r: NamedCaches)
        ensures
            r@ == base@,
    {
        NamedCaches { base }
    }

    /// The persistent directory for a cache name: a name-derived path under
    /// the base directory. A pure function of the name, so every run naming
    /// the same cache is pointed at the same directory.
    pub fn path_for(&self, name: &CacheName) -> (r: String)
        ensures
            r@ == self@ + "/"@ + name@,
    {
        self.base.clone().concat("/").concat(name.as_str())
    }
}

/// The containing directories of the given paths: for every path of at
/// least two components, everything but its last component.
pub open spec fn spec_parent_dirs(paths: Seq<Seq<Seq<char>>>) -> Seq<Seq<Seq<char>>> {
    paths.filter(|p: Seq<Seq<char>>| p.len() >= 2).map_values(|p: Seq<Seq<char>>| p.drop_last())
}

/// The mount destinations of the declared caches.
pub open spec fn spec_cache_dest_paths(caches: Seq<(CacheName, CacheDest)>) -> Seq<Seq<Seq<char>>> {
    caches.map_values(|c: (CacheName, CacheDest)| c.1@)
}

/// The symbolic links for the declared caches: each mount destination,
/// rendered as a path string, paired with its persistent directory.
pub open spec fn spec_cache_links(
    caches: Seq<(CacheName, CacheDest)>,
    base: Seq<char>,
) -> Seq<(Seq<char>, Seq<char>)> {
    caches.map_values(
        |c: (CacheName, CacheDest)| (RelativePath::spec_joined(c.1@), base + "/"@ + c.0@),
    )
}

/// Everything the host layer must do to the fresh sandbox directory before
/// the process starts.
pub struct SandboxPlan {
    /// Sandbox-relative directories to create (with their ancestors) before
    /// the run: the parents of every declared output and of every cache
    /// mount, pre-created even though the process might create them itself.
    pub dirs_to_create: Vec<RelativePath>,
    /// Symbolic links to create: sandbox-relative destination path, then
    /// the persistent target it aliases.
    pub cache_links: Vec<(String, String)>,
    /// The target of the conventional `.jdk` link, when a toolchain is
    /// mounted.
    pub jdk_link: Option<String>,
}

/// Append the parents of the given paths to the plan's directory list.
fn collect_parents(paths: &Vec<RelativePath>, out: &mut Vec<RelativePath>)
    ensures
        final(out).deep_view() == old(out).deep_view() + spec_parent_dirs(paths.deep_view()),
{
    let ghost pdv = paths.deep_view();
    let mut i: usize = 0;
    proof {
        assert(pdv.subrange(0, 0).filter(|p: Seq<Seq<char>>| p.len() >= 2)
            =~= Seq::<Seq<Seq<char>>>::empty());
        assert(out.deep_view() =~= old(out).deep_view() + pdv.subrange(0, 0).filter(
            |p: Seq<Seq<char>>| p.len() >= 2,
        ).map_values(|p: Seq<Seq<char>>| p.drop_last()));
    }
    while i < paths.len()
        invariant
            i <= paths@.len(),
            pdv == paths.deep_view(),
            out.deep_view() == old(out).deep_view() + pdv.subrange(0, i as int).filter(
                |p: Seq<Seq<char>>| p.len() >= 2,
            ).map_values(|p: Seq<Seq<char>>| p.drop_last()),
        decreases paths@.len() - i,
    {
        let p = &paths[i];
        let ghost pre = pdv.subrange(0, i as int);
        proof {
            assert(pdv.subrange(0, i + 1) =~= pre.push(pdv[i as int]));
            assert(pre.push(pdv[i as int]).drop_last() =~= pre);
        }
        if p.num_parts() >= 2 {
            let par = match p.parent() {
                Some(par) => par,
                None => {
                    proof {
                        assert(false);
                    }
                    p.duplicate()
                },
            };
            let ghost old_dv = out.deep_view();
            out.push(par);
            proof {
                reveal(Seq::filter);
                assert(p@ == pdv[i as int]);
                assert(par@ =~= pdv[i as int].drop_last());
                assert(out.deep_view() =~= old_dv.push(par@));
                assert(pre.push(pdv[i as int]).filter(|p: Seq<Seq<char>>| p.len() >= 2)
                    =~= pre.filter(|p: Seq<Seq<char>>| p.len() >= 2).push(pdv[i as int]));
                assert(pre.filter(|p: Seq<Seq<char>>| p.len() >= 2).push(
                    pdv[i as int],
                ).map_values(|p: Seq<Seq<char>>| p.drop_last()) =~= pre.filter(
                    |p: Seq<Seq<char>>| p.len() >= 2,
                ).map_values(|p: Seq<Seq<char>>| p.drop_last()).push(pdv[i as int].drop_last()));
                assert(out.deep_view() =~= old(out).deep_view() + pdv.subrange(0, i + 1).filter(
                    |p: Seq<Seq<char>>| p.len() >= 2,
                ).map_values(|p: Seq<Seq<char>>| p.drop_last()));
            }
        } else {
            proof {
                reveal(Seq::filter);
                assert(p@ == pdv[i as int]);
                assert(pre.push(pdv[i as int]).filter(|p: Seq<Seq<char>>| p.len() >= 2)
                    =~= pre.filter(|p: Seq<Seq<char>>| p.len() >= 2));
                assert(out.deep_view() =~= old(out).deep_view() + pdv.subrange(0, i + 1).filter(
                    |p: Seq<Seq<char>>| p.len() >= 2,
                ).map_values(|p: Seq<Seq<char>>| p.drop_last()));
            }
        }
        i += 1;
    }
    proof {
        assert(pdv.subrange(0, pdv.len() as int) =~= pdv);
    }
}

/// Compute the sandbox construction plan for a descriptor: the parent
/// directories of every declared output file, output directory, and cache
/// mount, the cache links resolved through the registry, and the optional
/// toolchain link.
pub fn sandbox_plan(p: &Process, caches: &NamedCaches) -> (r: SandboxPlan)
    ensures
        r.dirs_to_create.deep_view() == spec_parent_dirs(p.output_files.deep_view())
            + spec_parent_dirs(p.output_directories.deep_view()) + spec_parent_dirs(
            spec_cache_dest_paths(p.append_only_caches@),
        ),
        r.cache_links@.map_values(|e: (String, String)| (e.0@, e.1@)) == spec_cache_links(
            p.append_only_caches@,
            caches@,
        ),
        r.jdk_link == p.jdk_home,
{
    let mut dirs_to_create: Vec<RelativePath> = Vec::new();
    collect_parents(&p.output_files, &mut dirs_to_create);
    collect_parents(&p.output_directories, &mut dirs_to_create);

    let mut dest_paths: Vec<RelativePath> = Vec::new();
    let mut cache_links: Vec<(String, String)> = Vec::new();
    let ghost cdv = p.append_only_caches@;
    let mut i: usize = 0;
    proof {
        assert(dest_paths.deep_view() =~= spec_cache_dest_paths(cdv.subrange(0, 0)));
        assert(cache_links@.map_values(|e: (String, String)| (e.0@, e.1@)) =~= spec_cache_links(
            cdv.subrange(0, 0),
            caches@,
        ));
    }
    while i < p.append_only_caches.len()
        invariant
            i <= cdv.len(),
            cdv == p.append_only_caches@,
            dest_paths.deep_view() == spec_cache_dest_paths(cdv.subrange(0, i as int)),
            cache_links@.map_values(|e: (String, String)| (e.0@, e.1@)) == spec_cache_links(
                cdv.subrange(0, i as int),
                caches@,
            ),
        decreases cdv.len() - i,
    {
        let entry = &p.append_only_caches[i];
        let dest = entry.1.as_path();
        let link = (dest.to_path_string(), caches.path_for(&entry.0));
        let ghost old_dp = dest_paths.deep_view();
        let ghost old_cl = cache_links@.map_values(|e: (String, String)| (e.0@, e.1@));
        dest_paths.push(dest.duplicate());
        cache_links.push(link);
        proof {
            let pre = cdv.subrange(0, i as int);
            assert(cdv.subrange(0, i + 1) =~= pre.push(cdv[i as int]));
            assert(dest_paths.deep_view() =~= old_dp.push(cdv[i as int].1@));
            assert(spec_cache_dest_paths(pre.push(cdv[i as int])) =~= spec_cache_dest_paths(
                pre,
            ).push(cdv[i as int].1@));
            assert(dest_paths.deep_view() =~= spec_cache_dest_paths(cdv.subrange(0, i + 1)));
            assert(cache_links@.map_values(|e: (String, String)| (e.0@, e.1@)) =~= old_cl.push(
                (RelativePath::spec_joined(cdv[i as int].1@), caches@ + "/"@ + cdv[i as int].0@),
            ));
            assert(spec_cache_links(pre.push(cdv[i as int]), caches@) =~= spec_cache_links(
                pre,
                caches@,
            ).push(
                (RelativePath::spec_joined(cdv[i as int].1@), caches@ + "/"@ + cdv[i as int].0@),
            ));
            assert(cache_links@.map_values(|e: (String, String)| (e.0@, e.1@))
                =~= spec_cache_links(cdv.subrange(0, i + 1), caches@));
        }
        i += 1;
    }
    proof {
        assert(cdv.subrange(0, cdv.len() as int) =~= cdv);
    }
    collect_parents(&dest_paths, &mut dirs_to_create);

    let jdk_link = match &p.jdk_home {
        Some(h) => Some(h.clone()),
        None => None,
    };
    SandboxPlan { dirs_to_create, cache_links, jdk_link }
}

/// The conventional sandbox-relative name at which a toolchain is mounted.
pub fn jdk_link_name() -> (r: String)
    ensures
        r@ == ".jdk"@,
{
    ".jdk".to_owned()
}

/// What an outside Bash quoter returns for a string: a form that Bash reads
/// back as exactly the original characters. The form itself is a function of
/// the characters alone.
pub uninterp spec fn bash_escaped(s: Seq<char>) -> Seq<u8>;

/// Relies on shell_quote's `Bash::quote_vec`: the Bash-quoted form of the
/// string, computed from its characters alone.
#[verifier::external_body]
fn bash_escape(s: &str) -> (r: Vec<u8>)
    ensures
        r@ == bash_escaped(s@),
{
    shell_quote::Bash::quote_vec(s)
}

/// One `export` line of the reproduction script.
pub open spec fn spec_export_line(k: Seq<char>, v: Seq<char>) -> Seq<u8> {
    vstd::utf8::encode_utf8("export "@) + vstd::utf8::encode_utf8(k) + seq![61u8] + bash_escaped(v)
        + seq![10u8]
}

/// The `export` lines for the whole environment, in order.
pub open spec fn spec_env_lines(env: Seq<(Seq<char>, Seq<char>)>) -> Seq<u8>
    decreases env.len(),
{
    if env.len() == 0 {
        Seq::empty()
    } else {
        spec_env_lines(env.drop_last()) + spec_export_line(env.last().0, env.last().1)
    }
}

/// The original command line, each argument shell-escaped, joined by single
/// spaces.
pub open spec fn spec_joined_args(argv: Seq<Seq<char>>) -> Seq<u8>
    decreases argv.len(),
{
    if argv.len() == 0 {
        Seq::empty()
    } else if argv.len() == 1 {
        bash_escaped(argv[0])
    } else {
        spec_joined_args(argv.drop_last()) + seq![32u8] + bash_escaped(argv.last())
    }
}

/// The text of the reproduction script written into a preserved sandbox: a
/// shebang, a `cd` into the original working directory when one was set,
/// the environment exported variable by variable, and the shell-escaped
/// original command line.
pub open spec fn spec_run_script(
    cwd: Option<Seq<char>>,
    env: Seq<(Seq<char>, Seq<char>)>,
    argv: Seq<Seq<char>>,
) -> Seq<u8> {
    vstd::utf8::encode_utf8("#!/bin/bash\n"@) + (match cwd {
        Some(c) => vstd::utf8::encode_utf8("cd "@) + bash_escaped(c) + seq![10u8],
        None => Seq::empty(),
    }) + spec_env_lines(env) + spec_joined_args(argv) + seq![10u8]
}

/// The environment entries' characters.
pub open spec fn env_views(env: Seq<(String, String)>) -> Seq<(Seq<char>, Seq<char>)> {
    env.map_values(|e: (String, String)| (e.0@, e.1@))
}

/// Render the reproduction script. Running it reproduces the original
/// invocation byte for byte: same working directory, same environment, same
/// command line.
pub fn run_script(cwd: Option<&str>, env: &Vec<(String, String)>, argv: &Vec<String>) -> (r: Vec<
    u8,
>)
    ensures
        r@ == spec_run_script(cwd.deep_view(), env_views(env@), argv.deep_view()),
{
    let mut out: Vec<u8> = Vec::new();
    push_bytes(&mut out, "#!/bin/bash\n".as_bytes());
    match cwd {
        Some(c) => {
            push_bytes(&mut out, "cd ".as_bytes());
            let e = bash_escape(c);
            push_bytes(&mut out, e.as_slice());
            out.push(10);
        },
        None => {},
    }
    let ghost head = out@;
    let ghost edv = env_views(env@);
    let mut i: usize = 0;
    proof {
        assert(out@ =~= head + spec_env_lines(edv.subrange(0, 0)));
    }
    while i < env.len()
        invariant
            i <= env@.len(),
            edv == env_views(env@),
            out@ == head + spec_env_lines(edv.subrange(0, i as int)),
        decreases env@.len() - i,
    {
        let entry = &env[i];
        push_bytes(&mut out, "export ".as_bytes());
        push_bytes(&mut out, entry.0.as_str().as_bytes());
        out.push(61);
        let e = bash_escape(entry.1.as_str());
        push_bytes(&mut out, e.as_slice());
        out.push(10);
        proof {
            let pre = edv.subrange(0, i as int);
            assert(edv.subrange(0, i + 1) =~= pre.push(edv[i as int]));
            assert(pre.push(edv[i as int]).drop_last() =~= pre);
            assert(edv[i as int] == (entry.0@, entry.1@));
            assert(out@ =~= head + (spec_env_lines(pre) + spec_export_line(
                entry.0@,
                entry.1@,
            )));
        }
        i += 1;
    }
    proof {
        assert(edv.subrange(0, edv.len() as int) =~= edv);
    }
    let ghost head2 = out@;
    let ghost adv = argv.deep_view();
    let mut j: usize = 0;
    proof {
        assert(out@ =~= head2 + spec_joined_args(adv.subrange(0, 0)));
    }
    while j < argv.len()
        invariant
            j <= argv@.len(),
            adv == argv.deep_view(),
            out@ == head2 + spec_joined_args(adv.subrange(0, j as int)),
        decreases argv@.len() - j,
    {
        if j > 0 {
            out.push(32);
        }
        let e = bash_escape(argv[j].as_str());
        push_bytes(&mut out, e.as_slice());
        proof {
            let pre = adv.subrange(0, j as int);
            assert(adv.subrange(0, j + 1) =~= pre.push(adv[j as int]));
            assert(pre.push(adv[j as int]).drop_last() =~= pre);
            assert(adv[j as int] == argv@[j as int]@);
            if j == 0 {
                assert(out@ =~= head2 + bash_escaped(adv[0]));
            } else {
                assert(out@ =~= head2 + (spec_joined_args(pre) + seq![32u8] + bash_escaped(
                    adv[j as int],
                )));
            }
            assert(out@ =~= head2 + spec_joined_args(adv.subrange(0, j + 1)));
        }
        j += 1;
    }
    proof {
        assert(adv.subrange(0, adv.len() as int) =~= adv);
    }
    out.push(10);
    proof {
        assert(out@ =~= spec_run_script(cwd.deep_view(), edv, adv));
    }
    out
}

/// The script's text carries the shell-escaped original command line: its
/// last bytes before the final newline are exactly the escaped, joined
/// arguments.
pub proof fn lemma_script_shows_command(
    cwd: Option<Seq<char>>,
    env: Seq<(Seq<char>, Seq<char>)>,
    argv: Seq<Seq<char>>,
)
    ensures
        ({
            let s = spec_run_script(cwd, env, argv);
            let a = spec_joined_args(argv);
            s.len() == s.len() - 1 - a.len() + a.len() + 1 && s.subrange(
                s.len() - 1 - a.len(),
                s.len() - 1,
            ) == a
        }),
{
    let s = spec_run_script(cwd, env, argv);
    let a = spec_joined_args(argv);
    assert(s.subrange(s.len() - 1 - a.len(), s.len() - 1) =~= a);
}

} // verus!
