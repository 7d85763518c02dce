use local_exec::paths::{CacheDest, CacheName, RelativePath};
use local_exec::process::Process;
use local_exec::sandbox::{jdk_link_name, run_script, sandbox_plan, NamedCaches};

fn rel(s: &str) -> RelativePath {
    RelativePath::new(s.to_owned()).unwrap()
}

fn owned(args: &[&str]) -> Vec<String> {
    args.iter().map(|a| a.to_string()).collect()
}

#[test]
fn script_contains_shell_escaped_command_line() {
    let bash_contents = "echo $PWD && cp roland.ext ..";
    let argv = owned(&["/bin/bash", "-c", bash_contents]);
    let script = run_script(None, &Vec::new(), &argv);
    let text = String::from_utf8(script).unwrap();
    let quoted = String::from_utf8(shell_quote::Bash::quote_vec(bash_contents)).unwrap();
    assert!(text.contains(&quoted));
    assert!(text.starts_with("#!/bin/bash\n"));
    assert!(text.ends_with("\n"));
}

#[test]
fn script_sets_working_directory_and_environment() {
    let argv = owned(&["/bin/echo", "-n", "foo"]);
    let env = vec![
        ("BAR".to_string(), "not foo".to_string()),
        ("FOO".to_string(), "foo".to_string()),
    ];
    let script = run_script(Some("cats"), &env, &argv);
    let text = String::from_utf8(script).unwrap();
    let quoted_cwd = String::from_utf8(shell_quote::Bash::quote_vec("cats")).unwrap();
    assert!(text.contains(&format!("cd {}", quoted_cwd)));
    let quoted_not_foo = String::from_utf8(shell_quote::Bash::quote_vec("not foo")).unwrap();
    assert!(text.contains(&format!("export BAR={}", quoted_not_foo)));
    let quoted_foo = String::from_utf8(shell_quote::Bash::quote_vec("foo")).unwrap();
    assert!(text.contains(&format!("export FOO={}", quoted_foo)));
}

#[test]
fn script_escaping_survives_whitespace_and_quotes() {
    let tricky = "a b'c\"d$e";
    let argv = owned(&["/bin/echo", tricky]);
    let script = run_script(None, &Vec::new(), &argv);
    let text = String::from_utf8(script).unwrap();
    let quoted = String::from_utf8(shell_quote::Bash::quote_vec(tricky)).unwrap();
    assert!(text.contains(&quoted));
}

#[test]
fn plan_creates_parents_of_all_declared_outputs() {
    let mut p = Process::new(owned(&["/bin/true"]));
    p = p.output_files(vec![rel("cats/roland.ext")]);
    p = p.output_directories(vec![rel("birds/falcons")]);
    let caches = NamedCaches::new("/tmp/caches".to_string());
    let plan = sandbox_plan(&p, &caches);
    let dirs: Vec<String> = plan
        .dirs_to_create
        .iter()
        .map(|d| d.to_path_string())
        .collect();
    assert_eq!(dirs, vec!["cats".to_string(), "birds".to_string()]);
}

#[test]
fn plan_omits_parents_for_top_level_outputs() {
    let mut p = Process::new(owned(&["/bin/true"]));
    p = p.output_files(vec![rel("roland.ext")]);
    let caches = NamedCaches::new("/tmp/caches".to_string());
    let plan = sandbox_plan(&p, &caches);
    assert!(plan.dirs_to_create.is_empty());
    assert!(plan.cache_links.is_empty());
    assert!(plan.jdk_link.is_none());
}

#[test]
fn plan_mounts_caches_at_their_destinations() {
    let name = CacheName::new("geo".to_owned()).unwrap();
    let dest = CacheDest::new(".cache/geo".to_owned()).unwrap();
    let mut p = Process::new(owned(&["/bin/ls", ".cache/geo"]));
    p = p.append_only_caches(vec![(name, dest)]);
    let caches = NamedCaches::new("/tmp/named".to_string());
    let plan = sandbox_plan(&p, &caches);
    assert_eq!(
        plan.cache_links,
        vec![(".cache/geo".to_string(), "/tmp/named/geo".to_string())]
    );
    // The mount's parent directory is pre-created.
    let dirs: Vec<String> = plan
        .dirs_to_create
        .iter()
        .map(|d| d.to_path_string())
        .collect();
    assert_eq!(dirs, vec![".cache".to_string()]);
}

#[test]
fn cache_paths_are_identical_across_runs() {
    let caches = NamedCaches::new("/tmp/named".to_string());
    let name = CacheName::new("geo".to_owned()).unwrap();
    let first = caches.path_for(&name);
    let second = caches.path_for(&name);
    assert_eq!(first, second);
    assert_eq!(first, "/tmp/named/geo");
}

#[test]
fn jdk_home_becomes_the_toolchain_link() {
    let mut p = Process::new(owned(&["/bin/cat", ".jdk/roland.ext"]));
    p.jdk_home = Some("/opt/jdk".to_string());
    let caches = NamedCaches::new("/tmp/named".to_string());
    let plan = sandbox_plan(&p, &caches);
    assert_eq!(plan.jdk_link, Some("/opt/jdk".to_string()));
    assert_eq!(jdk_link_name(), ".jdk");
}

#[test]
fn process_builder_fills_fields() {
    let argv = owned(&["/usr/bin/env"]);
    let env = vec![
        ("BAR".to_string(), "not foo".to_string()),
        ("FOO".to_string(), "foo".to_string()),
    ];
    let p = Process::new(argv.clone()).env(env.clone());
    assert_eq!(p.argv, argv);
    assert_eq!(p.env, env);
    assert!(p.working_directory.is_none());
    assert!(p.timeout_millis.is_none());
    assert_eq!(p.description, "");
}
