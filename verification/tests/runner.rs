use std::collections::VecDeque;

use runix::cache::Server;
use runix::error::Error;
use runix::paths::RuntimePaths;
use runix::platform::{Arch, OS, Platform};
use runix::runner::{
	mandatory_arg, mandatory_next_arg, search_path, tree_prefix, Entrypoint, PlatformExec, RunScript,
	ScriptType, RUNIX_SHEBANG,
};
use runix::store::StoreIdentity;

const LINUX: Platform = Platform { arch: Arch::x86_64, os: OS::Linux };
const MAC: Platform = Platform { arch: Arch::arm64, os: OS::macOS };

fn id(name: &str) -> StoreIdentity {
	StoreIdentity::new(format!("0d71ygfwbmy1xjlbj1v027dfmy9cqavy-{}", name)).unwrap()
}

fn exec_of(entry: &str, reqs: &[&str]) -> PlatformExec {
	PlatformExec {
		entrypoint: Some(Entrypoint { derivation: id(entry), path: "bin/run".to_owned() }),
		requirements: reqs.iter().map(|r| id(r)).collect(),
	}
}

fn entry_name(pe: &PlatformExec) -> String {
	pe.entrypoint.as_ref().unwrap().derivation.directory().to_owned()
}

#[test]
fn default_runscript_has_default_cache_only() {
	let rs = RunScript::default();
	let client = rs.client(RuntimePaths::for_dest("/r".to_owned()).unwrap());
	assert_eq!(client.servers.len(), 1);
	assert_eq!(client.servers[0].root, "https://cache.nixos.org/");
	assert!(rs.platforms().is_empty());
	assert_eq!(RunScript::default_cache().root, "https://cache.nixos.org/");
}

#[test]
fn added_platform_is_found() {
	let mut rs = RunScript::default();
	rs.add_platform(LINUX, exec_of("jq", &[])).unwrap();
	assert_eq!(entry_name(rs.get_platform(LINUX).unwrap()), id("jq").directory());
	assert!(matches!(rs.get_platform(MAC), Err(Error::PlatformNotFound(p)) if p == MAC));
}

#[test]
fn platform_added_twice_is_refused() {
	let mut rs = RunScript::default();
	rs.add_platform(LINUX, exec_of("jq", &[])).unwrap();
	let r = rs.add_platform(LINUX, exec_of("gnupg", &[]));
	assert!(matches!(r, Err(Error::PlatformAddedTwice(p)) if p == LINUX));
	assert_eq!(entry_name(rs.get_platform(LINUX).unwrap()), id("jq").directory());
}

#[test]
fn merge_appends_new_caches_and_prefers_other_platforms() {
	let mut a = RunScript::default();
	a.add_cache(Server::from_str("https://a/"));
	a.add_platform(LINUX, exec_of("jq-1", &[])).unwrap();
	let mut b = RunScript::default();
	b.add_cache(Server::from_str("https://b/"));
	b.add_cache(Server::from_str("https://a/"));
	b.add_platform(LINUX, exec_of("jq-2", &[])).unwrap();
	b.add_platform(MAC, exec_of("jq-3", &[])).unwrap();
	a.merge(b);
	let client = a.client(RuntimePaths::for_dest("/r".to_owned()).unwrap());
	let roots: Vec<&str> = client.servers.iter().map(|s| s.root.as_str()).collect();
	assert_eq!(roots, vec!["https://cache.nixos.org/", "https://a/", "https://b/"]);
	assert_eq!(entry_name(a.get_platform(LINUX).unwrap()), id("jq-2").directory());
	assert_eq!(entry_name(a.get_platform(MAC).unwrap()), id("jq-3").directory());
	assert_eq!(a.platforms().len(), 2);
}

#[test]
fn roots_are_requirements_then_entrypoint() {
	let pe = exec_of("jq", &["bash", "coreutils"]);
	let roots: Vec<&str> = pe.roots().iter().map(|r| r.directory()).collect();
	assert_eq!(roots, vec![id("bash").directory(), id("coreutils").directory(), id("jq").directory()]);
	let bare = PlatformExec { entrypoint: None, requirements: vec![id("bash")] };
	assert_eq!(bare.roots().len(), 1);
}

#[test]
fn exe_path_is_inside_store_entry() {
	let paths = RuntimePaths::for_dest("/home/u/.cache/runix".to_owned()).unwrap();
	let pe = exec_of("jq", &[]);
	assert_eq!(
		pe.exe_path(&paths).unwrap(),
		format!("/home/u/.cache/runix/nix/store/{}/bin/run", id("jq").directory())
	);
	let bare = PlatformExec { entrypoint: None, requirements: vec![] };
	assert!(bare.exe_path(&paths).is_none());
}

#[test]
fn bootstrap_entry_needs_entrypoint() {
	let mut rs = RunScript::default();
	rs.add_platform(LINUX, exec_of("runix", &[])).unwrap();
	rs.add_platform(MAC, PlatformExec { entrypoint: None, requirements: vec![] }).unwrap();
	assert_eq!(rs.bootstrap_entry(LINUX).unwrap().directory(), id("runix").directory());
	assert!(matches!(rs.bootstrap_entry(MAC), Err(Error::MissingEntrypoint)));
	let empty = RunScript::default();
	assert!(matches!(empty.bootstrap_entry(MAC), Err(Error::PlatformNotFound(_))));
}

#[test]
fn parts_round_trip() {
	let mut rs = RunScript::default();
	rs.add_platform(LINUX, exec_of("jq", &[])).unwrap();
	let (caches, platforms) = rs.into_parts();
	assert_eq!(caches.len(), 1);
	assert_eq!(platforms.len(), 1);
	let rs = RunScript::from_parts(caches, platforms);
	assert_eq!(entry_name(rs.get_platform(LINUX).unwrap()), id("jq").directory());
}

#[test]
fn parts_with_repeated_platform_keep_the_last() {
	let platforms = vec![(LINUX, exec_of("a", &[])), (MAC, exec_of("b", &[])), (LINUX, exec_of("c", &[]))];
	let rs = RunScript::from_parts(vec![], platforms);
	assert_eq!(entry_name(rs.get_platform(LINUX).unwrap()), id("c").directory());
	assert_eq!(entry_name(rs.get_platform(MAC).unwrap()), id("b").directory());
	assert_eq!(rs.platforms().len(), 2);
}

#[test]
fn header_for_each_script_type() {
	assert_eq!(RunScript::header(ScriptType::Standard), "#!/usr/bin/env runix\n\n");
	let boot = RunScript::header(ScriptType::AutoBootstrap);
	assert!(boot.starts_with("#!/bin/sh\nset -eu\n"));
	assert!(boot.ends_with("exec \"$RUNIX_BIN\" \"$0\" \"$@\"\n\n#!/usr/bin/env runix\n\n"));
	assert!(boot.ends_with(RUNIX_SHEBANG));
}

#[test]
fn json_body_skips_front_matter() {
	let file = "#!/usr/bin/env runix\n\n{\"caches\": []}";
	assert_eq!(RunScript::json_body(file).unwrap(), "\n{\"caches\": []}");
	assert!(matches!(RunScript::json_body("{\"caches\": []}"), Err(Error::MissingLeadingBrace)));
	assert!(matches!(RunScript::json_body(""), Err(Error::MissingLeadingBrace)));
}

#[test]
fn mandatory_arguments() {
	assert_eq!(mandatory_arg("x", Some(3)).unwrap(), 3);
	assert!(matches!(mandatory_arg::<u8>("thing", None), Err(Error::NotEnoughArguments(ref d)) if d == "thing"));
	let mut args: VecDeque<String> = VecDeque::from(vec!["a".to_owned(), "b".to_owned()]);
	assert_eq!(mandatory_next_arg("first", &mut args).unwrap(), "a");
	assert_eq!(mandatory_next_arg("second", &mut args).unwrap(), "b");
	assert!(mandatory_next_arg("third", &mut args).is_err());
}

#[test]
fn search_path_joins_with_colons() {
	let dirs = vec!["/a/bin".to_owned(), "/b/bin".to_owned()];
	assert_eq!(search_path(&dirs, Some("/usr/bin:/bin")), "/a/bin:/b/bin:/usr/bin:/bin");
	assert_eq!(search_path(&dirs, None), "/a/bin:/b/bin");
	assert_eq!(search_path(&vec![], Some("/usr/bin")), "/usr/bin");
	assert_eq!(search_path(&vec![], None), "");
}

#[test]
fn tree_prefix_draws_branches() {
	assert_eq!(tree_prefix(0), "");
	assert_eq!(tree_prefix(1), "+ ");
	assert_eq!(tree_prefix(3), "| | + ");
}

#[test]
fn written_header_is_skipped_when_read() {
	let json = "{\n  \"caches\": []\n}";
	for t in [ScriptType::Standard, ScriptType::AutoBootstrap] {
		let file = format!("{}{}", RunScript::header(t), json);
		assert_eq!(RunScript::json_body(&file).unwrap(), format!("\n{}", json));
	}
}
