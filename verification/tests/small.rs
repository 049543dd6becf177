use runix::inject::Remap;
use runix::install::install_dirs;
use runix::nix_evaluate::{evaluated_entries, evaluation_output, evaluation_outputs, multi_output_expr, single_output_expr};
use runix::platform::{Arch, OS, Platform};
use runix::paths::{join_path, RewritePaths, RuntimePaths};
use runix::perms::{executable_mode, is_executable, unwriteable_mode, writeable_mode};
use runix::error::Error;
use runix::store::StoreIdentity;

#[test]
fn modes_for_permissions() {
	assert_eq!(writeable_mode(0o444), Some(0o644));
	assert_eq!(writeable_mode(0o644), None);
	assert_eq!(executable_mode(0o644), Some(0o755));
	assert_eq!(executable_mode(0o740), Some(0o751));
	assert_eq!(executable_mode(0o755), None);
	assert_eq!(unwriteable_mode(0o755), Some(0o555));
	assert_eq!(unwriteable_mode(0o555), None);
	assert_eq!(unwriteable_mode(0o100666), Some(0o100444));
	assert!(is_executable(0o755));
	assert!(!is_executable(0o655));
	assert!(!is_executable(0o011));
}

#[test]
fn mode_change_is_idempotent() {
	for mode in [0o000u32, 0o444, 0o600, 0o777, 0o100644] {
		if let Some(m) = writeable_mode(mode) {
			assert_eq!(writeable_mode(m), None);
		}
		if let Some(m) = executable_mode(mode) {
			assert_eq!(executable_mode(m), None);
		}
		if let Some(m) = unwriteable_mode(mode) {
			assert_eq!(unwriteable_mode(m), None);
		}
	}
}

fn strings(v: Vec<Vec<u8>>) -> Vec<String> {
	v.into_iter().map(|b| String::from_utf8(b).unwrap()).collect()
}

#[test]
fn path_is_split_on_colons() {
	assert_eq!(strings(install_dirs(b"/usr/bin::/bin:")), vec!["/usr/bin", "/bin"]);
	assert!(install_dirs(b"").is_empty());
	assert!(install_dirs(b":::").is_empty());
}

#[test]
fn install_dirs_keep_path_order() {
	assert_eq!(strings(install_dirs(b"/opt/tools/bin:/bin")), vec!["/opt/tools/bin", "/bin"]);
	let dirs = install_dirs("/usr/local/bin:/é:/bin:/usr/local/bin".as_bytes());
	assert_eq!(strings(dirs), vec!["/usr/local/bin", "/é", "/bin", "/usr/local/bin"]);
}

#[test]
fn remap_prefixes_nix_paths() {
	let remap = Remap::for_dest(b"/home/u/.cache/runix".to_vec());
	assert_eq!(remap.intercept(b"/nix/store/x"), b"/home/u/.cache/runix/nix/store/x".to_vec());
	assert_eq!(remap.intercept(b"/nixos"), b"/nixos".to_vec());
	assert_eq!(remap.intercept(b"/nix"), b"/nix".to_vec());
	assert_eq!(remap.intercept(b""), b"".to_vec());
}

#[test]
fn nix_expressions() {
	assert_eq!(single_output_expr("import ./jq.nix"), "(import ./jq.nix).outPath");
	let multi = multi_output_expr("import ./all.nix");
	assert_eq!(multi, "with builtins;\n    let\n        drvs = import ./all.nix;\n        buildMap = (d: { name = d.system; value = d.outPath; });\n    in\n    listToAttrs (map buildMap (if typeOf drvs == \"list\" then drvs else attrValues drvs))\n");
	assert!(!multi_output_expr("a\tb").contains('\t'));
}

#[test]
fn joins_like_path_join() {
	assert_eq!(join_path("/a", "b"), "/a/b");
	assert_eq!(join_path("/a/", "b"), "/a/b");
	assert_eq!(join_path("/a", "/b"), "/b");
	assert_eq!(join_path("", "b"), "b");
}

#[test]
fn runtime_paths_under_root() {
	let p = RuntimePaths::for_dest("/home/u/.cache/runix".to_owned()).unwrap();
	assert_eq!(p.runix_root, "/home/u/.cache/runix");
	assert_eq!(p.store_path, "/home/u/.cache/runix/nix/store");
	assert_eq!(p.meta_path, "/home/u/.cache/runix/nix/info");
	assert_eq!(p.lock_path, "/home/u/.cache/runix/lock");
	assert_eq!(p.current_symlink(), "/home/u/.cache/runix/current");
	let id = StoreIdentity::unsafe_from("abc-jq");
	assert_eq!(p.store_path_for(&id), "/home/u/.cache/runix/nix/store/abc-jq");
	assert!(matches!(RuntimePaths::for_dest("relative".to_owned()), Err(Error::RootNotAbsolute(ref r)) if r == "relative"));
	let rw = RewritePaths::default();
	assert_eq!(rw.src, "/nix/store");
	assert_eq!(rw.tmp_dest, "/tmp/runix");
	assert_eq!(rw.src.len(), rw.tmp_dest.len());
}

#[test]
fn evaluation_output_decodes_json_string() {
	assert_eq!(evaluation_output(true, b"\"/nix/store/abc-jq\"\n").as_deref(), Some("/nix/store/abc-jq"));
	assert_eq!(evaluation_output(true, br#""a\"b""#).as_deref(), Some("a\"b"));
	assert_eq!(evaluation_output(false, b"\"/nix/store/abc-jq\""), None);
	assert_eq!(evaluation_output(true, b"/nix/store/abc-jq"), None);
	assert_eq!(evaluation_output(true, b"{}"), None);
}

#[test]
fn evaluation_outputs_decode_json_object() {
	let mut v = evaluation_outputs(true, br#"{"x86_64-linux": "/nix/store/a-x", "aarch64-darwin": "/nix/store/b-y"}"#).unwrap();
	v.sort();
	assert_eq!(v, vec![
		("aarch64-darwin".to_owned(), "/nix/store/b-y".to_owned()),
		("x86_64-linux".to_owned(), "/nix/store/a-x".to_owned()),
	]);
	assert!(evaluation_outputs(false, b"{}").is_none());
	assert!(evaluation_outputs(true, b"[]").is_none());
	assert!(evaluation_outputs(true, br#"{"a": 1}"#).is_none());
}

#[test]
fn evaluated_entries_read_systems_and_paths() {
	let hash = "0d71ygfwbmy1xjlbj1v027dfmy9cqavy";
	let pairs = vec![
		("x86_64-linux".to_owned(), format!("/nix/store/{}-jq", hash)),
		("aarch64-darwin".to_owned(), format!("/nix/store/{}-jq2", hash)),
	];
	let entries = evaluated_entries(&pairs).unwrap();
	assert_eq!(entries[0].0, Platform { arch: Arch::x86_64, os: OS::Linux });
	assert_eq!(entries[0].1.directory(), format!("{}-jq", hash));
	assert_eq!(entries[1].0, Platform { arch: Arch::arm64, os: OS::macOS });
	let bad = vec![("x86_64-linux".to_owned(), "/nix/store/short-jq".to_owned()), ("riscv-linux".to_owned(), "x".to_owned())];
	assert!(matches!(evaluated_entries(&bad), Err(Error::InvalidStoreIdentity(ref s)) if s == "short-jq"));
	let bad = vec![("riscv-linux".to_owned(), "x".to_owned())];
	assert!(matches!(evaluated_entries(&bad), Err(Error::UnknownArch(ref s)) if s == "riscv"));
}
