use std::collections::VecDeque;

use runix::cli::parse_options;
use runix::error::Error;
use runix::platform::{Arch, OS, Platform};
use runix::runner::ScriptType;
use runix::store::StoreIdentity;

const LINUX: Platform = Platform { arch: Arch::x86_64, os: OS::Linux };
const JQ: &str = "0d71ygfwbmy1xjlbj1v027dfmy9cqavy-jq-1.6";
const BASH: &str = "a4yw1svqqk4d8lhwinn9xp847zz9gfma-bash-4.4-p23";

fn args(v: &[&str]) -> VecDeque<String> {
	v.iter().map(|s| s.to_string()).collect()
}

#[test]
fn options_stop_at_first_plain_argument() {
	let mut a = args(&["--require", BASH, "--with-cache", "https://c", "--platform", "arm64-macOS", "--expr", JQ, "--flag"]);
	let o = parse_options(&mut a, LINUX).unwrap();
	assert_eq!(o.requirements.len(), 1);
	assert_eq!(o.requirements[0].directory(), BASH);
	assert_eq!(o.caches.len(), 1);
	assert_eq!(o.caches[0].root, "https://c/");
	assert_eq!(o.platform, Platform { arch: Arch::arm64, os: OS::macOS });
	assert!(o.expr);
	assert!(!o.multiplatform);
	assert!(!o.help);
	assert_eq!(o.script_type, ScriptType::Standard);
	assert_eq!(Vec::from(a), vec![JQ.to_owned(), "--flag".to_owned()]);
}

#[test]
fn save_options() {
	let mut a = args(&["--save", "out", "--auto-bootstrap", "--entrypoint", JQ, "bin/jq", "--multiplatform"]);
	let o = parse_options(&mut a, LINUX).unwrap();
	assert_eq!(o.save_to.as_deref(), Some("out"));
	assert_eq!(o.script_type, ScriptType::AutoBootstrap);
	assert_eq!(o.entrypoint, Some((JQ.to_owned(), "bin/jq".to_owned())));
	assert!(o.multiplatform);
	assert!(a.is_empty());
	assert_eq!(o.platform, LINUX);
}

#[test]
fn help_stops_reading() {
	let mut a = args(&["--expr", "--help", "--bogus"]);
	let o = parse_options(&mut a, LINUX).unwrap();
	assert!(o.help);
	assert!(o.expr);
	assert_eq!(Vec::from(a), vec!["--help".to_owned(), "--bogus".to_owned()]);
}

#[test]
fn unknown_option_is_refused() {
	let mut a = args(&["--bogus"]);
	assert!(matches!(parse_options(&mut a, LINUX), Err(Error::UnknownOption(ref o)) if o == "--bogus"));
}

#[test]
fn missing_option_values_are_refused() {
	assert!(matches!(parse_options(&mut args(&["--require"]), LINUX),
		Err(Error::NotEnoughArguments(ref d)) if d == "--require value"));
	assert!(matches!(parse_options(&mut args(&["--entrypoint", JQ]), LINUX),
		Err(Error::NotEnoughArguments(ref d)) if d == "--entrypoint relpath"));
	assert!(matches!(parse_options(&mut args(&["--require", "nope"]), LINUX),
		Err(Error::InvalidStoreIdentity(_))));
	assert!(parse_options(&mut args(&["--platform", "x86_64"]), LINUX).is_err());
}

#[test]
fn runscript_without_entrypoint_holds_requirements() {
	let mut a = args(&["--require", BASH, "--with-cache", "https://c/"]);
	let o = parse_options(&mut a, LINUX).unwrap();
	let rs = o.into_runscript(vec![]).unwrap();
	let pe = rs.get_platform(LINUX).unwrap();
	assert!(pe.entrypoint.is_none());
	assert_eq!(pe.requirements[0].directory(), BASH);
	assert_eq!(rs.platforms().len(), 1);
}

#[test]
fn runscript_with_direct_entrypoint() {
	let mut a = args(&["--require", BASH, "--entrypoint", JQ, "bin/jq"]);
	let o = parse_options(&mut a, LINUX).unwrap();
	let entries = o.direct_entrypoint().unwrap();
	assert_eq!(entries.len(), 1);
	assert_eq!(entries[0].0, LINUX);
	let rs = o.into_runscript(entries).unwrap();
	let pe = rs.get_platform(LINUX).unwrap();
	let e = pe.entrypoint.as_ref().unwrap();
	assert_eq!(e.derivation.directory(), JQ);
	assert_eq!(e.path, "bin/jq");
	assert_eq!(pe.requirements.len(), 1);
}

#[test]
fn direct_entrypoint_must_be_identity() {
	let o = parse_options(&mut args(&["--entrypoint", "jq", "bin/jq"]), LINUX).unwrap();
	assert!(matches!(o.direct_entrypoint(), Err(Error::InvalidStoreIdentity(ref s)) if s == "jq"));
}

#[test]
fn runscript_entries_need_distinct_platforms() {
	let o = parse_options(&mut args(&["--entrypoint", "expr", "bin/jq", "--multiplatform"]), LINUX).unwrap();
	let entries = vec![
		(LINUX, StoreIdentity::new(JQ.to_owned()).unwrap()),
		(LINUX, StoreIdentity::new(BASH.to_owned()).unwrap()),
	];
	assert!(matches!(o.into_runscript(entries), Err(Error::PlatformAddedTwice(p)) if p == LINUX));
}
