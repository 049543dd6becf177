use runix::builder::{
	all_platforms, censor, drop_store_prefix, uname_platform, BuildPlan, Buildable, Dependency, Release,
	ReleaseAsset, Target,
};

fn target(platform: &str, name: &str) -> Target {
	Target::from_args("out".to_owned(), &format!("platforms/{}/{}", platform, name)).unwrap()
}

#[test]
fn buildable_path() {
	let b = Buildable { platform: "Linux-x86_64".to_owned(), name: "bootstrap".to_owned() };
	assert_eq!(b.path(), "platforms/Linux-x86_64/bootstrap");
}

#[test]
fn target_from_args_needs_platform_and_name() {
	let t = target("Darwin-aarch64", "archive");
	assert_eq!(t.output, "out");
	assert_eq!(t.buildable.platform, "Darwin-aarch64");
	assert_eq!(t.buildable.name, "archive");
	assert!(Target::from_args("o".to_owned(), "platforms/Linux").is_none());
	assert!(Target::from_args("o".to_owned(), "platforms/Linux/a/b").is_none());
	assert!(Target::from_args("o".to_owned(), "other/Linux/a").is_none());
}

#[test]
fn target_names_and_dependencies() {
	let t = target("Linux-x86_64", "release");
	assert_eq!(t.tarball_name(), "runix-Linux-x86_64.tgz");
	let d = t.dependency("bootstrap.dir");
	assert_eq!(d._path, "platforms/Linux-x86_64/bootstrap.dir");
	let d = t.platform_dependency("all", "runscript");
	assert_eq!(d._path, "platforms/all/runscript");
}

#[test]
fn dependency_is_built_once() {
	let mut d = Dependency::new("platforms/all/runscript".to_owned());
	assert_eq!(d.path(), (true, "platforms/all/runscript".to_owned()));
	assert_eq!(d.path(), (false, "platforms/all/runscript".to_owned()));
	assert!(!d.start_build());
	let mut e = Dependency::new("platforms/all/all".to_owned());
	assert!(e.start_build());
	assert_eq!(e.path(), (false, "platforms/all/all".to_owned()));
}

#[test]
fn plans_for_targets() {
	assert!(matches!(target("all", "all").plan(), BuildPlan::AllAlias));
	assert!(matches!(target("all", "release").plan(), BuildPlan::ReleaseAll));
	assert!(matches!(target("all", "runscript").plan(), BuildPlan::Runscript));
	assert!(matches!(target("all", "bootstrap").plan(), BuildPlan::EachPlatform(ref n) if n == "bootstrap"));
	match target("current", "archive").plan() {
		BuildPlan::Current(name) => assert_eq!(name, "archive"),
		other => panic!("unexpected plan {:?}", other),
	}
	let p = "Linux-x86_64";
	assert!(matches!(target(p, "release").plan(), BuildPlan::Release));
	assert!(matches!(target(p, "bootstrap").plan(), BuildPlan::Bootstrap));
	assert!(matches!(target(p, "archive").plan(), BuildPlan::Archive));
	assert!(matches!(target(p, "runix-Linux-x86_64.tgz").plan(), BuildPlan::Tarball));
	assert!(matches!(target(p, "runix-Darwin-x86_64.tgz").plan(), BuildPlan::Unknown));
	assert!(matches!(target(p, "bootstrap.dir").plan(), BuildPlan::BootstrapDir));
	assert!(matches!(target(p, "bootstrap.drv").plan(), BuildPlan::BootstrapDrv));
	assert!(matches!(target(p, "what").plan(), BuildPlan::Unknown));
}

#[test]
fn platform_names() {
	assert_eq!(all_platforms(), vec!["x86_64-Linux", "x86_64-Darwin", "aarch64-Darwin"]);
	assert_eq!(uname_platform("Darwin arm64"), "Darwin-arm64");
	assert_eq!(uname_platform("Linux x86_64"), "Linux-x86_64");
}

#[test]
fn store_prefix_is_dropped() {
	assert_eq!(drop_store_prefix("/nix/store/abc-jq"), "abc-jq");
}

#[test]
fn censor_masks_credentials() {
	let argv = vec!["-H".to_owned(), "Authorization: Bearer xyz".to_owned(), "https://x".to_owned()];
	assert_eq!(censor(&argv), " '-H' '*****' 'https://x'");
	assert_eq!(censor(&vec![]), "");
}

fn release() -> Release {
	Release {
		assets_url: "https://api/assets".to_owned(),
		upload_url: "https://uploads/assets{?name,label}".to_owned(),
		assets: vec![
			ReleaseAsset { id: 1, name: "runix-Linux-x86_64.tgz".to_owned(), url: "https://a/1".to_owned() },
			ReleaseAsset { id: 2, name: "bootstrap".to_owned(), url: "https://a/2".to_owned() },
			ReleaseAsset { id: 3, name: "runix-Linux-x86_64.tgz".to_owned(), url: "https://a/3".to_owned() },
		],
	}
}

#[test]
fn release_replaces_assets_by_name() {
	let r = release();
	let name = Release::asset_name("platforms/Linux-x86_64/runix-Linux-x86_64.tgz");
	assert_eq!(name, "runix-Linux-x86_64.tgz");
	assert_eq!(r.stale_asset_urls(&name), vec!["https://a/1".to_owned(), "https://a/3".to_owned()]);
	assert!(r.stale_asset_urls("none").is_empty());
	assert_eq!(r.upload_target(&name), "https://uploads/assets?name=runix-Linux-x86_64.tgz");
	assert_eq!(Release::asset_name("bootstrap"), "bootstrap");
}

fn step_paths(t: &Target) -> Vec<String> {
	t.steps(&t.plan()).into_iter().map(|d| d._path).collect()
}

#[test]
fn steps_of_each_plan() {
	assert_eq!(step_paths(&target("all", "all")), vec!["platforms/all/runscript"]);
	assert_eq!(step_paths(&target("all", "release")), vec![
		"platforms/x86_64-Linux/release", "platforms/x86_64-Darwin/release",
		"platforms/aarch64-Darwin/release", "platforms/all/runscript",
	]);
	assert_eq!(step_paths(&target("all", "runscript")), vec![
		"platforms/x86_64-Linux/bootstrap", "platforms/x86_64-Darwin/bootstrap",
		"platforms/aarch64-Darwin/bootstrap", "platforms/x86_64-Linux/bootstrap.dir",
		"platforms/x86_64-Darwin/bootstrap.dir", "platforms/aarch64-Darwin/bootstrap.dir",
	]);
	assert_eq!(step_paths(&target("all", "archive")), vec![
		"platforms/x86_64-Linux/archive", "platforms/x86_64-Darwin/archive", "platforms/aarch64-Darwin/archive",
	]);
	let p = "x86_64-Linux";
	assert_eq!(step_paths(&target(p, "bootstrap")), vec![
		"platforms/x86_64-Linux/runix-x86_64-Linux.tgz", "platforms/x86_64-Linux/bootstrap.drv",
	]);
	assert_eq!(step_paths(&target(p, "archive")), vec!["platforms/x86_64-Linux/runix-x86_64-Linux.tgz"]);
	assert_eq!(step_paths(&target(p, "runix-x86_64-Linux.tgz")), vec!["platforms/x86_64-Linux/bootstrap.dir"]);
	assert_eq!(step_paths(&target(p, "bootstrap.dir")), vec!["platforms/x86_64-Linux/bootstrap.drv"]);
	assert!(step_paths(&target(p, "bootstrap.drv")).is_empty());
	assert!(step_paths(&target(p, "release")).is_empty());
	assert!(step_paths(&target("current", "release")).is_empty());
	assert!(step_paths(&target(p, "nothing")).is_empty());
}
