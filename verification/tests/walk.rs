use runix::store::StoreIdentity;
use runix::walk::{CacheAction, CacheEvent, CacheWalk};

fn id(name: &str) -> StoreIdentity {
	StoreIdentity::new(format!("0d71ygfwbmy1xjlbj1v027dfmy9cqavy-{}", name)).unwrap()
}

fn describe(action: &CacheAction) -> String {
	match action {
		CacheAction::Lookup(e) => format!("lookup {}", &e.directory()[33..]),
		CacheAction::LoadMeta(e) => format!("meta {}", &e.directory()[33..]),
		CacheAction::Download(e) => format!("download {}", &e.directory()[33..]),
		CacheAction::Touch(e) => format!("touch {}", &e.directory()[33..]),
		CacheAction::Done => "done".to_owned(),
	}
}

/// Runs a walk where `fetched` entries are missing (with their references)
/// and `cached` ones are present (with the references in their metadata).
fn run_walk(root: &str, check_all: bool, fetched: &[(&str, &[&str])], cached: &[(&str, &[&str])]) -> Vec<String> {
	let refs_of = |table: &[(&str, &[&str])], name: &str| -> Option<Vec<StoreIdentity>> {
		table.iter().find(|(n, _)| *n == name).map(|(_, refs)| refs.iter().map(|r| id(r)).collect())
	};
	let (mut walk, mut action) = CacheWalk::new(&id(root), check_all);
	let mut log = Vec::new();
	loop {
		log.push(describe(&action));
		let event = match &action {
			CacheAction::Lookup(e) => {
				let name = &e.directory()[33..];
				match refs_of(fetched, name) {
					Some(refs) => CacheEvent::Fetched(refs),
					None => CacheEvent::Cached,
				}
			},
			CacheAction::LoadMeta(e) => CacheEvent::MetaLoaded(refs_of(cached, &e.directory()[33..]).unwrap_or_default()),
			CacheAction::Download(_) | CacheAction::Touch(_) => CacheEvent::Finished,
			CacheAction::Done => break,
		};
		action = walk.step(event);
	}
	log
}

#[test]
fn walk_caches_references_before_entry() {
	let log = run_walk("a", false, &[("a", &["b", "a", "c"]), ("b", &[])], &[("c", &[])]);
	assert_eq!(log, vec![
		"lookup a", "lookup b", "download b", "lookup c", "touch c", "download a", "done",
	]);
}

#[test]
fn walk_visits_shared_reference_once() {
	let log = run_walk("a", false, &[("a", &["b", "c"]), ("b", &["d"]), ("c", &["d"]), ("d", &[])], &[]);
	assert_eq!(log, vec![
		"lookup a", "lookup b", "lookup d", "download d", "download b", "lookup c", "download c",
		"download a", "done",
	]);
}

#[test]
fn walk_of_cached_entry_only_touches_it() {
	let log = run_walk("a", false, &[], &[("a", &["b"])]);
	assert_eq!(log, vec!["lookup a", "touch a", "done"]);
}

#[test]
fn walk_checking_all_follows_cached_metadata() {
	let log = run_walk("a", true, &[("c", &[])], &[("a", &["b", "c"]), ("b", &["a"])]);
	assert_eq!(log, vec![
		"lookup a", "meta a", "lookup b", "meta b", "touch b", "lookup c", "download c", "touch a", "done",
	]);
}
