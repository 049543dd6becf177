use runix::paths::RewritePaths;
use runix::rewrite::RewriteReferences;
use runix::store::StoreIdentity;

fn setup() -> RewriteReferences {
	RewriteReferences::new(
		&RewritePaths::default(),
		&vec!(
			StoreIdentity::unsafe_from("abcd-v1"),
			StoreIdentity::unsafe_from("ghij-v1"),
		)
	).unwrap()
}

#[test]
fn test_replace_exact() {
	let mut matching_bytes: Vec<u8> = "/nix/store/abcd".bytes().collect();
	let mut mismatch_bytes: Vec<u8> = "/nix/store/zzzz".bytes().collect();
	let rewrite = setup();
	let replaced = rewrite.replace_exact(&mut matching_bytes);
	assert_eq!(String::from_utf8(matching_bytes).unwrap(), "/tmp/runix/abcd");
	assert!(replaced);

	assert_eq!(rewrite.replace_exact(&mut mismatch_bytes), false);
}

#[test]
fn test_replace_all() {
	let mut entire_string: Vec<u8> = r#"
			Take me to the /nix/store/abcd-foo folder!
			I hear /nix/store/ is full of great contents.
			Like /nix/store/ghij :)
		"#.bytes().collect();
	let rewrite = setup();
	let replace_count = rewrite.replace_all(&mut entire_string);
	assert_eq!(String::from_utf8(entire_string).unwrap(), r#"
			Take me to the /tmp/runix/abcd-foo folder!
			I hear /nix/store/ is full of great contents.
			Like /tmp/runix/ghij :)
		"#);
	assert_eq!(replace_count, 2);
}

#[test]
fn replace_all_keeps_adjacent_references_apart() {
	let mut bytes: Vec<u8> = "/nix/store/abcd/nix/store/ghij".bytes().collect();
	let count = setup().replace_all(&mut bytes);
	assert_eq!(String::from_utf8(bytes).unwrap(), "/tmp/runix/abcd/tmp/runix/ghij");
	assert_eq!(count, 2);
}

#[test]
fn replace_all_on_short_input_changes_nothing() {
	let mut bytes: Vec<u8> = "/nix/store/ab".bytes().collect();
	assert_eq!(setup().replace_all(&mut bytes), 0);
	assert_eq!(String::from_utf8(bytes).unwrap(), "/nix/store/ab");
}

#[test]
fn no_references_means_no_rewrite() {
	assert!(RewriteReferences::new(&RewritePaths::default(), &vec!()).is_none());
}

#[test]
fn replace_all_twice_changes_nothing_more() {
	let mut bytes: Vec<u8> = "x /nix/store/abcd-foo /nix/store/ghij /nix/store/abcd".bytes().collect();
	let rewrite = setup();
	assert_eq!(rewrite.replace_all(&mut bytes), 3);
	let once = bytes.clone();
	assert_eq!(rewrite.replace_all(&mut bytes), 0);
	assert_eq!(bytes, once);
}
