use runix::error::Error;
use runix::paths::RuntimePaths;
use runix::store::{StoreEntryVersion, StoreIdentity, StoreMeta, MetaError, LATEST_VERSION};

const HASH: &str = "p4pclmv1gyja5kzc26npqpia1qqxrf0l";

fn ruby() -> String {
	format!("{}-ruby-2.7.3", HASH)
}

#[test]
fn identity_accepts_hash_and_name() {
	let id = StoreIdentity::new(ruby()).unwrap();
	assert_eq!(id.directory(), ruby());
	assert_eq!(id.hash(), HASH);
	assert_eq!(id.display_name().to_string(), "ruby-2.7.3");
	assert_eq!(id.to_string(), ruby());
}

#[test]
fn identity_splits_at_first_dash() {
	let id = StoreIdentity::new(format!("{}-bash-4.4-p23", HASH)).unwrap();
	assert_eq!(id.hash(), HASH);
	assert_eq!(id.display_name().to_string(), "bash-4.4-p23");
}

#[test]
fn identity_rejects_slash() {
	let r = StoreIdentity::new(format!("{}-ruby/bin", HASH));
	assert!(matches!(r, Err(Error::InvalidStoreIdentity(ref s)) if s == &format!("{}-ruby/bin", HASH)));
}

#[test]
fn identity_rejects_missing_dash() {
	assert!(matches!(StoreIdentity::new(HASH.to_owned()), Err(Error::InvalidStoreIdentity(_))));
}

#[test]
fn identity_rejects_short_hash() {
	assert!(matches!(StoreIdentity::new("abcd-v1".to_owned()), Err(Error::InvalidStoreIdentity(_))));
}

#[test]
fn identity_counts_hash_bytes() {
	// 31 characters, one of them two bytes long in UTF-8: 32 bytes.
	let hash = "é234567890123456789012345678901";
	assert_eq!(hash.chars().count(), 31);
	let id = StoreIdentity::new(format!("{}-x", hash)).unwrap();
	assert_eq!(id.hash(), hash);
}

#[test]
fn identity_from_path_takes_last_component() {
	let id = StoreIdentity::from_path(&format!("/nix/store/{}", ruby())).unwrap();
	assert_eq!(id.directory(), ruby());
	assert!(StoreIdentity::from_path(&format!("/nix/store/{}/", ruby())).is_err());
	assert_eq!(StoreIdentity::from_path(&ruby()).unwrap().directory(), ruby());
}

#[test]
fn identity_same_as_compares_directories() {
	let a = StoreIdentity::new(ruby()).unwrap();
	let b = StoreIdentity::unsafe_from(&ruby());
	let c = StoreIdentity::unsafe_from("other");
	assert!(a.same_as(&b));
	assert!(!a.same_as(&c));
	assert_eq!(a.copy_identity().directory(), ruby());
}

#[test]
fn version_numbers_round_trip() {
	assert!(matches!(StoreEntryVersion::from(LATEST_VERSION), StoreEntryVersion::Latest));
	assert!(matches!(StoreEntryVersion::from(0), StoreEntryVersion::Historical(0)));
	assert_eq!(i32::from(StoreEntryVersion::Latest), 1);
	assert_eq!(i32::from(StoreEntryVersion::Historical(7)), 7);
	for n in [-3, 0, 1, 2, 100] {
		assert_eq!(i32::from(StoreEntryVersion::from(n)), n);
	}
	assert!(matches!(StoreEntryVersion::v0(), StoreEntryVersion::Historical(0)));
}

fn paths() -> RuntimePaths {
	RuntimePaths::for_dest("/home/u/.cache/runix".to_owned()).unwrap()
}

#[test]
fn meta_path_is_under_meta_dir() {
	let id = StoreIdentity::new(ruby()).unwrap();
	assert_eq!(StoreMeta::path(&paths(), &id), format!("/home/u/.cache/runix/nix/info/{}", ruby()));
}

#[test]
fn meta_of_latest_version_is_accepted() {
	let refs = vec![StoreIdentity::new(ruby()).unwrap()];
	let meta = StoreMeta { references: refs, version: StoreEntryVersion::Latest };
	let full = StoreMeta::loaded(meta, 10, 5).unwrap();
	assert!(full.is_supported());
	assert_eq!(full.references().len(), 1);
	assert_eq!(full.references()[0].directory(), ruby());
}

#[test]
fn meta_of_older_version_is_refused() {
	let meta = StoreMeta { references: vec![], version: StoreEntryVersion::v0() };
	assert!(matches!(StoreMeta::loaded(meta, 0, 0), Err(MetaError::UnsupportedVersion)));
}

#[test]
fn identity_read_back_from_its_store_path() {
	let id = StoreIdentity::new(ruby()).unwrap();
	for root in ["/home/u/.cache/runix", "/", "/r/"] {
		let p = RuntimePaths::for_dest(root.to_owned()).unwrap();
		let back = StoreIdentity::from_path(&p.store_path_for(&id)).unwrap();
		assert_eq!(back.directory(), id.directory());
	}
}

#[test]
fn hash_and_name_rejoin() {
	let id = StoreIdentity::new(format!("{}-bash-4.4-p23", HASH)).unwrap();
	assert_eq!(format!("{}-{}", id.hash(), id.display_name().to_string()), id.directory());
}

#[test]
fn meta_is_written_next_to_its_place() {
	let id = StoreIdentity::new(ruby()).unwrap();
	assert_eq!(StoreMeta::tmp_path(&paths(), &id), format!("/home/u/.cache/runix/nix/info/{}.tmp", ruby()));
}
