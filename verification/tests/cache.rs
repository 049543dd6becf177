use runix::cache::{Compression, NarInfo, Server};
use runix::error::Error;
use runix::store::StoreIdentity;

const RUBY: &str = "p4pclmv1gyja5kzc26npqpia1qqxrf0l-ruby-2.7.3";

const RUBY_NARINFO: &str = "StorePath: /nix/store/p4pclmv1gyja5kzc26npqpia1qqxrf0l-ruby-2.7.3
URL: nar/1w1fff338fvdw53sqgamddn1b2xgds473pv6y13gizdbqjv4i5p3.nar.xz
Compression: xz
FileHash: sha256:1w1fff338fvdw53sqgamddn1b2xgds473pv6y13gizdbqjv4i5p3
FileSize: 4029176
NarHash: sha256:1impfw8zdgisxkghq9a3q7cn7jb9zyzgxdydiamp8z2nlyyl0h5h
NarSize: 18735072
References: 0d71ygfwbmy1xjlbj1v027dfmy9cqavy-libffi-3.3 p4pclmv1gyja5kzc26npqpia1qqxrf0l-ruby-2.7.3 sbbifs2ykc05inws26203h0xwcadnf0l-glibc-2.32-46
Deriver: bidkcs01mww363s4s7akdhbl6ws66b0z-ruby-2.7.3.drv
Sig: cache.nixos.org-1:GrGV/Ls10TzoOaCnrcAqmPbKXFLLSBDeGNh5EQGKyuGA4K1wv1LcRVb6/sU+NAPK8lDiam8XcdJzUngmdhfTBQ==
";

fn server() -> Server {
	Server::from("https://cache.nixos.org".to_owned())
}

#[test]
fn server_root_gets_trailing_slash() {
	assert_eq!(server().root, "https://cache.nixos.org/");
	assert_eq!(Server::from_str("http://x/").root, "http://x/");
	assert_eq!(Server::from_str("").root, "/");
	assert_eq!(server().to_string(), "https://cache.nixos.org/");
	assert!(server() == Server::from_str("https://cache.nixos.org/"));
	assert!(server() != Server::from_str("https://other/"));
}

#[test]
fn narinfo_url_uses_hash() {
	let id = StoreIdentity::new(RUBY.to_owned()).unwrap();
	assert_eq!(server().narinfo_url(&id), "https://cache.nixos.org/p4pclmv1gyja5kzc26npqpia1qqxrf0l.narinfo");
}

#[test]
fn narinfo_parses_url_compression_references() {
	let s = server();
	let id = StoreIdentity::new(RUBY.to_owned()).unwrap();
	let ni = NarInfo::parse(&s, &id, RUBY_NARINFO).unwrap();
	assert_eq!(ni.compression_of(), Compression::XZ);
	assert_eq!(ni.nar_url(), "https://cache.nixos.org/nar/1w1fff338fvdw53sqgamddn1b2xgds473pv6y13gizdbqjv4i5p3.nar.xz");
	assert_eq!(s.nar_url(&ni), ni.nar_url());
	let refs: Vec<&str> = ni.references.iter().map(|r| r.directory()).collect();
	assert_eq!(refs, vec![
		"0d71ygfwbmy1xjlbj1v027dfmy9cqavy-libffi-3.3",
		RUBY,
		"sbbifs2ykc05inws26203h0xwcadnf0l-glibc-2.32-46",
	]);
	assert_eq!(ni.identity.directory(), RUBY);
}

#[test]
fn narinfo_without_references_is_incomplete() {
	let s = server();
	let id = StoreIdentity::unsafe_from(RUBY);
	let r = NarInfo::parse(&s, &id, "URL: nar/x.nar.zstd\nCompression: zstd\n");
	assert!(matches!(r, Err(Error::IncompleteNarInfo)));
}

#[test]
fn narinfo_with_empty_references_is_complete() {
	let s = server();
	let id = StoreIdentity::unsafe_from(RUBY);
	let ni = NarInfo::parse(&s, &id, "URL: nar/x.nar.zstd\n\n  Compression:   zstd  \nReferences:\n").unwrap();
	assert_eq!(ni.compression_of(), Compression::Zstd);
	assert!(ni.references.is_empty());
	assert_eq!(ni.nar_url(), "https://cache.nixos.org/nar/x.nar.zstd");
}

#[test]
fn narinfo_key_without_value_is_refused() {
	let s = server();
	let id = StoreIdentity::unsafe_from(RUBY);
	let r = NarInfo::parse(&s, &id, "URL:\nCompression: xz\nReferences:\n");
	assert!(matches!(r, Err(Error::MissingValue(ref k)) if k == "URL:"));
}

#[test]
fn narinfo_unknown_compression_is_refused() {
	let s = server();
	let id = StoreIdentity::unsafe_from(RUBY);
	let r = NarInfo::parse(&s, &id, "URL: a\nCompression: bzip2\nReferences:\n");
	assert!(matches!(r, Err(Error::UnknownCompression(ref c)) if c == "bzip2"));
}

#[test]
fn narinfo_invalid_reference_is_refused() {
	let s = server();
	let id = StoreIdentity::unsafe_from(RUBY);
	let r = NarInfo::parse(&s, &id, "URL: a\nCompression: xz\nReferences: not-a-store-path\n");
	assert!(matches!(r, Err(Error::InvalidStoreIdentity(ref c)) if c == "not-a-store-path"));
}

#[test]
fn narinfo_later_lines_win() {
	let s = server();
	let id = StoreIdentity::unsafe_from(RUBY);
	let ni = NarInfo::parse(&s, &id, "URL: a\nURL: b\nCompression: xz\nCompression: zstd\nReferences:\n").unwrap();
	assert_eq!(ni.nar_url(), "https://cache.nixos.org/b");
	assert_eq!(ni.compression_of(), Compression::Zstd);
}

#[test]
fn compression_names() {
	assert_eq!(Compression::parse(&['x', 'z']).unwrap(), Compression::XZ);
	assert_eq!(Compression::parse(&['z', 's', 't', 'd']).unwrap(), Compression::Zstd);
	assert!(Compression::parse(&['X', 'Z']).is_err());
	assert_eq!(Compression::XZ.decompressor(), "unxz");
	assert_eq!(Compression::Zstd.decompressor(), "unzstd");
}
