use runix::error::Error;
use runix::platform::{Arch, OS, Platform};

#[test]
fn os_names_ignore_ascii_case() {
	assert_eq!(OS::from_str("linux").unwrap(), OS::Linux);
	assert_eq!(OS::from_str("Linux").unwrap(), OS::Linux);
	assert_eq!(OS::from_str("macOS").unwrap(), OS::macOS);
	assert_eq!(OS::from_str("DARWIN").unwrap(), OS::macOS);
	assert!(matches!(OS::from_str("windows"), Err(Error::UnknownOs(ref s)) if s == "windows"));
	assert!(matches!(OS::from_str("Windows"), Err(Error::UnknownOs(ref s)) if s == "windows"));
}

#[test]
fn arch_names_are_exact_or_aarch64() {
	assert_eq!(Arch::from_str("x86_64").unwrap(), Arch::x86_64);
	assert_eq!(Arch::from_str("arm64").unwrap(), Arch::arm64);
	assert!(matches!(Arch::from_str("X86_64"), Err(Error::UnknownArch(_))));
	assert_eq!(Arch::from_str("aarch64").unwrap(), Arch::arm64);
	assert!(matches!(Arch::from_str("arm"), Err(Error::UnknownArch(_))));
}

#[test]
fn platform_parses_arch_dash_os() {
	let p = Platform::from_str("x86_64-Linux").unwrap();
	assert_eq!(p, Platform { arch: Arch::x86_64, os: OS::Linux });
	let p = Platform::from_str("arm64-darwin").unwrap();
	assert_eq!(p, Platform { arch: Arch::arm64, os: OS::macOS });
	let p = Platform::from_str("aarch64-Darwin").unwrap();
	assert_eq!(p.to_string(), "arm64-macOS");
	for name in ["x86_64-Linux", "x86_64-Darwin", "aarch64-Darwin"] {
		assert!(Platform::from_str(name).is_ok());
	}
}

#[test]
fn platform_parse_errors() {
	assert!(Platform::from_str("x86_64").is_err());
	assert!(Platform::from_str("x86_64-Linux-gnu").is_err());
	assert!(matches!(Platform::from_str("sparc-Linux"), Err(Error::UnknownArch(_))));
	assert!(matches!(Platform::from_str("x86_64-Plan9"), Err(Error::UnknownOs(ref s)) if s == "plan9"));
}

#[test]
fn platform_to_string_round_trips() {
	for p in [
		Platform { arch: Arch::x86_64, os: OS::Linux },
		Platform { arch: Arch::x86_64, os: OS::macOS },
		Platform { arch: Arch::arm64, os: OS::Linux },
		Platform { arch: Arch::arm64, os: OS::macOS },
	] {
		assert_eq!(Platform::from_str(&p.to_string()).unwrap(), p);
	}
	assert_eq!(Platform { arch: Arch::arm64, os: OS::macOS }.to_string(), "arm64-macOS");
}

#[test]
fn platform_current_maps_target_names() {
	let p = Platform::current("macos", "aarch64").unwrap();
	assert_eq!(p, Platform { arch: Arch::arm64, os: OS::macOS });
	let p = Platform::current("linux", "x86_64").unwrap();
	assert_eq!(p, Platform { arch: Arch::x86_64, os: OS::Linux });
	assert!(matches!(Platform::current("linux", "riscv64"), Err(Error::UnknownTargetArch(ref a)) if a == "riscv64"));
	assert!(Platform::current("freebsd", "x86_64").is_err());
}
