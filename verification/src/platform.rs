//! Operating systems, architectures and platforms.

use vstd::prelude::*;
use vstd::string::*;
use crate::error::{Error, ErrorView};
use crate::text::{chars_of, string_of, ascii_ieq, ascii_ieq_chars, chars_eq, first_index_of, ascii_ieq_char};

verus! {

/// A supported operating system.
#[allow(non_camel_case_types)]
#[derive(Debug, Clone, Copy, PartialEq, Eq, Hash, Structural)]
pub enum OS {
    Linux,
    macOS,
}

/// A supported architecture.
#[allow(non_camel_case_types)]
#[derive(Debug, Clone, Copy, PartialEq, Eq, Hash, Structural)]
pub enum Arch {
    x86_64,
    arm64,
}

/// An architecture and an operating system.
#[derive(Debug, Clone, Copy, PartialEq, Eq, Hash, Structural)]
pub struct Platform {
    pub arch: Arch,
    pub os: OS,
}

pub open spec fn linux_chars() -> Seq<char> { seq!['l', 'i', 'n', 'u', 'x'] }
pub open spec fn macos_chars() -> Seq<char> { seq!['m', 'a', 'c', 'o', 's'] }
pub open spec fn darwin_chars() -> Seq<char> { seq!['d', 'a', 'r', 'w', 'i', 'n'] }
pub open spec fn x86_64_chars() -> Seq<char> { seq!['x', '8', '6', '_', '6', '4'] }
pub open spec fn arm64_chars() -> Seq<char> { seq!['a', 'r', 'm', '6', '4'] }
pub open spec fn aarch64_chars() -> Seq<char> { seq!['a', 'a', 'r', 'c', 'h', '6', '4'] }

/// The operating system that a name denotes: `linux`, or `macos` or
/// `darwin`, in any ASCII case. (Comparing the lowercased name, as
/// `to_lowercase` would, gives the same answer for these names.)
pub open spec fn os_named(s: Seq<char>) -> Option<OS> {
    if ascii_ieq(s, linux_chars()) {
        Some(OS::Linux)
    } else if ascii_ieq(s, macos_chars()) || ascii_ieq(s, darwin_chars()) {
        Some(OS::macOS)
    } else {
        None
    }
}

/// What std's `str::to_lowercase` gives for a text: its Unicode lowercase.
pub uninterp spec fn lowercase(s: Seq<char>) -> Seq<char>;

/// Lowercases a text with std's `str::to_lowercase`. Trusted: the result is
/// the text that `lowercase` names for `s` (it depends on `s` alone).
#[verifier::external_body]
fn to_lowercase(s: &str) -> (r: String)
    ensures
        r@ == lowercase(s@),
{
    s.to_lowercase()
}

/// The architecture that a name denotes: exactly `x86_64`, or `arm64` or
/// `aarch64` for arm64.
pub open spec fn arch_named(s: Seq<char>) -> Option<Arch> {
    if s == x86_64_chars() {
        Some(Arch::x86_64)
    } else if s == arm64_chars() || s == aarch64_chars() {
        Some(Arch::arm64)
    } else {
        None
    }
}

/// The display name of an operating system.
pub open spec fn os_display(os: OS) -> Seq<char> {
    match os {
        OS::Linux => seq!['L', 'i', 'n', 'u', 'x'],
        OS::macOS => seq!['m', 'a', 'c', 'O', 'S'],
    }
}

/// The display name of an architecture.
pub open spec fn arch_display(arch: Arch) -> Seq<char> {
    match arch {
        Arch::x86_64 => x86_64_chars(),
        Arch::arm64 => arm64_chars(),
    }
}

/// A platform written `<arch>-<os>`.
pub open spec fn platform_display(p: Platform) -> Seq<char> {
    arch_display(p.arch) + seq!['-'] + os_display(p.os)
}

/// The platform that `s` names: exactly one `-`, an architecture before it and
/// an operating system after it.
pub open spec fn platform_named(s: Seq<char>) -> Option<Platform> {
    match s.index_of_first('-') {
        None => None,
        Some(k) => {
            let arch = s.take(k);
            let os = s.skip(k + 1);
            if os.contains('-') {
                None
            } else {
                match (arch_named(arch), os_named(os)) {
                    (Some(a), Some(o)) => Some(Platform { arch: a, os: o }),
                    _ => None,
                }
            }
        },
    }
}

/// The error for a platform name that `platform_named` rejects: a wrong
/// number of `-`, else the architecture, else the operating system.
pub open spec fn platform_error(s: Seq<char>) -> ErrorView {
    match s.index_of_first('-') {
        None => ErrorView::InvalidPlatform(s),
        Some(k) => {
            let arch = s.take(k);
            let os = s.skip(k + 1);
            if os.contains('-') {
                ErrorView::InvalidPlatform(s)
            } else if arch_named(arch) is None {
                ErrorView::UnknownArch(arch)
            } else {
                ErrorView::UnknownOs(lowercase(os))
            }
        },
    }
}

impl OS {
    /// Parses an operating system name, ignoring ASCII case.
    pub fn from_str(s: &str) -> (r: Result<OS, Error>)
        ensures
            r is Ok <==> os_named(s@) is Some,
            r matches Ok(os) ==> os_named(s@) == Some(os),
            r matches Err(e) ==> e matches Error::UnknownOs(m) && m@ == lowercase(s@),
    {
        let v = chars_of(s);
        let linux = chars_of("linux");
        let macos = chars_of("macos");
        let darwin = chars_of("darwin");
        proof {
            reveal_strlit("linux");
            reveal_strlit("macos");
            reveal_strlit("darwin");
            assert(linux@ =~= linux_chars());
            assert(macos@ =~= macos_chars());
            assert(darwin@ =~= darwin_chars());
        }
        if ascii_ieq_chars(&v, &linux) {
            Ok(OS::Linux)
        } else if ascii_ieq_chars(&v, &macos) || ascii_ieq_chars(&v, &darwin) {
            Ok(OS::macOS)
        } else {
            Err(Error::UnknownOs(to_lowercase(s)))
        }
    }

    /// The display name: `Linux` or `macOS`.
    pub fn name(&self) -> (r: &'static str)
        ensures
            r@ == os_display(*self),
    {
        proof {
            reveal_strlit("Linux");
            reveal_strlit("macOS");
        }
        match self {
            OS::Linux => "Linux",
            OS::macOS => "macOS",
        }
    }
}

impl Arch {
    /// Parses an architecture name, `x86_64`, or `arm64` or `aarch64`.
    pub fn from_str(s: &str) -> (r: Result<Arch, Error>)
        ensures
            r is Ok <==> arch_named(s@) is Some,
            r matches Ok(a) ==> arch_named(s@) == Some(a),
            r matches Err(e) ==> e matches Error::UnknownArch(m) && m@ == s@,
    {
        let v = chars_of(s);
        let x86 = chars_of("x86_64");
        let arm = chars_of("arm64");
        let aarch = chars_of("aarch64");
        proof {
            reveal_strlit("x86_64");
            reveal_strlit("arm64");
            reveal_strlit("aarch64");
            assert(x86@ =~= x86_64_chars());
            assert(arm@ =~= arm64_chars());
            assert(aarch@ =~= aarch64_chars());
        }
        if chars_eq(&v, &x86) {
            Ok(Arch::x86_64)
        } else if chars_eq(&v, &arm) || chars_eq(&v, &aarch) {
            Ok(Arch::arm64)
        } else {
            Err(Error::UnknownArch(s.to_owned()))
        }
    }

    /// The architecture of a compilation target, by its `target_arch` name:
    /// `x86_64`, or `aarch64` for arm64.
    pub fn from_target_arch(target_arch: &str) -> (r: Result<Arch, Error>)
        ensures
            target_arch@ == x86_64_chars() ==> r == Ok::<Arch, Error>(Arch::x86_64),
            target_arch@ == aarch64_chars() ==> r == Ok::<Arch, Error>(Arch::arm64),
            target_arch@ != x86_64_chars() && target_arch@ != aarch64_chars() ==>
                (r matches Err(e) && e matches Error::UnknownTargetArch(m) && m@ == target_arch@),
    {
        let v = chars_of(target_arch);
        let x86 = chars_of("x86_64");
        let aarch = chars_of("aarch64");
        proof {
            reveal_strlit("x86_64");
            reveal_strlit("aarch64");
            assert(x86@ =~= x86_64_chars());
            assert(aarch@ =~= aarch64_chars());
        }
        if chars_eq(&v, &x86) {
            Ok(Arch::x86_64)
        } else if chars_eq(&v, &aarch) {
            Ok(Arch::arm64)
        } else {
            Err(Error::UnknownTargetArch(target_arch.to_owned()))
        }
    }

    /// The display name: `x86_64` or `arm64`.
    pub fn name(&self) -> (r: &'static str)
        ensures
            r@ == arch_display(*self),
    {
        proof {
            reveal_strlit("x86_64");
            reveal_strlit("arm64");
        }
        match self {
            Arch::x86_64 => "x86_64",
            Arch::arm64 => "arm64",
        }
    }
}

impl Platform {
    /// The platform of a host, from the name of its operating system (as in
    /// `std::env::consts::OS`) and of its target architecture.
    pub fn current(os_name: &str, target_arch: &str) -> (r: Result<Platform, Error>)
        ensures
            r is Ok <==> os_named(os_name@) is Some
                && (target_arch@ == x86_64_chars() || target_arch@ == aarch64_chars()),
            r matches Ok(p) ==> Some(p.os) == os_named(os_name@)
                && p.arch == (if target_arch@ == x86_64_chars() { Arch::x86_64 } else { Arch::arm64 }),
            r matches Err(e) ==> if target_arch@ != x86_64_chars() && target_arch@ != aarch64_chars() {
                e matches Error::UnknownTargetArch(m) && m@ == target_arch@
            } else {
                e matches Error::UnknownOs(m) && m@ == lowercase(os_name@)
            },
    {
        let arch = Arch::from_target_arch(target_arch)?;
        let os = OS::from_str(os_name)?;
        Ok(Platform { arch, os })
    }

    /// Parses a platform written `<arch>-<os>`.
    pub fn from_str(s: &str) -> (r: Result<Platform, Error>)
        ensures
            r is Ok <==> platform_named(s@) is Some,
            r matches Ok(p) ==> platform_named(s@) == Some(p),
            r matches Err(e) ==> e@ == platform_error(s@),
    {
        let v = chars_of(s);
        let n = v.len();
        let k = match first_index_of(&v, '-') {
            Some(k) => k,
            None => { return Err(Error::InvalidPlatform(s.to_owned())); },
        };
        let arch_str = s.substring_char(0, k);
        let os_str = s.substring_char(k + 1, n);
        let os_chars = chars_of(os_str);
        assert(arch_str@ == s@.take(k as int));
        assert(os_str@ == s@.skip(k + 1));
        if first_index_of(&os_chars, '-').is_some() {
            return Err(Error::InvalidPlatform(s.to_owned()));
        }
        assert(arch_str@ == s@.take(k as int));
        assert(os_str@ == s@.skip(k + 1));
        let arch = Arch::from_str(arch_str)?;
        let os = OS::from_str(os_str)?;
        Ok(Platform { arch, os })
    }

    /// The platform written `<arch>-<os>`.
    pub fn to_string(&self) -> (r: String)
        ensures
            r@ == platform_display(*self),
    {
        let mut s = String::from_str(self.arch.name());
        s.append("-");
        s.append(self.os.name());
        proof { reveal_strlit("-"); }
        assert(s@ =~= platform_display(*self));
        s
    }
}

/// Parsing the name that `to_string` gives a platform yields that platform.
pub proof fn lemma_platform_name_roundtrip(p: Platform)
    ensures
        platform_named(platform_display(p)) == Some(p),
{
    let s = platform_display(p);
    let a = arch_display(p.arch);
    let o = os_display(p.os);
    let k = a.len() as int;
    assert(s[k] == '-');
    assert forall|j: int| 0 <= j < k implies s[j] != '-' by {
        assert(s[j] == a[j]);
    }
    s.index_of_first_ensures('-');
    assert(s.contains('-')) by {
        assert(s[k] == '-');
    }
    let idx = s.index_of_first('-').unwrap();
    assert(idx == k) by {
        if idx < k {
            assert(s[idx] != '-');
        }
        if idx > k {
            assert(s[k] != '-');
        }
    }
    assert(s.take(k) =~= a);
    assert(s.skip(k + 1) =~= o);
    assert(!o.contains('-')) by {
        if o.contains('-') {
            let j = choose|j: int| 0 <= j < o.len() && o[j] == '-';
            assert(o[j] != '-');
        }
    }
    match p.os {
        OS::Linux => {
            assert(ascii_ieq(o, linux_chars()));
        },
        OS::macOS => {
            assert(!ascii_ieq(o, linux_chars())) by {
                assert(!ascii_ieq_char(o[0], linux_chars()[0]));
            }
            assert(ascii_ieq(o, macos_chars()));
        },
    }
}

} // verus!
