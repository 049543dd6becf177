//! The errors that the library reports.

use vstd::prelude::*;
use crate::platform::Platform;

verus! {

/// Why an operation of the library was refused.
#[derive(Debug)]
pub enum Error {
    /// Not a store directory name `<32-byte hash>-<name>` without `/`.
    InvalidStoreIdentity(String),
    /// An operating system name other than linux, macos or darwin.
    UnknownOs(String),
    /// An architecture name other than x86_64 or arm64.
    UnknownArch(String),
    /// A compilation target architecture other than x86_64 or aarch64.
    UnknownTargetArch(String),
    /// A platform that is not `<arch>-<os>`.
    InvalidPlatform(String),
    /// A narinfo compression other than xz or zstd.
    UnknownCompression(String),
    /// A narinfo key with no value after it.
    MissingValue(String),
    /// A narinfo lacking one of URL, Compression or References.
    IncompleteNarInfo,
    /// A runix root that does not begin with `/`.
    RootNotAbsolute(String),
    /// A runscript given two implementations for one platform.
    PlatformAddedTwice(Platform),
    /// A runscript without an implementation for the platform.
    PlatformNotFound(Platform),
    /// A command line that ends where an argument was expected.
    NotEnoughArguments(String),
    /// A command line option that runix does not know.
    UnknownOption(String),
    /// Arguments left over after `--save`.
    TooManyArguments,
    /// A runscript without a line that begins with `{`.
    MissingLeadingBrace,
    /// A merge of no runscripts.
    NoRunscripts,
    /// A bootstrap runscript without an entrypoint.
    MissingEntrypoint,
}

/// An error with its texts taken as character sequences.
pub enum ErrorView {
    InvalidStoreIdentity(Seq<char>),
    UnknownOs(Seq<char>),
    UnknownArch(Seq<char>),
    UnknownTargetArch(Seq<char>),
    InvalidPlatform(Seq<char>),
    UnknownCompression(Seq<char>),
    MissingValue(Seq<char>),
    IncompleteNarInfo,
    RootNotAbsolute(Seq<char>),
    PlatformAddedTwice(Platform),
    PlatformNotFound(Platform),
    NotEnoughArguments(Seq<char>),
    UnknownOption(Seq<char>),
    TooManyArguments,
    MissingLeadingBrace,
    NoRunscripts,
    MissingEntrypoint,
}

impl View for Error {
    type V = ErrorView;

    open spec fn view(&self) -> ErrorView {
        match self {
            Error::InvalidStoreIdentity(s) => ErrorView::InvalidStoreIdentity(s@),
            Error::UnknownOs(s) => ErrorView::UnknownOs(s@),
            Error::UnknownArch(s) => ErrorView::UnknownArch(s@),
            Error::UnknownTargetArch(s) => ErrorView::UnknownTargetArch(s@),
            Error::InvalidPlatform(s) => ErrorView::InvalidPlatform(s@),
            Error::UnknownCompression(s) => ErrorView::UnknownCompression(s@),
            Error::MissingValue(s) => ErrorView::MissingValue(s@),
            Error::IncompleteNarInfo => ErrorView::IncompleteNarInfo,
            Error::RootNotAbsolute(s) => ErrorView::RootNotAbsolute(s@),
            Error::PlatformAddedTwice(p) => ErrorView::PlatformAddedTwice(*p),
            Error::PlatformNotFound(p) => ErrorView::PlatformNotFound(*p),
            Error::NotEnoughArguments(s) => ErrorView::NotEnoughArguments(s@),
            Error::UnknownOption(s) => ErrorView::UnknownOption(s@),
            Error::TooManyArguments => ErrorView::TooManyArguments,
            Error::MissingLeadingBrace => ErrorView::MissingLeadingBrace,
            Error::NoRunscripts => ErrorView::NoRunscripts,
            Error::MissingEntrypoint => ErrorView::MissingEntrypoint,
        }
    }
}

} // verus!
