//! Permission bits of files in the store: which mode a file must get to be
//! writeable, executable or read-only, and whether it changes at all.
use vstd::prelude::*;

verus! {

/// The owner's write bit.
pub const OWNER_WRITE: u32 = 0o200;

/// The write bits of owner, group and others.
pub const ANY_WRITE: u32 = 0o222;

/// The execute bits of owner, group and others.
pub const ANY_EXECUTE: u32 = 0o111;

/// The owner's execute bit.
pub const OWNER_EXECUTE: u32 = 0o100;

/// The mode that makes a file writeable by its owner, or `None` when `mode`
/// already is.
pub fn writeable_mode(mode: u32) -> (r: Option<u32>)
    ensures
        r == (if mode | OWNER_WRITE == mode { None } else { Some(mode | OWNER_WRITE) }),
        r matches Some(m) ==> m & OWNER_WRITE == OWNER_WRITE && m | OWNER_WRITE == m,
        r is None <==> mode & OWNER_WRITE == OWNER_WRITE,
{
    let m = mode | OWNER_WRITE;
    proof {
        assert(m | 0o200u32 == m && m & 0o200u32 == 0o200u32) by (bit_vector)
            requires m == mode | 0o200u32;
        assert((mode | 0o200u32 == mode) <==> (mode & 0o200u32 == 0o200u32)) by (bit_vector);
    }
    if m == mode {
        None
    } else {
        Some(m)
    }
}

/// The mode that makes a file executable by everyone who may read it, or
/// `None` when `mode` already has every execute bit.
pub fn executable_mode(mode: u32) -> (r: Option<u32>)
    ensures
        r == (if mode | ANY_EXECUTE == mode { None } else { Some(mode | ANY_EXECUTE) }),
        r matches Some(m) ==> m & ANY_EXECUTE == ANY_EXECUTE && m | ANY_EXECUTE == m,
        r is None <==> mode & ANY_EXECUTE == ANY_EXECUTE,
{
    let m = mode | ANY_EXECUTE;
    proof {
        assert(m | 0o111u32 == m && m & 0o111u32 == 0o111u32) by (bit_vector)
            requires m == mode | 0o111u32;
        assert((mode | 0o111u32 == mode) <==> (mode & 0o111u32 == 0o111u32)) by (bit_vector);
    }
    if m == mode {
        None
    } else {
        Some(m)
    }
}

/// The mode that takes every write bit away, or `None` when `mode` has none.
pub fn unwriteable_mode(mode: u32) -> (r: Option<u32>)
    ensures
        r == (if mode & !ANY_WRITE == mode { None } else { Some(mode & !ANY_WRITE) }),
        r matches Some(m) ==> m & ANY_WRITE == 0 && m & !ANY_WRITE == m,
        r is None <==> mode & ANY_WRITE == 0,
{
    let m = mode & !ANY_WRITE;
    proof {
        assert(m & 0o222u32 == 0 && m & !0o222u32 == m) by (bit_vector)
            requires m == mode & !0o222u32;
        assert((mode & !0o222u32 == mode) <==> (mode & 0o222u32 == 0)) by (bit_vector);
    }
    if m == mode {
        None
    } else {
        Some(m)
    }
}

/// Whether the owner may execute a file with this mode.
pub fn is_executable(mode: u32) -> (r: bool)
    ensures
        r == (mode & OWNER_EXECUTE != 0),
{
    mode & OWNER_EXECUTE != 0
}

} // verus!
