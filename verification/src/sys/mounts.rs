//! The mount table, and which mounts to enter.
//!
//! What to enter is decided by the identity of a device, never by the spelling
//! of a path: a prefix of a path is one stray slash away from letting a walk
//! into a backup drive.

use vstd::prelude::*;
use vstd::slice::slice_subrange;
use crate::foreign;
use super::ffi::{MNT_AUTOMOUNTED, MNT_LOCAL, MNT_REMOVABLE, MNT_ROOTFS, MNT_SNAPSHOT};

verus! {

#[derive(Clone, Debug)]
pub struct Mount {
    /// Where the volume is mounted.
    pub on: Vec<u8>,
    pub from: String,
    pub fstype: String,
    pub flags: u32,
    /// The device, or -1 where it could not be found out.
    pub dev: i32,
    pub total_bytes: u64,
    pub free_bytes: u64,
}

/// One entry of the mount table as the kernel gives it.
pub struct RawMount {
    pub on: Vec<u8>,
    pub from: Vec<u8>,
    pub fstype: Vec<u8>,
    pub flags: u32,
    /// The device of the mount point, where it could be found out.
    pub dev: Option<i32>,
    pub blocks: u64,
    pub free_blocks: u64,
    pub block_size: u32,
}

/// Why a mount is not entered.
#[derive(Clone, Copy, PartialEq, Eq, Debug, Structural)]
pub enum SkipReason {
    NotLocal,
    Removable,
    SnapshotMount,
    Automounted,
    UnsupportedFs,
}

/// The reason in words.
pub open spec fn reason_text(r: SkipReason) -> Seq<char> {
    match r {
        SkipReason::NotLocal => "network or FUSE mount"@,
        SkipReason::Removable => "removable/external volume"@,
        SkipReason::SnapshotMount => "APFS snapshot mount"@,
        SkipReason::Automounted => "automounted (autofs)"@,
        SkipReason::UnsupportedFs => "unsupported filesystem"@,
    }
}

/// The number that stands for a reason.
pub open spec fn reason_number(r: SkipReason) -> int {
    match r {
        SkipReason::NotLocal => 0,
        SkipReason::Removable => 1,
        SkipReason::SnapshotMount => 2,
        SkipReason::Automounted => 3,
        SkipReason::UnsupportedFs => 4,
    }
}

impl SkipReason {
    pub fn as_str(self) -> (r: &'static str)
        ensures
            r@ == reason_text(self),
    {
        match self {
            SkipReason::NotLocal => "network or FUSE mount",
            SkipReason::Removable => "removable/external volume",
            SkipReason::SnapshotMount => "APFS snapshot mount",
            SkipReason::Automounted => "automounted (autofs)",
            SkipReason::UnsupportedFs => "unsupported filesystem",
        }
    }

    pub fn code(self) -> (r: i32)
        ensures
            r == reason_number(self),
    {
        match self {
            SkipReason::NotLocal => 0,
            SkipReason::Removable => 1,
            SkipReason::SnapshotMount => 2,
            SkipReason::Automounted => 3,
            SkipReason::UnsupportedFs => 4,
        }
    }
}

impl Mount {
    /// Why the walk stays out of this mount, if it does.
    ///
    /// A sealed system volume is itself a snapshot, so the root of the file
    /// system is let through.
    pub open spec fn refusal(&self) -> Option<SkipReason> {
        if self.flags & MNT_SNAPSHOT != 0 && self.flags & MNT_ROOTFS == 0 {
            Some(SkipReason::SnapshotMount)
        } else if self.flags & MNT_LOCAL == 0 {
            Some(SkipReason::NotLocal)
        } else if self.flags & MNT_AUTOMOUNTED != 0 {
            Some(SkipReason::Automounted)
        } else if self.flags & MNT_REMOVABLE != 0 {
            Some(SkipReason::Removable)
        } else if self.fstype@ == "apfs"@ || self.fstype@ == "hfs"@ {
            None
        } else {
            Some(SkipReason::UnsupportedFs)
        }
    }

    /// Whether the walk may enter this mount.
    pub fn classify(&self) -> (r: Result<(), SkipReason>)
        ensures
            match self.refusal() {
                None => r is Ok,
                Some(why) => r == Err::<(), SkipReason>(why),
            },
            r is Ok <==> self.flags & MNT_LOCAL != 0 && self.flags & MNT_AUTOMOUNTED == 0
                && self.flags & MNT_REMOVABLE == 0 && (self.flags & MNT_SNAPSHOT == 0 || self.flags
                & MNT_ROOTFS != 0) && (self.fstype@ == "apfs"@ || self.fstype@ == "hfs"@),
    {
        if self.flags & MNT_SNAPSHOT != 0 && self.flags & MNT_ROOTFS == 0 {
            return Err(SkipReason::SnapshotMount);
        }
        if self.flags & MNT_LOCAL == 0 {
            return Err(SkipReason::NotLocal);
        }
        if self.flags & MNT_AUTOMOUNTED != 0 {
            return Err(SkipReason::Automounted);
        }
        if self.flags & MNT_REMOVABLE != 0 {
            return Err(SkipReason::Removable);
        }
        if self.fstype == String::from_str("apfs") || self.fstype == String::from_str("hfs") {
            Ok(())
        } else {
            Err(SkipReason::UnsupportedFs)
        }
    }
}

/// Where the first NUL from place `i` on is, or the end.
pub open spec fn first_nul(buf: Seq<u8>, i: int) -> int
    decreases buf.len() - i,
{
    if i >= buf.len() {
        buf.len() as int
    } else if buf[i] == 0 {
        i
    } else {
        first_nul(buf, i + 1)
    }
}

/// What a NUL-terminated buffer holds.
pub open spec fn until_nul(buf: Seq<u8>) -> Seq<u8> {
    buf.take(first_nul(buf, 0))
}

/// The text in a NUL-terminated buffer.
pub fn cstr(buf: &[u8]) -> (r: String)
    ensures
        r@ == foreign::utf8_lossy(until_nul(buf@)),
        vstd::utf8::valid_utf8(until_nul(buf@)) ==> r@ == vstd::utf8::decode_utf8(until_nul(buf@)),
{
    let mut n: usize = 0;
    while n < buf.len() && buf[n] != 0
        invariant
            n <= buf@.len(),
            first_nul(buf@, 0) == first_nul(buf@, n as int),
        decreases buf@.len() - n,
    {
        n = n + 1;
    }
    assert(first_nul(buf@, 0) == n);
    let held = slice_subrange(buf, 0, n);
    assert(held@ =~= until_nul(buf@));
    foreign::from_utf8_lossy(held)
}

/// An entry of the mount table, unless the sizes in it are beyond 64 bits.
pub fn mount_of(raw: &RawMount) -> (r: Option<Mount>)
    ensures
        r is Some <==> raw.blocks * raw.block_size <= u64::MAX && raw.free_blocks * raw.block_size
            <= u64::MAX,
        r matches Some(m) ==> {
            &&& m.on@ == vstd::utf8::encode_utf8(foreign::utf8_lossy(until_nul(raw.on@)))
            &&& vstd::utf8::valid_utf8(until_nul(raw.on@)) ==> m.on@ == until_nul(raw.on@)
            &&& m.from@ == foreign::utf8_lossy(until_nul(raw.from@))
            &&& vstd::utf8::valid_utf8(until_nul(raw.from@)) ==> m.from@
                == vstd::utf8::decode_utf8(until_nul(raw.from@))
            &&& m.fstype@ == foreign::utf8_lossy(until_nul(raw.fstype@))
            &&& vstd::utf8::valid_utf8(until_nul(raw.fstype@)) ==> m.fstype@
                == vstd::utf8::decode_utf8(until_nul(raw.fstype@))
            &&& m.flags == raw.flags
            &&& m.dev == (match raw.dev {
                Some(d) => d,
                None => -1i32,
            })
            &&& m.total_bytes == raw.blocks * raw.block_size
            &&& m.free_bytes == raw.free_blocks * raw.block_size
        },
{
    let total_bytes: u64 = raw.blocks.checked_mul(raw.block_size as u64)?;
    let free_bytes: u64 = raw.free_blocks.checked_mul(raw.block_size as u64)?;
    let on = cstr(raw.on.as_slice());
    proof {
        if vstd::utf8::valid_utf8(until_nul(raw.on@)) {
            vstd::utf8::decode_utf8_encode_utf8(until_nul(raw.on@));
        }
    }
    let dev: i32 = match raw.dev {
        Some(d) => d,
        None => -1,
    };
    Some(
        Mount {
            on: vstd::slice::slice_to_vec(on.as_str().as_bytes()),
            from: cstr(raw.from.as_slice()),
            fstype: cstr(raw.fstype.as_slice()),
            flags: raw.flags,
            dev,
            total_bytes,
            free_bytes,
        },
    )
}

/// The bytes in use on a volume and the bytes it holds, from the counts that
/// `statfs` gives, unless they contradict each other or are beyond 64 bits.
pub fn volume_used(blocks: u64, free_blocks: u64, block_size: u32) -> (r: Option<(u64, u64)>)
    ensures
        r is Some <==> blocks * block_size <= u64::MAX && free_blocks <= blocks,
        r matches Some(p) ==> p.0 == (blocks - free_blocks) * block_size && p.1 == blocks
            * block_size,
{
    let total: u64 = blocks.checked_mul(block_size as u64)?;
    if free_blocks > blocks {
        return None;
    }
    let taken: u64 = blocks - free_blocks;
    assert(taken * block_size <= blocks * block_size) by (nonlinear_arith)
        requires
            taken <= blocks,
    ;
    let used: u64 = taken * block_size as u64;
    Some((used, total))
}

} // verus!
