//! The packed entries that `getattrlistbulk` writes, and how to read them.
//!
//! Nothing in an entry stands at a fixed place. An entry opens with its length
//! and with the set of attributes that it carries; then come the values of just
//! those attributes, in the order of [`Layout`]. Two things about that order are
//! easy to get wrong: the error number comes first although its bit is a high
//! one, and the clone reference count is four bytes wide while the extended
//! flags before it are eight.
//!
//! Integers are little-endian, the byte order of every Mac.

use vstd::prelude::*;
use vstd::slice::slice_subrange;
use vstd::slice::slice_to_vec;
use super::ffi::{
    ATTR_BIT_MAP_COUNT, ATTR_CMNEXT_CLONEID, ATTR_CMNEXT_CLONE_REFCNT, ATTR_CMNEXT_EXT_FLAGS,
    ATTR_CMNEXT_LINKID, ATTR_CMNEXT_PRIVATESIZE, ATTR_CMNEXT_REALFSID, ATTR_CMN_DEVID,
    ATTR_CMN_ERROR, ATTR_CMN_FILEID, ATTR_CMN_FLAGS, ATTR_CMN_MODTIME, ATTR_CMN_NAME,
    ATTR_CMN_OBJTYPE, ATTR_CMN_RETURNED_ATTRS, ATTR_DIR_ENTRYCOUNT, ATTR_FILE_ALLOCSIZE,
    ATTR_FILE_DATALENGTH, ATTR_FILE_LINKCOUNT, ATTR_FILE_TOTALSIZE, EF_IS_SPARSE,
    EF_MAY_SHARE_BLOCKS, EF_SHARES_ALL_BLOCKS, FSOPT_ATTR_CMN_EXTENDED, FSOPT_NOFOLLOW,
    FSOPT_PACK_INVAL_ATTRS, SF_DATALESS, SF_FIRMLINK, UF_COMPRESSED, VDIR, VLNK, VREG,
    attribute_set, attrlist, attrreference,
};

verus! {

// The attributes that a scan asks for.
pub const REQ_COMMON: u32 = ATTR_CMN_RETURNED_ATTRS | ATTR_CMN_NAME | ATTR_CMN_ERROR
    | ATTR_CMN_DEVID | ATTR_CMN_OBJTYPE | ATTR_CMN_MODTIME | ATTR_CMN_FLAGS | ATTR_CMN_FILEID;

pub const REQ_DIR: u32 = ATTR_DIR_ENTRYCOUNT;

pub const REQ_FILE: u32 = ATTR_FILE_LINKCOUNT | ATTR_FILE_TOTALSIZE | ATTR_FILE_ALLOCSIZE
    | ATTR_FILE_DATALENGTH;

pub const REQ_FORK: u32 = ATTR_CMNEXT_PRIVATESIZE | ATTR_CMNEXT_LINKID | ATTR_CMNEXT_REALFSID
    | ATTR_CMNEXT_CLONEID | ATTR_CMNEXT_EXT_FLAGS | ATTR_CMNEXT_CLONE_REFCNT;

pub const OPTS: u32 = FSOPT_PACK_INVAL_ATTRS | FSOPT_ATTR_CMN_EXTENDED | FSOPT_NOFOLLOW;

/// The request that goes with [`parse_entry`].
pub fn request() -> (r: attrlist)
    ensures
        r == (attrlist {
            bitmapcount: ATTR_BIT_MAP_COUNT,
            reserved: 0,
            commonattr: REQ_COMMON,
            volattr: 0,
            dirattr: REQ_DIR,
            fileattr: REQ_FILE,
            forkattr: REQ_FORK,
        }),
{
    attrlist {
        bitmapcount: ATTR_BIT_MAP_COUNT,
        reserved: 0,
        commonattr: REQ_COMMON,
        volattr: 0,
        dirattr: REQ_DIR,
        fileattr: REQ_FILE,
        forkattr: REQ_FORK,
    }
}

/// One directory entry. A field whose attribute was not returned is zero.
#[derive(Clone, Debug)]
pub struct Entry {
    pub name: Vec<u8>,
    pub error: u32,
    pub objtype: u32,
    pub devid: i32,
    pub mtime: i64,
    pub flags: u32,
    pub fileid: u64,
    pub entrycount: u32,
    pub linkcount: u32,
    pub total_size: u64,
    pub alloc_size: u64,
    pub data_length: u64,
    pub private_size: u64,
    pub linkid: u64,
    pub realfsid: i64,
    pub cloneid: u64,
    pub ext_flags: u64,
    pub clone_refcnt: u32,
}

impl Default for Entry {
    fn default() -> (e: Self)
        ensures
            e.name@.len() == 0,
            e.error == 0,
            e.objtype == 0,
            e.devid == 0,
            e.mtime == 0,
            e.flags == 0,
            e.fileid == 0,
            e.entrycount == 0,
            e.linkcount == 0,
            e.total_size == 0,
            e.alloc_size == 0,
            e.data_length == 0,
            e.private_size == 0,
            e.linkid == 0,
            e.realfsid == 0,
            e.cloneid == 0,
            e.ext_flags == 0,
            e.clone_refcnt == 0,
    {
        Entry {
            name: Vec::new(),
            error: 0,
            objtype: 0,
            devid: 0,
            mtime: 0,
            flags: 0,
            fileid: 0,
            entrycount: 0,
            linkcount: 0,
            total_size: 0,
            alloc_size: 0,
            data_length: 0,
            private_size: 0,
            linkid: 0,
            realfsid: 0,
            cloneid: 0,
            ext_flags: 0,
            clone_refcnt: 0,
        }
    }
}

impl Entry {
    /// The file shares blocks with clones of itself.
    pub open spec fn is_shared(&self) -> bool {
        self.ext_flags & (EF_MAY_SHARE_BLOCKS | EF_SHARES_ALL_BLOCKS) != 0 || self.clone_refcnt > 1
    }

    pub fn is_dir(&self) -> (r: bool)
        ensures
            r == (self.objtype == VDIR),
    {
        self.objtype == VDIR
    }

    pub fn is_file(&self) -> (r: bool)
        ensures
            r == (self.objtype == VREG),
    {
        self.objtype == VREG
    }

    pub fn is_symlink(&self) -> (r: bool)
        ensures
            r == (self.objtype == VLNK),
    {
        self.objtype == VLNK
    }

    pub fn is_dataless(&self) -> (r: bool)
        ensures
            r == (self.flags & SF_DATALESS != 0),
    {
        self.flags & SF_DATALESS != 0
    }

    pub fn is_firmlink(&self) -> (r: bool)
        ensures
            r == (self.flags & SF_FIRMLINK != 0),
    {
        self.flags & SF_FIRMLINK != 0
    }

    pub fn is_compressed(&self) -> (r: bool)
        ensures
            r == (self.flags & UF_COMPRESSED != 0),
    {
        self.flags & UF_COMPRESSED != 0
    }

    pub fn is_sparse(&self) -> (r: bool)
        ensures
            r == (self.ext_flags & EF_IS_SPARSE != 0),
    {
        self.ext_flags & EF_IS_SPARSE != 0
    }

    /// Whether the file shares blocks with clones, rather than being pinned by
    /// a snapshot alone. A pinned file has no extended flag and a reference
    /// count of one; a clone has a sharing flag or a count above one.
    pub fn shares_with_clones(&self) -> (r: bool)
        ensures
            r == self.is_shared(),
    {
        self.ext_flags & (EF_MAY_SHARE_BLOCKS | EF_SHARES_ALL_BLOCKS) != 0 || self.clone_refcnt > 1
    }
}

// The integers at a place in a buffer.
pub open spec fn le_u32(b: Seq<u8>, at: int) -> int {
    b[at] + 0x100 * b[at + 1] + 0x1_0000 * b[at + 2] + 0x100_0000 * b[at + 3]
}

pub open spec fn le_u64(b: Seq<u8>, at: int) -> int {
    le_u32(b, at) + 0x1_0000_0000 * le_u32(b, at + 4)
}

pub open spec fn le_i32(b: Seq<u8>, at: int) -> int {
    let u = le_u32(b, at);
    if u < 0x8000_0000 {
        u
    } else {
        u - 0x1_0000_0000
    }
}

pub open spec fn le_i64(b: Seq<u8>, at: int) -> int {
    let u = le_u64(b, at);
    if u < 0x8000_0000_0000_0000 {
        u
    } else {
        u - 0x1_0000_0000_0000_0000
    }
}

/// The set of attributes that the entry at the start of `b` carries.
pub open spec fn returned(b: Seq<u8>) -> attribute_set {
    attribute_set {
        commonattr: le_u32(b, 4) as u32,
        volattr: le_u32(b, 8) as u32,
        dirattr: le_u32(b, 12) as u32,
        fileattr: le_u32(b, 16) as u32,
        forkattr: le_u32(b, 20) as u32,
    }
}

/// Where each value of an entry begins, and where the last one ends.
pub struct Layout {
    pub error: int,
    pub name: int,
    pub devid: int,
    pub objtype: int,
    pub modtime: int,
    pub flags: int,
    pub fileid: int,
    pub entrycount: int,
    pub linkcount: int,
    pub total_size: int,
    pub alloc_size: int,
    pub data_length: int,
    pub private_size: int,
    pub linkid: int,
    pub realfsid: int,
    pub cloneid: int,
    pub ext_flags: int,
    pub clone_refcnt: int,
    pub end: int,
}

/// The room that a value takes: its width if its bit is set, nothing otherwise.
pub open spec fn room(set: u32, bit: u32, width: int) -> int {
    if set & bit != 0 {
        width
    } else {
        0
    }
}

/// The values follow the length and the attribute set, each right behind the
/// one before it.
pub open spec fn layout(r: attribute_set) -> Layout {
    let error: int = 24;
    let name = error + room(r.commonattr, ATTR_CMN_ERROR, 4);
    let devid = name + room(r.commonattr, ATTR_CMN_NAME, 8);
    let objtype = devid + room(r.commonattr, ATTR_CMN_DEVID, 4);
    let modtime = objtype + room(r.commonattr, ATTR_CMN_OBJTYPE, 4);
    let flags = modtime + room(r.commonattr, ATTR_CMN_MODTIME, 16);
    let fileid = flags + room(r.commonattr, ATTR_CMN_FLAGS, 4);
    let entrycount = fileid + room(r.commonattr, ATTR_CMN_FILEID, 8);
    let linkcount = entrycount + room(r.dirattr, ATTR_DIR_ENTRYCOUNT, 4);
    let total_size = linkcount + room(r.fileattr, ATTR_FILE_LINKCOUNT, 4);
    let alloc_size = total_size + room(r.fileattr, ATTR_FILE_TOTALSIZE, 8);
    let data_length = alloc_size + room(r.fileattr, ATTR_FILE_ALLOCSIZE, 8);
    let private_size = data_length + room(r.fileattr, ATTR_FILE_DATALENGTH, 8);
    let linkid = private_size + room(r.forkattr, ATTR_CMNEXT_PRIVATESIZE, 8);
    let realfsid = linkid + room(r.forkattr, ATTR_CMNEXT_LINKID, 8);
    let cloneid = realfsid + room(r.forkattr, ATTR_CMNEXT_REALFSID, 8);
    let ext_flags = cloneid + room(r.forkattr, ATTR_CMNEXT_CLONEID, 8);
    let clone_refcnt = ext_flags + room(r.forkattr, ATTR_CMNEXT_EXT_FLAGS, 8);
    let end = clone_refcnt + room(r.forkattr, ATTR_CMNEXT_CLONE_REFCNT, 4);
    Layout {
        error,
        name,
        devid,
        objtype,
        modtime,
        flags,
        fileid,
        entrycount,
        linkcount,
        total_size,
        alloc_size,
        data_length,
        private_size,
        linkid,
        realfsid,
        cloneid,
        ext_flags,
        clone_refcnt,
        end,
    }
}

/// The bytes that the reference at `at` points to, where they lie in `b`.
pub open spec fn referenced(b: Seq<u8>, at: int) -> Option<Seq<u8>> {
    let start = at + le_i32(b, at);
    let len = le_u32(b, at + 4);
    if 0 <= start && start + len <= b.len() {
        Some(b.subrange(start, start + len))
    } else {
        None
    }
}

/// `s` without the one NUL that the kernel counts as part of a name.
pub open spec fn without_nul(s: Seq<u8>) -> Seq<u8> {
    if s.len() > 0 && s.last() == 0 {
        s.drop_last()
    } else {
        s
    }
}

/// `b` starts with a whole entry: the length it states is at least that of the
/// length field and no more than there is, and every value it announces lies
/// within `b`.
pub open spec fn readable(b: Seq<u8>) -> bool {
    &&& b.len() >= 24
    &&& 4 <= le_u32(b, 0) <= b.len()
    &&& layout(returned(b)).end <= b.len()
    &&& returned(b).commonattr & ATTR_CMN_NAME != 0 ==> referenced(
        b,
        layout(returned(b)).name,
    ) is Some
}

pub open spec fn u32_or_zero(b: Seq<u8>, set: u32, bit: u32, at: int) -> int {
    if set & bit != 0 {
        le_u32(b, at)
    } else {
        0
    }
}

pub open spec fn u64_or_zero(b: Seq<u8>, set: u32, bit: u32, at: int) -> int {
    if set & bit != 0 {
        le_u64(b, at)
    } else {
        0
    }
}

pub open spec fn i32_or_zero(b: Seq<u8>, set: u32, bit: u32, at: int) -> int {
    if set & bit != 0 {
        le_i32(b, at)
    } else {
        0
    }
}

pub open spec fn i64_or_zero(b: Seq<u8>, set: u32, bit: u32, at: int) -> int {
    if set & bit != 0 {
        le_i64(b, at)
    } else {
        0
    }
}

/// The name in the entry at the start of `b`.
pub open spec fn entry_name(b: Seq<u8>) -> Seq<u8> {
    if returned(b).commonattr & ATTR_CMN_NAME != 0 {
        without_nul(referenced(b, layout(returned(b)).name)->0)
    } else {
        Seq::empty()
    }
}

impl Entry {
    /// `self` is what the entry at the start of `b` says.
    pub open spec fn reads(&self, b: Seq<u8>) -> bool {
        let r = returned(b);
        let l = layout(r);
        &&& self.error == u32_or_zero(b, r.commonattr, ATTR_CMN_ERROR, l.error)
        &&& self.name@ == entry_name(b)
        &&& self.devid == i32_or_zero(b, r.commonattr, ATTR_CMN_DEVID, l.devid)
        &&& self.objtype == u32_or_zero(b, r.commonattr, ATTR_CMN_OBJTYPE, l.objtype)
        &&& self.mtime == i64_or_zero(b, r.commonattr, ATTR_CMN_MODTIME, l.modtime)
        &&& self.flags == u32_or_zero(b, r.commonattr, ATTR_CMN_FLAGS, l.flags)
        &&& self.fileid == u64_or_zero(b, r.commonattr, ATTR_CMN_FILEID, l.fileid)
        &&& self.entrycount == u32_or_zero(b, r.dirattr, ATTR_DIR_ENTRYCOUNT, l.entrycount)
        &&& self.linkcount == u32_or_zero(b, r.fileattr, ATTR_FILE_LINKCOUNT, l.linkcount)
        &&& self.total_size == u64_or_zero(b, r.fileattr, ATTR_FILE_TOTALSIZE, l.total_size)
        &&& self.alloc_size == u64_or_zero(b, r.fileattr, ATTR_FILE_ALLOCSIZE, l.alloc_size)
        &&& self.data_length == u64_or_zero(b, r.fileattr, ATTR_FILE_DATALENGTH, l.data_length)
        &&& self.private_size == u64_or_zero(
            b,
            r.forkattr,
            ATTR_CMNEXT_PRIVATESIZE,
            l.private_size,
        )
        &&& self.linkid == u64_or_zero(b, r.forkattr, ATTR_CMNEXT_LINKID, l.linkid)
        &&& self.realfsid == i64_or_zero(b, r.forkattr, ATTR_CMNEXT_REALFSID, l.realfsid)
        &&& self.cloneid == u64_or_zero(b, r.forkattr, ATTR_CMNEXT_CLONEID, l.cloneid)
        &&& self.ext_flags == u64_or_zero(b, r.forkattr, ATTR_CMNEXT_EXT_FLAGS, l.ext_flags)
        &&& self.clone_refcnt == u32_or_zero(
            b,
            r.forkattr,
            ATTR_CMNEXT_CLONE_REFCNT,
            l.clone_refcnt,
        )
    }
}

/// A place in a buffer from which values are read one after the other.
pub struct Cur<'a> {
    pub b: &'a [u8],
    pub p: usize,
}

impl<'a> Cur<'a> {
    pub open spec fn wf(&self) -> bool {
        self.p <= self.b@.len()
    }

    /// The next `n` bytes are there.
    pub open spec fn has(&self, n: int) -> bool {
        self.p + n <= self.b@.len()
    }

    /// `self` stands `n` bytes behind `before`.
    pub open spec fn moved(&self, before: Self, n: int) -> bool {
        &&& self.b@ == before.b@
        &&& self.p == before.p + n
        &&& self.wf()
    }

    /// The next `n` bytes, or `None`, with nothing consumed, if there are fewer.
    pub fn take(&mut self, n: usize) -> (res: Option<&'a [u8]>)
        requires
            old(self).wf(),
        ensures
            res is Some <==> old(self).has(n as int),
            res matches Some(s) ==> s@ == old(self).b@.subrange(
                old(self).p as int,
                old(self).p + n,
            ) && final(self).moved(*old(self), n as int),
            res is None ==> *final(self) == *old(self),
    {
        if n > self.b.len() - self.p {
            return None;
        }
        let s = slice_subrange(self.b, self.p, self.p + n);
        self.p = self.p + n;
        Some(s)
    }

    pub fn u32(&mut self) -> (res: Option<u32>)
        requires
            old(self).wf(),
        ensures
            res is Some <==> old(self).has(4),
            res matches Some(x) ==> x == le_u32(old(self).b@, old(self).p as int)
                && final(self).moved(*old(self), 4),
            res is None ==> *final(self) == *old(self),
    {
        let s = self.take(4)?;
        Some(
            s[0] as u32 + 0x100 * (s[1] as u32) + 0x1_0000 * (s[2] as u32) + 0x100_0000 * (
            s[3] as u32),
        )
    }

    pub fn i32(&mut self) -> (res: Option<i32>)
        requires
            old(self).wf(),
        ensures
            res is Some <==> old(self).has(4),
            res matches Some(x) ==> x == le_i32(old(self).b@, old(self).p as int)
                && final(self).moved(*old(self), 4),
            res is None ==> *final(self) == *old(self),
    {
        let u: u32 = self.u32()?;
        if u < 0x8000_0000 {
            Some(u as i32)
        } else {
            Some((u as i64 - 0x1_0000_0000) as i32)
        }
    }

    pub fn u64(&mut self) -> (res: Option<u64>)
        requires
            old(self).wf(),
        ensures
            res is Some <==> old(self).has(8),
            res matches Some(x) ==> x == le_u64(old(self).b@, old(self).p as int)
                && final(self).moved(*old(self), 8),
            res is None ==> *final(self) == *old(self),
    {
        let s = self.take(8)?;
        let lo: u64 = s[0] as u64 + 0x100 * (s[1] as u64) + 0x1_0000 * (s[2] as u64) + 0x100_0000
            * (s[3] as u64);
        let hi: u64 = s[4] as u64 + 0x100 * (s[5] as u64) + 0x1_0000 * (s[6] as u64) + 0x100_0000
            * (s[7] as u64);
        Some(lo + 0x1_0000_0000 * hi)
    }

    pub fn i64(&mut self) -> (res: Option<i64>)
        requires
            old(self).wf(),
        ensures
            res is Some <==> old(self).has(8),
            res matches Some(x) ==> x == le_i64(old(self).b@, old(self).p as int)
                && final(self).moved(*old(self), 8),
            res is None ==> *final(self) == *old(self),
    {
        let u: u64 = self.u64()?;
        if u < 0x8000_0000_0000_0000 {
            Some(u as i64)
        } else {
            Some((u as i128 - 0x1_0000_0000_0000_0000) as i64)
        }
    }

    /// Steps over `n` bytes.
    pub fn skip(&mut self, n: usize) -> (res: Option<()>)
        requires
            old(self).wf(),
        ensures
            res is Some <==> old(self).has(n as int),
            res is Some ==> final(self).moved(*old(self), n as int),
            res is None ==> *final(self) == *old(self),
    {
        let _ = self.take(n)?;
        Some(())
    }

    // Values that are only there when their attribute was returned.
    fn u32_if(&mut self, set: u32, bit: u32) -> (res: Option<u32>)
        requires
            old(self).wf(),
        ensures
            res is Some <==> old(self).has(room(set, bit, 4)),
            res matches Some(x) ==> x == u32_or_zero(old(self).b@, set, bit, old(self).p as int)
                && final(self).moved(*old(self), room(set, bit, 4)),
    {
        if set & bit != 0 {
            self.u32()
        } else {
            Some(0)
        }
    }

    fn i32_if(&mut self, set: u32, bit: u32) -> (res: Option<i32>)
        requires
            old(self).wf(),
        ensures
            res is Some <==> old(self).has(room(set, bit, 4)),
            res matches Some(x) ==> x == i32_or_zero(old(self).b@, set, bit, old(self).p as int)
                && final(self).moved(*old(self), room(set, bit, 4)),
    {
        if set & bit != 0 {
            self.i32()
        } else {
            Some(0)
        }
    }

    fn u64_if(&mut self, set: u32, bit: u32) -> (res: Option<u64>)
        requires
            old(self).wf(),
        ensures
            res is Some <==> old(self).has(room(set, bit, 8)),
            res matches Some(x) ==> x == u64_or_zero(old(self).b@, set, bit, old(self).p as int)
                && final(self).moved(*old(self), room(set, bit, 8)),
    {
        if set & bit != 0 {
            self.u64()
        } else {
            Some(0)
        }
    }

    fn i64_if(&mut self, set: u32, bit: u32) -> (res: Option<i64>)
        requires
            old(self).wf(),
        ensures
            res is Some <==> old(self).has(room(set, bit, 8)),
            res matches Some(x) ==> x == i64_or_zero(old(self).b@, set, bit, old(self).p as int)
                && final(self).moved(*old(self), room(set, bit, 8)),
    {
        if set & bit != 0 {
            self.i64()
        } else {
            Some(0)
        }
    }

    /// A modification time: the seconds of a `timespec`, whose nanoseconds are
    /// stepped over.
    fn seconds_if(&mut self, set: u32, bit: u32) -> (res: Option<i64>)
        requires
            old(self).wf(),
        ensures
            res is Some <==> old(self).has(room(set, bit, 16)),
            res matches Some(x) ==> x == i64_or_zero(old(self).b@, set, bit, old(self).p as int)
                && final(self).moved(*old(self), room(set, bit, 16)),
    {
        if set & bit != 0 {
            let t: i64 = self.i64()?;
            self.skip(8)?;
            Some(t)
        } else {
            Some(0)
        }
    }

    /// A name, by way of the reference to it.
    fn name_if(&mut self, set: u32) -> (res: Option<Vec<u8>>)
        requires
            old(self).wf(),
        ensures
            res is Some <==> old(self).has(room(set, ATTR_CMN_NAME, 8)) && (set & ATTR_CMN_NAME != 0
                ==> referenced(old(self).b@, old(self).p as int) is Some),
            res matches Some(s) ==> s@ == (if set & ATTR_CMN_NAME != 0 {
                without_nul(referenced(old(self).b@, old(self).p as int)->0)
            } else {
                Seq::empty()
            }) && final(self).moved(*old(self), room(set, ATTR_CMN_NAME, 8)),
    {
        if set & ATTR_CMN_NAME == 0 {
            return Some(Vec::new());
        }
        let at: usize = self.p;
        let r = attrreference { attr_dataoffset: self.i32()?, attr_length: self.u32()? };
        let start: i128 = at as i128 + r.attr_dataoffset as i128;
        let end: i128 = start + r.attr_length as i128;
        if start < 0 || end > self.b.len() as i128 {
            return None;
        }
        let whole = slice_subrange(self.b, start as usize, end as usize);
        let bytes = if whole.len() > 0 && whole[whole.len() - 1] == 0 {
            slice_subrange(whole, 0, whole.len() - 1)
        } else {
            whole
        };
        let name = slice_to_vec(bytes);
        assert(name@ =~= without_nul(referenced(old(self).b@, at as int)->0));
        Some(name)
    }
}

/// Reads the entry at the start of `buf`, and the length that it states.
pub fn parse_entry(buf: &[u8]) -> (res: Option<(Entry, usize)>)
    ensures
        res is Some <==> readable(buf@),
        res matches Some((e, len)) ==> e.reads(buf@) && len == le_u32(buf@, 0),
{
    let mut c = Cur { b: buf, p: 0 };
    let entry_len: usize = c.u32()? as usize;
    if entry_len < 4 || entry_len > buf.len() {
        return None;
    }
    let r = attribute_set {
        commonattr: c.u32()?,
        volattr: c.u32()?,
        dirattr: c.u32()?,
        fileattr: c.u32()?,
        forkattr: c.u32()?,
    };
    assert(r == returned(buf@));

    let error: u32 = c.u32_if(r.commonattr, ATTR_CMN_ERROR)?;
    let name = c.name_if(r.commonattr)?;
    let devid: i32 = c.i32_if(r.commonattr, ATTR_CMN_DEVID)?;
    let objtype: u32 = c.u32_if(r.commonattr, ATTR_CMN_OBJTYPE)?;
    let mtime: i64 = c.seconds_if(r.commonattr, ATTR_CMN_MODTIME)?;
    let flags: u32 = c.u32_if(r.commonattr, ATTR_CMN_FLAGS)?;
    let fileid: u64 = c.u64_if(r.commonattr, ATTR_CMN_FILEID)?;

    let entrycount: u32 = c.u32_if(r.dirattr, ATTR_DIR_ENTRYCOUNT)?;

    let linkcount: u32 = c.u32_if(r.fileattr, ATTR_FILE_LINKCOUNT)?;
    let total_size: u64 = c.u64_if(r.fileattr, ATTR_FILE_TOTALSIZE)?;
    let alloc_size: u64 = c.u64_if(r.fileattr, ATTR_FILE_ALLOCSIZE)?;
    let data_length: u64 = c.u64_if(r.fileattr, ATTR_FILE_DATALENGTH)?;

    let private_size: u64 = c.u64_if(r.forkattr, ATTR_CMNEXT_PRIVATESIZE)?;
    let linkid: u64 = c.u64_if(r.forkattr, ATTR_CMNEXT_LINKID)?;
    let realfsid: i64 = c.i64_if(r.forkattr, ATTR_CMNEXT_REALFSID)?;
    let cloneid: u64 = c.u64_if(r.forkattr, ATTR_CMNEXT_CLONEID)?;
    let ext_flags: u64 = c.u64_if(r.forkattr, ATTR_CMNEXT_EXT_FLAGS)?;
    let clone_refcnt: u32 = c.u32_if(r.forkattr, ATTR_CMNEXT_CLONE_REFCNT)?;

    Some(
        (
            Entry {
                name,
                error,
                objtype,
                devid,
                mtime,
                flags,
                fileid,
                entrycount,
                linkcount,
                total_size,
                alloc_size,
                data_length,
                private_size,
                linkid,
                realfsid,
                cloneid,
                ext_flags,
                clone_refcnt,
            },
            entry_len,
        ),
    )
}

/// The buffer holds bytes that are no entry where one was announced.
#[derive(Clone, Copy, Debug, PartialEq, Eq, Structural)]
pub struct Malformed;

/// The kernel refused to list the directory.
#[derive(Clone, Copy, Debug, PartialEq, Eq, Structural)]
pub struct Refused;

/// What comes next while a directory is read.
pub enum Next {
    /// An entry of the directory.
    Entry(Entry),
    /// The buffer is used up: let the kernel fill it, then call
    /// [`BulkDir::refilled`].
    Refill,
    /// The directory has no more entries.
    End,
}

/// Hands out the entries of one directory from the buffer that the kernel fills
/// again and again.
pub struct BulkDir {
    buf: Vec<u8>,
    filled: usize,
    cursor: usize,
    remaining: i32,
    done: bool,
}

impl BulkDir {
    pub closed spec fn wf(&self) -> bool {
        &&& self.cursor <= self.filled <= self.buf@.len()
        &&& self.remaining >= 0
    }

    /// The whole buffer.
    pub closed spec fn space(&self) -> Seq<u8> {
        self.buf@
    }

    /// The bytes that have not been read yet.
    pub closed spec fn rest(&self) -> Seq<u8> {
        self.buf@.subrange(self.cursor as int, self.filled as int)
    }

    /// How many entries the buffer still holds, by the kernel's count.
    pub closed spec fn pending(&self) -> int {
        self.remaining as int
    }

    /// The kernel has said that there is nothing more.
    pub closed spec fn ended(&self) -> bool {
        self.done
    }

    pub fn new(buf_size: usize) -> (r: Self)
        ensures
            r.wf(),
            r.space() == Seq::new(buf_size as nat, |i: int| 0u8),
            r.rest().len() == 0,
            r.pending() == 0,
            !r.ended(),
    {
        let r = BulkDir {
            buf: vec![0u8; buf_size],
            filled: 0,
            cursor: 0,
            remaining: 0,
            done: false,
        };
        assert(r.space() =~= Seq::new(buf_size as nat, |i: int| 0u8));
        r
    }

    /// The buffer, for the kernel to write to.
    pub fn buffer(&mut self) -> (r: &mut [u8])
        requires
            old(self).wf(),
        ensures
            r@ == old(self).space(),
            final(self).space() == final(r)@,
            final(r)@.len() == r@.len() ==> final(self).wf(),
            final(self).pending() == old(self).pending(),
            final(self).ended() == old(self).ended(),
    {
        self.buf.as_mut_slice()
    }

    /// Takes note of what the kernel returned: the number of entries that it
    /// wrote, none at the end of the directory, or a negative number where it
    /// failed, which changes nothing.
    pub fn refilled(&mut self, n: i32) -> (res: Result<(), Refused>)
        requires
            old(self).wf(),
        ensures
            res is Err <==> n < 0,
            n < 0 ==> *final(self) == *old(self),
            final(self).wf(),
            final(self).space() == old(self).space(),
            n == 0 ==> final(self).ended() && final(self).pending() == old(self).pending()
                && final(self).rest() == old(self).rest(),
            n > 0 ==> final(self).pending() == n && final(self).rest() == old(self).space()
                && final(self).ended() == old(self).ended(),
    {
        if n < 0 {
            return Err(Refused);
        }
        if n == 0 {
            self.done = true;
        } else {
            self.remaining = n;
            self.cursor = 0;
            self.filled = self.buf.len();
            assert(self.rest() =~= old(self).space());
        }
        Ok(())
    }

    /// The next entry, if the buffer holds one; what else is to be done, if not.
    /// A malformed entry is not stepped over, so that every later call says the
    /// same.
    pub fn next_entry(&mut self) -> (res: Result<Next, Malformed>)
        requires
            old(self).wf(),
        ensures
            final(self).wf(),
            final(self).space() == old(self).space(),
            final(self).ended() == old(self).ended(),
            match res {
                Ok(Next::Entry(e)) => {
                    &&& old(self).pending() > 0
                    &&& readable(old(self).rest())
                    &&& e.reads(old(self).rest())
                    &&& final(self).pending() == old(self).pending() - 1
                    &&& final(self).rest() == old(self).rest().skip(le_u32(old(self).rest(), 0))
                },
                Ok(Next::Refill) => {
                    &&& old(self).pending() == 0
                    &&& !old(self).ended()
                    &&& *final(self) == *old(self)
                },
                Ok(Next::End) => {
                    &&& old(self).pending() == 0
                    &&& old(self).ended()
                    &&& *final(self) == *old(self)
                },
                Err(Malformed) => {
                    &&& old(self).pending() > 0
                    &&& !readable(old(self).rest())
                    &&& *final(self) == *old(self)
                },
            },
    {
        if self.remaining > 0 {
            let rest = slice_subrange(self.buf.as_slice(), self.cursor, self.filled);
            match parse_entry(rest) {
                Some((e, len)) => {
                    self.cursor = self.cursor + len;
                    self.remaining = self.remaining - 1;
                    assert(self.rest() =~= old(self).rest().skip(le_u32(old(self).rest(), 0)));
                    Ok(Next::Entry(e))
                },
                None => Err(Malformed),
            }
        } else if self.done {
            Ok(Next::End)
        } else {
            Ok(Next::Refill)
        }
    }
}

} // verus!
