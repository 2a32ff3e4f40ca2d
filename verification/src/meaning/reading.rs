//! What the bytes of a directory entry say.

use vstd::prelude::*;
use crate::sys::attrlist;
use crate::sys::attrlist::Entry;
use crate::sys::ffi::attribute_set;

verus! {

/// The number in `n` bytes from `at` on, the lowest byte first.
pub open spec fn number_in(b: Seq<u8>, at: int, n: int) -> int
    decreases n,
{
    if n <= 0 {
        0
    } else {
        b[at] + 256 * number_in(b, at + 1, n - 1)
    }
}

/// The same with a sign, in two's complement.
pub open spec fn signed_in(b: Seq<u8>, at: int, n: int) -> int {
    let u = number_in(b, at, n);
    if n == 4 && u >= 0x8000_0000 {
        u - 0x1_0000_0000
    } else if n == 8 && u >= 0x8000_0000_0000_0000 {
        u - 0x1_0000_0000_0000_0000
    } else {
        u
    }
}

proof fn lemma_number_in(b: Seq<u8>, at: int)
    ensures
        attrlist::le_u32(b, at) == number_in(b, at, 4),
        attrlist::le_u64(b, at) == number_in(b, at, 8),
        attrlist::le_i32(b, at) == signed_in(b, at, 4),
        attrlist::le_i64(b, at) == signed_in(b, at, 8),
{
    reveal_with_fuel(number_in, 9);
}

/// The bytes of a number, the lowest first, read back as the number.
pub proof fn law_numbers_read_back(b: Seq<u8>, at: int, x: u64)
    requires
        forall|k: int| 0 <= k < 8 ==> (#[trigger] b[at + k]) == (x >> ((8 * k) as u64)) & 0xff,
    ensures
        attrlist::le_u64(b, at) == x,
        x < 0x1_0000_0000 ==> attrlist::le_u32(b, at) == x,
{
    assert(b[at + 0] == (x >> 0u64) & 0xff);
    assert(b[at + 1] == (x >> 8u64) & 0xff);
    assert(b[at + 2] == (x >> 16u64) & 0xff);
    assert(b[at + 3] == (x >> 24u64) & 0xff);
    assert(b[at + 4] == (x >> 32u64) & 0xff);
    assert(b[at + 5] == (x >> 40u64) & 0xff);
    assert(b[at + 6] == (x >> 48u64) & 0xff);
    assert(b[at + 7] == (x >> 56u64) & 0xff);
    assert(((x >> 0u64) & 0xff) + 0x100 * ((x >> 8u64) & 0xff) + 0x1_0000 * ((x >> 16u64) & 0xff)
        + 0x100_0000 * ((x >> 24u64) & 0xff) + 0x1_0000_0000 * (((x >> 32u64) & 0xff) + 0x100 * ((x
        >> 40u64) & 0xff) + 0x1_0000 * ((x >> 48u64) & 0xff) + 0x100_0000 * ((x >> 56u64) & 0xff))
        == x) by (bit_vector);
    assert(x < 0x1_0000_0000 ==> (x >> 32u64) & 0xff == 0 && (x >> 40u64) & 0xff == 0 && (x
        >> 48u64) & 0xff == 0 && (x >> 56u64) & 0xff == 0) by (bit_vector);
}

/// The values that an entry can carry, in the order in which it carries them: the
/// group of each, its bit there and its width in bytes. The groups are those of the
/// common attributes, of directories, of files and of the extended attributes.
pub open spec fn values() -> Seq<(int, u32, int)> {
    seq![
        (0int, 0x2000_0000u32, 4int),
        (0, 0x1, 8),
        (0, 0x2, 4),
        (0, 0x8, 4),
        (0, 0x400, 16),
        (0, 0x4_0000, 4),
        (0, 0x200_0000, 8),
        (1, 0x2, 4),
        (2, 0x1, 4),
        (2, 0x2, 8),
        (2, 0x4, 8),
        (2, 0x200, 8),
        (3, 0x8, 8),
        (3, 0x10, 8),
        (3, 0x80, 8),
        (3, 0x100, 8),
        (3, 0x200, 8),
        (3, 0x1000, 4),
    ]
}

/// The set says that the entry carries value `k`.
pub open spec fn carries(set: attribute_set, k: int) -> bool {
    let v = values()[k];
    let group = if v.0 == 0 {
        set.commonattr
    } else if v.0 == 1 {
        set.dirattr
    } else if v.0 == 2 {
        set.fileattr
    } else {
        set.forkattr
    };
    group & v.1 != 0
}

/// Where value `k` begins: behind the length, the five words of the set and all
/// values before it that the entry carries.
pub open spec fn place(set: attribute_set, k: int) -> int
    decreases k,
{
    if k <= 0 {
        24
    } else {
        place(set, k - 1) + (if carries(set, k - 1) {
            values()[k - 1].2
        } else {
            0
        })
    }
}

/// The values stand in their order, each right behind those before it that the
/// entry carries; one that it does not carry takes no room.
pub proof fn law_values_stand_in_order(set: attribute_set)
    ensures
        ({
            let l = attrlist::layout(set);
            &&& l.error == place(set, 0)
            &&& l.name == place(set, 1)
            &&& l.devid == place(set, 2)
            &&& l.objtype == place(set, 3)
            &&& l.modtime == place(set, 4)
            &&& l.flags == place(set, 5)
            &&& l.fileid == place(set, 6)
            &&& l.entrycount == place(set, 7)
            &&& l.linkcount == place(set, 8)
            &&& l.total_size == place(set, 9)
            &&& l.alloc_size == place(set, 10)
            &&& l.data_length == place(set, 11)
            &&& l.private_size == place(set, 12)
            &&& l.linkid == place(set, 13)
            &&& l.realfsid == place(set, 14)
            &&& l.cloneid == place(set, 15)
            &&& l.ext_flags == place(set, 16)
            &&& l.clone_refcnt == place(set, 17)
            &&& l.end == place(set, 18)
        }),
{
    reveal_with_fuel(place, 19);
}

/// The set of attributes is that of the five words behind the length.
pub proof fn law_the_set_is_behind_the_length(b: Seq<u8>)
    requires
        b.len() >= 24,
    ensures
        ({
            let r = attrlist::returned(b);
            &&& r.commonattr == number_in(b, 4, 4)
            &&& r.volattr == number_in(b, 8, 4)
            &&& r.dirattr == number_in(b, 12, 4)
            &&& r.fileattr == number_in(b, 16, 4)
            &&& r.forkattr == number_in(b, 20, 4)
        }),
{
    lemma_number_in(b, 4);
    lemma_number_in(b, 8);
    lemma_number_in(b, 12);
    lemma_number_in(b, 16);
    lemma_number_in(b, 20);
}

/// A value that is a number without sign: the one at its place, or zero if the
/// entry does not carry it.
pub open spec fn plain_value(b: Seq<u8>, set: attribute_set, k: int, width: int) -> int {
    if carries(set, k) {
        number_in(b, place(set, k), width)
    } else {
        0
    }
}

pub open spec fn signed_value(b: Seq<u8>, set: attribute_set, k: int, width: int) -> int {
    if carries(set, k) {
        signed_in(b, place(set, k), width)
    } else {
        0
    }
}

/// Each field of an entry is the number at the place of its value, or zero if the
/// entry does not carry it; of the time, the seconds count.
pub proof fn law_an_entry_says_what_its_bytes_say(e: Entry, b: Seq<u8>)
    requires
        e.reads(b),
    ensures
        ({
            let r = attrlist::returned(b);
            &&& e.error == plain_value(b, r, 0, 4)
            &&& e.devid == signed_value(b, r, 2, 4)
            &&& e.objtype == plain_value(b, r, 3, 4)
            &&& e.mtime == signed_value(b, r, 4, 8)
            &&& e.flags == plain_value(b, r, 5, 4)
            &&& e.fileid == plain_value(b, r, 6, 8)
            &&& e.entrycount == plain_value(b, r, 7, 4)
            &&& e.linkcount == plain_value(b, r, 8, 4)
            &&& e.total_size == plain_value(b, r, 9, 8)
            &&& e.alloc_size == plain_value(b, r, 10, 8)
            &&& e.data_length == plain_value(b, r, 11, 8)
            &&& e.private_size == plain_value(b, r, 12, 8)
            &&& e.linkid == plain_value(b, r, 13, 8)
            &&& e.realfsid == signed_value(b, r, 14, 8)
            &&& e.cloneid == plain_value(b, r, 15, 8)
            &&& e.ext_flags == plain_value(b, r, 16, 8)
            &&& e.clone_refcnt == plain_value(b, r, 17, 4)
        }),
{
    let r = attrlist::returned(b);
    law_values_stand_in_order(r);
    assert forall|at: int|
        #![trigger attrlist::le_u32(b, at)]
        attrlist::le_u32(b, at) == number_in(b, at, 4) by {
        lemma_number_in(b, at);
    }
    assert forall|at: int|
        #![trigger attrlist::le_u64(b, at)]
        attrlist::le_u64(b, at) == number_in(b, at, 8) by {
        lemma_number_in(b, at);
    }
    lemma_number_in(b, place(r, 2));
    lemma_number_in(b, place(r, 4));
    lemma_number_in(b, place(r, 14));
}

/// The name of an entry is in the bytes that its reference gives: as many as it
/// says, from the place that lies so far behind the reference itself. One NUL at
/// their end is no part of it.
pub proof fn law_a_name_is_where_its_reference_says(e: Entry, b: Seq<u8>)
    requires
        attrlist::readable(b),
        e.reads(b),
    ensures
        ({
            let r = attrlist::returned(b);
            let at = place(r, 1);
            let start = at + signed_in(b, at, 4);
            let len = number_in(b, at + 4, 4);
            &&& !carries(r, 1) ==> e.name@.len() == 0
            &&& carries(r, 1) ==> {
                &&& 0 <= start && start + len <= b.len()
                &&& len > 0 && b[start + len - 1] == 0 ==> e.name@ == b.subrange(
                    start,
                    start + len - 1,
                )
                &&& len == 0 || b[start + len - 1] != 0 ==> e.name@ == b.subrange(
                    start,
                    start + len,
                )
            }
        }),
{
    let r = attrlist::returned(b);
    let at = place(r, 1);
    law_values_stand_in_order(r);
    lemma_number_in(b, at);
    lemma_number_in(b, at + 4);
    let start = at + signed_in(b, at, 4);
    let len = number_in(b, at + 4, 4);
    if carries(r, 1) {
        let s = b.subrange(start, start + len);
        if len > 0 {
            assert(s.last() == b[start + len - 1]);
            assert(s.drop_last() =~= b.subrange(start, start + len - 1));
        }
    }
}

/// An entry can be read just if the bytes hold the head, the length that it states
/// is not shorter than its own field nor longer than what is there, and every value
/// that it carries, and its name, lie within the bytes.
pub proof fn law_when_an_entry_can_be_read(b: Seq<u8>)
    ensures
        attrlist::readable(b) <==> {
            let r = attrlist::returned(b);
            let at = place(r, 1);
            let start = at + signed_in(b, at, 4);
            &&& b.len() >= 24
            &&& number_in(b, 0, 4) >= 4
            &&& number_in(b, 0, 4) <= b.len()
            &&& place(r, 18) <= b.len()
            &&& carries(r, 1) ==> 0 <= start && start + number_in(b, at + 4, 4) <= b.len()
        },
{
    let r = attrlist::returned(b);
    let at = place(r, 1);
    law_values_stand_in_order(r);
    lemma_number_in(b, 0);
    lemma_number_in(b, at);
    lemma_number_in(b, at + 4);
}

} // verus!
