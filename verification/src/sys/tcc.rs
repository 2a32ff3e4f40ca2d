//! Full Disk Access.
//!
//! It can be detected but not asked for. The file that is probed is guarded by
//! it and by nothing else, and opening it raises no prompt.

use vstd::prelude::*;
use vstd::slice::slice_subrange;
use crate::foreign;
use crate::text;
use super::errno;

verus! {

/// The file that can be opened only with Full Disk Access.
pub const PROBE: &'static str = "/Library/Application Support/com.apple.TCC/TCC.db";

/// The pane of System Settings in which the user can grant it.
pub const SETTINGS_URL: &'static str = "x-apple.systempreferences:com.apple.settings.PrivacySecurity.extension?Privacy_AllFiles";

#[derive(Debug, Clone, Copy, PartialEq, Eq, Structural)]
pub enum Access {
    Full,
    Denied,
    Unknown,
}

/// What follows from trying to open [`PROBE`]: `Ok` where that worked, else the
/// error number, where there is one.
///
/// Only `EPERM` means that access is denied. `EACCES` is a matter of ownership,
/// which granting access does not mend, and other errors tell nothing.
pub fn full_disk_access(probe: Result<(), Option<i32>>) -> (r: Access)
    ensures
        r == (match probe {
            Ok(_) => Access::Full,
            Err(Some(e)) => if e == errno::not_permitted() {
                Access::Denied
            } else {
                Access::Unknown
            },
            Err(None) => Access::Unknown,
        }),
{
    match probe {
        Ok(_) => Access::Full,
        Err(Some(e)) => {
            if e == errno::eperm() {
                Access::Denied
            } else {
                Access::Unknown
            }
        },
        Err(None) => Access::Unknown,
    }
}

/// At place `i` a bundle's name ends and the path goes on inside it.
pub open spec fn bundle_ends(path: Seq<char>, i: int) -> bool {
    0 <= i && i + 5 <= path.len() && path[i] == '.' && path[i + 1] == 'a' && path[i + 2] == 'p'
        && path[i + 3] == 'p' && path[i + 4] == '/'
}

/// Where the outermost bundle's name ends, looking from place `i` on.
pub open spec fn bundle_from(path: Seq<char>, i: int) -> Option<int>
    decreases path.len() - i,
{
    if i >= path.len() {
        None
    } else if bundle_ends(path, i) {
        Some(i)
    } else {
        bundle_from(path, i + 1)
    }
}

/// Where the last component of the first `n` characters of a path starts.
pub open spec fn component_start(path: Seq<char>, n: int) -> int
    decreases n,
{
    if n <= 0 || path[n - 1] == '/' {
        n
    } else {
        component_start(path, n - 1)
    }
}

/// What to call the application whose bundle's name ends, with its extension, at
/// place `i`: the name without the extension, and the path in brackets.
pub open spec fn label(path: Seq<char>, i: int) -> Seq<char> {
    let app = path.take(i + 4);
    let start = component_start(path, i + 4);
    let stem = if start == i {
        app.subrange(i, i + 4)
    } else {
        app.subrange(start, i)
    };
    stem + seq![' ', '('] + app + seq![')']
}

/// This is the label for a path: that of the outermost bundle, if there is one.
pub open spec fn labels(r: Option<String>, path: Seq<char>) -> bool {
    match bundle_from(path, 0) {
        None => r is None,
        Some(i) => r is Some && r->0@ == label(path, i),
    }
}

proof fn lemma_component_start(path: Seq<char>, n: int)
    requires
        0 <= n <= path.len(),
    ensures
        0 <= component_start(path, n) <= n,
        forall|k: int| component_start(path, n) <= k < n ==> path[k] != '/',
    decreases n,
{
    if n > 0 && path[n - 1] != '/' {
        lemma_component_start(path, n - 1);
    }
}

/// The label of the application inside whose bundle the executable at `path`
/// lies, for the user to find it in the list of applications.
pub fn app_label(path: &[u8]) -> (r: Option<String>)
    ensures
        labels(r, foreign::utf8_lossy(path@)),
        vstd::utf8::valid_utf8(path@) ==> labels(r, vstd::utf8::decode_utf8(path@)),
{
    label_in(foreign::from_utf8_lossy(path).as_str())
}

/// The label of the application inside whose bundle the executable lies, where
/// its path is text.
pub fn label_in(path: &str) -> (r: Option<String>)
    ensures
        labels(r, path@),
{
    let c = text::chars_of(path);
    let mut i: usize = 0;
    while i < c.len() && !(c.len() - i >= 5 && c[i] == '.' && c[i + 1] == 'a' && c[i + 2] == 'p'
        && c[i + 3] == 'p' && c[i + 4] == '/')
        invariant
            i <= c@.len(),
            bundle_from(c@, 0) == bundle_from(c@, i as int),
        decreases c@.len() - i,
    {
        i = i + 1;
    }
    if i == c.len() {
        return None;
    }
    assert(bundle_ends(c@, i as int));
    let end: usize = i + 4;
    let mut start: usize = end;
    while start > 0 && c[start - 1] != '/'
        invariant
            i + 4 == end <= c@.len(),
            start <= end,
            component_start(c@, end as int) == component_start(c@, start as int),
        decreases start,
    {
        start = start - 1;
    }
    proof {
        lemma_component_start(c@, end as int);
        assert(start == component_start(c@, end as int));
        reveal_with_fuel(component_start, 5);
        assert(start <= i);
    }
    let ghost app = c@.take(end as int);
    let stem = if start == i {
        slice_subrange(c.as_slice(), i, end)
    } else {
        slice_subrange(c.as_slice(), start, i)
    };
    let mut out = text::string_of(stem);
    foreign::push_char(&mut out, ' ');
    foreign::push_char(&mut out, '(');
    let whole = text::string_of(slice_subrange(c.as_slice(), 0, end));
    out.append(whole.as_str());
    foreign::push_char(&mut out, ')');
    proof {
        assert(stem@ =~= (if start == i {
            app.subrange(i as int, i + 4)
        } else {
            app.subrange(start as int, i as int)
        }));
        assert(whole@ =~= app);
        assert(out@ =~= label(c@, i as int));
    }
    Some(out)
}

/// A climb up the tree of processes, to the application that the user has to
/// grant access to.
pub struct Climb {
    /// The process to look at.
    pub pid: i32,
    /// How many more processes may be looked at, this one included.
    pub left: u32,
}

impl Climb {
    /// A climb from a process, over two dozen processes at most.
    pub fn start(pid: i32) -> (r: Climb)
        ensures
            r.pid == pid,
            r.left == 24,
    {
        Climb { pid, left: 24 }
    }

    /// Goes on to the parent, where it is known, is neither the first process
    /// nor the same one, and may still be looked at. Else the climb ends.
    pub fn go_on(&mut self, parent: Option<i32>) -> (r: bool)
        ensures
            r == (old(self).left > 1 && parent is Some && parent->0 > 1 && parent->0 != old(
                self,
            ).pid),
            r ==> final(self).pid == parent->0 && final(self).left == old(self).left - 1,
            !r ==> *final(self) == *old(self),
    {
        let p: i32 = match parent {
            Some(p) => p,
            None => return false,
        };
        if self.left > 1 && p > 1 && p != self.pid {
            self.pid = p;
            self.left = self.left - 1;
            true
        } else {
            false
        }
    }
}

} // verus!
