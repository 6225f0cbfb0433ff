//! What the preloaded hooks return around the calls they make.
//!
//! A hook either returns a value as it is, or fails: it sets `errno` and
//! returns `-1`. The functions here make those choices; the caller performs
//! the system calls and sets `errno`.

use vstd::prelude::*;

use crate::shm::{is_dev_shm_path, spec_is_dev_shm_path, EEXIST, EFAULT};

verus! {

/// How a hook ends.
#[derive(PartialEq, Eq, Structural, Clone, Copy, Debug)]
pub enum CallOutcome {
    /// Return this value.
    Value(i32),
    /// Set `errno` to this value and return `-1`.
    Error(i32),
}

/// What `set_errno_from_ret` makes of a raw system-call result `ret`.
pub open spec fn spec_outcome_of_ret(ret: i32) -> CallOutcome {
    if ret < 0 {
        CallOutcome::Error(-ret as i32)
    } else {
        CallOutcome::Value(ret)
    }
}

/// Turns a raw kernel result into the libc convention: a negative result
/// `-e` fails with errno `e`, any other result is returned as it is.
pub fn set_errno_from_ret(ret: i32) -> (r: CallOutcome)
    requires
        ret > i32::MIN,
    ensures
        r == spec_outcome_of_ret(ret),
{
    if ret < 0 {
        CallOutcome::Error(-ret)
    } else {
        CallOutcome::Value(ret)
    }
}

/// How `mkdir` and `mkdirat` answer before any call, given the path (`None`
/// for a null pointer): a null path fails with `EFAULT`, a path below
/// `/dev/shm/` succeeds at once without creating anything, and any other
/// path goes on to the real call (`None`).
pub fn mkdir_start(path: Option<&[u8]>) -> (r: Option<CallOutcome>)
    ensures
        path is None ==> r == Some(CallOutcome::Error(EFAULT)),
        path matches Some(p) ==> (spec_is_dev_shm_path(p@) ==> r == Some(CallOutcome::Value(0))),
        path matches Some(p) ==> (!spec_is_dev_shm_path(p@) ==> r is None),
{
    match path {
        None => Some(CallOutcome::Error(EFAULT)),
        Some(p) => {
            if is_dev_shm_path(p) {
                Some(CallOutcome::Value(0))
            } else {
                None
            }
        },
    }
}

/// How `mkdir` answers after the raw `mkdir` system call returned `ret`: an
/// existing directory (`-EEXIST`) counts as success, anything else is turned
/// into the libc convention.
pub fn mkdir_finish(ret: i32) -> (r: CallOutcome)
    requires
        ret > i32::MIN,
    ensures
        ret == -EEXIST ==> r == CallOutcome::Value(0),
        ret != -EEXIST ==> r == spec_outcome_of_ret(ret),
{
    if ret == -EEXIST {
        return CallOutcome::Value(0);
    }
    set_errno_from_ret(ret)
}

/// What `mkdirat` returns after libc's own `mkdirat` returned `ret` and left
/// `errno` at `errno`: an existing directory counts as success, anything else
/// is returned as it is.
pub fn mkdirat_finish(ret: i32, errno: i32) -> (r: i32)
    ensures
        ret == -1 && errno == EEXIST ==> r == 0,
        !(ret == -1 && errno == EEXIST) ==> r == ret,
{
    if ret == -1 && errno == EEXIST {
        0
    } else {
        ret
    }
}

/// A raw result in the libc convention: a negative `ret` fails with errno
/// `-ret` (so the hook returns -1), any other result is passed on.
pub proof fn law_raw_results(ret: i32)
    requires
        ret > i32::MIN,
    ensures
        ret < 0 ==> spec_outcome_of_ret(ret) == CallOutcome::Error((0 - ret) as i32) && 0 - ret > 0,
        ret >= 0 ==> spec_outcome_of_ret(ret) == CallOutcome::Value(ret),
{
}

} // verus!
