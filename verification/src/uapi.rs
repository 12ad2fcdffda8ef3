//! What kernel and user programs agree on: syscall numbers and the failure
//! sentinel.

use vstd::prelude::*;

verus! {

/// Number of `write(ptr, len)`, passed in `a7`.
pub const WRITE: usize = 1;

/// Number of `exit()`, passed in `a7`.
pub const EXIT: usize = 2;

/// Number of `write_cstr(ptr)`, passed in `a7`.
pub const WRITE_CSTR: usize = 3;

/// Number of `open(path)`, passed in `a7`.
pub const OPEN: usize = 4;

/// Number of `read(fd, buf, len)`, passed in `a7`.
pub const READ: usize = 5;

/// Number of `write(fd, buf, len)`, passed in `a7`.
pub const WRITE_FD: usize = 6;

/// Number of `close(fd)`, passed in `a7`.
pub const CLOSE: usize = 7;

/// Number of `lseek(fd, offset, whence)`, passed in `a7`.
pub const LSEEK: usize = 8;

/// Number of `brk(addr)`, passed in `a7`.
pub const BRK: usize = 9;

/// Number of `gettime()`, passed in `a7`.
pub const GETTIME: usize = 10;

/// Number of `poweroff()`, passed in `a7`.
pub const POWEROFF: usize = 11;

/// Number of `exec(path)`, passed in `a7`.
pub const EXEC: usize = 12;

/// Number of `execv(path, argv)`, passed in `a7`.
pub const EXECV: usize = 13;

/// Number of `creat(path, mode)`, passed in `a7`.
pub const CREAT: usize = 14;

/// Number of `unlink(path)`, passed in `a7`.
pub const UNLINK: usize = 15;

/// Number of `stat(path, buf)`, passed in `a7`.
pub const STAT: usize = 16;

/// Number of `chmod(path, mode)`, passed in `a7`.
pub const CHMOD: usize = 17;

/// Number of `readdir(buf, len)`, passed in `a7`.
pub const READDIR: usize = 18;

/// Number of `get_fb_info(buf)`, passed in `a7`.
pub const GET_FB_INFO: usize = 19;

/// Number of `fb_flush()`, passed in `a7`.
pub const FB_FLUSH: usize = 20;

/// `lseek` from the start of the file.
pub const SEEK_SET: usize = 0;

/// `lseek` from the current offset.
pub const SEEK_CUR: usize = 1;

/// `lseek` from the end of the file.
pub const SEEK_END: usize = 2;

/// What a failed syscall returns in `a0`.
pub const SENTINEL: usize = usize::MAX;

/// The one error a syscall reports.
#[derive(Copy, Clone, Debug, Eq, PartialEq, Structural)]
pub enum SysErr {
    Fail,
}

/// Whether a returned value is the failure sentinel.
pub fn is_err_sentinel(v: usize) -> (r: bool)
    ensures
        r == (v == usize::MAX),
{
    v == usize::MAX
}

/// A returned value as a result: the error for the sentinel.
pub fn sys_result(v: usize) -> (r: Result<usize, SysErr>)
    ensures
        r == (if v == usize::MAX {
            Err::<usize, SysErr>(SysErr::Fail)
        } else {
            Ok::<usize, SysErr>(v)
        }),
{
    if is_err_sentinel(v) {
        Err(SysErr::Fail)
    } else {
        Ok(v)
    }
}

} // verus!
