//! The XSI `strerror_r` contract: copy the message of an error number into a
//! caller's buffer, truncated to fit and always NUL-terminated; report
//! success when the whole message fits, the insufficient-storage error when
//! it had to be truncated, and the invalid-argument error when there is no
//! buffer or no message.
use vstd::prelude::*;

verus! {

/// The outcome of a copy, as the XSI contract reports it.
#[derive(Clone, Copy, Debug, PartialEq, Eq)]
pub enum CopyStatus {
    /// The whole message and its NUL were copied: success.
    Copied,
    /// The message did not fit and was truncated: the insufficient-storage
    /// error (`ERANGE`).
    Truncated,
    /// No usable buffer, or no message: the invalid-argument error (`EINVAL`).
    InvalidArgument,
}

/// How many bytes of a message of `msg_len` bytes fit a buffer of `buf_len`
/// bytes beside the terminating NUL.
pub open spec fn copied_len(msg_len: int, buf_len: int) -> int {
    if msg_len < buf_len - 1 {
        msg_len
    } else {
        buf_len - 1
    }
}

/// Copies `message` (its bytes without a terminator) into `buf`: as many
/// bytes as fit beside a NUL, then the NUL; the rest of `buf` is left as it
/// was. The copy is reported whole when the message fits beside the NUL,
/// truncated otherwise. With an empty buffer or no message, nothing is
/// written and the invalid-argument error is reported.
pub fn copy_error_message(message: Option<&[u8]>, buf: &mut [u8]) -> (r: CopyStatus)
    ensures
        old(buf)@.len() == 0 || message is None ==> r == CopyStatus::InvalidArgument
            && final(buf)@ == old(buf)@,
        old(buf)@.len() > 0 && message is Some ==> ({
            let m = message->0@;
            &&& r == if m.len() < old(buf)@.len() {
                CopyStatus::Copied
            } else {
                CopyStatus::Truncated
            }
            &&& {
                let n = copied_len(m.len() as int, old(buf)@.len() as int);
                final(buf)@ == m.take(n) + seq![0u8] + old(buf)@.skip(n + 1)
            }
        }),
        final(buf)@.len() == old(buf)@.len(),
        old(buf)@.len() > 0 && message is Some ==> exists|k: int|
            0 <= k < final(buf)@.len() && final(buf)@[k] == 0,
{
    if buf.len() == 0 {
        return CopyStatus::InvalidArgument;
    }
    let m = match message {
        Some(m) => m,
        None => {
            return CopyStatus::InvalidArgument;
        },
    };
    let n = if m.len() < buf.len() - 1 {
        m.len()
    } else {
        buf.len() - 1
    };
    let ghost original = buf@;
    let mut i: usize = 0;
    while i < n
        invariant
            i <= n < buf@.len(),
            n <= m@.len(),
            buf@.len() == original.len(),
            forall|j: int| 0 <= j < i ==> buf@[j] == m@[j],
            forall|j: int| i <= j < buf@.len() ==> buf@[j] == original[j],
        decreases n - i,
    {
        buf[i] = m[i];
        i = i + 1;
    }
    buf[n] = 0;
    assert(buf@ =~= m@.take(n as int) + seq![0u8] + original.skip(n + 1));
    assert(buf@[n as int] == 0);
    if m.len() < buf.len() {
        CopyStatus::Copied
    } else {
        CopyStatus::Truncated
    }
}


/// The XSI `strerror_r` entry point: copies `message` (the text of the error
/// number, or none when it has no text) into `buf` (empty when the caller
/// gave no buffer) as [`copy_error_message`] does, and returns 0 on success,
/// `erange` when the message had to be truncated, `einval` when there is no
/// buffer or no message. With the host's (positive) error numbers the result
/// is never negative.
pub fn xpg_strerror_r(message: Option<&[u8]>, buf: &mut [u8], einval: i32, erange: i32) -> (r: i32)
    ensures
        old(buf)@.len() == 0 || message is None ==> r == einval && final(buf)@ == old(buf)@,
        old(buf)@.len() > 0 && message is Some ==> ({
            let m = message->0@;
            &&& r == if m.len() < old(buf)@.len() {
                0
            } else {
                erange
            }
            &&& {
                let n = copied_len(m.len() as int, old(buf)@.len() as int);
                final(buf)@ == m.take(n) + seq![0u8] + old(buf)@.skip(n + 1)
            }
        }),
        final(buf)@.len() == old(buf)@.len(),
        old(buf)@.len() > 0 && message is Some ==> exists|k: int|
            0 <= k < final(buf)@.len() && final(buf)@[k] == 0,
        einval > 0 && erange > 0 ==> r >= 0,
        einval > 0 && erange > 0 ==> (r == 0 <==> (old(buf)@.len() > 0 && message is Some
            && message->0@.len() < old(buf)@.len())),
{
    let status = copy_error_message(message, buf);
    match status {
        CopyStatus::Copied => 0,
        CopyStatus::Truncated => erange,
        CopyStatus::InvalidArgument => einval,
    }
}

} // verus!
