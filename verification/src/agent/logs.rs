//! Incremental file tailing with an offset cursor (no blocking watcher:
//! polled like every other sensor).

use vstd::prelude::*;

use crate::text;

verus! {

/// Tail cursor for one file.
#[derive(Debug, Clone, Copy, PartialEq, Eq, Structural)]
pub struct TailState {
    pub offset: u64,
}

/// Where reading starts in a file of `len` bytes: a file that is shorter than
/// the offset was truncated or rotated, and is read from the beginning.
pub open spec fn tail_start(offset: u64, len: u64) -> u64 {
    if len < offset {
        0
    } else {
        offset
    }
}

impl Default for TailState {
    fn default() -> (r: Self)
        ensures
            r.offset == 0,
    {
        TailState { offset: 0 }
    }
}

impl TailState {
    /// A cursor at the beginning.
    pub fn new() -> (r: Self)
        ensures
            r.offset == 0,
    {
        TailState { offset: 0 }
    }

    /// Begin a read of a file of `len` bytes; where to read from. Nothing is
    /// read of a file that cannot be examined.
    pub fn begin(&mut self, len: Option<u64>) -> (r: Option<u64>)
        ensures
            match len {
                Some(n) => r == Some(tail_start(old(self).offset, n)) && final(self).offset
                    == tail_start(old(self).offset, n),
                None => r is None && final(self).offset == old(self).offset,
            },
    {
        match len {
            Some(n) => {
                if n < self.offset {
                    self.offset = 0;
                }
                Some(self.offset)
            },
            None => None,
        }
    }

    /// End a read of a file of `len` bytes with the text that was read; its
    /// lines. A read that failed gives none, and moves nothing.
    pub fn end(&mut self, len: u64, read: Option<String>) -> (r: Vec<String>)
        ensures
            match read {
                Some(t) => text::views(r@) == text::lines(t@) && final(self).offset == len,
                None => r@.len() == 0 && final(self).offset == old(self).offset,
            },
    {
        match read {
            Some(t) => {
                self.offset = len;
                text::split_lines(t.as_str())
            },
            None => Vec::new(),
        }
    }
}

/// After a read that reached the end of a file, the next one starts where that
/// one ended, unless the file has become shorter.
pub proof fn law_tail_reads_what_was_appended(offset: u64, len: u64, later_len: u64)
    ensures
        later_len >= len ==> tail_start(len, later_len) == len,
        later_len < len ==> tail_start(len, later_len) == 0,
        tail_start(offset, len) <= len,
{
}

} // verus!
