use vstd::prelude::*;
use vstd::slice::slice_subrange;

verus! {

/// A pull-based source of bytes, such as a file or an in-memory buffer.
pub trait ByteSource {
    /// What a failed read reports.
    type Error;

    /// The bytes the source has yet to give, up to its end.
    spec fn remaining(&self) -> Seq<u8>;

    /// Whether every read of the source succeeds.
    spec fn never_fails(&self) -> bool;

    /// The error of the last read that failed, if any.
    spec fn last_error(&self) -> Option<Self::Error>;

    /// Reads the next bytes of the source into the front of `buf` and returns
    /// how many. It returns 0 only when `buf` is empty or the source has
    /// ended. A read that fails takes nothing from the source and records
    /// its error; a source that never fails stays so.
    fn read_into(&mut self, buf: &mut [u8]) -> (r: Result<usize, Self::Error>)
        ensures
            final(buf)@.len() == old(buf)@.len(),
            old(self).never_fails() ==> r is Ok && final(self).never_fails(),
            r matches Err(e) ==> final(self).last_error() == Some(e),
            match r {
                Ok(n) => {
                    &&& n <= old(buf)@.len()
                    &&& n <= old(self).remaining().len()
                    &&& old(buf)@.len() > 0 && old(self).remaining().len() > 0 ==> n > 0
                    &&& final(buf)@.take(n as int) == old(self).remaining().take(n as int)
                    &&& final(self).remaining() == old(self).remaining().skip(n as int)
                },
                Err(_) => final(self).remaining() == old(self).remaining(),
            },
    ;
}

/// A byte slice gives its bytes in order; reading it never fails.
impl<'a> ByteSource for &'a [u8] {
    type Error = ();

    open spec fn remaining(&self) -> Seq<u8> {
        self@
    }

    open spec fn never_fails(&self) -> bool {
        true
    }

    open spec fn last_error(&self) -> Option<()> {
        None
    }

    fn read_into(&mut self, buf: &mut [u8]) -> (r: Result<usize, ()>) {
        let n = if buf.len() < self.len() {
            buf.len()
        } else {
            self.len()
        };
        let mut i: usize = 0;
        while i < n
            invariant
                i <= n,
                n <= buf@.len(),
                n <= self@.len(),
                buf@.len() == old(buf)@.len(),
                *self == *old(self),
                buf@.take(i as int) == self@.take(i as int),
            decreases n - i,
        {
            buf[i] = self[i];
            i += 1;
            assert(buf@.take(i as int) =~= self@.take(i as int));
        }
        let rest = slice_subrange(*self, n, self.len());
        assert(rest@ =~= self@.skip(n as int));
        *self = rest;
        Ok(n)
    }
}

} // verus!
