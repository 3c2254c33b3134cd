use super::{cipher_stream, read_outcome, ByteSource, Playfair};
use crate::cipherer::key_square;
use vstd::prelude::*;
use vstd::string::StringSliceAdditionalSpecFns;

verus! {

/// Decrypts the bytes of a source with the Playfair cipher as they are read.
pub struct PlayfairDecoder<T: ByteSource>(Playfair<T>);

impl<T: ByteSource> PlayfairDecoder<T> {
    /// The stream's bookkeeping is consistent.
    pub closed spec fn wf(&self) -> bool {
        self.0.wf()
    }

    /// Whether every read of the underlying source succeeds.
    pub closed spec fn source_never_fails(&self) -> bool {
        self.0.source_never_fails()
    }

    /// The error of the underlying source's last failed read, if any.
    pub closed spec fn source_error(&self) -> Option<T::Error> {
        self.0.source_error()
    }

    /// The key square in use.
    pub closed spec fn square(&self) -> Seq<u8> {
        self.0.square()
    }

    /// The plaintext still to be read.
    pub closed spec fn output(&self) -> Seq<u8> {
        self.0.output(true)
    }

    /// A stream over `stream` that ciphers with the key square of `key`.
    pub fn new(key: &str, stream: T) -> (r: Self)
        ensures
            r.wf(),
            r.square() == key_square(key.spec_bytes()),
            r.source_never_fails() == stream.never_fails(),
            r.output() == cipher_stream(r.square(), stream.remaining(), true),
    {
        let inner = Playfair::new(key, stream);
        assert(inner.output(true) == cipher_stream(inner.square(), stream.remaining(), true));
        Self(inner)
    }

    /// Reads the next bytes of plaintext into `buf`: as many as fit, or as
    /// are left; 0 once the stream is drained. It fails only when its source's
    /// read fails, and returns that error.
    pub fn read(&mut self, buf: &mut [u8]) -> (r: Result<usize, T::Error>)
        requires
            old(self).wf(),
            old(self).square().len() == 25,
        ensures
            final(self).wf(),
            final(self).square() == old(self).square(),
            read_outcome(old(self).output(), final(self).output(), old(buf)@.len(), final(buf)@, r),
            old(buf)@.len() == 0 ==> (r matches Ok(0) && *final(self) == *old(self)),
            old(self).source_never_fails() ==> r is Ok && final(self).source_never_fails(),
            r matches Err(e) ==> final(self).source_error() == Some(e)
                && !old(self).source_never_fails(),
    {
        self.0.__read(buf, true)
    }
}

} // verus!
