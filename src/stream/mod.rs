mod decoder;
mod encoder;
mod source;

use crate::cipherer::{key_square, substitute, Cipherer, LETTER_X};
use vstd::prelude::*;
use vstd::string::StringSliceAdditionalSpecFns;

pub use decoder::PlayfairDecoder;
pub use encoder::PlayfairEncoder;
pub use source::ByteSource;

verus! {

/// Size of the read-ahead buffer that an adapter fills from its source.
pub const READ_AHEAD: usize = 8192;

/// The output of the cipher over the whole message `s`, in the key square
/// `sq`: consecutive pairs are substituted, a pair of two equal bytes gives
/// up only its first byte (its second is paired again with the byte after
/// it), and a lone last byte is paired with `x`.
pub open spec fn cipher_stream(sq: Seq<u8>, s: Seq<u8>, reverse: bool) -> Seq<u8>
    decreases s.len(),
{
    if s.len() == 0 {
        Seq::empty()
    } else if s.len() == 1 {
        let p = substitute(sq, s[0], LETTER_X, reverse).pair();
        seq![p.0, p.1]
    } else {
        let o = substitute(sq, s[0], s[1], reverse);
        let p = o.pair();
        seq![p.0, p.1] + cipher_stream(
            sq,
            s.skip(
                if o is Duplicate {
                    1
                } else {
                    2
                },
            ),
            reverse,
        )
    }
}

/// The sequence that holds the value of `o`, if any.
pub open spec fn option_seq(o: Option<u8>) -> Seq<u8> {
    match o {
        Some(b) => seq![b],
        None => Seq::empty(),
    }
}

/// The first `n` bytes of `before` stand at the front of `out`, and `after`
/// is what follows them in `before`.
pub open spec fn hands_out(before: Seq<u8>, after: Seq<u8>, out: Seq<u8>, n: int) -> bool {
    &&& 0 <= n <= out.len()
    &&& n <= before.len()
    &&& out.take(n) == before.take(n)
    &&& after == before.skip(n)
}

/// What a read into `out` (of `out_len` bytes) does to the output still to
/// come, from `before` to `after`: a read that succeeds with `n` hands out
/// the next `n` bytes, as many as fit or as are left; a failed one may have
/// handed out some of them first.
pub open spec fn read_outcome<E>(
    before: Seq<u8>,
    after: Seq<u8>,
    out_len: nat,
    out: Seq<u8>,
    r: Result<usize, E>,
) -> bool {
    &&& out.len() == out_len
    &&& match r {
        Ok(n) => {
            &&& n == if out_len < before.len() {
                out_len
            } else {
                before.len()
            }
            &&& hands_out(before, after, out, n as int)
        },
        Err(_) => exists|n: int| hands_out(before, after, out, n),
    }
}

/// A buffer that starts with the first `n` bytes of `total` hands them out.
proof fn lemma_hands_out(total: Seq<u8>, out: Seq<u8>, n: int, after: Seq<u8>)
    requires
        0 <= n <= out.len(),
        total == out.take(n) + after,
    ensures
        hands_out(total, after, out, n),
{
    assert(total.take(n) =~= out.take(n));
    assert(total.skip(n) =~= after);
}

/// A streaming Playfair transform over a byte source: bytes are read ahead
/// into an internal buffer, ciphered pair by pair, and handed to the caller's
/// buffer; a byte that waits for its partner (`carry`) and a ciphered byte
/// that did not fit (`carry_encrypted`) are kept between reads.
pub struct Playfair<T: ByteSource> {
    cipherer: Cipherer,
    source: T,
    buffer: Vec<u8>,
    start: usize,
    end: usize,
    carry_encrypted: Option<u8>,
    carry: Option<u8>,
}

impl<T: ByteSource> Playfair<T> {
    /// The adapter's own bookkeeping is consistent.
    pub closed spec fn wf(&self) -> bool {
        &&& self.buffer@.len() == READ_AHEAD
        &&& self.start <= self.end <= READ_AHEAD
    }

    /// The key square the adapter ciphers with.
    pub closed spec fn square(&self) -> Seq<u8> {
        self.cipherer@
    }

    /// The input still to be ciphered: the waiting byte, the unread part of
    /// the read-ahead buffer, and what the source still holds.
    pub closed spec fn pending(&self) -> Seq<u8> {
        option_seq(self.carry) + self.buffer@.subrange(self.start as int, self.end as int)
            + self.source.remaining()
    }

    /// Whether every read of the source succeeds.
    pub closed spec fn source_never_fails(&self) -> bool {
        self.source.never_fails()
    }

    /// The error of the source's last failed read, if any.
    pub closed spec fn source_error(&self) -> Option<T::Error> {
        self.source.last_error()
    }

    /// Everything the adapter has yet to hand out, in order.
    pub closed spec fn output(&self, decode: bool) -> Seq<u8> {
        option_seq(self.carry_encrypted) + cipher_stream(self.square(), self.pending(), decode)
    }

    /// An adapter over `stream` that ciphers with the key square of `key`.
    pub fn new(key: &str, stream: T) -> (r: Self)
        ensures
            r.wf(),
            r.square() == key_square(key.spec_bytes()),
            r.source_never_fails() == stream.never_fails(),
            forall|decode: bool| #[trigger]
                r.output(decode) == cipher_stream(r.square(), stream.remaining(), decode),
    {
        let r = Self {
            cipherer: Cipherer::with(key.as_bytes()),
            source: stream,
            buffer: vec![0u8; READ_AHEAD],
            start: 0,
            end: 0,
            carry_encrypted: None,
            carry: None,
        };
        assert(r.pending() =~= stream.remaining());
        r
    }

    /// Refills the read-ahead buffer from the source when it is used up.
    /// Afterwards an empty buffer means that the source has ended.
    fn refill(&mut self) -> (r: Result<(), T::Error>)
        requires
            old(self).wf(),
        ensures
            final(self).wf(),
            final(self).cipherer == old(self).cipherer,
            final(self).carry == old(self).carry,
            final(self).carry_encrypted == old(self).carry_encrypted,
            final(self).pending() == old(self).pending(),
            old(self).source_never_fails() ==> r is Ok && final(self).source_never_fails(),
            r matches Err(e) ==> final(self).source_error() == Some(e),
            r is Ok && final(self).start == final(self).end ==> final(self).source.remaining().len()
                == 0,
    {
        if self.start == self.end {
            let ghost before = self.pending();
            match self.source.read_into(self.buffer.as_mut_slice()) {
                Ok(n) => {
                    self.start = 0;
                    self.end = n;
                    assert(self.pending() =~= before);
                },
                Err(e) => {
                    assert(self.pending() =~= before);
                    return Err(e);
                },
            }
        }
        Ok(())
    }

    /// Ciphers the first pair of the pending input: the waiting byte with
    /// the next buffered byte, or with `x` at the end of the input; otherwise
    /// the next two buffered bytes.
    fn take_pair(&mut self, decode: bool) -> (p: (u8, u8))
        requires
            old(self).wf(),
            old(self).square().len() == 25,
            old(self).carry is Some || old(self).end - old(self).start >= 2,
            old(self).start == old(self).end ==> old(self).source.remaining().len() == 0,
        ensures
            final(self).wf(),
            final(self).cipherer == old(self).cipherer,
            final(self).source == old(self).source,
            final(self).carry_encrypted == old(self).carry_encrypted,
            cipher_stream(old(self).square(), old(self).pending(), decode) == seq![p.0, p.1]
                + cipher_stream(final(self).square(), final(self).pending(), decode),
    {
        let ghost initial = self.pending();
        match self.carry {
            Some(chr) => {
                if self.start == self.end {
                    // The input has ended: the waiting byte is paired with `x`.
                    assert(initial =~= seq![chr]);
                    let pair = self.cipherer.cipher(chr, LETTER_X, decode).unwrap();
                    self.carry = None;
                    assert(self.pending() =~= Seq::<u8>::empty());
                    pair
                } else {
                    let outcome = self.cipherer.cipher(chr, self.buffer[self.start], decode);
                    self.carry = None;
                    if outcome.is_duplicate() {
                        assert(self.pending() =~= initial.skip(1));
                    } else {
                        self.start = self.start + 1;
                        assert(self.pending() =~= initial.skip(2));
                    }
                    outcome.unwrap()
                }
            },
            None => {
                let outcome = self.cipherer.cipher(
                    self.buffer[self.start],
                    self.buffer[self.start + 1],
                    decode,
                );
                if outcome.is_duplicate() {
                    self.start = self.start + 1;
                    assert(self.pending() =~= initial.skip(1));
                } else {
                    self.start = self.start + 2;
                    assert(self.pending() =~= initial.skip(2));
                }
                outcome.unwrap()
            },
        }
    }

    /// Ciphers the next pair of the pending input, refilling the
    /// read-ahead buffer from the source as needed; `None` once the input
    /// has run out. An error of the source leaves the pending input as it
    /// was.
    fn next_pair(&mut self, decode: bool) -> (r: Result<Option<(u8, u8)>, T::Error>)
        requires
            old(self).wf(),
            old(self).square().len() == 25,
        ensures
            final(self).wf(),
            final(self).square() == old(self).square(),
            final(self).carry_encrypted == old(self).carry_encrypted,
            old(self).source_never_fails() ==> r is Ok && final(self).source_never_fails(),
            r matches Err(e) ==> final(self).source_error() == Some(e)
                && !old(self).source_never_fails(),
            match r {
                Ok(Some(p)) => cipher_stream(old(self).square(), old(self).pending(), decode)
                    == seq![p.0, p.1] + cipher_stream(
                    final(self).square(),
                    final(self).pending(),
                    decode,
                ),
                Ok(None) => old(self).pending().len() == 0 && final(self).pending().len() == 0,
                Err(_) => final(self).pending() == old(self).pending(),
            },
    {
        match self.refill() {
            Ok(()) => {},
            Err(e) => return Err(e),
        }
        if self.carry.is_none() {
            if self.start == self.end {
                assert(self.pending() =~= Seq::<u8>::empty());
                return Ok(None);
            }
            if self.end - self.start == 1 {
                // A lone byte waits for its partner from the next refill.
                let ghost before = self.pending();
                self.carry = Some(self.buffer[self.start]);
                self.start = self.start + 1;
                assert(self.pending() =~= before);
                match self.refill() {
                    Ok(()) => {},
                    Err(e) => return Err(e),
                }
            }
        }
        Ok(Some(self.take_pair(decode)))
    }

    /// Writes the next bytes of the output into `buf`, ciphering in the
    /// direction `decode`, until `buf` is full or the source has ended, and
    /// returns how many. A ciphered byte that does not fit is kept for the
    /// next read; an error of the source is returned at once.
    fn __read(&mut self, buf: &mut [u8], decode: bool) -> (r: Result<usize, T::Error>)
        requires
            old(self).wf(),
            old(self).square().len() == 25,
        ensures
            final(self).wf(),
            final(self).square() == old(self).square(),
            read_outcome(
                old(self).output(decode),
                final(self).output(decode),
                old(buf)@.len(),
                final(buf)@,
                r,
            ),
            old(buf)@.len() == 0 ==> (r matches Ok(0) && *final(self) == *old(self)),
            old(self).source_never_fails() ==> r is Ok && final(self).source_never_fails(),
            r matches Err(e) ==> final(self).source_error() == Some(e)
                && !old(self).source_never_fails(),
    {
        let ghost total = self.output(decode);
        if buf.len() == 0 {
            proof {
                lemma_hands_out(total, buf@, 0, self.output(decode));
            }
            return Ok(0);
        }
        let ghost sq = self.square();
        let mut written: usize = 0;
        if let Some(chr) = self.carry_encrypted {
            buf[0] = chr;
            self.carry_encrypted = None;
            written = 1;
            assert(total =~= buf@.take(1) + self.output(decode));
        } else {
            assert(total =~= buf@.take(0) + self.output(decode));
        }
        loop
            invariant
                self.wf(),
                self.square() == sq,
                sq == old(self).square(),
                sq.len() == 25,
                total == old(self).output(decode),
                old(self).source_never_fails() ==> self.source_never_fails(),
                self.carry_encrypted is None,
                written <= buf@.len(),
                buf@.len() > 0,
                buf@.len() == old(buf)@.len(),
                total == buf@.take(written as int) + self.output(decode),
            decreases buf@.len() - written,
        {
            if written == buf.len() {
                proof {
                    lemma_hands_out(total, buf@, written as int, self.output(decode));
                }
                return Ok(written);
            }
            match self.next_pair(decode) {
                Err(e) => {
                    proof {
                        lemma_hands_out(total, buf@, written as int, self.output(decode));
                    }
                    return Err(e);
                },
                Ok(None) => {
                    assert(total =~= buf@.take(written as int) + self.output(decode));
                    proof {
                        lemma_hands_out(total, buf@, written as int, self.output(decode));
                    }
                    return Ok(written);
                },
                Ok(Some((x, y))) => {
                    buf[written] = x;
                    if written + 1 == buf.len() {
                        self.carry_encrypted = Some(y);
                        assert(total =~= buf@.take(written + 1) + self.output(decode));
                        proof {
                            lemma_hands_out(total, buf@, written + 1, self.output(decode));
                        }
                        return Ok(written + 1);
                    }
                    buf[written + 1] = y;
                    written = written + 2;
                    assert(total =~= buf@.take(written as int) + self.output(decode));
                },
            }
        }
    }
}

} // verus!
