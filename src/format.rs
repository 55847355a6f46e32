//! Formatting text into a buffer of fixed size, without growing it.
use vstd::prelude::*;
use vstd::utf8::{decode_utf8, encode_utf8, encode_utf8_decode_utf8, encode_utf8_valid_utf8, valid_utf8};

verus! {

/// The text did not fit the buffer.
#[derive(Clone, Copy, Debug, PartialEq, Eq, Structural)]
pub struct FormatError;

/// The UTF-8 encoding of a concatenation is the concatenation of the encodings.
pub proof fn lemma_encode_concat(a: Seq<char>, b: Seq<char>)
    ensures
        encode_utf8(a + b) == encode_utf8(a) + encode_utf8(b),
    decreases a.len(),
{
    if a.len() == 0 {
        assert(a + b =~= b);
        assert(encode_utf8(a) + encode_utf8(b) =~= encode_utf8(b));
    } else {
        lemma_encode_concat(a.drop_first(), b);
        assert((a + b).drop_first() =~= a.drop_first() + b);
        assert((a + b)[0] == a[0]);
    }
}

/// The text of `pieces` written one after the other.
pub open spec fn text_of(pieces: Seq<&str>) -> Seq<char>
    decreases pieces.len(),
{
    if pieces.len() == 0 {
        seq![]
    } else {
        text_of(pieces.drop_last()) + pieces.last()@
    }
}

/// Relies on std::str::from_utf8: it accepts exactly the valid UTF-8 byte
/// sequences, and its text is the one they encode.
#[verifier::external_body]
fn utf8_text(bytes: &[u8]) -> (r: Option<String>)
    ensures
        r is Some <==> valid_utf8(bytes@),
        r matches Some(t) ==> t@ == decode_utf8(bytes@),
{
    match std::str::from_utf8(bytes) {
        Ok(t) => Some(t.to_string()),
        Err(_) => None,
    }
}

/// Writes text into a buffer given to it, whose length is the capacity.
/// Once a write did not fit, every later write and the final conversion fail.
pub struct Formatter {
    buffer: Vec<u8>,
    len: usize,
    overflowed: bool,
    text: Ghost<Seq<char>>,
}

impl Formatter {
    /// Bytes the buffer can hold.
    pub closed spec fn capacity(&self) -> nat {
        self.buffer.len() as nat
    }

    /// Whether a write did not fit.
    pub closed spec fn overflowed(&self) -> bool {
        self.overflowed
    }

    /// The text written so far (up to the write that did not fit).
    pub closed spec fn text(&self) -> Seq<char> {
        self.text@
    }

    /// The buffer starts with the encoding of the text written.
    pub closed spec fn wf(&self) -> bool {
        &&& self.len <= self.buffer.len()
        &&& self.buffer@.subrange(0, self.len as int) == encode_utf8(self.text@)
    }

    /// A formatter that writes into `buffer`, from its start.
    pub fn new(buffer: Vec<u8>) -> (r: Formatter)
        ensures
            r.wf(),
            r.capacity() == buffer.len(),
            !r.overflowed(),
            r.text() == Seq::<char>::empty(),
    {
        let r = Formatter { buffer, len: 0, overflowed: false, text: Ghost(Seq::empty()) };
        assert(r.buffer@.subrange(0, 0) =~= encode_utf8(Seq::<char>::empty()));
        r
    }

    /// Appends `s`. Fails, keeping the text, when an earlier write did not
    /// fit or when `s` does not fit in what is left; then as much of `s` as
    /// fits is still copied past the text.
    pub fn write_str(&mut self, s: &str) -> (r: Result<(), FormatError>)
        requires
            old(self).wf(),
        ensures
            final(self).wf(),
            final(self).capacity() == old(self).capacity(),
            final(self).text() == (if r is Ok { old(self).text() + s@ } else { old(self).text() }),
            final(self).overflowed() == (r is Err),
            r is Ok <==> !old(self).overflowed() && encode_utf8(old(self).text()).len()
                + encode_utf8(s@).len() <= old(self).capacity(),
    {
        if self.overflowed {
            return Err(FormatError);
        }
        let raw = s.as_bytes();
        let room = self.buffer.len() - self.len;
        let n = if raw.len() < room {
            raw.len()
        } else {
            room
        };
        let ghost prefix = self.buffer@.subrange(0, self.len as int);
        let mut j: usize = 0;
        while j < n
            invariant
                n <= raw.len(),
                self.len + n <= self.buffer.len(),
                self.buffer.len() == old(self).buffer.len(),
                self.len == old(self).len,
                self.text == old(self).text,
                self.overflowed == old(self).overflowed,
                prefix == encode_utf8(self.text@),
                raw@ == encode_utf8(s@),
                self.buffer@.subrange(0, self.len as int) == prefix,
                j <= n,
                forall|k: int| 0 <= k < j ==> self.buffer@[self.len + k] == raw@[k],
            decreases n - j,
        {
            let at = self.len + j;
            self.buffer.set(at, raw[j]);
            assert(self.buffer@.subrange(0, self.len as int) =~= prefix);
            j += 1;
        }
        if n < raw.len() {
            self.overflowed = true;
            Err(FormatError)
        } else {
            proof {
                lemma_encode_concat(self.text@, s@);
                assert(self.buffer@.subrange(0, self.len + n) =~= prefix + raw@);
                self.text = Ghost(self.text@ + s@);
            }
            self.len = self.len + n;
            Ok(())
        }
    }

    /// The text written, unless a write did not fit.
    pub fn covert_to_str(self) -> (r: Result<String, FormatError>)
        requires
            self.wf(),
        ensures
            r is Ok <==> !self.overflowed(),
            r matches Ok(t) ==> t@ == self.text(),
    {
        if self.overflowed {
            return Err(FormatError);
        }
        let mut bytes = self.buffer;
        bytes.truncate(self.len);
        proof {
            assert(bytes@ =~= encode_utf8(self.text@));
            encode_utf8_valid_utf8(self.text@);
            encode_utf8_decode_utf8(self.text@);
        }
        match utf8_text(bytes.as_slice()) {
            Some(t) => Ok(t),
            None => Err(FormatError),
        }
    }
}

/// Writes `pieces` one after the other into `buffer` and returns the text;
/// fails when the text does not fit the buffer.
pub fn format(buffer: Vec<u8>, pieces: &[&str]) -> (r: Result<String, FormatError>)
    ensures
        r is Ok <==> encode_utf8(text_of(pieces@)).len() <= buffer.len(),
        r matches Ok(t) ==> t@ == text_of(pieces@),
{
    let ghost cap = buffer.len();
    let mut formatter = Formatter::new(buffer);
    let mut i: usize = 0;
    while i < pieces.len()
        invariant
            i <= pieces.len(),
            formatter.wf(),
            formatter.capacity() == cap,
            cap == buffer.len(),
            !formatter.overflowed(),
            formatter.text() == text_of(pieces@.subrange(0, i as int)),
        decreases pieces.len() - i,
    {
        let piece: &str = pieces[i];
        let w = formatter.write_str(piece);
        proof {
            let next = pieces@.subrange(0, i + 1);
            assert(next.drop_last() =~= pieces@.subrange(0, i as int));
            assert(next.last() == piece);
            assert(text_of(next) == text_of(pieces@.subrange(0, i as int)) + piece@);
        }
        if w.is_err() {
            proof {
                lemma_encode_concat(formatter.text(), piece@);
                lemma_text_prefix_len(pieces@, i + 1);
                let next = pieces@.subrange(0, i + 1);
                assert(encode_utf8(text_of(next)).len() > cap);
                assert(encode_utf8(text_of(pieces@)).len() > cap);
            }
            return Err(FormatError);
        }
        i += 1;
    }
    assert(pieces@.subrange(0, pieces.len() as int) =~= pieces@);
    formatter.covert_to_str()
}

/// A prefix of the pieces encodes to no more bytes than all of them.
proof fn lemma_text_prefix_len(pieces: Seq<&str>, k: int)
    requires
        0 <= k <= pieces.len(),
    ensures
        encode_utf8(text_of(pieces.subrange(0, k))).len() <= encode_utf8(text_of(pieces)).len(),
    decreases pieces.len(),
{
    if k < pieces.len() {
        let init = pieces.drop_last();
        assert(init.subrange(0, k) =~= pieces.subrange(0, k));
        lemma_text_prefix_len(init, k);
        lemma_encode_concat(text_of(init), pieces.last()@);
    } else {
        assert(pieces.subrange(0, k) =~= pieces);
    }
}

} // verus!
