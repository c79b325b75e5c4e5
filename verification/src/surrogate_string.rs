//! Text that keeps every byte of its source.
//!
//! A [`SurrogateString`] is made from arbitrary bytes. What is well-formed
//! UTF-8 in them is kept as it is. Every other byte `b` is replaced by the
//! code point `U+DC00 + b`, a low surrogate, which well-formed UTF-8 never
//! holds; it is stored as the three bytes that the UTF-8 scheme gives it.
//! Turning the string back into bytes undoes this exactly.
use vstd::prelude::*;
use vstd::utf8::{codepoint_width_3, is_continuation_byte, is_leading_byte_width_3};
use vstd::utf8::{last_continuation_byte, leading_byte_width_3, second_last_continuation_byte};
use vstd::utf8::{length_of_first_scalar, pop_first_scalar, take_first_scalar, valid_first_scalar};
use vstd::utf8::valid_utf8;

verus! {

/// The code point that stands for a byte outside well-formed UTF-8.
pub open spec fn escape_point(b: u8) -> u32 {
    0xDC00u32 | (b as u32)
}

/// The three bytes stored for a byte outside well-formed UTF-8: its escape
/// code point, written as UTF-8 writes a code point of that size.
pub open spec fn escape(b: u8) -> Seq<u8> {
    let p = escape_point(b);
    seq![leading_byte_width_3(p), second_last_continuation_byte(p), last_continuation_byte(p)]
}

/// Whether `stored` begins with the escape of some byte.
pub open spec fn is_escape(stored: Seq<u8>) -> bool {
    &&& stored.len() >= 3
    &&& is_leading_byte_width_3(stored[0])
    &&& is_continuation_byte(stored[1])
    &&& is_continuation_byte(stored[2])
    &&& 0xDC80 <= codepoint_width_3(stored[0], stored[1], stored[2]) <= 0xDCFF
}

/// The byte whose escape `stored` begins with.
pub open spec fn unescape(stored: Seq<u8>) -> u8
    recommends
        is_escape(stored),
{
    (codepoint_width_3(stored[0], stored[1], stored[2]) & 0xFF) as u8
}

/// The stored form of `bytes`: from the left, each well-formed UTF-8
/// encoding of a scalar value is kept, and each byte that does not begin one
/// is escaped.
pub open spec fn escaped(bytes: Seq<u8>) -> Seq<u8>
    decreases bytes.len(),
{
    if bytes.len() == 0 {
        Seq::empty()
    } else if valid_first_scalar(bytes) {
        take_first_scalar(bytes) + escaped(pop_first_scalar(bytes))
    } else {
        escape(bytes[0]) + escaped(bytes.drop_first())
    }
}

/// The bytes that `stored` stands for: from the left, each escape gives its
/// byte back, and each well-formed encoding of a scalar value is kept. A
/// byte that begins neither is kept as it is.
pub open spec fn unescaped(stored: Seq<u8>) -> Seq<u8>
    decreases stored.len(),
{
    if stored.len() == 0 {
        Seq::empty()
    } else if is_escape(stored) {
        seq![unescape(stored)] + unescaped(stored.skip(3))
    } else if valid_first_scalar(stored) {
        take_first_scalar(stored) + unescaped(pop_first_scalar(stored))
    } else {
        seq![stored[0]] + unescaped(stored.drop_first())
    }
}

/// Whether `stored` is the stored form of the bytes that it stands for.
pub open spec fn canonical(stored: Seq<u8>) -> bool {
    escaped(unescaped(stored)) == stored
}

/// The escape of a byte from the upper half, bit by bit: its three bytes,
/// that they have the shape of a three-byte encoding, and that they give the
/// byte back.
proof fn lemma_escape_bits(b: u8)
    by (bit_vector)
    requires
        b >= 0x80,
    ensures
        ({
            let p = 0xDC00u32 | (b as u32);
            let l = 0xE0u8 | ((p >> 12) & 0x0F) as u8;
            let m = 0x80u8 | ((p >> 6) & 0x3F) as u8;
            let r = 0x80u8 | (p & 0x3F) as u8;
            &&& l == 0xED
            &&& m == 0xB0u8 | (b >> 6)
            &&& r == 0x80u8 | (b & 0x3F)
            &&& 0x80 <= m <= 0xBF
            &&& 0x80 <= r <= 0xBF
            &&& (((l & 0x0F) as u32) << 12) | (((m & 0x3F) as u32) << 6) | ((r & 0x3F) as u32) == p
            &&& 0xDC80 <= p <= 0xDCFF
            &&& (p & 0xFF) as u8 == b
        }),
{
}

/// A byte from the lower half is a one-byte code point below the surrogates.
proof fn lemma_ascii_bits(b: u8)
    by (bit_vector)
    requires
        b <= 0x7F,
    ensures
        (b & 0x7F) as u32 <= 0x7F,
{
}

/// A byte that begins no well-formed encoding is from the upper half, and
/// what is stored for it is an escape that gives it back.
pub proof fn lemma_escape_unescape(b: u8, rest: Seq<u8>)
    requires
        b >= 0x80,
    ensures
        is_escape(escape(b) + rest),
        unescape(escape(b) + rest) == b,
        (escape(b) + rest).skip(3) == rest,
{
    lemma_escape_bits(b);
    let s = escape(b) + rest;
    assert(s[0] == escape(b)[0] && s[1] == escape(b)[1] && s[2] == escape(b)[2]);
    assert(s.skip(3) =~= rest);
}

/// Whether a sequence begins with a well-formed encoding is decided by that
/// encoding's bytes alone, whatever follows them.
pub proof fn lemma_first_scalar_of_concat(bytes: Seq<u8>, rest: Seq<u8>)
    requires
        valid_first_scalar(bytes),
    ensures
        valid_first_scalar(take_first_scalar(bytes) + rest),
        !is_escape(take_first_scalar(bytes) + rest),
        take_first_scalar(take_first_scalar(bytes) + rest) == take_first_scalar(bytes),
        pop_first_scalar(take_first_scalar(bytes) + rest) == rest,
{
    let n = length_of_first_scalar(bytes);
    let head = take_first_scalar(bytes);
    let s = head + rest;
    assert(forall|i: int| 0 <= i < n ==> s[i] == bytes[i]);
    assert(s[0] == bytes[0]);
    if n >= 2 {
        assert(s[1] == bytes[1]);
    }
    if n >= 3 {
        assert(s[2] == bytes[2]);
    }
    if n >= 4 {
        assert(s[3] == bytes[3]);
    }
    assert(take_first_scalar(s) =~= head);
    assert(pop_first_scalar(s) =~= rest);
}

/// Nothing is lost: the bytes that a stored form stands for are the bytes
/// that it was made from.
pub proof fn law_round_trip(bytes: Seq<u8>)
    ensures
        unescaped(escaped(bytes)) == bytes,
    decreases bytes.len(),
{
    if bytes.len() == 0 {
    } else if valid_first_scalar(bytes) {
        let rest = escaped(pop_first_scalar(bytes));
        law_round_trip(pop_first_scalar(bytes));
        lemma_first_scalar_of_concat(bytes, rest);
        assert(take_first_scalar(bytes) + pop_first_scalar(bytes) =~= bytes);
    } else {
        let b = bytes[0];
        let rest = escaped(bytes.drop_first());
        if b <= 0x7F {
            lemma_ascii_bits(b);
        }
        law_round_trip(bytes.drop_first());
        lemma_escape_unescape(b, rest);
        assert(seq![b] + bytes.drop_first() =~= bytes);
    }
}

/// A stored form made from bytes is canonical.
pub proof fn law_escaped_is_canonical(bytes: Seq<u8>)
    ensures
        canonical(escaped(bytes)),
{
    law_round_trip(bytes);
}

/// The stored form is never shorter than its source, and as long only if
/// nothing was escaped.
pub proof fn lemma_escaped_len(bytes: Seq<u8>)
    ensures
        escaped(bytes).len() >= bytes.len(),
        escaped(bytes).len() == bytes.len() ==> valid_utf8(bytes),
    decreases bytes.len(),
{
    if bytes.len() == 0 {
    } else if valid_first_scalar(bytes) {
        lemma_escaped_len(pop_first_scalar(bytes));
    } else {
        lemma_escaped_len(bytes.drop_first());
    }
}

/// Well-formed UTF-8, and nothing else, is stored as it is.
pub proof fn law_unchanged_iff_utf8(bytes: Seq<u8>)
    ensures
        escaped(bytes) == bytes <==> valid_utf8(bytes),
    decreases bytes.len(),
{
    lemma_escaped_len(bytes);
    if bytes.len() == 0 {
        assert(escaped(bytes) =~= bytes);
    } else if valid_utf8(bytes) {
        law_unchanged_iff_utf8(pop_first_scalar(bytes));
        assert(take_first_scalar(bytes) + pop_first_scalar(bytes) =~= bytes);
    }
}


/// Bytes in stored form.
#[derive(Debug)]
pub struct SurrogateString {
    bytes: Vec<u8>,
}

impl View for SurrogateString {
    type V = Seq<u8>;

    closed spec fn view(&self) -> Seq<u8> {
        self.bytes@
    }
}

/// The code point of two bytes of the upper half stays below the surrogates.
proof fn lemma_width_2_bits(b0: u8, b1: u8)
    by (bit_vector)
    ensures
        ((((b0 & 0x1F) as u32) << 6) | ((b1 & 0x3F) as u32)) < 0x800,
{
}

/// The length of the well-formed encoding of a scalar value that begins at
/// `at`, or 0 if none begins there.
pub fn scalar_width(bytes: &[u8], at: usize) -> (n: usize)
    requires
        at < bytes@.len(),
    ensures
        n == if valid_first_scalar(bytes@.skip(at as int)) {
            length_of_first_scalar(bytes@.skip(at as int))
        } else {
            0
        },
        at + n <= bytes@.len(),
{
    let ghost s = bytes@.skip(at as int);
    let left = bytes.len() - at;
    let b0 = bytes[at];
    assert(s[0] == b0);
    if b0 <= 0x7F {
        proof {
            lemma_ascii_bits(b0);
        }
        1
    } else if 0xC0 <= b0 && b0 <= 0xDF {
        if left < 2 {
            return 0;
        }
        let b1 = bytes[at + 1];
        assert(s[1] == b1);
        if !(0x80 <= b1 && b1 <= 0xBF) {
            return 0;
        }
        let point: u32 = (((b0 & 0x1F) as u32) << 6) | ((b1 & 0x3F) as u32);
        proof {
            lemma_width_2_bits(b0, b1);
        }
        if point >= 0x80 {
            2
        } else {
            0
        }
    } else if 0xE0 <= b0 && b0 <= 0xEF {
        if left < 3 {
            return 0;
        }
        let b1 = bytes[at + 1];
        let b2 = bytes[at + 2];
        assert(s[1] == b1 && s[2] == b2);
        if !(0x80 <= b1 && b1 <= 0xBF && 0x80 <= b2 && b2 <= 0xBF) {
            return 0;
        }
        let point: u32 = (((b0 & 0x0F) as u32) << 12) | (((b1 & 0x3F) as u32) << 6) | ((b2
            & 0x3F) as u32);
        if point >= 0x800 && !(0xD800 <= point && point <= 0xDFFF) {
            3
        } else {
            0
        }
    } else if 0xF0 <= b0 && b0 <= 0xF7 {
        if left < 4 {
            return 0;
        }
        let b1 = bytes[at + 1];
        let b2 = bytes[at + 2];
        let b3 = bytes[at + 3];
        assert(s[1] == b1 && s[2] == b2 && s[3] == b3);
        if !(0x80 <= b1 && b1 <= 0xBF && 0x80 <= b2 && b2 <= 0xBF && 0x80 <= b3 && b3 <= 0xBF) {
            return 0;
        }
        let point: u32 = (((b0 & 0x07) as u32) << 18) | (((b1 & 0x3F) as u32) << 12) | (((b2
            & 0x3F) as u32) << 6) | ((b3 & 0x3F) as u32);
        if 0x10000 <= point && point <= 0x10FFFF {
            4
        } else {
            0
        }
    } else {
        0
    }
}

/// The byte whose escape begins at `at`, or `None` if no escape begins
/// there.
pub fn escape_at(stored: &[u8], at: usize) -> (res: Option<u8>)
    requires
        at < stored@.len(),
    ensures
        res == if is_escape(stored@.skip(at as int)) {
            Some(unescape(stored@.skip(at as int)))
        } else {
            None
        },
{
    let ghost s = stored@.skip(at as int);
    if stored.len() - at < 3 {
        return None;
    }
    let b0 = stored[at];
    let b1 = stored[at + 1];
    let b2 = stored[at + 2];
    assert(s[0] == b0 && s[1] == b1 && s[2] == b2);
    if !(0xE0 <= b0 && b0 <= 0xEF && 0x80 <= b1 && b1 <= 0xBF && 0x80 <= b2 && b2 <= 0xBF) {
        return None;
    }
    let point: u32 = (((b0 & 0x0F) as u32) << 12) | (((b1 & 0x3F) as u32) << 6) | ((b2
        & 0x3F) as u32);
    if 0xDC80 <= point && point <= 0xDCFF {
        Some((point & 0xFF) as u8)
    } else {
        None
    }
}

/// Appends `bytes[from..to]` to `out`.
fn push_range(out: &mut Vec<u8>, bytes: &[u8], from: usize, to: usize)
    requires
        from <= to <= bytes@.len(),
    ensures
        final(out)@ == old(out)@ + bytes@.subrange(from as int, to as int),
{
    let mut i = from;
    while i < to
        invariant
            from <= i <= to <= bytes@.len(),
            out@ == old(out)@ + bytes@.subrange(from as int, i as int),
        decreases to - i,
    {
        out.push(bytes[i]);
        i += 1;
        assert(out@ =~= old(out)@ + bytes@.subrange(from as int, i as int));
    }
    assert(out@ =~= old(out)@ + bytes@.subrange(from as int, to as int));
}

impl Clone for SurrogateString {
    fn clone(&self) -> (res: Self)
        ensures
            res@ == self@,
    {
        proof {
            use_type_invariant(self);
        }
        let bytes = self.bytes.clone();
        assert(bytes@ =~= self.bytes@);
        SurrogateString { bytes }
    }
}

impl SurrogateString {
    #[verifier::type_invariant]
    spec fn inv(self) -> bool {
        canonical(self.bytes@)
    }

    /// The stored form of `bytes`.
    pub fn from_bytes(bytes: &[u8]) -> (res: Self)
        ensures
            res@ == escaped(bytes@),
    {
        let mut out: Vec<u8> = Vec::new();
        let mut at: usize = 0;
        assert(bytes@.skip(0) =~= bytes@);
        while at < bytes.len()
            invariant
                at <= bytes@.len(),
                escaped(bytes@) == out@ + escaped(bytes@.skip(at as int)),
            decreases bytes@.len() - at,
        {
            let ghost here = bytes@.skip(at as int);
            let ghost before = out@;
            let n = scalar_width(bytes, at);
            if n == 0 {
                let b = bytes[at];
                proof {
                    assert(here[0] == b);
                    if b <= 0x7F {
                        lemma_ascii_bits(b);
                    }
                    lemma_escape_bits(b);
                    assert(here.drop_first() =~= bytes@.skip(at + 1));
                }
                out.push(0xED);
                out.push(0xB0 | (b >> 6));
                out.push(0x80 | (b & 0x3F));
                at += 1;
                assert(out@ =~= before + escape(b));
            } else {
                push_range(&mut out, bytes, at, at + n);
                proof {
                    assert(take_first_scalar(here) =~= bytes@.subrange(at as int, at + n));
                    assert(pop_first_scalar(here) =~= bytes@.skip(at + n));
                }
                at += n;
            }
            assert(escaped(bytes@) =~= out@ + escaped(bytes@.skip(at as int)));
        }
        proof {
            assert(escaped(bytes@.skip(at as int)) =~= Seq::<u8>::empty());
            assert(out@ =~= escaped(bytes@));
            law_escaped_is_canonical(bytes@);
        }
        SurrogateString { bytes: out }
    }

    /// The bytes that the string stands for. The string is their stored
    /// form, so making a string from them gives this string again.
    pub fn into_bytes(self) -> (res: Vec<u8>)
        ensures
            res@ == unescaped(self@),
            escaped(res@) == self@,
    {
        proof {
            use_type_invariant(&self);
        }
        let stored = self.bytes.as_slice();
        let mut out: Vec<u8> = Vec::new();
        let mut at: usize = 0;
        assert(stored@.skip(0) =~= stored@);
        while at < stored.len()
            invariant
                at <= stored@.len(),
                unescaped(stored@) == out@ + unescaped(stored@.skip(at as int)),
            decreases stored@.len() - at,
        {
            let ghost here = stored@.skip(at as int);
            let ghost before = out@;
            match escape_at(stored, at) {
                Some(b) => {
                    out.push(b);
                    assert(here.skip(3) =~= stored@.skip(at + 3));
                    at += 3;
                    assert(out@ =~= before + seq![b]);
                },
                None => {
                    let n = scalar_width(stored, at);
                    if n == 0 {
                        out.push(stored[at]);
                        assert(here.drop_first() =~= stored@.skip(at + 1));
                        at += 1;
                        assert(out@ =~= before + seq![here[0]]);
                    } else {
                        push_range(&mut out, stored, at, at + n);
                        proof {
                            assert(take_first_scalar(here) =~= stored@.subrange(
                                at as int,
                                at + n,
                            ));
                            assert(pop_first_scalar(here) =~= stored@.skip(at + n));
                        }
                        at += n;
                    }
                },
            }
            assert(unescaped(stored@) =~= out@ + unescaped(stored@.skip(at as int)));
        }
        proof {
            assert(unescaped(stored@.skip(at as int)) =~= Seq::<u8>::empty());
            assert(out@ =~= unescaped(stored@));
        }
        out
    }

    /// The stored form. It is canonical, whatever the string.
    pub fn as_bytes(&self) -> (res: &[u8])
        ensures
            res@ == self@,
            canonical(self@),
    {
        proof {
            use_type_invariant(self);
        }
        self.bytes.as_slice()
    }
}

impl<'a> From<&'a [u8]> for SurrogateString {
    /// The stored form of `bytes`.
    fn from(bytes: &'a [u8]) -> (res: Self)
        ensures
            res@ == escaped(bytes@),
    {
        SurrogateString::from_bytes(bytes)
    }
}

impl From<SurrogateString> for Vec<u8> {
    /// The bytes that the string stands for.
    fn from(string: SurrogateString) -> (res: Self)
        ensures
            res@ == unescaped(string@),
            escaped(res@) == string@,
    {
        string.into_bytes()
    }
}

/// What `from` returns is stated by its own `ensures`. No value of the
/// string can be written down in a specification, so `from_spec` says
/// nothing.
impl<'a> vstd::std_specs::convert::FromSpecImpl<&'a [u8]> for SurrogateString {
    open spec fn obeys_from_spec() -> bool {
        false
    }

    open spec fn from_spec(bytes: &'a [u8]) -> Self {
        arbitrary()
    }
}

/// What `from` returns is stated by its own `ensures`. No value of a `Vec`
/// can be written down in a specification, so `from_spec` says nothing.
impl vstd::std_specs::convert::FromSpecImpl<SurrogateString> for Vec<u8> {
    open spec fn obeys_from_spec() -> bool {
        false
    }

    open spec fn from_spec(string: SurrogateString) -> Self {
        arbitrary()
    }
}

} // verus!
