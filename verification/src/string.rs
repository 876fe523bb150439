use vstd::prelude::*;

use vstd::std_specs::cmp::PartialEqSpec;
use vstd::string::StringSliceAdditionalSpecFns;
use vstd::utf8::*;

use crate::{Error, Vec};

verus! {

/// A sequence that starts with the bytes of the first scalar of `b` starts with the same
/// scalar.
proof fn lemma_first_scalar_prefix(b: Seq<u8>, x: Seq<u8>)
    requires
        valid_first_scalar(b),
        x.len() >= length_of_first_scalar(b),
        forall|i: int| 0 <= i < length_of_first_scalar(b) ==> #[trigger] x[i] == b[i],
    ensures
        valid_first_scalar(x),
        length_of_first_scalar(x) == length_of_first_scalar(b),
        decode_first_scalar(x) == decode_first_scalar(b),
{
    assert(x[0] == b[0]);
    if !is_leading_byte_width_1(b[0]) {
        assert(x[1] == b[1]);
        if !is_leading_byte_width_2(b[0]) {
            assert(x[2] == b[2]);
            if !is_leading_byte_width_3(b[0]) {
                assert(x[3] == b[3]);
            }
        }
    }
}

/// Bounds on the values that 1, 2 and 3 bytes can encode.
proof fn lemma_codepoint_bounds(b1: u8, b2: u8, b3: u8)
    by (bit_vector)
    ensures
        codepoint_width_1(b1) <= 0x7F,
        codepoint_width_2(b1, b2) <= 0x7FF,
        codepoint_width_3(b1, b2, b3) <= 0xFFFF,
{
}

/// The last scalar of valid UTF-8: how long it is, that what precedes it is valid UTF-8,
/// and that it is the last character decoded.
pub proof fn lemma_last_scalar(b: Seq<u8>)
    requires
        valid_utf8(b),
        b.len() > 0,
    ensures
        1 <= length_of_last_scalar(b) <= b.len(),
        is_scalar(decode_last_scalar(b)),
        valid_utf8(b.subrange(0, b.len() - length_of_last_scalar(b))),
        decode_utf8(b) == decode_utf8(b.subrange(0, b.len() - length_of_last_scalar(b))).push(
            decode_last_scalar(b) as char,
        ),
    decreases b.len(),
{
    let n = b.len() as int;
    let f = length_of_first_scalar(b);
    let rest = pop_first_scalar(b);
    let m = rest.len() as int;
    assert(m == n - f);
    if m == 0 {
        assert(n == f);
        if f == 2 {
            assert(is_continuation_byte(b[1]));
        } else if f == 3 {
            assert(is_continuation_byte(b[1]) && is_continuation_byte(b[2]));
        } else if f == 4 {
            assert(is_continuation_byte(b[1]) && is_continuation_byte(b[2])
                && is_continuation_byte(b[3]));
        }
        assert(length_of_last_scalar(b) == f);
        assert(decode_last_scalar(b) == decode_first_scalar(b));
        lemma_codepoint_bounds(b[0], b[1], b[2]);
        assert(b.subrange(0, 0) =~= Seq::<u8>::empty());
        assert(decode_utf8(rest) =~= Seq::<char>::empty());
        assert(decode_utf8(b) =~= seq![decode_first_scalar(b) as char]);
    } else {
        lemma_last_scalar(rest);
        let l = length_of_last_scalar(rest);
        assert forall|j: int| 0 <= j < m implies #[trigger] rest[j] == b[j + f] by {}
        assert(rest[m - 1] == b[n - 1]);
        if l >= 2 {
            assert(rest[m - 2] == b[n - 2]);
        }
        if l >= 3 {
            assert(rest[m - 3] == b[n - 3]);
        }
        if l >= 4 {
            assert(rest[m - 4] == b[n - 4]);
        }
        assert(length_of_last_scalar(b) == l);
        assert(decode_last_scalar(b) == decode_last_scalar(rest));
        let x = b.subrange(0, n - l);
        let y = rest.subrange(0, m - l);
        lemma_first_scalar_prefix(b, x);
        assert(pop_first_scalar(x) =~= y);
        assert(valid_utf8(x));
        assert(decode_utf8(x) =~= seq![decode_first_scalar(b) as char] + decode_utf8(y));
        assert(decode_utf8(b) =~= seq![decode_first_scalar(b) as char] + decode_utf8(rest));
        assert(decode_utf8(b) =~= decode_utf8(x).push(decode_last_scalar(b) as char));
    }
}

/// Encoding distributes over concatenation of characters.
pub proof fn lemma_encode_utf8_add(a: Seq<char>, b: Seq<char>)
    ensures
        encode_utf8(a + b) == encode_utf8(a) + encode_utf8(b),
    decreases a.len(),
{
    if a.len() == 0 {
        assert(a + b =~= b);
        assert(encode_utf8(a) =~= Seq::<u8>::empty());
        assert(encode_utf8(a) + encode_utf8(b) =~= encode_utf8(b));
    } else {
        assert((a + b).drop_first() =~= a.drop_first() + b);
        lemma_encode_utf8_add(a.drop_first(), b);
        assert((a + b)[0] == a[0]);
        assert(encode_utf8(a + b) =~= encode_scalar(a[0] as u32) + encode_utf8(a.drop_first() + b));
        assert(encode_utf8(a) + encode_utf8(b) =~= encode_scalar(a[0] as u32) + (encode_utf8(
            a.drop_first(),
        ) + encode_utf8(b)));
    }
}

/// Appending the bytes of a string slice to valid UTF-8 gives valid UTF-8 that decodes to
/// the characters before followed by those of the slice.
pub proof fn law_push_str_decodes(bytes: Seq<u8>, s: &str)
    requires
        valid_utf8(bytes),
    ensures
        valid_utf8(bytes + s.spec_bytes()),
        decode_utf8(bytes + s.spec_bytes()) == decode_utf8(bytes) + s@,
{
    let cs = decode_utf8(bytes);
    decode_utf8_encode_utf8(bytes);
    lemma_encode_utf8_add(cs, s@);
    encode_utf8_valid_utf8(cs + s@);
    encode_utf8_decode_utf8(cs + s@);
}

/// Pushing a character onto valid UTF-8 keeps it valid; popping right after gives back the
/// character's low byte and the bytes as they were.
pub proof fn law_pop_after_push(bytes: Seq<u8>, c: char)
    requires
        valid_utf8(bytes),
    ensures
        valid_utf8(bytes + encode_scalar(c as u32)),
        decode_utf8(bytes + encode_scalar(c as u32)) == decode_utf8(bytes).push(c),
        decode_utf8(bytes + encode_scalar(c as u32)).last() as u8 == c as u8,
        encode_utf8(decode_utf8(bytes + encode_scalar(c as u32)).drop_last()) == bytes,
{
    let cs = decode_utf8(bytes);
    decode_utf8_encode_utf8(bytes);
    lemma_encode_utf8_add(cs, seq![c]);
    assert(encode_utf8(seq![c]) =~= encode_scalar(c as u32)) by {
        assert(seq![c].drop_first() =~= Seq::<char>::empty());
        assert(encode_utf8(Seq::<char>::empty()) =~= Seq::<u8>::empty());
        assert(encode_scalar(c as u32) + Seq::<u8>::empty() =~= encode_scalar(c as u32));
    }
    assert(cs + seq![c] =~= cs.push(c));
    encode_utf8_valid_utf8(cs.push(c));
    encode_utf8_decode_utf8(cs.push(c));
    assert(cs.push(c).drop_last() =~= cs);
}

/// The UTF-8 encoding of `c`.
fn encode_char(c: char) -> (r: std::vec::Vec<u8>)
    ensures
        r@ == encode_scalar(c as u32),
{
    proof {
        char_is_scalar(c);
    }
    let v = c as u32;
    let mut r = std::vec::Vec::new();
    if v <= 0x7F {
        r.push((v & 0x7F) as u8);
    } else if v <= 0x7FF {
        r.push(0xC0 | ((v >> 6) & 0x1F) as u8);
        r.push(0x80 | (v & 0x3F) as u8);
    } else if v <= 0xFFFF {
        r.push(0xE0 | ((v >> 12) & 0x0F) as u8);
        r.push(0x80 | ((v >> 6) & 0x3F) as u8);
        r.push(0x80 | (v & 0x3F) as u8);
    } else {
        r.push(0xF0 | ((v >> 18) & 0x7) as u8);
        r.push(0x80 | ((v >> 12) & 0x3F) as u8);
        r.push(0x80 | ((v >> 6) & 0x3F) as u8);
        r.push(0x80 | (v & 0x3F) as u8);
    }
    assert(r@ =~= encode_scalar(v));
    r
}

/// Whether `b` is a UTF-8 continuation byte.
fn is_continuation(b: u8) -> (r: bool)
    ensures
        r == is_continuation_byte(b),
{
    0x80 <= b && b <= 0xBF
}

/// The length and the value of the last scalar of valid UTF-8 bytes.
fn last_scalar(bytes: &[u8]) -> (r: (usize, u32))
    requires
        valid_utf8(bytes@),
        bytes@.len() > 0,
    ensures
        r.0 == length_of_last_scalar(bytes@),
        r.1 == decode_last_scalar(bytes@),
{
    proof {
        lemma_last_scalar(bytes@);
    }
    let n = bytes.len();
    let b1 = bytes[n - 1];
    if !is_continuation(b1) {
        return (1, (b1 & 0x7F) as u32);
    }
    let b2 = bytes[n - 2];
    if !is_continuation(b2) {
        return (2, (((b2 & 0x1F) as u32) << 6) | ((b1 & 0x3F) as u32));
    }
    let b3 = bytes[n - 3];
    if !is_continuation(b3) {
        return (
            3,
            (((b3 & 0x0F) as u32) << 12) | (((b2 & 0x3F) as u32) << 6) | ((b1 & 0x3F) as u32),
        );
    }
    let b4 = bytes[n - 4];
    (
        4,
        (((b4 & 0x07) as u32) << 18) | (((b3 & 0x3F) as u32) << 12) | (((b2 & 0x3F) as u32) << 6)
            | ((b1 & 0x3F) as u32),
    )
}

/// The error type of `core::str::from_utf8`.
#[verifier::external_type_specification]
#[verifier::external_body]
pub struct ExUtf8Error(core::str::Utf8Error);

/// `core::str::from_utf8`. Its documentation: the bytes are returned as a string slice when
/// they are valid UTF-8, and an error is returned otherwise. The contract says so, with
/// vstd's definition of valid UTF-8; which error value comes back is left unsaid.
#[verifier::external_body]
fn str_from_utf8(v: &[u8]) -> (r: Result<&str, core::str::Utf8Error>)
    ensures
        r is Ok <==> valid_utf8(v@),
        r is Ok ==> r->Ok_0.spec_bytes() == v@,
{
    core::str::from_utf8(v)
}

/// `core::str::from_utf8_mut`. Its documentation: the bytes are returned as a mutable string
/// slice when they are valid UTF-8, and an error is returned otherwise. The contract says so,
/// and that the bytes are, after the borrow, those that the string slice holds then.
#[verifier::external_body]
fn str_from_utf8_mut(v: &mut [u8]) -> (r: Result<&mut str, core::str::Utf8Error>)
    ensures
        r is Ok <==> valid_utf8(old(v)@),
        r is Ok ==> r->Ok_0.spec_bytes() == old(v)@ && final(v)@ == final(r->Ok_0).spec_bytes(),
        r is Err ==> final(v)@ == old(v)@,
{
    core::str::from_utf8_mut(v)
}

/// A string of at most `N` bytes.
///
/// Its view (`s@`) is its bytes. They are meant to be UTF-8; `from_utf8_unchecked`,
/// `as_bytes_mut` and a `truncate` inside a character let other bytes in, and the functions
/// that read characters require valid UTF-8.
#[derive(Debug)]
pub struct String<const N: usize> {
    vec: Vec<u8, N>,
}

impl<const N: usize> View for String<N> {
    type V = Seq<u8>;

    closed spec fn view(&self) -> Seq<u8> {
        self.vec@
    }
}

impl<const N: usize> String<N> {
    /// Well-formedness: at most `N` bytes.
    pub closed spec fn wf(&self) -> bool {
        self.vec.wf()
    }

    /// A well-formed string holds at most `N` bytes.
    pub proof fn lemma_wf(&self)
        requires
            self.wf(),
        ensures
            self@.len() <= N,
    {
        self.vec.lemma_wf();
    }

    /// An empty string.
    pub fn new() -> (s: Self)
        ensures
            s.wf(),
            s@ == Seq::<u8>::empty(),
    {
        String { vec: Vec::new() }
    }

    /// A string holding the bytes of `s`; `s` must fit.
    pub fn from(s: &str) -> (r: Self)
        requires
            s.spec_bytes().len() <= N,
        ensures
            r.wf(),
            r@ == s.spec_bytes(),
            valid_utf8(r@),
    {
        let mut r = Self::new();
        assert(valid_utf8(r@));
        let _ = r.push_str(s);
        r
    }

    /// The fixed capacity `N`, in bytes.
    pub fn capacity(&self) -> (c: usize)
        ensures
            c == N,
    {
        N
    }

    /// Whether the string holds no byte.
    pub fn is_empty(&self) -> (b: bool)
        ensures
            b == (self@.len() == 0),
    {
        self.vec.is_empty()
    }

    /// The length in bytes.
    pub fn len(&self) -> (l: usize)
        ensures
            l == self@.len(),
    {
        self.vec.len()
    }

    /// The bytes of `v` as a string when they are valid UTF-8, and an error otherwise.
    pub fn from_utf8(v: Vec<u8, N>) -> (r: Result<String<N>, core::str::Utf8Error>)
        requires
            v.wf(),
        ensures
            r is Ok <==> valid_utf8(v@),
            r is Ok ==> r->Ok_0.wf() && r->Ok_0@ == v@,
    {
        match str_from_utf8(v.as_slice()) {
            Ok(_) => Ok(String { vec: v }),
            Err(e) => Err(e),
        }
    }

    /// The bytes of `v` as a string, unchecked.
    pub fn from_utf8_unchecked(v: Vec<u8, N>) -> (s: String<N>)
        requires
            v.wf(),
        ensures
            s.wf(),
            s@ == v@,
    {
        String { vec: v }
    }

    /// The bytes, as a vector.
    pub fn into_bytes(self) -> (v: Vec<u8, N>)
        requires
            self.wf(),
        ensures
            v.wf(),
            v@ == self@,
    {
        self.vec
    }

    /// The bytes, as a slice.
    pub fn as_bytes(&self) -> (b: &[u8])
        ensures
            b@ == self@,
    {
        self.vec.as_slice()
    }

    /// The bytes, as a mutable slice.
    pub fn as_bytes_mut(&mut self) -> (b: &mut [u8])
        requires
            old(self).wf(),
        ensures
            b@ == old(self)@,
            final(self)@ == final(b)@,
            final(b)@.len() == b@.len() ==> final(self).wf(),
    {
        self.vec.as_mut_slice()
    }

    /// Appends the UTF-8 encoding of `c`, or reports `Full` and leaves the string unchanged
    /// when it does not fit.
    pub fn push(&mut self, c: char) -> (r: Result<(), Error>)
        requires
            old(self).wf(),
        ensures
            final(self).wf(),
            r is Ok <==> old(self)@.len() + encode_scalar(c as u32).len() <= N,
            r is Ok ==> final(self)@ == old(self)@ + encode_scalar(c as u32),
            r is Err ==> r == Err::<(), Error>(Error::Full) && final(self)@ == old(self)@,
            valid_utf8(old(self)@) ==> valid_utf8(final(self)@),
    {
        proof {
            if valid_utf8(self@) {
                law_pop_after_push(self@, c);
            }
        }
        let encoded = encode_char(c);
        self.vec.extend_from_slice(encoded.as_slice())
    }

    /// Appends the bytes of `s`, or reports `Full` and leaves the string unchanged when they
    /// do not fit.
    pub fn push_str(&mut self, s: &str) -> (r: Result<(), Error>)
        requires
            old(self).wf(),
        ensures
            final(self).wf(),
            r is Ok <==> old(self)@.len() + s.spec_bytes().len() <= N,
            r is Ok ==> final(self)@ == old(self)@ + s.spec_bytes(),
            r is Err ==> r == Err::<(), Error>(Error::Full) && final(self)@ == old(self)@,
            valid_utf8(old(self)@) ==> valid_utf8(final(self)@),
    {
        proof {
            if valid_utf8(self@) {
                law_push_str_decodes(self@, s);
            }
        }
        self.vec.extend_from_slice(s.as_bytes())
    }

    /// Keeps the first `len` bytes; does nothing when `len` is not below the length.
    pub fn truncate(&mut self, len: usize)
        requires
            old(self).wf(),
        ensures
            final(self).wf(),
            len < old(self)@.len() ==> final(self)@ == old(self)@.subrange(0, len as int),
            len >= old(self)@.len() ==> final(self)@ == old(self)@,
            valid_utf8(old(self)@) && (len >= old(self)@.len() || is_char_boundary(
                old(self)@,
                len as int,
            )) ==> valid_utf8(final(self)@),
    {
        proof {
            if valid_utf8(self@) && len < self@.len() && is_char_boundary(self@, len as int) {
                valid_utf8_split(self@, len as int);
            }
        }
        self.vec.truncate(len)
    }

    /// Removes the last character and returns its low byte (the character cast to `u8`);
    /// `None` when the string is empty.
    pub fn pop(&mut self) -> (r: Option<u8>)
        requires
            old(self).wf(),
            valid_utf8(old(self)@),
        ensures
            final(self).wf(),
            valid_utf8(final(self)@),
            old(self)@.len() == 0 ==> r is None && final(self)@ == old(self)@,
            old(self)@.len() > 0 ==> r == Some(decode_utf8(old(self)@).last() as u8)
                && decode_utf8(final(self)@) == decode_utf8(old(self)@).drop_last()
                && final(self)@ == encode_utf8(decode_utf8(old(self)@).drop_last()),
    {
        let n = self.vec.len();
        if n == 0 {
            return None;
        }
        let (width, scalar) = last_scalar(self.vec.as_slice());
        proof {
            lemma_last_scalar(self@);
            let rest = self@.subrange(0, n - width);
            decode_utf8_encode_utf8(rest);
            assert(decode_utf8(self@).drop_last() =~= decode_utf8(rest));
            assert((scalar as char) as u8 == scalar as u8);
        }
        self.vec.truncate(n - width);
        Some(scalar as u8)
    }

    /// Removes every byte.
    pub fn clear(&mut self)
        requires
            old(self).wf(),
        ensures
            final(self).wf(),
            final(self)@ == Seq::<u8>::empty(),
    {
        self.vec.clear()
    }

    /// The string as a string slice; the bytes must be valid UTF-8.
    pub fn as_str(&self) -> (s: &str)
        requires
            valid_utf8(self@),
        ensures
            s.spec_bytes() == self@,
            s@ == decode_utf8(self@),
    {
        let r = str_from_utf8(self.vec.as_slice());
        match r {
            Ok(s) => {
                proof {
                    encode_utf8_decode_utf8(s@);
                }
                s
            },
            Err(_) => {
                assert(false);
                ""
            },
        }
    }

    /// The string as a mutable string slice; the bytes must be valid UTF-8. After the borrow,
    /// the string holds the bytes that the slice holds then.
    pub fn as_mut_str(&mut self) -> (s: &mut str)
        requires
            old(self).wf(),
            valid_utf8(old(self)@),
        ensures
            s.spec_bytes() == old(self)@,
            s@ == decode_utf8(old(self)@),
            final(self)@ == final(s).spec_bytes(),
            final(s).spec_bytes().len() == old(self)@.len() ==> final(self).wf(),
    {
        let r = str_from_utf8_mut(self.vec.as_mut_slice());
        match r {
            Ok(s) => {
                proof {
                    encode_utf8_decode_utf8(s@);
                }
                s
            },
            Err(_) => {
                assert(false);
                unreached()
            },
        }
    }
}

/// A string equals a string slice exactly when their bytes are the same: the comparison is
/// byte for byte, case included, and `==` follows it.
pub proof fn law_eq_is_byte_equality<const N: usize>(s: &String<N>, t: &str)
    ensures
        <String<N> as PartialEqSpec<&str>>::obeys_eq_spec(),
        s.eq_spec(&t) <==> (s@.len() == t.spec_bytes().len() && forall|i: int|
            0 <= i < s@.len() ==> #[trigger] s@[i] == t.spec_bytes()[i]),
{
    if s@.len() == t.spec_bytes().len() && forall|i: int|
        0 <= i < s@.len() ==> #[trigger] s@[i] == t.spec_bytes()[i] {
        assert(s@ =~= t.spec_bytes());
    }
}

impl<'a, const N: usize> PartialEq<&'a str> for String<N> {
    fn eq(&self, other: &&'a str) -> (r: bool) {
        let mine = self.vec.as_slice();
        let theirs = other.as_bytes();
        if mine.len() != theirs.len() {
            return false;
        }
        let mut i: usize = 0;
        while i < mine.len()
            invariant
                mine@ == self@,
                theirs@ == other.spec_bytes(),
                mine@.len() == theirs@.len(),
                i <= mine@.len(),
                forall|j: int| 0 <= j < i ==> mine@[j] == theirs@[j],
            decreases mine@.len() - i,
        {
            if mine[i] != theirs[i] {
                return false;
            }
            i = i + 1;
        }
        assert(mine@ =~= theirs@);
        true
    }
}

impl<'a, const N: usize> vstd::std_specs::cmp::PartialEqSpecImpl<&'a str> for String<N> {
    open spec fn obeys_eq_spec() -> bool {
        true
    }

    open spec fn eq_spec(&self, other: &&'a str) -> bool {
        self@ == other.spec_bytes()
    }
}

} // verus!
