//! The identifier buffer: a fixed-capacity, dot-segmented path string with
//! no heap allocation, wire-compatible with a 16-byte null-padded
//! parameter-name field.

use vstd::prelude::*;
use vstd::slice::slice_index_get;
use vstd::string::StringSliceAdditionalSpecFns;
use vstd::utf8::{
    is_char_boundary, is_leading_byte_width_1, partial_valid_utf8, valid_utf8,
};

use crate::Error;

verus! {

broadcast use vstd::utf8::group_utf8_lib;

/// The byte capacity of an identifier, fixed by the wire protocol's
/// parameter-name field.
pub const MAX_NAMED_LEN: usize = 16;

/// The ASCII dot that separates path segments.
pub const SEPARATOR: u8 = 46;

/// Describes the identifier/path of a parameter.
///
/// Wire-compatible with a 16-byte null-padded parameter name. The bytes up
/// to the current length are always valid UTF-8; the rest of the buffer is
/// null. To get a string slice use [`Ident::as_str`]; for the raw 16-byte
/// buffer use [`Ident::as_raw`].
#[derive(Debug, Clone, Copy, PartialEq, Eq, Hash)]
pub struct Ident {
    buf: [u8; MAX_NAMED_LEN],
    len: usize,
}

impl View for Ident {
    type V = Seq<u8>;

    closed spec fn view(&self) -> Seq<u8> {
        self.buf@.take(self.len as int)
    }
}

/// Whether appending `entry` (together with its separator when the buffer
/// is not empty) fits within the identifier capacity.
pub open spec fn spec_push_fits(id: Seq<u8>, entry: Seq<u8>) -> bool {
    if id.len() == 0 {
        entry.len() <= MAX_NAMED_LEN
    } else {
        id.len() + entry.len() < MAX_NAMED_LEN
    }
}

/// The identifier after appending `entry`: the bare segment when the buffer
/// was empty, otherwise the old content, a separator, and the segment.
pub open spec fn spec_pushed(id: Seq<u8>, entry: Seq<u8>) -> Seq<u8> {
    if id.len() == 0 {
        entry
    } else {
        id + seq![SEPARATOR] + entry
    }
}

/// The position of the last separator in `id`, or `-1` when there is none.
pub open spec fn last_dot(id: Seq<u8>) -> int
    decreases id.len(),
{
    if id.len() == 0 {
        -1
    } else if id[id.len() - 1] == SEPARATOR {
        id.len() - 1
    } else {
        last_dot(id.drop_last())
    }
}

/// The identifier after removing the last segment: everything up to (and
/// excluding) the last separator, or the empty identifier when there is no
/// separator.
pub open spec fn spec_popped(id: Seq<u8>) -> Seq<u8> {
    if last_dot(id) < 0 {
        Seq::empty()
    } else {
        id.take(last_dot(id))
    }
}

/// `last_dot` finds the last separator: the position it reports holds a
/// separator, and no position after it does.
pub proof fn lemma_last_dot(id: Seq<u8>)
    ensures
        -1 <= last_dot(id) < id.len(),
        last_dot(id) >= 0 ==> id[last_dot(id)] == SEPARATOR,
        forall|j: int| last_dot(id) < j < id.len() ==> id[j] != SEPARATOR,
    decreases id.len(),
{
    if id.len() > 0 && id[id.len() - 1] != SEPARATOR {
        lemma_last_dot(id.drop_last());
        assert(forall|j: int| 0 <= j < id.len() - 1 ==> id.drop_last()[j] == id[j]);
    }
}

/// Law: pushing a separator-free segment that fits and then popping
/// restores the prior identifier exactly.
pub proof fn lemma_push_then_pop(id: Seq<u8>, entry: Seq<u8>)
    requires
        spec_push_fits(id, entry),
        forall|i: int| 0 <= i < entry.len() ==> entry[i] != SEPARATOR,
    ensures
        spec_popped(spec_pushed(id, entry)) == id,
{
    let pushed = spec_pushed(id, entry);
    lemma_last_dot(pushed);
    if id.len() == 0 {
        assert(last_dot(pushed) < 0) by {
            if last_dot(pushed) >= 0 {
                assert(pushed[last_dot(pushed)] == SEPARATOR);
            }
        };
        assert(spec_popped(pushed) =~= id);
    } else {
        let d = id.len() as int;
        assert(pushed[d] == SEPARATOR);
        assert(last_dot(pushed) == d) by {
            if last_dot(pushed) > d {
                assert(pushed[last_dot(pushed)] == SEPARATOR);
                assert(pushed[last_dot(pushed)] == entry[last_dot(pushed) - d - 1]);
            }
        };
        assert(pushed.take(d) =~= id);
    }
}

/// The position of the first null byte in `v`, or `-1` when there is none.
pub open spec fn first_null(v: Seq<u8>) -> int
    decreases v.len(),
{
    if v.len() == 0 {
        -1
    } else if v[0] == 0u8 {
        0
    } else if first_null(v.drop_first()) < 0 {
        -1
    } else {
        1 + first_null(v.drop_first())
    }
}

/// `first_null` finds the first null byte: the position it reports holds a
/// null, and no position before it does.
pub proof fn lemma_first_null(v: Seq<u8>)
    ensures
        -1 <= first_null(v) < v.len(),
        first_null(v) >= 0 ==> v[first_null(v)] == 0u8,
        forall|j: int| 0 <= j < v.len() && j < first_null(v) ==> v[j] != 0u8,
        first_null(v) < 0 ==> forall|j: int| 0 <= j < v.len() ==> v[j] != 0u8,
    decreases v.len(),
{
    if v.len() > 0 && v[0] != 0u8 {
        lemma_first_null(v.drop_first());
        assert forall|j: int| 1 <= j < v.len() implies v[j] == v.drop_first()[j - 1] by {
        }
    }
}

/// The bytes an identifier parse considers: everything before the first
/// null terminator, or the whole sequence when there is none and it fits;
/// `None` when no terminator lies within capacity.
pub open spec fn spec_raw_prefix(v: Seq<u8>) -> Option<Seq<u8>> {
    if 0 <= first_null(v) <= MAX_NAMED_LEN as int {
        Some(v.take(first_null(v)))
    } else if v.len() <= MAX_NAMED_LEN {
        Some(v)
    } else {
        None
    }
}

/// The largest character boundary in `bytes` at or below `i`.
pub open spec fn spec_truncated_len(bytes: Seq<u8>, i: int) -> int
    decreases i,
{
    if i <= 0 {
        0
    } else if is_char_boundary(bytes, i) {
        i
    } else {
        spec_truncated_len(bytes, i - 1)
    }
}

/// The longest prefix of `bytes` that fits the identifier capacity without
/// splitting a character's encoding.
pub open spec fn spec_truncated(bytes: Seq<u8>) -> Seq<u8> {
    let cap = if bytes.len() <= MAX_NAMED_LEN {
        bytes.len() as int
    } else {
        MAX_NAMED_LEN as int
    };
    bytes.take(spec_truncated_len(bytes, cap))
}

/// A single separator byte is a valid UTF-8 sequence.
proof fn lemma_sep_valid_utf8()
    ensures
        valid_utf8(seq![SEPARATOR]),
{
    let s = seq![SEPARATOR];
    assert(is_leading_byte_width_1(SEPARATOR));
    assert(s.subrange(0, 0) =~= Seq::<u8>::empty());
    assert(partial_valid_utf8(s, 0));
    vstd::utf8::partial_valid_utf8_extend_ascii_block(s, 0, 1);
    assert(s.subrange(0, 1) =~= s);
}

/// Relies on core::str::from_utf8: it returns `Ok` exactly when the bytes
/// are valid UTF-8, and the resulting string slice consists of those same
/// bytes.
#[verifier::external_body]
fn bytes_as_str(v: &[u8]) -> (r: Option<&str>)
    ensures
        r is Some <==> valid_utf8(v@),
        r matches Some(s) ==> s.spec_bytes() == v@,
{
    core::str::from_utf8(v).ok()
}

impl Ident {
    /// The identifier's well-formedness: the length is within capacity, the
    /// content is valid UTF-8, and the rest of the buffer is null padding.
    pub closed spec fn wf(&self) -> bool {
        &&& self.len <= MAX_NAMED_LEN
        &&& valid_utf8(self@)
        &&& forall|i: int| self.len <= i < MAX_NAMED_LEN ==> self.buf@[i] == 0u8
    }

    /// Creates a new empty identifier, initialized with null bytes and zero
    /// length.
    pub fn new() -> (r: Self)
        ensures
            r.wf(),
            r@ == Seq::<u8>::empty(),
    {
        let r = Ident { buf: [0u8; MAX_NAMED_LEN], len: 0 };
        proof {
            assert(r@ =~= Seq::<u8>::empty());
        }
        r
    }

    /// Creates a new identifier from up to 16 bytes of the provided string,
    /// never splitting a character's encoding.
    pub fn from_str_truncated(string: &str) -> (r: Ident)
        ensures
            r.wf(),
            r@ == spec_truncated(string.spec_bytes()),
    {
        let sb: &[u8] = string.as_bytes();
        let ghost bytes = string.spec_bytes();
        let mut amount: usize = sb.len();
        if amount > MAX_NAMED_LEN {
            amount = MAX_NAMED_LEN;
        }
        let ghost cap = amount as int;
        while !string.is_char_boundary(amount)
            invariant
                0 <= amount <= cap,
                bytes == string.spec_bytes(),
                valid_utf8(bytes),
                spec_truncated_len(bytes, cap) == spec_truncated_len(bytes, amount as int),
            decreases amount,
        {
            proof {
                if amount == 0 {
                    assert(is_char_boundary(bytes, 0));
                }
            }
            amount = amount - 1;
        }
        proof {
            if amount > 0 {
                assert(spec_truncated_len(bytes, amount as int) == amount as int);
            }
            assert(spec_truncated_len(bytes, cap) == amount as int);
        }
        let mut r = Ident::new();
        let mut i: usize = 0;
        while i < amount
            invariant
                0 <= i <= amount,
                amount <= MAX_NAMED_LEN,
                amount <= sb@.len(),
                sb@ == bytes,
                r.len == 0,
                r.buf@.len() == MAX_NAMED_LEN as int,
                forall|j: int| 0 <= j < i ==> r.buf@[j] == bytes[j],
                forall|j: int| i <= j < MAX_NAMED_LEN ==> r.buf@[j] == 0u8,
            decreases amount - i,
        {
            r.buf[i] = sb[i];
            i += 1;
        }
        r.len = amount;
        proof {
            assert(r@ =~= bytes.take(amount as int));
            assert(valid_utf8(r@)) by {
                vstd::utf8::valid_utf8_split(bytes, amount as int);
                assert(bytes.subrange(0, amount as int) =~= r@);
            };
        }
        r
    }

    /// Parses an identifier from a raw byte buffer: the content runs to the
    /// first null terminator (or the end of the slice) and must fit the
    /// 16-byte capacity and be valid UTF-8.
    pub fn try_from(value: &[u8]) -> (r: Result<Ident, Error>)
        ensures
            ({
                match spec_raw_prefix(value@) {
                    Some(p) => {
                        if valid_utf8(p) {
                            r matches Ok(id) && id@ == p && id.wf()
                        } else {
                            r == Err::<Ident, Error>(Error::SequenceNotUtf8)
                        }
                    },
                    None => r == Err::<Ident, Error>(Error::SequenceTooLong),
                }
            }),
    {
        proof {
            lemma_first_null(value@);
        }
        let n = value.len();
        let mut i: usize = 0;
        while i < n && *slice_index_get(value, i) != 0
            invariant
                0 <= i <= n,
                n == value@.len(),
                forall|j: int| 0 <= j < i ==> value@[j] != 0u8,
            decreases n - i,
        {
            i += 1;
        }
        proof {
            if i < n {
                assert(first_null(value@) == i as int);
            } else {
                assert(first_null(value@) < 0);
            }
        }
        let bytes: usize;
        if i < n && i <= MAX_NAMED_LEN {
            bytes = i;
        } else if n <= MAX_NAMED_LEN {
            bytes = n;
        } else {
            return Err(Error::SequenceTooLong);
        }
        let ghost prefix = spec_raw_prefix(value@).unwrap();
        proof {
            assert(prefix =~= value@.take(bytes as int));
        }
        let sub: &[u8] = &value[0..bytes];
        match bytes_as_str(sub) {
            None => Err(Error::SequenceNotUtf8),
            Some(_s) => {
                let mut id = Ident::new();
                let mut k: usize = 0;
                while k < bytes
                    invariant
                        0 <= k <= bytes,
                        bytes <= MAX_NAMED_LEN,
                        bytes <= value@.len(),
                        id.len == 0,
                        id.buf@.len() == MAX_NAMED_LEN as int,
                        forall|j: int| 0 <= j < k ==> id.buf@[j] == value@[j],
                        forall|j: int| k <= j < MAX_NAMED_LEN ==> id.buf@[j] == 0u8,
                    decreases bytes - k,
                {
                    id.buf[k] = *slice_index_get(value, k);
                    k += 1;
                }
                id.len = bytes;
                proof {
                    assert(id@ =~= prefix);
                }
                Ok(id)
            },
        }
    }

    /// Expose the inner string slice.
    pub fn as_str(&self) -> (r: &str)
        requires
            self.wf(),
        ensures
            r.spec_bytes() == self@,
    {
        let sl: &[u8] = self.buf.as_slice();
        let prefix: &[u8] = &sl[0..self.len];
        proof {
            assert(prefix@ =~= self@);
        }
        match bytes_as_str(prefix) {
            Some(s) => s,
            None => {
                proof {
                    assert(false);
                }
                ""
            },
        }
    }

    /// Expose the null-padded 16-byte buffer, compatible with the wire
    /// protocol's parameter-name field.
    pub fn as_raw(&self) -> (r: &[u8; MAX_NAMED_LEN])
        requires
            self.wf(),
        ensures
            r@.len() == MAX_NAMED_LEN,
            r@.take(self@.len() as int) == self@,
            forall|i: int| self@.len() <= i < MAX_NAMED_LEN ==> r@[i] == 0u8,
    {
        proof {
            assert(self.buf@.take(self@.len() as int) =~= self@);
        }
        &self.buf
    }

    /// Whether appending `entry` would succeed, without changing anything.
    pub fn fits(&self, entry: &str) -> (r: bool)
        requires
            self.wf(),
        ensures
            r == spec_push_fits(self@, entry.spec_bytes()),
    {
        let elen = entry.as_bytes().len();
        if self.len == 0 {
            elen <= MAX_NAMED_LEN
        } else {
            elen < MAX_NAMED_LEN && self.len + elen < MAX_NAMED_LEN
        }
    }

    /// Append a segment to the identifier, preceded by a separator when the
    /// identifier is not empty. Succeeds only if the result fits the
    /// capacity; on failure the identifier is left unchanged.
    pub fn push_entry(&mut self, entry: &str) -> (r: bool)
        requires
            old(self).wf(),
        ensures
            final(self).wf(),
            r == spec_push_fits(old(self)@, entry.spec_bytes()),
            r ==> final(self)@ == spec_pushed(old(self)@, entry.spec_bytes()),
            !r ==> *final(self) == *old(self),
    {
        let eb: &[u8] = entry.as_bytes();
        let elen: usize = eb.len();
        let ghost ebytes = entry.spec_bytes();
        if self.len == 0 {
            if elen <= MAX_NAMED_LEN {
                let mut i: usize = 0;
                while i < elen
                    invariant
                        0 <= i <= elen,
                        elen <= MAX_NAMED_LEN,
                        eb@ == ebytes,
                        elen == ebytes.len(),
                        self.len == 0,
                        self.buf@.len() == MAX_NAMED_LEN as int,
                        forall|j: int| 0 <= j < i ==> self.buf@[j] == ebytes[j],
                        forall|j: int| i <= j < MAX_NAMED_LEN ==> self.buf@[j] == 0u8,
                    decreases elen - i,
                {
                    self.buf[i] = *slice_index_get(eb, i);
                    i += 1;
                }
                self.len = elen;
                proof {
                    assert(self@ =~= ebytes);
                }
                true
            } else {
                false
            }
        } else {
            if elen < MAX_NAMED_LEN && self.len + elen < MAX_NAMED_LEN {
                let start = self.len;
                self.buf[start] = SEPARATOR;
                let mut i: usize = 0;
                while i < elen
                    invariant
                        0 <= i <= elen,
                        0 < start,
                        start + 1 + elen <= MAX_NAMED_LEN,
                        eb@ == ebytes,
                        elen == ebytes.len(),
                        self.len == start,
                        self.buf@.len() == MAX_NAMED_LEN as int,
                        forall|j: int| 0 <= j < start ==> self.buf@[j] == old(self).buf@[j],
                        self.buf@[start as int] == SEPARATOR,
                        forall|j: int| 0 <= j < i ==> self.buf@[start + 1 + j] == ebytes[j],
                        forall|j: int| start + 1 + i <= j < MAX_NAMED_LEN ==> self.buf@[j]
                            == old(self).buf@[j],
                    decreases elen - i,
                {
                    self.buf[start + 1 + i] = *slice_index_get(eb, i);
                    i += 1;
                }
                self.len = start + 1 + elen;
                proof {
                    assert(self@ =~= spec_pushed(old(self)@, ebytes));
                    assert(valid_utf8(self@)) by {
                        lemma_sep_valid_utf8();
                        vstd::utf8::valid_utf8_concat(old(self)@, seq![SEPARATOR]);
                        vstd::utf8::valid_utf8_concat(old(self)@ + seq![SEPARATOR], ebytes);
                    };
                }
                true
            } else {
                false
            }
        }
    }

    /// Remove the last segment from the identifier: truncate at the last
    /// separator, or clear the identifier when none is present.
    pub fn pop_entry(&mut self)
        requires
            old(self).wf(),
        ensures
            final(self).wf(),
            final(self)@ == spec_popped(old(self)@),
    {
        proof {
            lemma_last_dot(old(self)@);
        }
        let mut i: usize = self.len;
        while i > 0 && self.buf[i - 1] != SEPARATOR
            invariant
                0 <= i <= self.len,
                *self == *old(self),
                self.len <= MAX_NAMED_LEN,
                forall|j: int| i <= j < self.len ==> self.buf@[j] != SEPARATOR,
            decreases i,
        {
            i -= 1;
        }
        if i == 0 {
            proof {
                assert(last_dot(old(self)@) < 0) by {
                    if last_dot(old(self)@) >= 0 {
                        assert(old(self)@[last_dot(old(self)@)] == SEPARATOR);
                    }
                };
            }
            *self = Ident::new();
        } else {
            let newlen = i - 1;
            proof {
                assert(old(self)@[newlen as int] == SEPARATOR);
                assert(last_dot(old(self)@) == newlen as int) by {
                    let m = last_dot(old(self)@);
                    if m > newlen as int {
                        assert(old(self)@[m] == SEPARATOR);
                    }
                };
            }
            let mut j = newlen;
            while j < self.len
                invariant
                    newlen <= j <= self.len,
                    self.len == old(self).len,
                    self.len <= MAX_NAMED_LEN,
                    self.buf@.len() == MAX_NAMED_LEN as int,
                    forall|k: int| 0 <= k < newlen ==> self.buf@[k] == old(self).buf@[k],
                    forall|k: int| newlen <= k < j ==> self.buf@[k] == 0u8,
                    forall|k: int| j <= k < MAX_NAMED_LEN ==> self.buf@[k] == old(self).buf@[k],
                decreases self.len - j,
            {
                self.buf[j] = 0;
                j += 1;
            }
            self.len = newlen;
            proof {
                assert(self@ =~= spec_popped(old(self)@));
                assert(valid_utf8(self@)) by {
                    vstd::utf8::is_char_boundary_iff_not_is_continuation_byte(
                        old(self)@,
                        newlen as int,
                    );
                    assert(!vstd::utf8::is_continuation_byte(SEPARATOR));
                    vstd::utf8::valid_utf8_split(old(self)@, newlen as int);
                    assert(old(self)@.subrange(0, newlen as int) =~= self@);
                };
            }
        }
    }
}

impl Default for Ident {
    /// The default identifier is empty.
    fn default() -> (r: Self)
        ensures
            r.wf(),
            r@ == Seq::<u8>::empty(),
    {
        Ident::new()
    }
}

} // verus!
