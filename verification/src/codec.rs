//! How sorted-set members are laid out when persisted: the key of a row is
//! the set's name, a zero byte and the member, all UTF-8; the value is the
//! score as four little-endian bytes.

use crate::storage::Storage;
use vstd::prelude::*;
use vstd::utf8::decode_utf8;
use vstd::utf8::encode_utf8;
use vstd::utf8::valid_utf8;

verus! {

/// The row key that `get_zset_key` builds.
pub open spec fn zset_row_key(zkey: Seq<char>, value: Seq<char>) -> Seq<u8> {
    encode_utf8(zkey) + seq![0u8] + encode_utf8(value)
}

/// The position of the first zero byte.
pub open spec fn first_zero(b: Seq<u8>) -> int {
    choose|i: int| 0 <= i < b.len() && b[i] == 0 && forall|j: int| 0 <= j < i ==> b[j] != 0
}

/// Whether `b` can be read back as a row key: valid UTF-8 holding a zero
/// byte.
pub open spec fn is_row_key(b: Seq<u8>) -> bool {
    valid_utf8(b) && b.contains(0u8)
}

/// The name and member that `decode_zset_key` reads from a row key: the
/// text before the first zero byte and the text after it.
pub open spec fn split_row_key(b: Seq<u8>) -> (Seq<char>, Seq<char>) {
    let i = first_zero(b);
    (decode_utf8(b.take(i)), decode_utf8(b.skip(i + 1)))
}

/// std's `String::from_utf8`: the text that `bytes` encode, when they are
/// valid UTF-8 (as vstd's `valid_utf8` defines it), else `None` (the error
/// value is dropped).
#[verifier::external_body]
pub(crate) fn string_from_utf8(bytes: Vec<u8>) -> (r: Option<String>)
    ensures
        r is Some <==> valid_utf8(bytes@),
        r matches Some(s) ==> s@ == decode_utf8(bytes@),
{
    String::from_utf8(bytes).ok()
}

/// The index of the first zero byte of `b`, which has one.
fn find_zero(b: &[u8]) -> (i: usize)
    requires
        b@.contains(0u8),
    ensures
        i == first_zero(b@),
        i < b@.len(),
        b@[i as int] == 0,
        forall|j: int| 0 <= j < i ==> b@[j] != 0,
{
    let mut i: usize = 0;
    while i < b.len()
        invariant
            i <= b@.len(),
            b@.contains(0u8),
            forall|j: int| 0 <= j < i ==> b@[j] != 0,
        decreases b.len() - i,
    {
        if b[i] == 0 {
            proof {
                let k = first_zero(b@);
                assert(0 <= i < b@.len() && b@[i as int] == 0 && forall|j: int| 0 <= j < i ==> b@[j] != 0);
                assert(0 <= k < b@.len() && b@[k] == 0 && forall|j: int| 0 <= j < k ==> b@[j] != 0);
                assert(k == i as int);
            }
            return i;
        }
        i = i + 1;
    }
    proof {
        let j = choose|j: int| 0 <= j < b@.len() && b@[j] == 0u8;
        assert(b@[j] != 0);
    }
    0
}

/// A copy of `b[from..to]`.
pub(crate) fn copy_range(b: &[u8], from: usize, to: usize) -> (r: Vec<u8>)
    requires
        from <= to <= b@.len(),
    ensures
        r@ == b@.subrange(from as int, to as int),
{
    let mut out: Vec<u8> = Vec::new();
    let mut i = from;
    while i < to
        invariant
            from <= i <= to,
            to <= b@.len(),
            out@ == b@.subrange(from as int, i as int),
        decreases to - i,
    {
        out.push(b[i]);
        assert(out@ =~= b@.subrange(from as int, i + 1));
        i = i + 1;
    }
    out
}

/// Splitting valid UTF-8 at a zero byte leaves valid UTF-8 on both sides.
proof fn lemma_split_at_zero(b: Seq<u8>, i: int)
    requires
        valid_utf8(b),
        0 <= i < b.len(),
        b[i] == 0,
    ensures
        valid_utf8(b.take(i)),
        valid_utf8(b.skip(i + 1)),
{
    broadcast use vstd::utf8::group_utf8_lib;

    vstd::utf8::is_char_boundary_iff_not_is_continuation_byte(b, i);
    assert(!vstd::utf8::is_continuation_byte(b[i]));
    assert(vstd::utf8::is_char_boundary(b, i));
    assert(valid_utf8(b.subrange(0, i)));
    assert(b.subrange(0, i) =~= b.take(i));
    let rest = b.subrange(i, b.len() as int);
    assert(valid_utf8(rest));
    assert(rest.len() > 0 && rest[0] == 0);
    assert(vstd::utf8::is_leading_byte_width_1(rest[0]));
    assert(vstd::utf8::valid_first_scalar(rest));
    assert(vstd::utf8::pop_first_scalar(rest) =~= b.skip(i + 1));
}

impl Storage {
    /// The row key of member `value` of the sorted set `zkey`.
    pub fn get_zset_key(zkey: &str, value: &str) -> (r: Vec<u8>)
        ensures
            r@ == zset_row_key(zkey@, value@),
    {
        let mut key: Vec<u8> = Vec::new();
        key.extend_from_slice(zkey.as_bytes());
        key.push(0);
        key.extend_from_slice(value.as_bytes());
        key
    }

    /// The name and member of a persisted sorted-set row. The key must hold a
    /// zero byte (the name's end) and be valid UTF-8, as every key that
    /// `get_zset_key` builds is.
    pub fn decode_zset_key(key: &[u8]) -> (r: (String, String))
        requires
            is_row_key(key@),
        ensures
            (r.0@, r.1@) == split_row_key(key@),
    {
        let i = find_zero(key);
        proof {
            lemma_split_at_zero(key@, i as int);
            assert(key@.subrange(0, i as int) =~= key@.take(i as int));
            assert(key@.subrange(i + 1, key@.len() as int) =~= key@.skip(i + 1));
        }
        let zkey = string_from_utf8(copy_range(key, 0, i));
        let n = key.len();
        let value = string_from_utf8(copy_range(key, i + 1, n));
        match (zkey, value) {
            (Some(zkey), Some(value)) => (zkey, value),
            _ => {
                assert(false);
                (String::new(), String::new())
            },
        }
    }
}

/// No byte of the UTF-8 encoding of a text without `'\0'` is zero.
proof fn lemma_encoding_has_no_zero(chars: Seq<char>)
    requires
        !chars.contains('\0'),
    ensures
        !encode_utf8(chars).contains(0u8),
    decreases chars.len(),
{
    if chars.len() > 0 {
        let c = chars[0];
        let x = c as u32;
        assert(chars.drop_first().contains('\0') ==> chars.contains('\0')) by {
            if chars.drop_first().contains('\0') {
                let j = choose|j: int| 0 <= j < chars.drop_first().len() && chars.drop_first()[j] == '\0';
                assert(chars[j + 1] == '\0');
            }
        }
        lemma_encoding_has_no_zero(chars.drop_first());
        assert(c != '\0');
        vstd::utf8::char_u32_cast(c, x);
        assert(x != 0) by {
            if x == 0 {
                assert((0u32 as char) == '\0');
            }
        }
        let e = vstd::utf8::encode_scalar(x);
        assert forall|y: u8| 0x80u8 | y != 0u8 && 0xC0u8 | y != 0u8 && 0xE0u8 | y != 0u8 && 0xF0u8 | y != 0u8 by {
            assert(0x80u8 | y != 0u8 && 0xC0u8 | y != 0u8 && 0xE0u8 | y != 0u8 && 0xF0u8 | y != 0u8) by (bit_vector);
        }
        assert(1 <= x <= 0x7f ==> (x & 0x7f) as u8 != 0u8) by (bit_vector);
        assert(!e.contains(0u8)) by {
            if e.contains(0u8) {
                let j = choose|j: int| 0 <= j < e.len() && e[j] == 0u8;
            }
        }
        let rest = encode_utf8(chars.drop_first());
        assert(encode_utf8(chars) == e + rest);
        if encode_utf8(chars).contains(0u8) {
            let j = choose|j: int| 0 <= j < (e + rest).len() && (e + rest)[j] == 0u8;
            if j < e.len() {
                assert(e[j] == 0u8);
            } else {
                assert(rest[j - e.len()] == 0u8);
            }
        }
    }
}

/// Reading back a row key gives the name and member it was built from,
/// provided the name holds no `'\0'` (a zero byte in the name would end it
/// early).
pub proof fn lemma_row_key_roundtrip(zkey: Seq<char>, value: Seq<char>)
    requires
        !zkey.contains('\0'),
    ensures
        is_row_key(zset_row_key(zkey, value)),
        split_row_key(zset_row_key(zkey, value)) == (zkey, value),
{
    broadcast use vstd::utf8::group_utf8_lib;

    let ek = encode_utf8(zkey);
    let ev = encode_utf8(value);
    let b = zset_row_key(zkey, value);
    let n = ek.len() as int;
    lemma_encoding_has_no_zero(zkey);
    assert(seq![0u8] =~= encode_utf8(seq!['\0'])) by {
        assert(encode_utf8(seq!['\0']) == vstd::utf8::encode_scalar('\0' as u32) + encode_utf8(seq!['\0'].drop_first()));
        assert(seq!['\0'].drop_first() =~= Seq::<char>::empty());
        assert(('\0' as u32) == 0u32);
        assert((0u32 & 0x7f) as u8 == 0u8) by (bit_vector);
    }
    assert(valid_utf8(encode_utf8(seq!['\0'])));
    assert(valid_utf8(ek + seq![0u8]));
    assert(valid_utf8(b));
    assert(b[n] == 0u8);
    assert(b.contains(0u8));
    assert forall|j: int| 0 <= j < n implies b[j] != 0 by {
        assert(b[j] == ek[j]);
        if ek[j] == 0 {
            assert(ek.contains(0u8));
        }
    }
    let i = first_zero(b);
    assert(0 <= i < b.len() && b[i] == 0 && forall|j: int| 0 <= j < i ==> b[j] != 0);
    assert(i == n) by {
        if i < n {
        } else if i > n {
            assert(b[n] != 0);
        }
    }
    assert(b.take(n) =~= ek);
    assert(b.skip(n + 1) =~= ev);
}

/// The stored form of a score: its four little-endian bytes.
pub fn encode_score(score: u32) -> (r: Vec<u8>)
    ensures
        r@ == vstd::bytes::spec_u32_to_le_bytes(score),
        r@.len() == 4,
{
    vstd::bytes::u32_to_le_bytes(score)
}

/// The score that four little-endian bytes store.
pub fn decode_score(bytes: &[u8]) -> (s: u32)
    requires
        bytes@.len() == 4,
    ensures
        s == vstd::bytes::spec_u32_from_le_bytes(bytes@),
{
    vstd::bytes::u32_from_le_bytes(bytes)
}

/// Reading back the stored form of a score gives the score.
pub proof fn lemma_score_roundtrip(score: u32)
    ensures
        vstd::bytes::spec_u32_to_le_bytes(score).len() == 4,
        vstd::bytes::spec_u32_from_le_bytes(vstd::bytes::spec_u32_to_le_bytes(score)) == score,
{
    vstd::bytes::lemma_auto_spec_u32_to_from_le_bytes();
    assert(vstd::bytes::spec_u32_to_le_bytes(score).len() == 4);
}

} // verus!
