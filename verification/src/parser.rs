//! Composing and parsing the null-padded text fields of catalog records.
//!
//! A field of width `size` holds the UTF-8 bytes of a string followed by
//! null padding; parsing strips the trailing nulls and decodes what is
//! left.

use vstd::prelude::*;
use vstd::string::StringSliceAdditionalSpecFns;
use vstd::utf8::*;

verus! {

/// `bytes` with every trailing null byte removed.
pub open spec fn strip_trailing_nulls(bytes: Seq<u8>) -> Seq<u8>
    decreases bytes.len(),
{
    if bytes.len() > 0 && bytes.last() == 0 {
        strip_trailing_nulls(bytes.drop_last())
    } else {
        bytes
    }
}

/// `n` null bytes.
pub open spec fn zero_bytes(n: int) -> Seq<u8> {
    Seq::new(n as nat, |i| 0u8)
}

/// The `size`-byte field that holds `s`: its UTF-8 bytes, null-padded.
pub open spec fn spec_compose(s: Seq<char>, size: int) -> Seq<u8> {
    encode_utf8(s) + zero_bytes(size - encode_utf8(s).len())
}

/// The string read from the `size`-byte field of `bytes` at `start`:
/// the window with its trailing nulls stripped, decoded as UTF-8.
pub open spec fn spec_parse(bytes: Seq<u8>, start: int, size: int) -> Seq<char> {
    decode_utf8(strip_trailing_nulls(bytes.subrange(start, start + size)))
}

/// Null padding behind a sequence that does not itself end in a null byte
/// is stripped away entirely, and nothing more.
proof fn lemma_strip_trailing_nulls_of_padded(b: Seq<u8>, p: int)
    requires
        b.len() == 0 || b.last() != 0,
        p >= 0,
    ensures
        strip_trailing_nulls(b + zero_bytes(p)) == b,
    decreases p,
{
    if p == 0 {
        assert(b + zero_bytes(0) =~= b);
    } else {
        assert((b + zero_bytes(p)).last() == 0u8);
        assert((b + zero_bytes(p)).drop_last() =~= b + zero_bytes(p - 1));
        lemma_strip_trailing_nulls_of_padded(b, p - 1);
    }
}

/// The UTF-8 encoding of one character other than `'\0'` contains no null
/// byte.
proof fn lemma_encode_scalar_no_null(c: char)
    requires
        c as u32 != 0,
    ensures
        forall|i: int|
            0 <= i < encode_scalar(c as u32).len() ==> #[trigger] encode_scalar(c as u32)[i]
                != 0,
{
    broadcast use char_is_scalar;

    let v = c as u32;
    if has_width_1_encoding(v) {
        assert((v & 0x7F) as u8 != 0) by (bit_vector)
            requires
                v != 0 && v <= 0x7F,
        ;
    } else if has_width_2_encoding(v) {
        assert((0xC0 | ((v >> 6) & 0x1F) as u8) != 0 && (0x80 | (v & 0x3F) as u8) != 0)
            by (bit_vector);
    } else if has_width_3_encoding(v) {
        assert((0xE0 | ((v >> 12) & 0x0F) as u8) != 0 && (0x80 | ((v >> 6) & 0x3F) as u8) != 0
            && (0x80 | (v & 0x3F) as u8) != 0) by (bit_vector);
    } else {
        assert((0xF0 | ((v >> 18) & 0x7) as u8) != 0 && (0x80 | ((v >> 12) & 0x3F) as u8) != 0
            && (0x80 | ((v >> 6) & 0x3F) as u8) != 0 && (0x80 | (v & 0x3F) as u8) != 0)
            by (bit_vector);
    }
}

/// The UTF-8 encoding of a string not ending in `'\0'` does not end in a
/// null byte.
proof fn lemma_encode_no_trailing_null(s: Seq<char>)
    requires
        s.len() > 0,
        s.last() != '\0',
    ensures
        encode_utf8(s).len() > 0,
        encode_utf8(s).last() != 0,
    decreases s.len(),
{
    let c = s[0];
    if s.len() == 1 {
        assert(c as u32 != 0) by {
            if c as u32 == 0 {
                char_u32_cast(c, c as u32);
                assert(c == (0u32 as char));
            }
        }
        lemma_encode_scalar_no_null(c);
        assert(encode_utf8(s) =~= encode_scalar(c as u32) + encode_utf8(s.drop_first()));
        assert(encode_utf8(s.drop_first()) =~= Seq::<u8>::empty());
        assert(encode_utf8(s) =~= encode_scalar(c as u32));
    } else {
        let rest = s.drop_first();
        assert(rest.last() == s.last());
        lemma_encode_no_trailing_null(rest);
        assert(encode_utf8(s) == encode_scalar(c as u32) + encode_utf8(rest));
        assert(encode_utf8(s).last() == encode_utf8(rest).last());
    }
}

/// Round-trip law: a name that does not end in a null character and whose
/// encoding fits the field width is returned unchanged by `parse` after
/// `compose`.
pub proof fn lemma_compose_parse_roundtrip(name: Seq<char>, size: int)
    requires
        name.len() == 0 || name.last() != '\0',
        encode_utf8(name).len() <= size,
    ensures
        spec_parse(spec_compose(name, size), 0, size) == name,
        strip_trailing_nulls(spec_compose(name, size)) == encode_utf8(name),
        valid_utf8(strip_trailing_nulls(spec_compose(name, size))),
{
    broadcast use encode_utf8_valid_utf8;

    let e = encode_utf8(name);
    let field = spec_compose(name, size);
    assert(field.len() == size);
    assert(field.subrange(0, size) =~= field);
    if name.len() > 0 {
        lemma_encode_no_trailing_null(name);
    }
    lemma_strip_trailing_nulls_of_padded(e, size - e.len());
    encode_utf8_decode_utf8(name);
}

/// Relies on `String::from_utf8`: it returns `Ok` exactly on byte sequences
/// that are valid UTF-8, and then decodes them.
#[verifier::external_body]
pub(crate) fn try_string_from_utf8(bytes: Vec<u8>) -> (r: Option<String>)
    ensures
        match r {
            Some(s) => valid_utf8(bytes@) && s@ == decode_utf8(bytes@),
            None => !valid_utf8(bytes@),
        },
{
    match String::from_utf8(bytes) {
        Ok(s) => Some(s),
        Err(_) => None,
    }
}

/// Reads the string stored in the `size`-byte field of `game_buff` at
/// `start`, stripping the trailing null padding; `None` when the remaining
/// bytes are not valid UTF-8.
pub fn try_parse_to_string(game_buff: &[u8], start: usize, size: usize) -> (r: Option<String>)
    requires
        start + size <= game_buff@.len(),
    ensures
        match r {
            Some(s) => valid_utf8(
                strip_trailing_nulls(
                    game_buff@.subrange(start as int, start as int + size as int),
                ),
            ) && s@ == spec_parse(game_buff@, start as int, size as int),
            None => !valid_utf8(
                strip_trailing_nulls(
                    game_buff@.subrange(start as int, start as int + size as int),
                ),
            ),
        },
{
    let ghost window = game_buff@.subrange(start as int, start as int + size as int);
    let buff_len = game_buff.len();
    let mut end = size;
    proof {
        assert(window.subrange(0, size as int) =~= window);
    }
    while end > 0 && game_buff[start + end - 1] == 0x00
        invariant
            end <= size,
            start + size <= buff_len,
            buff_len == game_buff@.len(),
            window == game_buff@.subrange(start as int, start as int + size as int),
            strip_trailing_nulls(window) == strip_trailing_nulls(
                window.subrange(0, end as int),
            ),
        decreases end,
    {
        proof {
            let cur = window.subrange(0, end as int);
            assert(cur.last() == window[end - 1]);
            assert(cur.drop_last() =~= window.subrange(0, end - 1));
        }
        end -= 1;
    }
    proof {
        let cur = window.subrange(0, end as int);
        if end > 0 {
            assert(cur.last() == window[end - 1]);
            assert(cur.last() != 0);
        }
        assert(strip_trailing_nulls(cur) == cur);
        assert(strip_trailing_nulls(window) == window.subrange(0, end as int));
    }
    let mut kept: Vec<u8> = Vec::new();
    let mut i: usize = 0;
    while i < end
        invariant
            i <= end,
            end <= size,
            start + size <= buff_len,
            buff_len == game_buff@.len(),
            window == game_buff@.subrange(start as int, start as int + size as int),
            kept@ == window.subrange(0, i as int),
        decreases end - i,
    {
        kept.push(game_buff[start + i]);
        proof {
            assert(window.subrange(0, i + 1) =~= window.subrange(0, i as int).push(
                window[i as int],
            ));
        }
        i += 1;
    }
    let ghost kb = kept@;
    assert(kb == strip_trailing_nulls(window));
    try_string_from_utf8(kept)
}

/// Reads the string stored in the `size`-byte field of `game_buff` at
/// `start`, stripping the trailing null padding. The remaining bytes must
/// be valid UTF-8.
pub fn parse_to_string(game_buff: &[u8], start: usize, size: usize) -> (r: String)
    requires
        start + size <= game_buff@.len(),
        valid_utf8(
            strip_trailing_nulls(game_buff@.subrange(start as int, start as int + size as int)),
        ),
    ensures
        r@ == spec_parse(game_buff@, start as int, size as int),
{
    match try_parse_to_string(game_buff, start, size) {
        Some(s) => s,
        None => unreached(),
    }
}

/// Writes `string` into a fresh `size`-byte field, null-padded.
pub fn compose_from_str(string: &str, size: usize) -> (r: Vec<u8>)
    requires
        string.spec_bytes().len() <= size,
    ensures
        r@ == spec_compose(string@, size as int),
        r@.len() == size,
{
    let ghost e = encode_utf8(string@);
    let mut buff = string.as_bytes_vec();
    proof {
        assert(buff@ =~= e + zero_bytes(0));
    }
    while buff.len() < size
        invariant
            e == encode_utf8(string@),
            e.len() <= buff@.len() <= size,
            buff@ == e + zero_bytes(buff@.len() - e.len()),
        decreases size - buff.len(),
    {
        let ghost k = buff@.len() - e.len();
        buff.push(0x00);
        proof {
            assert(buff@ =~= e + zero_bytes(k + 1));
        }
    }
    proof {
        assert(buff@ =~= spec_compose(string@, size as int));
    }
    buff
}

} // verus!
