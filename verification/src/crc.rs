//! The name-hash algorithm: a deterministic 32-bit tag computed from the
//! UTF-8 bytes of a display name, rendered as uppercase hexadecimal.
//!
//! The tag is derived with a 256-entry table built from the polynomial
//! `0x04C11DB7` and folded over the name's bytes plus one trailing null
//! byte. It is not cryptographic; it only names the fragment files of a
//! catalog entry.

use vstd::prelude::*;
use vstd::utf8::encode_utf8;

use crate::numfmt::{hex_chars, u32_to_hex};

verus! {

/// One doubling round of the table builder: entries with the top bit set
/// are shifted, all others are shifted and folded with the polynomial.
pub open spec fn table_round(c: u32) -> u32 {
    if c & 0x8000_0000 != 0 {
        c << 1
    } else {
        (c << 1) ^ 0x04c1_1db7
    }
}

/// `n` rounds of the table builder applied to `c`.
pub open spec fn table_rounds(c: u32, n: nat) -> u32
    decreases n,
{
    if n == 0 {
        c
    } else {
        table_round(table_rounds(c, (n - 1) as nat))
    }
}

/// The table entry stored at index `j`: eight builder rounds on the
/// mirrored index `255 - j` shifted into the top byte.
pub open spec fn table_entry(j: int) -> u32 {
    table_rounds(((255 - j) as u32) << 24, 8)
}

/// One step of the hash fold: the accumulator is shifted left one byte and
/// folded with the table entry picked by the incoming byte and the
/// accumulator's top byte.
pub open spec fn hash_round(crc: u32, b: u8) -> u32 {
    table_entry((((b as u32) ^ ((crc >> 24) & 0xff))) as int) ^ ((crc << 8) & 0xffff_ff00)
}

/// The 32-bit hash of a byte sequence: the hash fold over all bytes,
/// starting from zero.
pub open spec fn bytes_crc(bytes: Seq<u8>) -> u32
    decreases bytes.len(),
{
    if bytes.len() == 0 {
        0
    } else {
        hash_round(bytes_crc(bytes.drop_last()), bytes.last())
    }
}

/// The rendered tag of a display name: the hash of its UTF-8 bytes plus one
/// trailing null byte, as minimal-width uppercase hexadecimal.
pub open spec fn name_tag(name: Seq<char>) -> Seq<char> {
    hex_chars(bytes_crc(encode_utf8(name).push(0u8)))
}

fn initialize_crc_table(crc_table: &mut Vec<u32>)
    requires
        old(crc_table).len() == 256,
    ensures
        final(crc_table).len() == 256,
        forall|j: int| 0 <= j < 256 ==> final(crc_table)[j] == table_entry(j),
{
    let mut index: usize = 0;
    while index < 256
        invariant
            index <= 256,
            crc_table.len() == 256,
            forall|j: int| 256 - index <= j < 256 ==> crc_table[j] == table_entry(j),
        decreases 256 - index,
    {
        let mut crc: u32 = (index as u32) << 24u32;
        let mut round: usize = 0;
        while round < 8
            invariant
                round <= 8,
                index < 256,
                crc == table_rounds((index as u32) << 24u32, round as nat),
            decreases 8 - round,
        {
            if crc & 0x8000_0000 != 0 {
                crc = crc << 1u32;
            } else {
                crc = (crc << 1u32) ^ 0x04c1_1db7;
            }
            round += 1;
        }
        let index_le = 255 - index;
        crc_table[index_le] = crc;
        index += 1;
    }
}

/// The hash tag of a display name as the catalog uses it: uppercase
/// hexadecimal with no fixed width.
pub fn get_game_name_crc(name: &String) -> (r: String)
    ensures
        r@ == name_tag(name@),
{
    let mut crc_table: Vec<u32> = vec![0u32; 256];
    initialize_crc_table(&mut crc_table);

    let mut name_bytes: Vec<u8> = name.as_str().as_bytes_vec();
    name_bytes.push(0x00);
    let ghost all_bytes: Seq<u8> = name_bytes@;
    let mut crc: u32 = 0;

    let mut i: usize = 0;
    while i < name_bytes.len()
        invariant
            i <= name_bytes.len(),
            name_bytes@ == all_bytes,
            crc_table.len() == 256,
            forall|j: int| 0 <= j < 256 ==> crc_table[j] == table_entry(j),
            crc == bytes_crc(all_bytes.subrange(0, i as int)),
        decreases name_bytes.len() - i,
    {
        let b = name_bytes[i];
        let index = (b as u32) ^ ((crc >> 24u32) & 0xff);
        assert(index < 256) by (bit_vector)
            requires
                index == (b as u32) ^ ((crc >> 24u32) & 0xff),
        ;
        let ghost prefix = all_bytes.subrange(0, i as int);
        crc = crc_table[index as usize] ^ ((crc << 8u32) & 0xffff_ff00);
        proof {
            assert(all_bytes.subrange(0, i + 1).drop_last() =~= prefix);
            assert(all_bytes.subrange(0, i + 1).last() == b);
        }
        i += 1;
    }

    proof {
        assert(all_bytes.subrange(0, all_bytes.len() as int) =~= all_bytes);
        assert(all_bytes =~= encode_utf8(name@).push(0u8));
    }
    u32_to_hex(crc)
}

} // verus!
