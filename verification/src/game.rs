//! A catalog entry: a display name, its hash tag, and the chunks that hold
//! the game's data, together with the planning of a split into fragments.

use vstd::prelude::*;
use vstd::arithmetic::div_mod::{lemma_div_multiples_vanish_fancy, lemma_fundamental_div_mod};
use vstd::arithmetic::mul::{lemma_mul_inequality, lemma_mul_strict_inequality};

use crate::crc::{get_game_name_crc, name_tag};
use crate::error::UlError;
use crate::iso::{
    chunk_serial, dot_positions, lex_le, list_game_chunks, matching_files, views_of, Chunk,
    GameChunk, ISOChunk,
};
use crate::numfmt::{dec_chars, hex_digit, u64_to_dec};

verus! {

/// Every fragment file holds at most this many bytes.
pub const CHUNK_SIZE: u64 = 1_073_741_824;

/// One registered game: its display name, the hash tag derived from that
/// name, and the chunks holding its data — one source image before
/// splitting, or the fragment files after.
#[derive(Debug)]
pub struct Game {
    pub opl_name: String,
    pub crc_name: String,
    pub chunks: Vec<Chunk>,
}

/// One step of a split plan: copy `size` bytes of the source image,
/// starting at `offset`, into a fresh fragment file called `name`.
#[derive(Debug)]
pub struct ChunkPlan {
    pub name: String,
    pub offset: u64,
    pub size: u64,
}

/// The filenames of a chunk sequence, in order.
pub open spec fn chunk_files(chunks: Seq<Chunk>) -> Seq<String> {
    chunks.map_values(|c: Chunk| c.spec_file())
}

/// What rebuilding an entry named `name` from a directory listing
/// guarantees: the hash tag is recomputed from the name, and the chunks
/// are exactly the listing entries containing that tag — every one a
/// fragment, sorted by filename.
pub open spec fn discovered_entry(g: Game, files: Seq<String>, name: Seq<char>) -> bool {
    &&& g.opl_name@ == name
    &&& g.crc_name@ == name_tag(name)
    &&& forall|j: int| 0 <= j < g.chunks@.len() ==> (#[trigger] g.chunks@[j]) is Game
    &&& chunk_files(g.chunks@).to_multiset() == matching_files(
        files,
        name_tag(name),
    ).to_multiset()
    &&& views_of(chunk_files(g.chunks@)).to_multiset() == views_of(
        matching_files(files, name_tag(name)),
    ).to_multiset()
    &&& g.chunks@.len() == matching_files(files, name_tag(name)).len()
    &&& forall|i: int, j: int|
        0 <= i <= j < g.chunks@.len() ==> lex_le(
            chunk_files(g.chunks@)[i]@,
            chunk_files(g.chunks@)[j]@,
        )
}

/// How many fragments a source of `size` bytes splits into: one per full
/// fragment, plus one for a remainder.
pub open spec fn spec_num_chunks(size: u64) -> int {
    size as int / CHUNK_SIZE as int + if size as int % CHUNK_SIZE as int > 0 {
        1int
    } else {
        0int
    }
}

/// The size of fragment `k` of a source of `size` bytes: the fixed
/// fragment size for all but the last, which takes what remains.
pub open spec fn spec_chunk_size(size: u64, k: int) -> int {
    if k < spec_num_chunks(size) - 1 {
        CHUNK_SIZE as int
    } else {
        size - (spec_num_chunks(size) - 1) * CHUNK_SIZE
    }
}

/// The filename of fragment `k`: the fixed prefix, the hash tag, the
/// serial and the zero-prefixed index, dot-separated.
pub open spec fn chunk_name_chars(tag: Seq<char>, serial: Seq<char>, k: u64) -> Seq<char> {
    "ul."@ + tag + "."@ + serial + ".0"@ + dec_chars(k)
}

/// The bytes a split plan copies in total.
pub open spec fn plans_total(plans: Seq<ChunkPlan>) -> int
    decreases plans.len(),
{
    if plans.len() == 0 {
        0
    } else {
        plans_total(plans.drop_last()) + plans.last().size
    }
}

/// Everything `create_chunks` promises of a successful plan: one entry per
/// fragment, contiguous offsets, full fragments except the last, the fixed
/// naming convention, and sizes that add up to the source size.
pub open spec fn plan_complete(plans: Seq<ChunkPlan>, tag: Seq<char>, serial: Seq<char>, size: u64) -> bool {
    &&& plans.len() == spec_num_chunks(size)
    &&& forall|k: int|
        0 <= k < plans.len() ==> (#[trigger] plans[k]).offset == k * CHUNK_SIZE
    &&& forall|k: int|
        0 <= k < plans.len() ==> (#[trigger] plans[k]).size == spec_chunk_size(size, k)
    &&& forall|k: int|
        0 <= k < plans.len() ==> (#[trigger] plans[k]).name@ == chunk_name_chars(
            tag,
            serial,
            k as u64,
        )
    &&& plans_total(plans) == size
}

proof fn lemma_chunk_arith(size: u64, k: int)
    requires
        0 <= k < spec_num_chunks(size),
    ensures
        k * CHUNK_SIZE < size,
        k < spec_num_chunks(size) - 1 ==> (k + 1) * CHUNK_SIZE < size,
        k == spec_num_chunks(size) - 1 ==> size - k * CHUNK_SIZE <= CHUNK_SIZE,
{
    let c = CHUNK_SIZE as int;
    let s = size as int;
    let q = s / c;
    let r = s % c;
    let n = spec_num_chunks(size);
    lemma_fundamental_div_mod(s, c);
    assert(s == c * q + r);
    assert(q * c == c * q) by {
        vstd::arithmetic::mul::lemma_mul_is_commutative(q, c);
    }
    if r > 0 {
        assert(n == q + 1);
        assert((n - 1) * c == q * c);
        assert((n - 1) * c < s);
    } else {
        assert(n == q);
        assert((n - 1) * c == q * c - 1 * c) by {
            vstd::arithmetic::mul::lemma_mul_is_distributive_sub_other_way(c, q, 1);
        }
        assert((n - 1) * c < s);
    }
    lemma_mul_inequality(k, n - 1, c);
    assert(k * c <= (n - 1) * c);
    if k < n - 1 {
        lemma_mul_inequality(k + 1, n - 1, c);
        assert((k + 1) * c <= (n - 1) * c);
    } else {
        assert(k == n - 1);
        if r > 0 {
            assert(s - k * c == r);
        } else {
            assert(s - k * c == c);
        }
    }
}

impl Game {
    /// The serial the entry reports: the serial parsed from its first
    /// chunk's filename, or `NOT FOUND` when there is no chunk, the first
    /// chunk is an un-split source image, or the filename is malformed.
    pub open spec fn spec_serial(&self) -> Seq<char> {
        if self.chunks@.len() == 0 {
            "NOT FOUND"@
        } else {
            match self.chunks@[0] {
                Chunk::Game(c) => if dot_positions(c.path@).len() == 4 {
                    chunk_serial(c.path@)
                } else {
                    "NOT FOUND"@
                },
                Chunk::Iso(_) => "NOT FOUND"@,
            }
        }
    }

    /// Builds an entry for a source image that is not yet split: the hash
    /// tag is computed from the display name and the image becomes the
    /// entry's only chunk.
    pub fn from_iso(path: String, opl_name: String) -> (r: Game)
        ensures
            r.opl_name == opl_name,
            r.crc_name@ == name_tag(opl_name@),
            r.chunks@.len() == 1,
            r.chunks@[0] matches Chunk::Iso(c) && c.path == path,
    {
        let crc_name = get_game_name_crc(&opl_name);
        let chunk = ISOChunk::from(path);
        let mut chunks: Vec<Chunk> = Vec::new();
        chunks.push(Chunk::Iso(chunk));
        Game { opl_name, crc_name, chunks }
    }

    /// Rebuilds an entry from a catalog record's display name and a
    /// directory listing: the fragments are the listing entries that
    /// contain the recomputed hash tag, sorted by filename; none leaves
    /// the entry without chunks.
    pub fn from_config(files: &Vec<String>, opl_name: String) -> (r: Game)
        ensures
            r.opl_name@ == opl_name@,
            discovered_entry(r, files@, opl_name@),
    {
        let crc_name = get_game_name_crc(&opl_name);
        let names: Vec<String> = match list_game_chunks(files, &crc_name) {
            Ok(ns) => ns,
            Err(_) => Vec::new(),
        };
        let ghost names_view = names@;
        let mut chunks: Vec<Chunk> = Vec::new();
        let mut i: usize = 0;
        while i < names.len()
            invariant
                i <= names@.len(),
                names@ == names_view,
                chunks@.len() == i,
                forall|j: int| 0 <= j < i ==> (#[trigger] chunks@[j]) is Game,
                forall|j: int|
                    0 <= j < i ==> (#[trigger] chunks@[j]).spec_file() == names_view[j],
            decreases names@.len() - i,
        {
            chunks.push(Chunk::Game(GameChunk::from(names[i].clone())));
            i += 1;
        }
        proof {
            assert(chunk_files(chunks@) =~= names_view);
            if matching_files(files@, name_tag(opl_name@)).len() == 0 {
                assert(names_view =~= matching_files(files@, name_tag(opl_name@)));
            }
        }
        Game { opl_name, crc_name, chunks }
    }

    /// Plans the split of the entry's source image into fragment files and
    /// replaces its chunk list with the planned fragments.
    ///
    /// The caller supplies the source image's byte size and serial and
    /// carries the returned plan out. Fails with `NotFound` when the entry
    /// has no chunk at all, and with `InvalidInput` when it holds more
    /// than one chunk — it was already split; the entry is then unchanged.
    pub fn create_chunks(&mut self, image_size: u64, serial: &String) -> (r: Result<
        Vec<ChunkPlan>,
        UlError,
    >)
        ensures
            match r {
                Ok(plans) => {
                    &&& old(self).chunks@.len() == 1
                    &&& plan_complete(plans@, old(self).crc_name@, serial@, image_size)
                    &&& final(self).opl_name == old(self).opl_name
                    &&& final(self).crc_name == old(self).crc_name
                    &&& final(self).chunks@.len() == plans@.len()
                    &&& forall|k: int|
                        0 <= k < plans@.len() ==> (#[trigger] final(self).chunks@[k]) is Game
                    &&& forall|k: int|
                        0 <= k < plans@.len() ==> (#[trigger] final(self).chunks@[k]).spec_file()@
                            == plans@[k].name@
                },
                Err(e) => {
                    &&& *final(self) == *old(self)
                    &&& (e == UlError::NotFound || e == UlError::InvalidInput)
                    &&& (e == UlError::NotFound <==> old(self).chunks@.len() == 0)
                    &&& (e == UlError::InvalidInput <==> old(self).chunks@.len() > 1)
                },
            },
    {
        if self.chunks.len() == 0 {
            return Err(UlError::NotFound);
        }
        if self.chunks.len() > 1 {
            return Err(UlError::InvalidInput);
        }
        let n_chunks_small = image_size / CHUNK_SIZE;
        proof {
            if image_size > 0 {
                vstd::arithmetic::div_mod::lemma_div_is_strictly_smaller(
                    image_size as int,
                    CHUNK_SIZE as int,
                );
            }
        }
        let n_chunks: u64 = if image_size % CHUNK_SIZE > 0 {
            n_chunks_small + 1
        } else {
            n_chunks_small
        };
        assert(n_chunks == spec_num_chunks(image_size));

        let mut plans: Vec<ChunkPlan> = Vec::new();
        let mut new_chunks: Vec<Chunk> = Vec::new();
        let mut k: u64 = 0;
        while k < n_chunks
            invariant
                k <= n_chunks,
                n_chunks == spec_num_chunks(image_size),
                plans@.len() == k,
                new_chunks@.len() == k,
                forall|j: int|
                    0 <= j < k ==> (#[trigger] plans@[j]).offset == j * CHUNK_SIZE,
                forall|j: int|
                    0 <= j < k ==> (#[trigger] plans@[j]).size == spec_chunk_size(image_size, j),
                forall|j: int|
                    0 <= j < k ==> (#[trigger] plans@[j]).name@ == chunk_name_chars(
                        self.crc_name@,
                        serial@,
                        j as u64,
                    ),
                plans_total(plans@) == if k == n_chunks && k > 0 {
                    image_size as int
                } else {
                    k * CHUNK_SIZE
                },
                forall|j: int| 0 <= j < k ==> (#[trigger] new_chunks@[j]) is Game,
                forall|j: int|
                    0 <= j < k ==> (#[trigger] new_chunks@[j]).spec_file()@ == plans@[j].name@,
            decreases n_chunks - k,
        {
            proof {
                lemma_chunk_arith(image_size, k as int);
            }
            let offset = k * CHUNK_SIZE;
            let rest = image_size - offset;
            let this_size = if rest < CHUNK_SIZE {
                rest
            } else {
                CHUNK_SIZE
            };
            proof {
                if (k as int) < n_chunks - 1 {
                    assert((k as int + 1) * CHUNK_SIZE < image_size);
                    assert(this_size == spec_chunk_size(image_size, k as int));
                } else {
                    assert(this_size == spec_chunk_size(image_size, k as int));
                }
            }

            let mut name = String::new();
            name.append("ul.");
            name.append(self.crc_name.as_str());
            name.append(".");
            name.append(serial.as_str());
            name.append(".0");
            let index_text = u64_to_dec(k);
            name.append(index_text.as_str());
            proof {
                assert(name@ =~= chunk_name_chars(self.crc_name@, serial@, k));
            }

            let chunk_file = name.clone();
            let ghost old_plans = plans@;
            plans.push(ChunkPlan { name, offset, size: this_size });
            new_chunks.push(Chunk::Game(GameChunk::from(chunk_file)));
            proof {
                assert(plans@.drop_last() =~= old_plans);
                if k + 1 == n_chunks {
                    assert(plans_total(plans@) == k * CHUNK_SIZE + spec_chunk_size(
                        image_size,
                        k as int,
                    ));
                    assert((n_chunks - 1) * CHUNK_SIZE == k * CHUNK_SIZE);
                    assert(plans_total(plans@) == image_size as int);
                } else {
                    assert(plans_total(plans@) == k * CHUNK_SIZE + CHUNK_SIZE);
                    assert((k + 1) * CHUNK_SIZE == k * CHUNK_SIZE + CHUNK_SIZE) by {
                        vstd::arithmetic::mul::lemma_mul_is_distributive_add_other_way(
                            CHUNK_SIZE as int,
                            k as int,
                            1,
                        );
                    }
                }
            }
            k += 1;
        }
        self.chunks = new_chunks;
        Ok(plans)
    }

    /// The paths of every chunk of the entry, in chunk order — what must
    /// be removed from disk to delete the entry's data.
    pub fn delete_chunks(&self) -> (r: Vec<String>)
        ensures
            r@ == chunk_files(self.chunks@),
    {
        let mut paths: Vec<String> = Vec::new();
        let mut i: usize = 0;
        while i < self.chunks.len()
            invariant
                i <= self.chunks@.len(),
                paths@.len() == i,
                forall|j: int| 0 <= j < i ==> paths@[j] == chunk_files(self.chunks@)[j],
            decreases self.chunks@.len() - i,
        {
            let p = match &self.chunks[i] {
                Chunk::Iso(c) => c.path.clone(),
                Chunk::Game(c) => c.path.clone(),
            };
            paths.push(p);
            i += 1;
        }
        proof {
            assert(paths@ =~= chunk_files(self.chunks@));
        }
        paths
    }

    /// The serial of the entry, read from its first chunk's filename;
    /// `NOT FOUND` when no chunk can provide one.
    pub fn serial(&self) -> (r: String)
        ensures
            r@ == self.spec_serial(),
    {
        if self.chunks.len() == 0 {
            return "NOT FOUND".to_owned();
        }
        match &self.chunks[0] {
            Chunk::Game(c) => match c.serial() {
                Ok(s) => s,
                Err(_) => "NOT FOUND".to_owned(),
            },
            Chunk::Iso(_) => "NOT FOUND".to_owned(),
        }
    }

    /// The number of chunks the entry holds, as the record stores it: one
    /// byte, wrapping past 255.
    pub fn num_chunks(&self) -> (r: u8)
        ensures
            r as int == self.chunks@.len() % 256,
    {
        (self.chunks.len() % 256) as u8
    }

    /// Renders a byte count as gigabytes with two decimal places, rounding
    /// half up: the text of `(bytes + 5_000_000) / 10_000_000` hundredths.
    pub fn formatted_size(total_bytes: u64) -> (r: String)
        ensures
            r@ == formatted_size_chars(total_bytes),
    {
        let q = total_bytes / 10_000_000;
        let rem = total_bytes % 10_000_000;
        let h: u64 = if rem >= 5_000_000 {
            q + 1
        } else {
            q
        };
        proof {
            let t = total_bytes as int;
            lemma_fundamental_div_mod(t, 10_000_000);
            if rem >= 5_000_000 {
                lemma_div_multiples_vanish_fancy(
                    t / 10_000_000 + 1,
                    t % 10_000_000 - 5_000_000,
                    10_000_000,
                );
                assert(10_000_000 * (t / 10_000_000 + 1) + (t % 10_000_000 - 5_000_000) == t
                    + 5_000_000);
            } else {
                lemma_div_multiples_vanish_fancy(
                    t / 10_000_000,
                    t % 10_000_000 + 5_000_000,
                    10_000_000,
                );
                assert(10_000_000 * (t / 10_000_000) + (t % 10_000_000 + 5_000_000) == t
                    + 5_000_000);
            }
            assert(h as int == (t + 5_000_000) / 10_000_000);
        }
        let mut r = u64_to_dec(h / 100);
        let frac = h % 100;
        r.append(".");
        r.append(crate::numfmt::digit_str((frac / 10) as u32));
        r.append(crate::numfmt::digit_str((frac % 10) as u32));
        r.append("GB");
        proof {
            reveal_strlit(".");
            reveal_strlit("GB");
            assert(r@ =~= formatted_size_chars(total_bytes));
        }
        r
    }
}

/// The gigabyte text of a byte count: hundredths of a gigabyte, rounded
/// half up, rendered with two decimal places and a `GB` suffix.
pub open spec fn formatted_size_chars(total_bytes: u64) -> Seq<char> {
    let h = (total_bytes + 5_000_000) / 10_000_000;
    dec_chars((h / 100) as u64) + "."@ + seq![
        hex_digit((h % 100) / 10),
        hex_digit((h % 100) % 10),
    ] + "GB"@
}

} // verus!
