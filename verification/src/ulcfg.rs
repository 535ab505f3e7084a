//! The binary catalog: a flat sequence of fixed 64-byte records, one per
//! registered game, together with the in-memory list it encodes.
//!
//! Record layout — 64 bytes each:
//!
//! | offset | length | field                                    |
//! |--------|--------|------------------------------------------|
//! | 0      | 32     | display name, UTF-8, null-padded         |
//! | 32     | 3      | the ASCII bytes `u` `l` `.`              |
//! | 35     | 12     | serial, null-padded                      |
//! | 47     | 1      | fragment count                           |
//! | 48     | 1      | media-type constant `0x14`               |
//! | 49     | 4      | reserved, zero                           |
//! | 53     | 1      | format-magic constant `0x08`             |
//! | 54     | 10     | reserved, zero                           |

use vstd::prelude::*;
use vstd::utf8::{decode_utf8, encode_utf8, valid_utf8};

use crate::crc::name_tag;
use crate::error::UlError;
use crate::game::{chunk_files, discovered_entry, ChunkPlan, Game, plan_complete};
use crate::iso::{lemma_sorted_names_unique, matching_files, names_sorted, views_of, Chunk};
use crate::parser::{lemma_compose_parse_roundtrip, spec_compose, strip_trailing_nulls, zero_bytes};
use crate::parser::{compose_from_str, try_parse_to_string};
use crate::status::GameStatus;

verus! {

/// Bytes per catalog record.
pub const UL_GAME_SIZE: usize = 64;

/// Bytes of the record's display-name field.
pub const UL_GAME_NAME_SIZE: usize = 32;

/// Offset of the record's fragment-count byte.
pub const UL_GAME_CHUNK_COUNT: usize = 47;

/// Bytes of the record's serial field.
pub const UL_SERIAL_SIZE: usize = 12;

/// The record's media-type constant.
pub const SCEC_DVD_MEDIA_TYPE: u8 = 0x14;

/// The record's format-magic constant.
pub const USBEXTREME_MAGIC: u8 = 0x08;

/// The in-memory catalog: the registered games in display order, and —
/// after a load — the health of each loaded entry.
#[derive(Debug)]
pub struct Ulcfg {
    pub game_list: Vec<Game>,
    pub states: Vec<GameStatus>,
}

/// The 64 bytes of one record, given an entry's display name, serial and
/// fragment count.
pub open spec fn record_bytes(name: Seq<char>, serial: Seq<char>, count: u8) -> Seq<u8> {
    spec_compose(name, 32) + seq![0x75u8, 0x6cu8, 0x2eu8] + spec_compose(serial, 12) + seq![
        count,
        0x14u8,
    ] + zero_bytes(4) + seq![0x08u8] + zero_bytes(10)
}

/// The record an entry serializes to: its name, its serial, and its chunk
/// count taken modulo one byte.
pub open spec fn game_record(g: Game) -> Seq<u8> {
    record_bytes(g.opl_name@, g.spec_serial(), (g.chunks@.len() % 256) as u8)
}

/// True when an entry's name and serial fit their record fields.
pub open spec fn game_fits_record(g: Game) -> bool {
    &&& encode_utf8(g.opl_name@).len() <= 32
    &&& encode_utf8(g.spec_serial()).len() <= 12
}

/// The whole catalog file: every entry's record, concatenated in order.
pub open spec fn catalog_bytes(games: Seq<Game>) -> Seq<u8>
    decreases games.len(),
{
    if games.len() == 0 {
        Seq::empty()
    } else {
        catalog_bytes(games.drop_last()) + game_record(games.last())
    }
}

/// How many whole records a catalog file holds; a trailing partial record
/// is dropped.
pub open spec fn record_count(data: Seq<u8>) -> int {
    data.len() as int / 64
}

/// The name field of record `k`, with null padding stripped, still as
/// bytes.
pub open spec fn record_name_bytes(data: Seq<u8>, k: int) -> Seq<u8> {
    strip_trailing_nulls(data.subrange(64 * k, 64 * k + 32))
}

/// The fragment-count byte of record `k`.
pub open spec fn record_chunk_count(data: Seq<u8>, k: int) -> u8 {
    data[64 * k + 47]
}

/// The status a loaded entry gets, given how many fragments were found
/// (`n_chunks`, modulo one byte) against the record's stored count.
pub open spec fn expected_status(s: GameStatus, n_chunks: int, stored: u8) -> bool {
    if n_chunks % 256 == 0 {
        s matches GameStatus::Bad(m) && m@ == "NO DATA"@
    } else if n_chunks % 256 != stored {
        s matches GameStatus::Bad(m) && m@ == "LOST DATA"@
    } else {
        s is Good
    }
}

impl Ulcfg {
    /// An empty catalog.
    pub fn new() -> (r: Ulcfg)
        ensures
            r.game_list@.len() == 0,
            r.states@.len() == 0,
    {
        let game_list: Vec<Game> = Vec::new();
        let states: Vec<GameStatus> = Vec::new();
        Ulcfg { game_list, states }
    }

    /// Serializes the catalog: one 64-byte record per entry, concatenated
    /// in display order. Every entry's name and serial must fit their
    /// fields.
    pub fn save(&self) -> (r: Vec<u8>)
        requires
            forall|i: int|
                0 <= i < self.game_list@.len() ==> game_fits_record(#[trigger] self.game_list@[i]),
        ensures
            r@ == catalog_bytes(self.game_list@),
            r@.len() == 64 * self.game_list@.len(),
    {
        let mut ulbuff: Vec<u8> = Vec::new();
        let mut i: usize = 0;
        proof {
            assert(self.game_list@.subrange(0, 0) =~= Seq::<Game>::empty());
        }
        while i < self.game_list.len()
            invariant
                i <= self.game_list@.len(),
                forall|t: int|
                    0 <= t < self.game_list@.len() ==> game_fits_record(
                        #[trigger] self.game_list@[t],
                    ),
                ulbuff@ == catalog_bytes(self.game_list@.subrange(0, i as int)),
                ulbuff@.len() == 64 * i,
            decreases self.game_list@.len() - i,
        {
            let ghost prefix = self.game_list@.subrange(0, i as int);
            let entry = &self.game_list[i];

            // first 32 bytes are the padded display name
            let mut game_name_bytes = compose_from_str(entry.opl_name.as_str(), UL_GAME_NAME_SIZE);
            ulbuff.append(&mut game_name_bytes);

            // next 15 bytes are the serial with its `ul.` prefix and padding
            ulbuff.push(0x75);
            ulbuff.push(0x6c);
            ulbuff.push(0x2e);
            let serial = entry.serial();
            let mut serial_bytes = compose_from_str(serial.as_str(), UL_SERIAL_SIZE);
            ulbuff.append(&mut serial_bytes);

            // one byte of fragment count
            ulbuff.push(entry.num_chunks());

            // the last 16 bytes are constants
            ulbuff.push(SCEC_DVD_MEDIA_TYPE);
            ulbuff.push(0x00);
            ulbuff.push(0x00);
            ulbuff.push(0x00);
            ulbuff.push(0x00);
            ulbuff.push(USBEXTREME_MAGIC);
            proof {
                assert(ulbuff@ =~= catalog_bytes(prefix) + spec_compose(
                    self.game_list@[i as int].opl_name@,
                    32,
                ) + seq![0x75u8, 0x6cu8, 0x2eu8] + spec_compose(
                    self.game_list@[i as int].spec_serial(),
                    12,
                ) + seq![
                    (self.game_list@[i as int].chunks@.len() % 256) as u8,
                    0x14u8,
                ] + zero_bytes(4) + seq![0x08u8] + zero_bytes(0));
            }
            let mut pad: usize = 0;
            while pad < 10
                invariant
                    pad <= 10,
                    ulbuff@ == catalog_bytes(prefix) + spec_compose(
                        self.game_list@[i as int].opl_name@,
                        32,
                    ) + seq![0x75u8, 0x6cu8, 0x2eu8] + spec_compose(
                        self.game_list@[i as int].spec_serial(),
                        12,
                    ) + seq![
                        (self.game_list@[i as int].chunks@.len() % 256) as u8,
                        0x14u8,
                    ] + zero_bytes(4) + seq![0x08u8] + zero_bytes(pad as int),
                    i < self.game_list@.len(),
                    prefix == self.game_list@.subrange(0, i as int),
                decreases 10 - pad,
            {
                ulbuff.push(0x00);
                proof {
                    assert(zero_bytes(pad + 1) =~= zero_bytes(pad as int).push(0u8));
                }
                pad += 1;
            }
            proof {
                let next = self.game_list@.subrange(0, i + 1);
                assert(next.drop_last() =~= prefix);
                assert(next.last() == self.game_list@[i as int]);
                assert(ulbuff@ =~= catalog_bytes(next));
            }
            i += 1;
        }
        proof {
            assert(self.game_list@.subrange(0, self.game_list@.len() as int)
                =~= self.game_list@);
        }
        ulbuff
    }

    /// Parses a catalog file and rebuilds every entry from the given
    /// directory listing.
    ///
    /// The file is read in 64-byte records; a short tail is ignored. Each
    /// record contributes its display name; the entry's fragments are
    /// rediscovered from the listing by the recomputed hash tag, and the
    /// entry is marked `NO DATA` when none were found, `LOST DATA` when
    /// the count disagrees with the record, and healthy otherwise. Fails
    /// with `InvalidData` exactly when some record's name field is not
    /// valid UTF-8.
    pub fn load(data: &Vec<u8>, files: &Vec<String>) -> (r: Result<Ulcfg, UlError>)
        ensures
            match r {
                Ok(c) => {
                    &&& c.game_list@.len() == record_count(data@)
                    &&& c.states@.len() == record_count(data@)
                    &&& forall|k: int|
                        0 <= k < record_count(data@) ==> valid_utf8(
                            #[trigger] record_name_bytes(data@, k),
                        )
                    &&& forall|k: int|
                        0 <= k < record_count(data@) ==> discovered_entry(
                            #[trigger] c.game_list@[k],
                            files@,
                            decode_utf8(record_name_bytes(data@, k)),
                        )
                    &&& forall|k: int|
                        0 <= k < record_count(data@) ==> expected_status(
                            #[trigger] c.states@[k],
                            c.game_list@[k].chunks@.len() as int,
                            record_chunk_count(data@, k),
                        )
                },
                Err(e) => {
                    &&& e == UlError::InvalidData
                    &&& exists|k: int|
                        0 <= k < record_count(data@) && !valid_utf8(
                            #[trigger] record_name_bytes(data@, k),
                        )
                },
            },
    {
        let n_records = data.len() / UL_GAME_SIZE;
        let mut game_list: Vec<Game> = Vec::new();
        let mut states: Vec<GameStatus> = Vec::new();
        let mut k: usize = 0;
        while k < n_records
            invariant
                k <= n_records,
                n_records == record_count(data@),
                data@.len() <= usize::MAX,
                game_list@.len() == k,
                states@.len() == k,
                forall|t: int|
                    0 <= t < k ==> valid_utf8(#[trigger] record_name_bytes(data@, t)),
                forall|t: int|
                    0 <= t < k ==> discovered_entry(
                        #[trigger] game_list@[t],
                        files@,
                        decode_utf8(record_name_bytes(data@, t)),
                    ),
                forall|t: int|
                    0 <= t < k ==> expected_status(
                        #[trigger] states@[t],
                        game_list@[t].chunks@.len() as int,
                        record_chunk_count(data@, t),
                    ),
            decreases n_records - k,
        {
            proof {
                let l = data@.len() as int;
                vstd::arithmetic::div_mod::lemma_fundamental_div_mod(l, 64);
                vstd::arithmetic::mul::lemma_mul_inequality(k as int + 1, l / 64, 64);
                vstd::arithmetic::mul::lemma_mul_is_commutative(l / 64, 64);
                vstd::arithmetic::mul::lemma_mul_is_distributive_add_other_way(
                    64,
                    k as int,
                    1,
                );
                assert(k as int * 64 + 64 <= l);
                assert(k as int * UL_GAME_SIZE as int + UL_GAME_SIZE as int <= data@.len());
            }
            let base = k * UL_GAME_SIZE;
            let opl_name = match try_parse_to_string(
                data.as_slice(),
                base,
                UL_GAME_NAME_SIZE,
            ) {
                Some(s) => s,
                None => {
                    proof {
                        assert(!valid_utf8(record_name_bytes(data@, k as int)));
                    }
                    return Err(UlError::InvalidData);
                },
            };
            let ghost name_view = opl_name@;
            proof {
                assert(name_view == decode_utf8(record_name_bytes(data@, k as int)));
            }
            let game = Game::from_config(files, opl_name);

            let mut state = GameStatus::Good;
            if game.num_chunks() == 0 {
                state = GameStatus::from("NO DATA");
            } else if game.num_chunks() != data[base + UL_GAME_CHUNK_COUNT] {
                state = GameStatus::from("LOST DATA");
            }

            game_list.push(game);
            states.push(state);
            k += 1;
        }
        Ok(Ulcfg { game_list, states })
    }

    /// Registers a new game: builds an entry for the source image and
    /// plans its split, appending the entry to the catalog.
    ///
    /// The caller supplies the image's path, size, serial and the free
    /// space of the destination, and carries the returned plan out. Fails
    /// with `OutOfMemory` when the image does not fit the free space, and
    /// with `InvalidInput` when the display name encodes to more than 32
    /// bytes; the catalog is then untouched.
    pub fn add_game(
        &mut self,
        iso_path: String,
        opl_name: String,
        image_size: u64,
        free_space: u64,
        serial: &String,
    ) -> (r: Result<Vec<ChunkPlan>, UlError>)
        ensures
            match r {
                Ok(plans) => {
                    &&& image_size < free_space
                    &&& encode_utf8(opl_name@).len() <= 32
                    &&& plan_complete(plans@, name_tag(opl_name@), serial@, image_size)
                    &&& final(self).states == old(self).states
                    &&& final(self).game_list@.len() == old(self).game_list@.len() + 1
                    &&& forall|t: int|
                        0 <= t < old(self).game_list@.len() ==> final(self).game_list@[t]
                            == old(self).game_list@[t]
                    &&& final(self).game_list@.last().opl_name@ == opl_name@
                    &&& final(self).game_list@.last().crc_name@ == name_tag(opl_name@)
                    &&& final(self).game_list@.last().chunks@.len() == plans@.len()
                    &&& forall|j: int|
                        0 <= j < plans@.len() ==> (#[trigger] final(self).game_list@.last().chunks@[j]) is Game
                    &&& forall|j: int|
                        0 <= j < plans@.len() ==> (#[trigger] final(self).game_list@.last().chunks@[j]).spec_file()@ == plans@[j].name@
                },
                Err(e) => {
                    &&& *final(self) == *old(self)
                    &&& (e == UlError::OutOfMemory || e == UlError::InvalidInput)
                    &&& (e == UlError::OutOfMemory <==> image_size >= free_space)
                    &&& (e == UlError::InvalidInput <==> image_size < free_space && encode_utf8(
                        opl_name@,
                    ).len() > 32)
                },
            },
    {
        if image_size >= free_space {
            return Err(UlError::OutOfMemory);
        }
        if opl_name.as_str().as_bytes().len() > UL_GAME_NAME_SIZE {
            return Err(UlError::InvalidInput);
        }
        let mut game = Game::from_iso(iso_path, opl_name);
        let plans = match game.create_chunks(image_size, serial) {
            Ok(p) => p,
            Err(_) => unreached(),
        };
        self.game_list.push(game);
        Ok(plans)
    }

    /// Removes entry `index` from the catalog and hands back the paths of
    /// its chunk files, for the caller to remove from disk.
    fn delete_game(&mut self, index: usize) -> (r: Vec<String>)
        requires
            index < old(self).game_list@.len(),
        ensures
            final(self).game_list@ == old(self).game_list@.remove(index as int),
            final(self).states == old(self).states,
            r@ == chunk_files(old(self).game_list@[index as int].chunks@),
    {
        let game = self.game_list.remove(index);
        game.delete_chunks()
    }

    /// Deletes the first entry whose display name equals `name`, handing
    /// back the paths of its chunk files; entries after it move down one
    /// index. Fails with `InvalidInput`, leaving the catalog unchanged,
    /// exactly when no entry has that name.
    pub fn delete_game_by_name(&mut self, name: String) -> (r: Result<Vec<String>, UlError>)
        ensures
            match r {
                Ok(paths) => {
                    &&& name_index(old(self).game_list@, name@) < old(self).game_list@.len()
                    &&& final(self).game_list@ == old(self).game_list@.remove(
                        name_index(old(self).game_list@, name@),
                    )
                    &&& final(self).states == old(self).states
                    &&& paths@ == chunk_files(
                        old(self).game_list@[name_index(old(self).game_list@, name@)].chunks@,
                    )
                },
                Err(e) => {
                    &&& e == UlError::InvalidInput
                    &&& name_index(old(self).game_list@, name@) == old(self).game_list@.len()
                    &&& *final(self) == *old(self)
                },
            },
    {
        let mut index: usize = 0;
        while index < self.game_list.len()
            invariant
                *self == *old(self),
                index <= self.game_list@.len(),
                forall|t: int| 0 <= t < index ==> (#[trigger] self.game_list@[t]).opl_name@
                    != name@,
            decreases self.game_list@.len() - index,
        {
            if self.game_list[index].opl_name == name {
                proof {
                    lemma_name_index_at(self.game_list@, name@, index as int);
                }
                let paths = self.delete_game(index);
                return Ok(paths);
            }
            index += 1;
        }
        proof {
            lemma_name_index_at(self.game_list@, name@, self.game_list@.len() as int);
        }
        Err(UlError::InvalidInput)
    }

    /// Deletes the entry at `index`, handing back the paths of its chunk
    /// files; entries after it move down one index. Fails with
    /// `InvalidInput`, leaving the catalog unchanged, exactly when the
    /// index is out of range.
    pub fn delete_game_by_index(&mut self, index: usize) -> (r: Result<Vec<String>, UlError>)
        ensures
            match r {
                Ok(paths) => {
                    &&& index < old(self).game_list@.len()
                    &&& final(self).game_list@ == old(self).game_list@.remove(index as int)
                    &&& final(self).states == old(self).states
                    &&& paths@ == chunk_files(old(self).game_list@[index as int].chunks@)
                },
                Err(e) => {
                    &&& e == UlError::InvalidInput
                    &&& index >= old(self).game_list@.len()
                    &&& *final(self) == *old(self)
                },
            },
    {
        if index >= self.game_list.len() {
            return Err(UlError::InvalidInput);
        }
        let paths = self.delete_game(index);
        Ok(paths)
    }
}

/// The position of the first entry whose display name is `name`, or the
/// list's length when none has it.
pub open spec fn name_index(games: Seq<Game>, name: Seq<char>) -> int
    decreases games.len(),
{
    if games.len() == 0 {
        0
    } else if games[0].opl_name@ == name {
        0
    } else {
        1 + name_index(games.drop_first(), name)
    }
}

/// Round-trip law for the record codec: the bytes a catalog serializes to
/// parse back, record for record, to the same display names and fragment
/// counts, whenever every entry fits its record and no display name ends
/// in a null character.
#[verifier::rlimit(50)]
pub proof fn lemma_catalog_roundtrip(games: Seq<Game>)
    requires
        forall|i: int| 0 <= i < games.len() ==> game_fits_record(#[trigger] games[i]),
        forall|i: int|
            0 <= i < games.len() ==> ((#[trigger] games[i]).opl_name@.len() == 0
                || games[i].opl_name@.last() != '\0'),
    ensures
        catalog_bytes(games).len() == 64 * games.len(),
        record_count(catalog_bytes(games)) == games.len(),
        forall|k: int|
            0 <= k < games.len() ==> valid_utf8(
                #[trigger] record_name_bytes(catalog_bytes(games), k),
            ),
        forall|k: int|
            0 <= k < games.len() ==> decode_utf8(
                #[trigger] record_name_bytes(catalog_bytes(games), k),
            ) == games[k].opl_name@,
        forall|k: int|
            0 <= k < games.len() ==> (#[trigger] record_chunk_count(
                catalog_bytes(games),
                k,
            )) as int == games[k].chunks@.len() % 256,
    decreases games.len(),
{
    if games.len() == 0 {
        vstd::arithmetic::div_mod::lemma_div_of0(64);
    } else {
        let n = games.len() as int;
        let prev = games.drop_last();
        assert(forall|i: int| 0 <= i < prev.len() ==> prev[i] == games[i]);
        lemma_catalog_roundtrip(prev);
        let g = games.last();
        let data = catalog_bytes(games);
        let pdata = catalog_bytes(prev);
        let rec = game_record(g);
        let name = g.opl_name@;
        let serial = g.spec_serial();
        assert(spec_compose(name, 32).len() == 32);
        assert(spec_compose(serial, 12).len() == 12);
        assert(rec.len() == 64);
        assert(data == pdata + rec);
        assert(data.len() == 64 * n) by {
            assert(64 * (n - 1) + 64 == 64 * n) by {
                vstd::arithmetic::mul::lemma_mul_is_distributive_sub(64, n, 1);
            }
        }
        assert(record_count(data) == n) by {
            vstd::arithmetic::div_mod::lemma_div_multiples_vanish(n, 64);
        }
        lemma_compose_parse_roundtrip(name, 32);
        assert forall|k: int| 0 <= k < n implies {
            &&& valid_utf8(#[trigger] record_name_bytes(data, k))
            &&& decode_utf8(record_name_bytes(data, k)) == games[k].opl_name@
            &&& record_chunk_count(data, k) as int == games[k].chunks@.len() % 256
        } by {
            if k < n - 1 {
                assert(64 * k + 64 <= 64 * (n - 1)) by {
                    vstd::arithmetic::mul::lemma_mul_inequality(k + 1, n - 1, 64);
                    vstd::arithmetic::mul::lemma_mul_is_distributive_add_other_way(64, k, 1);
                    vstd::arithmetic::mul::lemma_mul_is_commutative(k + 1, 64);
                    vstd::arithmetic::mul::lemma_mul_is_commutative(n - 1, 64);
                }
                assert(data.subrange(64 * k, 64 * k + 32) =~= pdata.subrange(
                    64 * k,
                    64 * k + 32,
                ));
                assert(record_name_bytes(data, k) == record_name_bytes(pdata, k));
                assert(valid_utf8(record_name_bytes(pdata, k)));
                assert(decode_utf8(record_name_bytes(pdata, k)) == prev[k].opl_name@);
                assert(data[64 * k + 47] == pdata[64 * k + 47]);
                assert(record_chunk_count(pdata, k) as int == prev[k].chunks@.len() % 256);
                assert(prev[k] == games[k]);
            } else {
                assert(k == n - 1);
                assert(64 * k == pdata.len());
                assert forall|t: int| 0 <= t < 32 implies data[64 * k + t] == spec_compose(
                    name,
                    32,
                )[t] by {
                    assert(data[64 * k + t] == rec[t]);
                }
                assert(data.subrange(64 * k, 64 * k + 32) =~= spec_compose(name, 32));
                assert(record_name_bytes(data, k) == strip_trailing_nulls(spec_compose(name, 32)));
                assert(spec_compose(name, 32).subrange(0, 32) =~= spec_compose(name, 32));
                assert(decode_utf8(strip_trailing_nulls(spec_compose(name, 32))) == name);
                assert(rec[47] == (g.chunks@.len() % 256) as u8);
                assert(data[64 * k + 47] == rec[47]);
            }
        }
        assert forall|k: int| 0 <= k < n implies (#[trigger] record_chunk_count(data, k)) as int
            == games[k].chunks@.len() % 256 by {
            assert(valid_utf8(record_name_bytes(data, k)));
        }
    }
}

/// An entry rebuilt from a directory listing that holds exactly the
/// fragments of an earlier entry is that entry again: same name, same
/// fragment filenames in the same order, and so the same serial and
/// count.
pub proof fn lemma_rediscovered_entry(g: Game, g2: Game, files: Seq<String>)
    requires
        forall|j: int| 0 <= j < g.chunks@.len() ==> (#[trigger] g.chunks@[j]) is Game,
        names_sorted(chunk_files(g.chunks@)),
        views_of(matching_files(files, name_tag(g.opl_name@))).to_multiset() == views_of(
            chunk_files(g.chunks@),
        ).to_multiset(),
        discovered_entry(g2, files, g.opl_name@),
    ensures
        g2.opl_name@ == g.opl_name@,
        g2.chunks@.len() == g.chunks@.len(),
        views_of(chunk_files(g2.chunks@)) == views_of(chunk_files(g.chunks@)),
        g2.spec_serial() == g.spec_serial(),
{
    let cf = chunk_files(g.chunks@);
    let cf2 = chunk_files(g2.chunks@);
    assert(names_sorted(cf2)) by {
        assert forall|i: int, j: int| 0 <= i <= j < cf2.len() implies crate::iso::lex_le(
            cf2[i]@,
            cf2[j]@,
        ) by {
            assert(0 <= i <= j < g2.chunks@.len());
        }
    }
    lemma_sorted_names_unique(cf2, cf);
    assert(views_of(cf2).len() == cf2.len());
    assert(views_of(cf).len() == cf.len());
    assert(g2.chunks@.len() == g.chunks@.len());
    if g.chunks@.len() == 0 {
    } else {
        assert(cf2[0]@ == cf[0]@) by {
            assert(views_of(cf2)[0] == views_of(cf)[0]);
        }
        let c0 = g.chunks@[0];
        let d0 = g2.chunks@[0];
        assert(cf[0] == c0.spec_file());
        assert(cf2[0] == d0.spec_file());
        assert(c0 is Game);
        assert(d0 is Game);
        match c0 {
            Chunk::Game(c) => match d0 {
                Chunk::Game(d) => {
                    assert(d.path@ == c.path@);
                },
                Chunk::Iso(_) => {
                    assert(false);
                },
            },
            Chunk::Iso(_) => {
                assert(false);
            },
        }
    }
}

/// Round-trip law for the whole catalog: loading back a saved catalog
/// yields one entry per saved entry, with the same display name, serial
/// and fragment count, whenever every entry fits its record, no display
/// name ends in a null character, each entry's chunks are sorted fragment
/// files, and the directory listing holds exactly each entry's fragments.
/// `loaded` stands for any catalog that `load` returned for `save`'s
/// bytes and that listing.
pub proof fn lemma_save_load_roundtrip(games: Seq<Game>, loaded: Ulcfg, files: Seq<String>)
    requires
        forall|i: int| 0 <= i < games.len() ==> game_fits_record(#[trigger] games[i]),
        forall|i: int|
            0 <= i < games.len() ==> ((#[trigger] games[i]).opl_name@.len() == 0
                || games[i].opl_name@.last() != '\0'),
        forall|i: int, j: int|
            0 <= i < games.len() && 0 <= j < games[i].chunks@.len()
                ==> (#[trigger] games[i].chunks@[j]) is Game,
        forall|i: int| 0 <= i < games.len() ==> names_sorted(
            chunk_files((#[trigger] games[i]).chunks@),
        ),
        forall|i: int|
            0 <= i < games.len() ==> views_of(
                matching_files(files, name_tag((#[trigger] games[i]).opl_name@)),
            ).to_multiset() == views_of(chunk_files(games[i].chunks@)).to_multiset(),
        loaded.game_list@.len() == record_count(catalog_bytes(games)),
        forall|k: int|
            0 <= k < record_count(catalog_bytes(games)) ==> discovered_entry(
                #[trigger] loaded.game_list@[k],
                files,
                decode_utf8(record_name_bytes(catalog_bytes(games), k)),
            ),
    ensures
        loaded.game_list@.len() == games.len(),
        forall|k: int|
            0 <= k < games.len() ==> (#[trigger] loaded.game_list@[k]).opl_name@
                == games[k].opl_name@,
        forall|k: int|
            0 <= k < games.len() ==> (#[trigger] loaded.game_list@[k]).spec_serial()
                == games[k].spec_serial(),
        forall|k: int|
            0 <= k < games.len() ==> (#[trigger] loaded.game_list@[k]).chunks@.len()
                == games[k].chunks@.len(),
{
    lemma_catalog_roundtrip(games);
    assert forall|k: int| 0 <= k < games.len() implies {
        &&& (#[trigger] loaded.game_list@[k]).opl_name@ == games[k].opl_name@
        &&& loaded.game_list@[k].spec_serial() == games[k].spec_serial()
        &&& loaded.game_list@[k].chunks@.len() == games[k].chunks@.len()
    } by {
        assert(decode_utf8(record_name_bytes(catalog_bytes(games), k))
            == games[k].opl_name@);
        lemma_rediscovered_entry(games[k], loaded.game_list@[k], files);
    }
}

proof fn lemma_name_index_at(games: Seq<Game>, name: Seq<char>, i: int)
    requires
        0 <= i <= games.len(),
        forall|t: int| 0 <= t < i ==> (#[trigger] games[t]).opl_name@ != name,
        i == games.len() || games[i].opl_name@ == name,
    ensures
        name_index(games, name) == i,
    decreases i, games.len(),
{
    if i > 0 {
        assert(games[0].opl_name@ != name);
        lemma_name_index_at(games.drop_first(), name, i - 1);
    }
}

} // verus!
