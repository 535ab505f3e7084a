//! Chunks of a game: the whole source image, or one on-disk fragment file,
//! and the pure parts of working with them — deriving a serial from a
//! fragment filename and discovering a game's fragments in a directory
//! listing.

use vstd::prelude::*;
use vstd::seq_lib::*;

use crate::error::UlError;

verus! {

broadcast use {vstd::seq_lib::group_to_multiset_ensures, vstd::multiset::group_multiset_axioms};

/// A reference to an un-split source disc image, held by its path.
#[derive(Debug)]
pub struct ISOChunk {
    pub path: String,
}

/// A reference to one fragment file, held by its filename.
///
/// A fragment filename has five dot-separated segments: the fixed prefix,
/// the name-hash tag, the serial stem, the serial suffix and the index,
/// e.g. `ul.84BA9D95.SLXS_123.45.00`.
#[derive(Debug)]
pub struct GameChunk {
    pub path: String,
}

/// A chunk of a game: either the whole source image (before splitting) or
/// one fragment file (after).
#[derive(Debug)]
pub enum Chunk {
    Iso(ISOChunk),
    Game(GameChunk),
}

impl Chunk {
    /// The path or filename the chunk refers to.
    pub open spec fn spec_file(&self) -> String {
        match self {
            Chunk::Iso(c) => c.path,
            Chunk::Game(c) => c.path,
        }
    }

    /// The path or filename the chunk refers to, as a character sequence.
    pub open spec fn spec_path(&self) -> Seq<char> {
        self.spec_file()@
    }
}

impl ISOChunk {
    /// Wraps a source image path.
    pub fn from(path: String) -> (r: ISOChunk)
        ensures
            r.path == path,
    {
        ISOChunk { path }
    }
}

/// The positions of every `.` in `s`, in increasing order.
pub open spec fn dot_positions(s: Seq<char>) -> Seq<int>
    decreases s.len(),
{
    if s.len() == 0 {
        Seq::empty()
    } else if s.last() == '.' {
        dot_positions(s.drop_last()).push(s.len() - 1)
    } else {
        dot_positions(s.drop_last())
    }
}

/// The serial encoded in a five-segment fragment filename: the third and
/// fourth segments with the dot between them, i.e. everything strictly
/// between the second and the fourth dot.
pub open spec fn chunk_serial(filename: Seq<char>) -> Seq<char>
    recommends
        dot_positions(filename).len() == 4,
{
    filename.subrange(dot_positions(filename)[1] + 1, dot_positions(filename)[3])
}

proof fn lemma_dot_positions_props(s: Seq<char>)
    ensures
        forall|i: int|
            0 <= i < dot_positions(s).len() ==> 0 <= #[trigger] dot_positions(s)[i] < s.len(),
        forall|i: int, j: int|
            0 <= i < j < dot_positions(s).len() ==> dot_positions(s)[i] < dot_positions(s)[j],
    decreases s.len(),
{
    if s.len() > 0 {
        lemma_dot_positions_props(s.drop_last());
        let dp = dot_positions(s);
        let dpl = dot_positions(s.drop_last());
        assert(s.drop_last().len() == s.len() - 1);
        if s.last() == '.' {
            assert(dp == dpl.push(s.len() - 1));
            assert forall|i: int| 0 <= i < dp.len() implies 0 <= #[trigger] dp[i] < s.len() by {
                if i < dpl.len() {
                    assert(dp[i] == dpl[i]);
                }
            }
            assert forall|i: int, j: int| 0 <= i < j < dp.len() implies dp[i] < dp[j] by {
                assert(dp[i] == dpl[i]);
                if j < dpl.len() {
                    assert(dp[j] == dpl[j]);
                }
            }
        } else {
            assert(dp == dpl);
        }
    }
}

impl GameChunk {
    /// Wraps a fragment filename.
    pub fn from(path: String) -> (r: GameChunk)
        ensures
            r.path == path,
    {
        GameChunk { path }
    }

    /// Reads the serial out of the fragment's filename.
    ///
    /// Fails with `InvalidData` exactly when the filename does not have
    /// five dot-separated segments.
    pub fn serial(&self) -> (r: Result<String, UlError>)
        ensures
            match r {
                Ok(s) => dot_positions(self.path@).len() == 4 && s@ == chunk_serial(self.path@),
                Err(e) => e == UlError::InvalidData && dot_positions(self.path@).len() != 4,
            },
    {
        let name = self.path.as_str();
        let len = name.unicode_len();
        let mut dots: Vec<usize> = Vec::new();
        let mut i: usize = 0;
        while i < len
            invariant
                i <= len,
                len == name@.len(),
                dots@.map_values(|p: usize| p as int) == dot_positions(
                    name@.subrange(0, i as int),
                ),
                forall|t: int| 0 <= t < dots@.len() ==> #[trigger] dots@[t] < i,
            decreases len - i,
        {
            let ghost prefix = name@.subrange(0, i as int);
            let c = name.get_char(i);
            if c == '.' {
                dots.push(i);
            }
            proof {
                let next = name@.subrange(0, i + 1);
                assert(next.drop_last() =~= prefix);
                assert(next.last() == name@[i as int]);
                assert(dots@.map_values(|p: usize| p as int) =~= dot_positions(next));
            }
            i += 1;
        }
        proof {
            assert(name@.subrange(0, len as int) =~= name@);
            lemma_dot_positions_props(name@);
        }
        if dots.len() != 4 {
            return Err(UlError::InvalidData);
        }
        proof {
            let dp = dot_positions(name@);
            assert(dots@[1] as int == dp[1]);
            assert(dots@[3] as int == dp[3]);
            assert(dp[1] < dp[3]);
            assert(dp[3] < name@.len());
        }
        let from = dots[1] + 1;
        let to = dots[3];
        let serial = name.substring_char(from, to);
        Ok(serial.to_owned())
    }
}

/// True when `needle` occurs contiguously inside `hay`.
pub open spec fn is_substring(hay: Seq<char>, needle: Seq<char>) -> bool {
    exists|k: int|
        0 <= k <= hay.len() - needle.len() && #[trigger] hay.subrange(k, k + needle.len())
            == needle
}

fn match_at(hay: &str, needle: &str, k: usize, n: usize) -> (r: bool)
    requires
        n == needle@.len(),
        k + n <= hay@.len(),
        hay@.len() <= usize::MAX,
    ensures
        r == (hay@.subrange(k as int, k as int + n as int) == needle@),
{
    let mut j: usize = 0;
    while j < n
        invariant
            j <= n,
            n == needle@.len(),
            k + n <= hay@.len(),
            hay@.len() <= usize::MAX,
            forall|t: int| 0 <= t < j ==> hay@[k + t] == needle@[t],
        decreases n - j,
    {
        if hay.get_char(k + j) != needle.get_char(j) {
            proof {
                let jj = j as int;
                assert(hay@.subrange(k as int, k as int + n as int)[jj] != needle@[jj]);
            }
            return false;
        }
        j += 1;
    }
    proof {
        assert(hay@.subrange(k as int, k as int + n as int) =~= needle@);
    }
    true
}

/// Decides whether `needle` occurs inside `hay`.
pub fn str_contains(hay: &str, needle: &str) -> (r: bool)
    ensures
        r == is_substring(hay@, needle@),
{
    let h = hay.unicode_len();
    let n = needle.unicode_len();
    if n > h {
        return false;
    }
    if n == 0 {
        proof {
            assert(hay@.subrange(0, 0 + needle@.len() as int) =~= needle@);
        }
        return true;
    }
    let mut k: usize = 0;
    while k <= h - n
        invariant
            1 <= n <= h,
            h == hay@.len(),
            n == needle@.len(),
            k <= h - n + 1,
            forall|t: int|
                0 <= t < k ==> #[trigger] hay@.subrange(t, t + needle@.len() as int)
                    != needle@,
        decreases h - n + 1 - k,
    {
        if match_at(hay, needle, k, n) {
            return true;
        }
        k += 1;
    }
    false
}

/// Lexicographic order on character sequences, by Unicode scalar value.
pub open spec fn lex_le(a: Seq<char>, b: Seq<char>) -> bool
    decreases a.len(),
{
    if a.len() == 0 {
        true
    } else if b.len() == 0 {
        false
    } else if (a[0] as u32) < (b[0] as u32) {
        true
    } else if (a[0] as u32) > (b[0] as u32) {
        false
    } else {
        lex_le(a.drop_first(), b.drop_first())
    }
}

/// `lex_le` is total.
pub proof fn lemma_lex_total(a: Seq<char>, b: Seq<char>)
    ensures
        lex_le(a, b) || lex_le(b, a),
    decreases a.len(),
{
    if a.len() > 0 && b.len() > 0 && (a[0] as u32) == (b[0] as u32) {
        lemma_lex_total(a.drop_first(), b.drop_first());
    }
}

/// `lex_le` is transitive.
pub proof fn lemma_lex_trans(a: Seq<char>, b: Seq<char>, c: Seq<char>)
    requires
        lex_le(a, b),
        lex_le(b, c),
    ensures
        lex_le(a, c),
    decreases a.len(),
{
    if a.len() > 0 {
        if (a[0] as u32) == (b[0] as u32) && (b[0] as u32) == (c[0] as u32) {
            lemma_lex_trans(a.drop_first(), b.drop_first(), c.drop_first());
        }
    }
}

/// Decides `lex_le` on two strings.
pub fn str_lex_le(a: &String, b: &String) -> (r: bool)
    ensures
        r == lex_le(a@, b@),
{
    let la = a.as_str().unicode_len();
    let lb = b.as_str().unicode_len();
    let mut i: usize = 0;
    proof {
        assert(a@.skip(0) =~= a@);
        assert(b@.skip(0) =~= b@);
    }
    while i < la && i < lb
        invariant
            i <= la,
            i <= lb,
            la == a@.len(),
            lb == b@.len(),
            lex_le(a@, b@) == lex_le(a@.skip(i as int), b@.skip(i as int)),
        decreases la - i,
    {
        let ca = a.as_str().get_char(i);
        let cb = b.as_str().get_char(i);
        proof {
            assert(a@.skip(i as int)[0] == a@[i as int]);
            assert(b@.skip(i as int)[0] == b@[i as int]);
        }
        if (ca as u32) < (cb as u32) {
            return true;
        }
        if (ca as u32) > (cb as u32) {
            return false;
        }
        proof {
            assert(a@.skip(i as int).drop_first() =~= a@.skip(i + 1));
            assert(b@.skip(i as int).drop_first() =~= b@.skip(i + 1));
        }
        i += 1;
    }
    proof {
        if i >= la {
            assert(a@.skip(i as int).len() == 0);
        } else {
            assert(b@.skip(i as int).len() == 0);
            assert(a@.skip(i as int).len() > 0);
        }
    }
    i >= la
}

/// `lex_le` is antisymmetric.
pub proof fn lemma_lex_antisym(a: Seq<char>, b: Seq<char>)
    requires
        lex_le(a, b),
        lex_le(b, a),
    ensures
        a == b,
    decreases a.len(),
{
    if a.len() == 0 {
        assert(a =~= b);
    } else {
        assert(b.len() > 0);
        assert((a[0] as u32) == (b[0] as u32));
        vstd::utf8::char_u32_cast(a[0], a[0] as u32);
        vstd::utf8::char_u32_cast(b[0], b[0] as u32);
        assert(a[0] == b[0]);
        lemma_lex_antisym(a.drop_first(), b.drop_first());
        assert(a.len() == b.len());
        assert forall|i: int| 0 <= i < a.len() implies a[i] == b[i] by {
            if i > 0 {
                assert(a.drop_first()[i - 1] == b.drop_first()[i - 1]);
            }
        }
        assert(a =~= b);
    }
}

/// The listing names sorted: every pair of positions is in order.
pub open spec fn names_sorted(s: Seq<String>) -> bool {
    forall|i: int, j: int| 0 <= i <= j < s.len() ==> lex_le(s[i]@, s[j]@)
}

/// The character sequences of a sequence of names.
pub open spec fn views_of(s: Seq<String>) -> Seq<Seq<char>> {
    s.map_values(|f: String| f@)
}

/// Two name sequences sorted the same way and holding the same names are
/// the same character sequences throughout.
pub proof fn lemma_sorted_names_unique(x: Seq<String>, y: Seq<String>)
    requires
        names_sorted(x),
        names_sorted(y),
        views_of(x).to_multiset() == views_of(y).to_multiset(),
    ensures
        views_of(x) == views_of(y),
{
    let leq = |a: Seq<char>, b: Seq<char>| lex_le(a, b);
    assert(vstd::relations::total_ordering(leq)) by {
        assert forall|a: Seq<char>| #[trigger] leq(a, a) by {
            lemma_lex_total(a, a);
        }
        assert forall|a: Seq<char>, b: Seq<char>| #[trigger] leq(a, b) && #[trigger] leq(
            b,
            a,
        ) implies a == b by {
            lemma_lex_antisym(a, b);
        }
        assert forall|a: Seq<char>, b: Seq<char>, c: Seq<char>|
            #[trigger] leq(a, b) && #[trigger] leq(b, c) implies leq(a, c) by {
            lemma_lex_trans(a, b, c);
        }
        assert forall|a: Seq<char>, b: Seq<char>| #[trigger] leq(a, b) || #[trigger] leq(
            b,
            a,
        ) by {
            lemma_lex_total(a, b);
        }
    }
    assert(vstd::relations::sorted_by(views_of(x), leq)) by {
        assert forall|i: int, j: int| 0 <= i < j < views_of(x).len() implies #[trigger] leq(
            views_of(x)[i],
            views_of(x)[j],
        ) by {
            assert(lex_le(x[i]@, x[j]@));
        }
    }
    assert(vstd::relations::sorted_by(views_of(y), leq)) by {
        assert forall|i: int, j: int| 0 <= i < j < views_of(y).len() implies #[trigger] leq(
            views_of(y)[i],
            views_of(y)[j],
        ) by {
            assert(lex_le(y[i]@, y[j]@));
        }
    }
    vstd::seq_lib::lemma_sorted_unique(views_of(x), views_of(y), leq);
}

/// Sorts a vector of names lexicographically by selection of the least
/// remaining name.
fn sorted_by_name(input: Vec<String>) -> (r: Vec<String>)
    ensures
        r@.to_multiset() == input@.to_multiset(),
        views_of(r@).to_multiset() == views_of(input@).to_multiset(),
        r@.len() == input@.len(),
        names_sorted(r@),
{
    let ghost orig = input@;
    let mut src = input;
    let mut out: Vec<String> = Vec::new();
    proof {
        assert(out@.to_multiset().add(src@.to_multiset()) =~= orig.to_multiset());
        assert(views_of(out@).to_multiset().add(views_of(src@).to_multiset())
            =~= views_of(orig).to_multiset());
    }
    while src.len() > 0
        invariant
            out@.to_multiset().add(src@.to_multiset()) == orig.to_multiset(),
            views_of(out@).to_multiset().add(views_of(src@).to_multiset()) == views_of(
                orig,
            ).to_multiset(),
            out@.len() + src@.len() == orig.len(),
            names_sorted(out@),
            forall|i: int, j: int|
                0 <= i < out@.len() && 0 <= j < src@.len() ==> lex_le(out@[i]@, src@[j]@),
        decreases src.len(),
    {
        let mut m: usize = 0;
        let mut j: usize = 1;
        proof {
            lemma_lex_total(src@[0]@, src@[0]@);
        }
        while j < src.len()
            invariant
                m < j,
                j <= src@.len(),
                forall|t: int| 0 <= t < j ==> lex_le(src@[m as int]@, src@[t]@),
            decreases src@.len() - j,
        {
            if !str_lex_le(&src[m], &src[j]) {
                proof {
                    lemma_lex_total(src@[m as int]@, src@[j as int]@);
                    assert forall|t: int| 0 <= t < j + 1 implies lex_le(
                        src@[j as int]@,
                        src@[t]@,
                    ) by {
                        if t < j {
                            lemma_lex_trans(src@[j as int]@, src@[m as int]@, src@[t]@);
                        } else {
                            lemma_lex_total(src@[j as int]@, src@[j as int]@);
                        }
                    }
                }
                m = j;
            }
            j += 1;
        }
        let ghost old_src = src@;
        let ghost old_out = out@;
        let x = src.remove(m);
        out.push(x);
        proof {
            assert(old_src.contains(old_src[m as int]));
            assert(old_src.to_multiset().count(old_src[m as int]) > 0);
            assert(out@.to_multiset().add(src@.to_multiset()) =~= orig.to_multiset());
            assert(views_of(src@) =~= views_of(old_src).remove(m as int));
            assert(views_of(out@) =~= views_of(old_out).push(old_src[m as int]@));
            assert(views_of(old_src).contains(views_of(old_src)[m as int]));
            assert(views_of(old_src).to_multiset().count(old_src[m as int]@) > 0);
            assert(views_of(out@).to_multiset().add(views_of(src@).to_multiset())
                =~= views_of(orig).to_multiset());
            assert forall|i: int, j2: int|
                0 <= i <= j2 < out@.len() implies lex_le(out@[i]@, out@[j2]@) by {
                if j2 < out@.len() - 1 {
                } else if i < out@.len() - 1 {
                    assert(lex_le(old_out[i]@, old_src[m as int]@));
                } else {
                    lemma_lex_total(out@[i]@, out@[i]@);
                }
            }
            assert forall|i: int, j2: int|
                0 <= i < out@.len() && 0 <= j2 < src@.len() implies lex_le(
                out@[i]@,
                src@[j2]@,
            ) by {
                let y = src@[j2];
                if j2 < m {
                    assert(old_src[j2] == y);
                } else {
                    assert(old_src[j2 + 1] == y);
                }
                if i < out@.len() - 1 {
                } else {
                    assert(out@[i] == old_src[m as int]);
                }
            }
        }
    }
    proof {
        assert(out@.to_multiset() =~= orig.to_multiset());
        assert(views_of(src@).len() == 0);
        assert(views_of(out@).to_multiset() =~= views_of(orig).to_multiset());
    }
    out
}

/// The listing entries whose name contains the tag, in listing order.
pub open spec fn matching_files(files: Seq<String>, tag: Seq<char>) -> Seq<String> {
    files.filter(|f: String| is_substring(f@, tag))
}

proof fn lemma_matching_push(files: Seq<String>, tag: Seq<char>, f: String)
    ensures
        matching_files(files.push(f), tag) == if is_substring(f@, tag) {
            matching_files(files, tag).push(f)
        } else {
            matching_files(files, tag)
        },
{
    reveal(Seq::filter);
    assert(files.push(f).drop_last() =~= files);
    assert(files.push(f).last() == f);
}

/// Picks out of a directory listing the fragment files of the game with
/// the given name-hash tag: every name that contains the tag, sorted.
///
/// Fails with `NotFound` exactly when no name matches.
pub fn list_game_chunks(files: &Vec<String>, crc_name: &String) -> (r: Result<
    Vec<String>,
    UlError,
>)
    ensures
        match r {
            Ok(chunks) => {
                &&& matching_files(files@, crc_name@).len() > 0
                &&& chunks@.len() == matching_files(files@, crc_name@).len()
                &&& chunks@.to_multiset() == matching_files(files@, crc_name@).to_multiset()
                &&& views_of(chunks@).to_multiset() == views_of(
                    matching_files(files@, crc_name@),
                ).to_multiset()
                &&& names_sorted(chunks@)
            },
            Err(e) => e == UlError::NotFound && matching_files(files@, crc_name@).len() == 0,
        },
{
    let mut kept: Vec<String> = Vec::new();
    let mut i: usize = 0;
    proof {
        assert(files@.subrange(0, 0) =~= Seq::<String>::empty());
        reveal(Seq::filter);
    }
    while i < files.len()
        invariant
            i <= files@.len(),
            kept@ == matching_files(files@.subrange(0, i as int), crc_name@),
        decreases files@.len() - i,
    {
        let ghost prefix = files@.subrange(0, i as int);
        if str_contains(files[i].as_str(), crc_name.as_str()) {
            kept.push(files[i].clone());
        }
        proof {
            lemma_matching_push(prefix, crc_name@, files@[i as int]);
            assert(files@.subrange(0, i + 1) =~= prefix.push(files@[i as int]));
        }
        i += 1;
    }
    proof {
        assert(files@.subrange(0, files@.len() as int) =~= files@);
    }
    if kept.len() == 0 {
        Err(UlError::NotFound)
    } else {
        Ok(sorted_by_name(kept))
    }
}

} // verus!
