//! Deriving a disc serial from the boot descriptor inside a disc image.
//!
//! The descriptor's first line has the shape `<tag> = <device>:\<NAME>[;1]`;
//! the serial is the trailing path segment `<NAME>`: the longest run of
//! characters free of `:`, `\` and `;` that ends the line once an optional
//! `;1` revision marker (itself optionally preceded by a stray `:`) is set
//! aside. Reading the descriptor out of the image is the caller's part;
//! this module only parses the text.

use vstd::prelude::*;

verus! {

/// The characters that delimit the boot path's segments.
pub open spec fn is_sep(c: char) -> bool {
    c == ':' || c == '\\' || c == ';'
}

/// Where the longest separator-free suffix of `s` begins (`s.len()` when
/// `s` ends with a separator or is empty).
pub open spec fn clean_start(s: Seq<char>) -> int
    decreases s.len(),
{
    if s.len() == 0 {
        0
    } else if is_sep(s.last()) {
        s.len() as int
    } else {
        clean_start(s.drop_last())
    }
}

/// True when `s` ends with the revision marker `;1`.
pub open spec fn has_revision_marker(s: Seq<char>) -> bool {
    s.len() >= 2 && s[s.len() - 2] == ';' && s[s.len() - 1] == '1'
}

/// The serial named by a boot descriptor line, if any: the longest
/// separator-free suffix once an optional trailing `;1` (and a stray `:`
/// just before it) is set aside; when nothing clean remains before the
/// marker, the marker's own `1` is the match.
pub open spec fn boot_serial(line: Seq<char>) -> Option<Seq<char>> {
    if has_revision_marker(line) {
        let stem = line.subrange(0, line.len() - 2);
        let body = if stem.len() > 0 && stem.last() == ':' {
            stem.drop_last()
        } else {
            stem
        };
        if clean_start(body) < body.len() {
            Some(body.subrange(clean_start(body), body.len() as int))
        } else {
            Some(seq!['1'])
        }
    } else {
        if clean_start(line) < line.len() {
            Some(line.subrange(clean_start(line), line.len() as int))
        } else {
            None
        }
    }
}

/// Where the longest separator-free suffix of the first `m` characters of
/// `line` begins.
fn prefix_clean_start(line: &str, m: usize) -> (r: usize)
    requires
        m <= line@.len(),
    ensures
        r == clean_start(line@.subrange(0, m as int)),
        r <= m,
{
    let mut i = m;
    while i > 0
        invariant
            i <= m <= line@.len(),
            clean_start(line@.subrange(0, m as int)) == clean_start(
                line@.subrange(0, i as int),
            ),
        decreases i,
    {
        let ghost cur = line@.subrange(0, i as int);
        if line.get_char(i - 1) == ':' || line.get_char(i - 1) == '\\' || line.get_char(i - 1)
            == ';' {
            proof {
                assert(cur.last() == line@[i - 1]);
                assert(clean_start(cur) == i);
            }
            return i;
        }
        proof {
            assert(cur.last() == line@[i - 1]);
            assert(!is_sep(cur.last()));
            assert(cur.drop_last() =~= line@.subrange(0, i - 1));
        }
        i -= 1;
    }
    proof {
        assert(line@.subrange(0, 0) =~= Seq::<char>::empty());
    }
    0
}

/// Reads the serial out of a boot descriptor line, as `boot_serial`
/// describes; `None` when the line holds no separator-free suffix.
pub fn serial_from_boot_line(line: &str) -> (r: Option<String>)
    ensures
        match r {
            Some(s) => boot_serial(line@) == Some(s@),
            None => boot_serial(line@) is None,
        },
{
    let len = line.unicode_len();
    let marked = len >= 2 && line.get_char(len - 2) == ';' && line.get_char(len - 1) == '1';
    assert(marked == has_revision_marker(line@));
    if marked {
        let ghost stem = line@.subrange(0, len - 2);
        let mut m = len - 2;
        if m > 0 && line.get_char(m - 1) == ':' {
            proof {
                assert(stem.last() == line@[m - 1]);
            }
            m -= 1;
        }
        let ghost body = line@.subrange(0, m as int);
        proof {
            if stem.len() > 0 && stem.last() == ':' {
                assert(body =~= stem.drop_last());
            } else {
                assert(body =~= stem);
            }
        }
        let cs = prefix_clean_start(line, m);
        if cs < m {
            let s = line.substring_char(cs, m);
            proof {
                assert(s@ =~= body.subrange(clean_start(body), body.len() as int));
            }
            Some(s.to_owned())
        } else {
            let one = "1".to_owned();
            proof {
                reveal_strlit("1");
                assert(one@ =~= seq!['1']);
            }
            Some(one)
        }
    } else {
        let cs = prefix_clean_start(line, len);
        if cs < len {
            let s = line.substring_char(cs, len);
            proof {
                assert(line@.subrange(0, len as int) =~= line@);
                assert(s@ =~= line@.subrange(clean_start(line@), line@.len() as int));
            }
            Some(s.to_owned())
        } else {
            proof {
                assert(line@.subrange(0, len as int) =~= line@);
            }
            None
        }
    }
}

/// Where the first line of `s` ends: at the first newline, or at the end.
pub open spec fn line_end(s: Seq<char>) -> int
    decreases s.len(),
{
    if s.len() == 0 {
        0
    } else if s[0] == '\n' {
        0
    } else {
        1 + line_end(s.drop_first())
    }
}

/// The first line of `s`: everything before the first newline, with one
/// trailing carriage return stripped.
pub open spec fn spec_first_line(s: Seq<char>) -> Seq<char> {
    let raw = s.subrange(0, line_end(s));
    if raw.len() > 0 && raw.last() == '\r' {
        raw.drop_last()
    } else {
        raw
    }
}

proof fn lemma_line_end_at(s: Seq<char>, e: int)
    requires
        0 <= e <= s.len(),
        forall|j: int| 0 <= j < e ==> s[j] != '\n',
        e == s.len() || s[e] == '\n',
    ensures
        line_end(s) == e,
    decreases e,
{
    if e == 0 {
    } else {
        assert(s[0] != '\n');
        lemma_line_end_at(s.drop_first(), e - 1);
    }
}

/// The first text line of a boot descriptor's contents.
pub fn first_line(content: &str) -> (r: String)
    ensures
        r@ == spec_first_line(content@),
{
    let len = content.unicode_len();
    let mut e: usize = 0;
    while e < len && content.get_char(e) != '\n'
        invariant
            e <= len,
            len == content@.len(),
            forall|j: int| 0 <= j < e ==> content@[j] != '\n',
        decreases len - e,
    {
        e += 1;
    }
    proof {
        lemma_line_end_at(content@, e as int);
    }
    let line = if e > 0 && content.get_char(e - 1) == '\r' {
        let ghost raw = content@.subrange(0, e as int);
        proof {
            assert(raw.last() == content@[e - 1]);
            assert(content@.subrange(0, e - 1) =~= raw.drop_last());
        }
        content.substring_char(0, e - 1)
    } else {
        content.substring_char(0, e)
    };
    line.to_owned()
}

} // verus!
