//! Rendering of the catalog listing as a plain text table.

use vstd::prelude::*;
use vstd::string::StringSliceAdditionalSpecFns;
use vstd::utf8::encode_utf8;

verus! {

/// `n` dashes.
pub open spec fn dashes(n: int) -> Seq<char> {
    Seq::new(n as nat, |i| '-')
}

/// `n` spaces.
pub open spec fn spaces(n: int) -> Seq<char> {
    Seq::new(n as nat, |i| ' ')
}

/// The horizontal rule over the given column widths: a `+`, then for every
/// column its width plus two padding bytes of dashes and a closing `+`.
pub open spec fn hline_chars(sizes: Seq<usize>) -> Seq<char>
    decreases sizes.len(),
{
    if sizes.len() == 0 {
        seq!['+']
    } else {
        hline_chars(sizes.drop_last()) + dashes(sizes.last() + 2) + seq!['+']
    }
}

/// The cells of a row after the opening bar: every column is a space, the
/// cell text, space padding up to the column width (counted over the
/// text's UTF-8 bytes), a space and a closing bar. Columns beyond the
/// shorter of the two sequences are dropped.
pub open spec fn row_cells(cols: Seq<Seq<char>>, sizes: Seq<usize>) -> Seq<char>
    decreases cols.len(),
{
    if cols.len() == 0 || sizes.len() == 0 {
        Seq::empty()
    } else {
        seq![' '] + cols[0] + spaces(sizes[0] - encode_utf8(cols[0]).len()) + seq![' ', '|']
            + row_cells(cols.drop_first(), sizes.drop_first())
    }
}

/// A full row: the opening bar and the cells.
pub open spec fn row_chars(cols: Seq<Seq<char>>, sizes: Seq<usize>) -> Seq<char> {
    seq!['|'] + row_cells(cols, sizes)
}

/// Renders the horizontal rule of a table with the given column widths.
pub fn make_hline(col_sizes: &[usize]) -> (r: String)
    ensures
        r@ == hline_chars(col_sizes@),
{
    let mut buff = String::new();
    buff.append("+");
    proof {
        reveal_strlit("+");
        assert(buff@ =~= hline_chars(col_sizes@.subrange(0, 0)));
    }
    let mut i: usize = 0;
    while i < col_sizes.len()
        invariant
            i <= col_sizes@.len(),
            buff@ == hline_chars(col_sizes@.subrange(0, i as int)),
        decreases col_sizes@.len() - i,
    {
        let ghost prefix = col_sizes@.subrange(0, i as int);
        let size = col_sizes[i];
        buff.append("--");
        proof {
            reveal_strlit("--");
            assert(buff@ =~= hline_chars(prefix) + dashes(2));
        }
        let mut k: usize = 0;
        while k < size
            invariant
                k <= size,
                buff@ == hline_chars(prefix) + dashes(2 + k),
            decreases size - k,
        {
            buff.append("-");
            proof {
                reveal_strlit("-");
                assert(buff@ =~= hline_chars(prefix) + dashes(2 + k + 1));
            }
            k += 1;
        }
        buff.append("+");
        proof {
            reveal_strlit("-");
            reveal_strlit("--");
            reveal_strlit("+");
            assert(hline_chars(prefix) + dashes(2) =~= hline_chars(prefix) + "--"@);
            let next = col_sizes@.subrange(0, i + 1);
            assert(next.drop_last() =~= prefix);
            assert(next.last() == size);
            assert(buff@ =~= hline_chars(next));
        }
        i += 1;
    }
    proof {
        assert(col_sizes@.subrange(0, col_sizes@.len() as int) =~= col_sizes@);
    }
    buff
}

/// Renders one table row over the given column widths.
///
/// Every cell's byte length must fit its column width.
pub fn make_row(cols: Vec<String>, col_sizes: &[usize]) -> (r: String)
    requires
        forall|i: int|
            0 <= i < cols@.len() && i < col_sizes@.len() ==> (#[trigger] encode_utf8(
                cols@[i]@,
            )).len() <= col_sizes@[i],
    ensures
        r@ == row_chars(cols.deep_view(), col_sizes@),
{
    let n = if cols.len() < col_sizes.len() {
        cols.len()
    } else {
        col_sizes.len()
    };
    let ghost colsv = cols.deep_view();
    let ghost sizesv = col_sizes@;
    proof {
        assert(colsv.len() == cols@.len());
    }
    let mut buff = String::new();
    buff.append("|");
    proof {
        reveal_strlit("|");
        assert(buff@ =~= seq!['|']);
        assert(colsv.skip(0) =~= colsv);
        assert(sizesv.skip(0) =~= sizesv);
        assert(buff@ + row_cells(colsv, sizesv) =~= row_chars(colsv, sizesv));
    }
    let mut i: usize = 0;
    while i < n
        invariant
            i <= n,
            n <= cols@.len(),
            n <= col_sizes@.len(),
            n == if cols@.len() < col_sizes@.len() {
                cols@.len()
            } else {
                col_sizes@.len()
            },
            colsv == cols.deep_view(),
            sizesv == col_sizes@,
            forall|j: int|
                0 <= j < cols@.len() && j < col_sizes@.len() ==> (#[trigger] encode_utf8(
                    cols@[j]@,
                )).len() <= col_sizes@[j],
            row_chars(colsv, sizesv) == buff@ + row_cells(
                colsv.skip(i as int),
                sizesv.skip(i as int),
            ),
        decreases n - i,
    {
        let ghost old_buff = buff@;
        let col = &cols[i];
        let size = col_sizes[i];
        buff.append(" ");
        buff.append(col.as_str());
        let pad = size - col.as_str().len();
        let mut k: usize = 0;
        proof {
            reveal_strlit(" ");
            assert(cols.deep_view()[i as int] == cols@[i as int]@);
            assert(buff@ =~= old_buff + seq![' '] + colsv[i as int] + spaces(0));
        }
        while k < pad
            invariant
                k <= pad,
                i < colsv.len(),
                buff@ == old_buff + seq![' '] + colsv[i as int] + spaces(k as int),
            decreases pad - k,
        {
            buff.append(" ");
            proof {
                reveal_strlit(" ");
                assert(buff@ =~= old_buff + seq![' '] + colsv[i as int] + spaces(k + 1));
            }
            k += 1;
        }
        buff.append(" |");
        proof {
            reveal_strlit(" |");
            let rest = colsv.skip(i as int);
            let sres = sizesv.skip(i as int);
            assert(rest[0] == colsv[i as int]);
            assert(sres[0] == sizesv[i as int]);
            assert(rest.drop_first() =~= colsv.skip(i + 1));
            assert(sres.drop_first() =~= sizesv.skip(i + 1));
            assert(" |"@ =~= seq![' ', '|']);
            assert(buff@ =~= old_buff + seq![' '] + colsv[i as int] + spaces(
                sizesv[i as int] - encode_utf8(colsv[i as int]).len(),
            ) + seq![' ', '|']);
            assert(row_cells(rest, sres) == seq![' '] + rest[0] + spaces(
                sres[0] - encode_utf8(rest[0]).len(),
            ) + seq![' ', '|'] + row_cells(rest.drop_first(), sres.drop_first()));
            assert(row_chars(colsv, sizesv) == buff@ + row_cells(
                colsv.skip(i + 1),
                sizesv.skip(i + 1),
            ));
        }
        i += 1;
    }
    proof {
        assert(row_cells(colsv.skip(n as int), sizesv.skip(n as int)) =~= Seq::empty());
        assert(buff@ =~= row_chars(colsv, sizesv));
    }
    buff
}

} // verus!
