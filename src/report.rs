use vstd::prelude::*;
use crate::counter::{Counts, Measure};
use crate::options::Selection;

verus! {

broadcast use vstd::seq_lib::group_to_multiset_ensures;

pub open spec fn measure_zero() -> Measure {
    Measure { bytes: 0, characters: 0, words: 0, lines: 0, longest_line: 0 }
}

/// Adds one row to a running total: the counters are summed, the longest
/// line is the larger of the two.
pub open spec fn add_row(t: Measure, r: Measure) -> Measure {
    Measure {
        bytes: t.bytes + r.bytes,
        characters: t.characters + r.characters,
        words: t.words + r.words,
        lines: t.lines + r.lines,
        longest_line: if r.longest_line > t.longest_line {
            r.longest_line
        } else {
            t.longest_line
        },
    }
}

/// The total of a list of rows: pointwise sums, and the pointwise maximum of
/// the longest line.
pub open spec fn total_model(rows: Seq<Measure>) -> Measure
    decreases rows.len(),
{
    if rows.len() == 0 {
        measure_zero()
    } else {
        add_row(total_model(rows.drop_last()), rows.last())
    }
}

pub open spec fn views(rows: Seq<Counts>) -> Seq<Measure> {
    rows.map_values(|c: Counts| c@)
}

/// Every counter of `m` fits in a `u64`.
pub open spec fn fits_u64(m: Measure) -> bool {
    &&& m.bytes <= u64::MAX
    &&& m.characters <= u64::MAX
    &&& m.words <= u64::MAX
    &&& m.lines <= u64::MAX
    &&& m.longest_line <= u64::MAX
}

/// A total row is printed only when there is more than one input.
pub open spec fn shows_total(n: nat) -> bool {
    n > 1
}

pub fn needs_total(n: usize) -> (r: bool)
    ensures
        r == shows_total(n as nat),
{
    n > 1
}

/// The numbers of a report row, in the fixed order lines, words,
/// characters or bytes, longest line; only the enabled ones, and characters
/// in place of bytes when both are enabled.
pub open spec fn row_fields_spec(c: Counts, sel: Selection) -> Seq<u64> {
    (if sel.lines {
        seq![c.lines]
    } else {
        seq![]
    }) + (if sel.words {
        seq![c.words]
    } else {
        seq![]
    }) + (if sel.characters {
        seq![c.characters]
    } else if sel.bytes {
        seq![c.bytes]
    } else {
        seq![]
    }) + (if sel.longest_line {
        seq![c.longest_line]
    } else {
        seq![]
    })
}

pub fn row_fields(c: &Counts, sel: &Selection) -> (r: Vec<u64>)
    ensures
        r@ == row_fields_spec(*c, *sel),
{
    let mut v: Vec<u64> = Vec::new();
    if sel.lines {
        v.push(c.lines);
    }
    let ghost a = v@;
    if sel.words {
        v.push(c.words);
    }
    let ghost b = v@;
    if sel.characters {
        v.push(c.characters);
    } else if sel.bytes {
        v.push(c.bytes);
    }
    let ghost d = v@;
    if sel.longest_line {
        v.push(c.longest_line);
    }
    proof {
        let part_lines: Seq<u64> = if sel.lines { seq![c.lines] } else { seq![] };
        let part_words: Seq<u64> = if sel.words { seq![c.words] } else { seq![] };
        let part_size: Seq<u64> = if sel.characters {
            seq![c.characters]
        } else if sel.bytes {
            seq![c.bytes]
        } else {
            seq![]
        };
        let part_longest: Seq<u64> = if sel.longest_line { seq![c.longest_line] } else { seq![] };
        assert(a =~= part_lines);
        assert(b =~= part_lines + part_words);
        assert(d =~= part_lines + part_words + part_size);
        assert(v@ =~= part_lines + part_words + part_size + part_longest);
    }
    v
}

/// Number of decimal digits of `n`.
pub open spec fn digits(n: nat) -> nat
    decreases n,
{
    if n < 10 {
        1
    } else {
        1 + digits(n / 10)
    }
}

pub fn digit_count(n: u64) -> (r: u64)
    ensures
        r == digits(n as nat),
{
    let mut m = n;
    let mut k: u64 = 1;
    while m >= 10
        invariant
            k + digits(m as nat) == digits(n as nat) + 1,
            k + m <= n + 1,
            k >= 1,
        decreases m,
    {
        m = m / 10;
        k = k + 1;
    }
    k
}

/// The width of column `col` of the report: the most digits of any number
/// in that column, and at least one. Rows too short to reach the column are
/// passed over.
pub fn column_width(rows: &Vec<Vec<u64>>, col: usize) -> (r: u64)
    ensures
        r >= 1,
        forall|i: int|
            0 <= i < rows@.len() && col < rows@[i]@.len() ==> digits(rows@[i]@[col as int] as nat)
                <= r,
        r == 1 || exists|i: int|
            0 <= i < rows@.len() && col < rows@[i]@.len() && digits(rows@[i]@[col as int] as nat)
                == r,
{
    let mut w: u64 = 1;
    let mut i: usize = 0;
    while i < rows.len()
        invariant
            i <= rows@.len(),
            w >= 1,
            forall|a: int|
                0 <= a < i && col < rows@[a]@.len() ==> digits(rows@[a]@[col as int] as nat) <= w,
            w == 1 || exists|a: int|
                0 <= a < i && col < rows@[a]@.len() && digits(rows@[a]@[col as int] as nat) == w,
        decreases rows.len() - i,
    {
        if col < rows[i].len() {
            let d = digit_count(rows[i][col]);
            if d > w {
                w = d;
            }
        }
        i = i + 1;
    }
    w
}

proof fn lemma_total_prefix(rows: Seq<Measure>, i: int)
    requires
        0 <= i <= rows.len(),
    ensures
        total_model(rows.subrange(0, i)).bytes <= total_model(rows).bytes,
        total_model(rows.subrange(0, i)).characters <= total_model(rows).characters,
        total_model(rows.subrange(0, i)).words <= total_model(rows).words,
        total_model(rows.subrange(0, i)).lines <= total_model(rows).lines,
        total_model(rows.subrange(0, i)).longest_line <= total_model(rows).longest_line,
    decreases rows.len(),
{
    if i < rows.len() {
        assert(rows.drop_last().subrange(0, i) =~= rows.subrange(0, i));
        lemma_total_prefix(rows.drop_last(), i);
    } else {
        assert(rows.subrange(0, i) =~= rows);
    }
}

/// The total row of a list of rows; `None` when a sum passes `u64::MAX`.
pub fn total(rows: &Vec<Counts>) -> (r: Option<Counts>)
    ensures
        r is Some <==> fits_u64(total_model(views(rows@))),
        r matches Some(t) ==> t@ == total_model(views(rows@)),
{
    let ghost vs = views(rows@);
    let mut t = Counts { bytes: 0, characters: 0, words: 0, lines: 0, longest_line: 0 };
    let mut i: usize = 0;
    proof {
        assert(vs.subrange(0, 0) =~= seq![]);
    }
    while i < rows.len()
        invariant
            i <= rows@.len(),
            vs == views(rows@),
            vs.len() == rows@.len(),
            t@ == total_model(vs.subrange(0, i as int)),
        decreases rows.len() - i,
    {
        let r = rows[i];
        proof {
            assert(vs.subrange(0, i + 1).drop_last() =~= vs.subrange(0, i as int));
            assert(vs.subrange(0, i + 1).last() == r@);
            lemma_total_prefix(vs, i + 1);
        }
        if t.bytes > u64::MAX - r.bytes || t.characters > u64::MAX - r.characters || t.words
            > u64::MAX - r.words || t.lines > u64::MAX - r.lines {
            return None;
        }
        t = Counts {
            bytes: t.bytes + r.bytes,
            characters: t.characters + r.characters,
            words: t.words + r.words,
            lines: t.lines + r.lines,
            longest_line: if r.longest_line > t.longest_line {
                r.longest_line
            } else {
                t.longest_line
            },
        };
        i = i + 1;
    }
    proof {
        assert(vs.subrange(0, rows@.len() as int) =~= vs);
    }
    Some(t)
}

proof fn lemma_total_remove(rows: Seq<Measure>, i: int)
    requires
        0 <= i < rows.len(),
    ensures
        total_model(rows) == add_row(total_model(rows.remove(i)), rows[i]),
    decreases rows.len(),
{
    if i == rows.len() - 1 {
        assert(rows.remove(i) =~= rows.drop_last());
    } else {
        let p = rows.drop_last();
        lemma_total_remove(p, i);
        assert(rows.remove(i).drop_last() =~= p.remove(i));
        assert(rows.remove(i).last() == rows.last());
        assert(p[i] == rows[i]);
    }
}

/// The rows' total is the pointwise sum of the rows, with the pointwise
/// maximum for the longest line: each counter of the total is the sum (or
/// the maximum) of that counter over every row.
pub proof fn law_total_is_pointwise(rows: Seq<Measure>)
    ensures
        forall|i: int|
            0 <= i < rows.len() ==> #[trigger] rows[i].longest_line <= total_model(
                rows,
            ).longest_line,
        rows.len() > 0 ==> exists|i: int|
            0 <= i < rows.len() && #[trigger] rows[i].longest_line == total_model(
                rows,
            ).longest_line,
        rows.len() == 0 ==> total_model(rows) == measure_zero(),
        forall|i: int|
            0 <= i < rows.len() ==> total_model(rows) == add_row(
                total_model(#[trigger] rows.remove(i)),
                rows[i],
            ),
    decreases rows.len(),
{
    if rows.len() > 0 {
        let p = rows.drop_last();
        law_total_is_pointwise(p);
        assert forall|i: int| 0 <= i < rows.len() implies #[trigger] rows[i].longest_line
            <= total_model(rows).longest_line by {
            if i < p.len() {
                assert(p[i] == rows[i]);
            }
        }
        if p.len() == 0 || rows.last().longest_line > total_model(p).longest_line {
            assert(rows[rows.len() - 1].longest_line == total_model(rows).longest_line);
        } else {
            let k = choose|k: int| 0 <= k < p.len() && #[trigger] p[k].longest_line == total_model(
                p,
            ).longest_line;
            assert(p[k] == rows[k]);
            assert(rows[k].longest_line == total_model(rows).longest_line);
        }
        assert forall|i: int| 0 <= i < rows.len() implies total_model(rows) == add_row(
            total_model(#[trigger] rows.remove(i)),
            rows[i],
        ) by {
            lemma_total_remove(rows, i);
        }
    }
}

/// Reordering the rows leaves the total unchanged.
pub proof fn law_total_order_free(a: Seq<Measure>, b: Seq<Measure>)
    requires
        a.to_multiset() == b.to_multiset(),
    ensures
        total_model(a) == total_model(b),
    decreases b.len(),
{
    if b.len() == 0 {
        assert(a.to_multiset().len() == 0);
    } else {
        let x = b.last();
        let bp = b.drop_last();
        assert(bp.push(x) =~= b);
        assert(b.to_multiset() =~= bp.to_multiset().insert(x));
        assert(b.to_multiset().count(x) > 0);
        assert(a.contains(x));
        let i = choose|i: int| 0 <= i < a.len() && a[i] == x;
        assert(a.remove(i).to_multiset() =~= a.to_multiset().remove(x));
        assert(bp.to_multiset() =~= bp.to_multiset().insert(x).remove(x));
        law_total_order_free(a.remove(i), bp);
        lemma_total_remove(a, i);
    }
}

} // verus!
