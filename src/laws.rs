use vstd::prelude::*;
use crate::tally::{
    Unit,
    TallyModel,
    tally_zero,
    tally_units,
    is_newline,
    is_space,
    unit_measure,
    width_sum,
    widths_positive,
    count_newlines,
    lemma_tally_push,
    lemma_tally_units_append,
    lemma_tally_lines,
    lemma_width_sum_append,
    lemma_count_newlines_append,
};
use crate::utf8::{decode, decode_run, decode_step, flush, carry_ok, lemma_step_facts};
use crate::counter::{CounterModel, counter_start, feed_model, finish_model, measure};

verus! {

/// Number of times the byte `b` occurs in `s`.
pub open spec fn count_byte(s: Seq<u8>, b: u8) -> nat
    decreases s.len(),
{
    if s.len() == 0 {
        0
    } else {
        count_byte(s.drop_last(), b) + if s.last() == b {
            1nat
        } else {
            0nat
        }
    }
}

/// Whether a word, a maximal run of non-whitespace characters, begins at `i`.
pub open spec fn word_starts_at(us: Seq<Unit>, i: int) -> bool {
    0 <= i < us.len() && !is_space(us[i].code) && (i == 0 || is_space(us[i - 1].code))
}

/// Number of words: of positions where a word begins.
pub open spec fn word_count(us: Seq<Unit>) -> nat
    decreases us.len(),
{
    if us.len() == 0 {
        0
    } else {
        word_count(us.drop_last()) + if word_starts_at(us, us.len() - 1) {
            1nat
        } else {
            0nat
        }
    }
}

/// `us[i..j]` is a line: it holds no newline, and is bounded on each side by
/// a newline or an end of the stream.
pub open spec fn is_line(us: Seq<Unit>, i: int, j: int) -> bool {
    &&& 0 <= i <= j <= us.len()
    &&& i == 0 || is_newline(us[i - 1].code)
    &&& j == us.len() || is_newline(us[j].code)
    &&& forall|k: int| i <= k < j ==> !is_newline(#[trigger] us[k].code)
}

/// The length of a run of characters, in characters or in bytes.
pub open spec fn line_length(us: Seq<Unit>, by_chars: bool) -> nat
    decreases us.len(),
{
    if us.len() == 0 {
        0
    } else {
        line_length(us.drop_last(), by_chars) + unit_measure(us.last(), by_chars)
    }
}

/// Feeding each chunk of a list in turn.
pub open spec fn feed_chunks(
    multibyte: bool,
    by_chars: bool,
    m: CounterModel,
    chunks: Seq<Seq<u8>>,
) -> CounterModel
    decreases chunks.len(),
{
    if chunks.len() == 0 {
        m
    } else {
        feed_chunks(
            multibyte,
            by_chars,
            feed_model(multibyte, by_chars, m, chunks.first()),
            chunks.drop_first(),
        )
    }
}

proof fn lemma_run_facts(multibyte: bool, c: Seq<u8>, x: Seq<u8>)
    requires
        carry_ok(multibyte, c),
    ensures
        carry_ok(multibyte, decode_run(multibyte, c, x).0),
        widths_positive(decode_run(multibyte, c, x).1),
        width_sum(decode_run(multibyte, c, x).1) + decode_run(multibyte, c, x).0.len() == c.len()
            + x.len(),
        count_newlines(decode_run(multibyte, c, x).1) == count_byte(x, 0x0A),
        !multibyte ==> decode_run(multibyte, c, x).1.len() == x.len(),
    decreases x.len(),
{
    if x.len() > 0 {
        lemma_run_facts(multibyte, c, x.drop_last());
        let prev = decode_run(multibyte, c, x.drop_last());
        let st = decode_step(multibyte, prev.0, x.last());
        lemma_step_facts(multibyte, prev.0, x.last());
        lemma_width_sum_append(prev.1, st.1);
        lemma_count_newlines_append(prev.1, st.1);
        assert forall|i: int| 0 <= i < (prev.1 + st.1).len() implies (prev.1 + st.1)[i].width
            >= 1 by {
            if i < prev.1.len() {
                assert((prev.1 + st.1)[i] == prev.1[i]);
            } else {
                assert((prev.1 + st.1)[i] == st.1[i - prev.1.len()]);
            }
        }
    }
}

proof fn lemma_flush_facts(c: Seq<u8>)
    requires
        c.len() < 4,
    ensures
        width_sum(flush(c)) == c.len(),
        count_newlines(flush(c)) == 0,
        widths_positive(flush(c)),
{
    if c.len() > 0 {
        let u = flush(c)[0];
        lemma_tally_push(tally_zero(), seq![], u, true);
        assert(Seq::<Unit>::empty().push(u) =~= flush(c));
    }
}

/// The characters of a whole stream: their widths add up to its length, and
/// there is a newline for each byte 0x0A.
pub proof fn lemma_decode_facts(multibyte: bool, x: Seq<u8>)
    ensures
        widths_positive(decode(multibyte, x)),
        width_sum(decode(multibyte, x)) == x.len(),
        count_newlines(decode(multibyte, x)) == count_byte(x, 0x0A),
        !multibyte ==> decode(multibyte, x).len() == x.len(),
{
    let r = decode_run(multibyte, seq![], x);
    lemma_run_facts(multibyte, seq![], x);
    lemma_flush_facts(r.0);
    lemma_width_sum_append(r.1, flush(r.0));
    lemma_count_newlines_append(r.1, flush(r.0));
    assert forall|i: int| 0 <= i < decode(multibyte, x).len() implies decode(
        multibyte,
        x,
    )[i].width >= 1 by {
        if i < r.1.len() {
            assert(decode(multibyte, x)[i] == r.1[i]);
        } else {
            assert(decode(multibyte, x)[i] == flush(r.0)[i - r.1.len()]);
        }
    }
    if !multibyte {
        assert(flush(r.0) =~= seq![]);
    }
}

/// The counters of a whole stream are those of its characters taken in order.
pub proof fn lemma_measure_tally(multibyte: bool, by_chars: bool, x: Seq<u8>)
    ensures
        ({
            let t = tally_units(tally_zero(), decode(multibyte, x), by_chars);
            let m = measure(multibyte, by_chars, x);
            &&& m.bytes == x.len()
            &&& m.characters == t.chars
            &&& m.words == t.words
            &&& m.lines == t.lines
            &&& m.longest_line == if t.line_len > t.longest {
                t.line_len
            } else {
                t.longest
            }
        }),
{
    let r = decode_run(multibyte, seq![], x);
    lemma_tally_units_append(tally_zero(), r.1, flush(r.0), by_chars);
}

proof fn lemma_tally_chars(t: TallyModel, us: Seq<Unit>, by_chars: bool)
    ensures
        tally_units(t, us, by_chars).chars == t.chars + us.len(),
    decreases us.len(),
{
    if us.len() > 0 {
        lemma_tally_chars(t, us.drop_last(), by_chars);
    }
}

proof fn lemma_len_le_width(us: Seq<Unit>)
    requires
        widths_positive(us),
    ensures
        us.len() <= width_sum(us),
    decreases us.len(),
{
    if us.len() > 0 {
        assert(us.last() == us[us.len() - 1]);
        assert forall|i: int| 0 <= i < us.drop_last().len() implies us.drop_last()[i].width
            >= 1 by {
            assert(us.drop_last()[i] == us[i]);
        }
        lemma_len_le_width(us.drop_last());
    }
}

/// A stream has at least as many bytes as characters, and exactly as many
/// when each byte is read as one character.
pub proof fn law_bytes_at_least_characters(multibyte: bool, by_chars: bool, x: Seq<u8>)
    ensures
        measure(multibyte, by_chars, x).bytes == x.len(),
        measure(multibyte, by_chars, x).characters <= measure(multibyte, by_chars, x).bytes,
        !multibyte ==> measure(multibyte, by_chars, x).characters == measure(
            multibyte,
            by_chars,
            x,
        ).bytes,
{
    lemma_measure_tally(multibyte, by_chars, x);
    lemma_decode_facts(multibyte, x);
    lemma_tally_chars(tally_zero(), decode(multibyte, x), by_chars);
    lemma_len_le_width(decode(multibyte, x));
}

proof fn lemma_len_eq_width(us: Seq<Unit>)
    requires
        widths_positive(us),
    ensures
        us.len() == width_sum(us) <==> forall|i: int| 0 <= i < us.len() ==> #[trigger] us[i].width
            == 1,
    decreases us.len(),
{
    if us.len() > 0 {
        let p = us.drop_last();
        assert(us.last() == us[us.len() - 1]);
        assert forall|i: int| 0 <= i < p.len() implies p[i].width >= 1 by {
            assert(p[i] == us[i]);
        }
        lemma_len_eq_width(p);
        lemma_len_le_width(p);
        if forall|i: int| 0 <= i < us.len() ==> #[trigger] us[i].width == 1 {
            assert forall|i: int| 0 <= i < p.len() implies #[trigger] p[i].width == 1 by {
                assert(p[i] == us[i]);
            }
        }
        if us.len() == width_sum(us) {
            assert forall|i: int| 0 <= i < us.len() implies #[trigger] us[i].width == 1 by {
                if i < p.len() {
                    assert(p[i] == us[i]);
                }
            }
        }
    }
}

/// A stream has as many characters as bytes exactly when every character
/// was read from a single byte.
pub proof fn law_characters_equal_bytes(multibyte: bool, by_chars: bool, x: Seq<u8>)
    ensures
        measure(multibyte, by_chars, x).characters == measure(multibyte, by_chars, x).bytes
            <==> forall|i: int|
            0 <= i < decode(multibyte, x).len() ==> #[trigger] decode(multibyte, x)[i].width == 1,
{
    lemma_measure_tally(multibyte, by_chars, x);
    lemma_decode_facts(multibyte, x);
    lemma_tally_chars(tally_zero(), decode(multibyte, x), by_chars);
    lemma_len_eq_width(decode(multibyte, x));
}

/// The line count is the number of newline bytes.
pub proof fn law_lines_are_newlines(multibyte: bool, by_chars: bool, x: Seq<u8>)
    ensures
        measure(multibyte, by_chars, x).lines == count_byte(x, 0x0A),
{
    lemma_measure_tally(multibyte, by_chars, x);
    lemma_decode_facts(multibyte, x);
    lemma_tally_lines(tally_zero(), decode(multibyte, x), by_chars);
}

proof fn lemma_tally_words(us: Seq<Unit>, by_chars: bool)
    ensures
        tally_units(tally_zero(), us, by_chars).words == word_count(us),
        tally_units(tally_zero(), us, by_chars).in_word == (us.len() > 0 && !is_space(
            us.last().code,
        )),
    decreases us.len(),
{
    if us.len() > 0 {
        let p = us.drop_last();
        lemma_tally_words(p, by_chars);
        if us.len() > 1 {
            assert(us[us.len() - 2] == p.last());
        }
        assert(us.last() == us[us.len() - 1]);
    }
}

/// The word count is the number of maximal runs of non-whitespace
/// characters.
pub proof fn law_words_are_runs(multibyte: bool, by_chars: bool, x: Seq<u8>)
    ensures
        measure(multibyte, by_chars, x).words == word_count(decode(multibyte, x)),
{
    lemma_measure_tally(multibyte, by_chars, x);
    lemma_tally_words(decode(multibyte, x), by_chars);
}

proof fn lemma_tally_longest(us: Seq<Unit>, by_chars: bool)
    ensures
        forall|i: int, j: int|
            #![trigger is_line(us, i, j)]
            is_line(us, i, j) && j < us.len() ==> line_length(us.subrange(i, j), by_chars)
                <= tally_units(tally_zero(), us, by_chars).longest,
        forall|i: int|
            #![trigger is_line(us, i, us.len() as int)]
            is_line(us, i, us.len() as int) ==> line_length(
                us.subrange(i, us.len() as int),
                by_chars,
            ) == tally_units(tally_zero(), us, by_chars).line_len,
    decreases us.len(),
{
    if us.len() == 0 {
        assert forall|i: int| is_line(us, i, us.len() as int) implies line_length(
            us.subrange(i, us.len() as int),
            by_chars,
        ) == tally_units(tally_zero(), us, by_chars).line_len by {
            assert(us.subrange(i, 0).len() == 0);
        }
    } else {
        let p = us.drop_last();
        let n = p.len() as int;
        let u = us.last();
        lemma_tally_longest(p, by_chars);
        let t = tally_units(tally_zero(), p, by_chars);
        let t2 = tally_units(tally_zero(), us, by_chars);
        assert(us[n] == u);
        assert forall|i: int, j: int| is_line(us, i, j) && j < us.len() implies line_length(
            us.subrange(i, j),
            by_chars,
        ) <= t2.longest by {
            assert(us.subrange(i, j) =~= p.subrange(i, j));
            if i > 0 {
                assert(p[i - 1] == us[i - 1]);
            }
            if j < n {
                assert(p[j] == us[j]);
            }
            assert forall|k: int| i <= k < j implies !is_newline(#[trigger] p[k].code) by {
                assert(p[k] == us[k]);
                assert(!is_newline(us[k].code));
            }
            assert(is_line(p, i, j));
        }
        assert forall|i: int| is_line(us, i, us.len() as int) implies line_length(
            us.subrange(i, us.len() as int),
            by_chars,
        ) == t2.line_len by {
            if i == us.len() {
                assert(us.subrange(i, i).len() == 0);
            } else {
                assert(!is_newline(us[n].code));
                if i > 0 {
                    assert(p[i - 1] == us[i - 1]);
                }
                assert forall|k: int| i <= k < n implies !is_newline(#[trigger] p[k].code) by {
                    assert(p[k] == us[k]);
                    assert(!is_newline(us[k].code));
                }
                assert(is_line(p, i, n));
                assert(us.subrange(i, us.len() as int).drop_last() =~= p.subrange(i, n));
                assert(us.subrange(i, us.len() as int).last() == u);
            }
        }
    }
}

/// The longest-line measurement is at least the length of every line.
pub proof fn law_longest_line_bounds_lines(multibyte: bool, by_chars: bool, x: Seq<u8>, i: int, j: int)
    requires
        is_line(decode(multibyte, x), i, j),
    ensures
        line_length(decode(multibyte, x).subrange(i, j), by_chars) <= measure(
            multibyte,
            by_chars,
            x,
        ).longest_line,
{
    lemma_measure_tally(multibyte, by_chars, x);
    lemma_tally_longest(decode(multibyte, x), by_chars);
}

/// Feeding `a` and then `b` gives the state that feeding `a + b` gives.
pub proof fn law_feed_split(
    multibyte: bool,
    by_chars: bool,
    m: CounterModel,
    a: Seq<u8>,
    b: Seq<u8>,
)
    ensures
        feed_model(multibyte, by_chars, feed_model(multibyte, by_chars, m, a), b) == feed_model(
            multibyte,
            by_chars,
            m,
            a + b,
        ),
{
    crate::utf8::lemma_decode_run_append(multibyte, m.carry, a, b);
    let ra = decode_run(multibyte, m.carry, a);
    let rb = decode_run(multibyte, ra.0, b);
    lemma_tally_units_append(m.tally, ra.1, rb.1, by_chars);
}

/// A stream fed as any list of chunks ends in the state, and so gives the
/// measurements, of the stream fed as one chunk.
pub proof fn law_chunking_irrelevant(multibyte: bool, by_chars: bool, chunks: Seq<Seq<u8>>)
    ensures
        feed_chunks(multibyte, by_chars, counter_start(), chunks) == feed_model(
            multibyte,
            by_chars,
            counter_start(),
            chunks.flatten(),
        ),
        finish_model(by_chars, feed_chunks(multibyte, by_chars, counter_start(), chunks))
            == measure(multibyte, by_chars, chunks.flatten()),
{
    lemma_feed_chunks(multibyte, by_chars, counter_start(), chunks);
}

proof fn lemma_feed_chunks(multibyte: bool, by_chars: bool, m: CounterModel, chunks: Seq<Seq<u8>>)
    ensures
        feed_chunks(multibyte, by_chars, m, chunks) == feed_model(
            multibyte,
            by_chars,
            m,
            chunks.flatten(),
        ),
    decreases chunks.len(),
{
    if chunks.len() == 0 {
        assert(decode_run(multibyte, m.carry, seq![]).1 =~= seq![]);
        assert(tally_units(m.tally, seq![], by_chars) == m.tally);
    } else {
        let m1 = feed_model(multibyte, by_chars, m, chunks.first());
        lemma_feed_chunks(multibyte, by_chars, m1, chunks.drop_first());
        law_feed_split(multibyte, by_chars, m, chunks.first(), chunks.drop_first().flatten());
    }
}

} // verus!
