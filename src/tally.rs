use vstd::prelude::*;

verus! {

/// The code point that stands for bytes that do not decode.
pub const REPLACEMENT: u32 = 0xFFFD;

/// One decoded character and the number of bytes it was read from.
#[derive(Clone, Copy)]
pub struct Unit {
    pub code: u32,
    pub width: u32,
}

/// U+000A, the only character that ends a line.
pub open spec fn is_newline(c: u32) -> bool {
    c == 0x0A
}

/// The characters with the Unicode White_Space property; among them the
/// ASCII space, tab, newline, vertical tab, form feed and carriage return.
pub open spec fn is_space(c: u32) -> bool {
    ||| 0x09 <= c <= 0x0D
    ||| c == 0x20
    ||| c == 0x85
    ||| c == 0xA0
    ||| c == 0x1680
    ||| 0x2000 <= c <= 0x200A
    ||| c == 0x2028
    ||| c == 0x2029
    ||| c == 0x202F
    ||| c == 0x205F
    ||| c == 0x3000
}

pub fn space(c: u32) -> (r: bool)
    ensures
        r == is_space(c),
{
    (0x09 <= c && c <= 0x0D) || c == 0x20 || c == 0x85 || c == 0xA0 || c == 0x1680 || (0x2000
        <= c && c <= 0x200A) || c == 0x2028 || c == 0x2029 || c == 0x202F || c == 0x205F || c
        == 0x3000
}

/// The running counters over a stream of decoded characters.
pub struct TallyModel {
    pub chars: nat,
    pub words: nat,
    pub lines: nat,
    pub line_len: nat,
    pub longest: nat,
    pub in_word: bool,
}

pub open spec fn tally_zero() -> TallyModel {
    TallyModel { chars: 0, words: 0, lines: 0, line_len: 0, longest: 0, in_word: false }
}

/// How much one character adds to the length of its line: one, when lines are
/// measured in characters, else its width in bytes.
pub open spec fn unit_measure(u: Unit, by_chars: bool) -> nat {
    if by_chars {
        1
    } else {
        u.width as nat
    }
}

/// The counters after one more character.
pub open spec fn tally_unit(t: TallyModel, u: Unit, by_chars: bool) -> TallyModel {
    if is_newline(u.code) {
        TallyModel {
            chars: t.chars + 1,
            lines: t.lines + 1,
            line_len: 0,
            longest: if t.line_len > t.longest {
                t.line_len
            } else {
                t.longest
            },
            in_word: false,
            ..t
        }
    } else if is_space(u.code) {
        TallyModel {
            chars: t.chars + 1,
            line_len: t.line_len + unit_measure(u, by_chars),
            in_word: false,
            ..t
        }
    } else {
        TallyModel {
            chars: t.chars + 1,
            words: if t.in_word {
                t.words
            } else {
                t.words + 1
            },
            line_len: t.line_len + unit_measure(u, by_chars),
            in_word: true,
            ..t
        }
    }
}

/// The counters after a sequence of characters, taken from left to right.
pub open spec fn tally_units(t: TallyModel, us: Seq<Unit>, by_chars: bool) -> TallyModel
    decreases us.len(),
{
    if us.len() == 0 {
        t
    } else {
        tally_unit(tally_units(t, us.drop_last(), by_chars), us.last(), by_chars)
    }
}

/// Total width in bytes of a sequence of characters.
pub open spec fn width_sum(us: Seq<Unit>) -> nat
    decreases us.len(),
{
    if us.len() == 0 {
        0
    } else {
        width_sum(us.drop_last()) + us.last().width as nat
    }
}

pub open spec fn widths_positive(us: Seq<Unit>) -> bool {
    forall|i: int| 0 <= i < us.len() ==> us[i].width >= 1
}

/// The counters can take characters of `room` bytes in all without any of
/// them passing `u64::MAX`.
pub open spec fn tally_fits(t: TallyModel, room: nat) -> bool {
    &&& t.chars + room <= u64::MAX
    &&& t.line_len + room <= u64::MAX
    &&& t.longest <= u64::MAX
    &&& t.words <= t.chars
    &&& t.lines <= t.chars
}

pub proof fn lemma_tally_units_append(t: TallyModel, a: Seq<Unit>, b: Seq<Unit>, by_chars: bool)
    ensures
        tally_units(t, a + b, by_chars) == tally_units(tally_units(t, a, by_chars), b, by_chars),
    decreases b.len(),
{
    if b.len() == 0 {
        assert(a + b =~= a);
    } else {
        assert((a + b).drop_last() =~= a + b.drop_last());
        lemma_tally_units_append(t, a, b.drop_last(), by_chars);
    }
}

pub proof fn lemma_width_sum_append(a: Seq<Unit>, b: Seq<Unit>)
    ensures
        width_sum(a + b) == width_sum(a) + width_sum(b),
    decreases b.len(),
{
    if b.len() == 0 {
        assert(a + b =~= a);
    } else {
        assert((a + b).drop_last() =~= a + b.drop_last());
        lemma_width_sum_append(a, b.drop_last());
    }
}

/// Characters whose widths fit in the room keep the counters in range.
pub proof fn lemma_tally_fits(t: TallyModel, us: Seq<Unit>, room: nat, by_chars: bool)
    requires
        tally_fits(t, room),
        widths_positive(us),
        width_sum(us) <= room,
    ensures
        tally_fits(tally_units(t, us, by_chars), (room - width_sum(us)) as nat),
        tally_units(t, us, by_chars).chars == t.chars + us.len(),
        us.len() <= width_sum(us),
    decreases us.len(),
{
    if us.len() > 0 {
        assert(us.last() == us[us.len() - 1]);
        assert forall|i: int| 0 <= i < us.drop_last().len() implies us.drop_last()[i].width
            >= 1 by {
            assert(us.drop_last()[i] == us[i]);
        }
        lemma_tally_fits(t, us.drop_last(), room, by_chars);
    }
}

/// Number of newline characters in a sequence.
pub open spec fn count_newlines(us: Seq<Unit>) -> nat
    decreases us.len(),
{
    if us.len() == 0 {
        0
    } else {
        count_newlines(us.drop_last()) + if is_newline(us.last().code) {
            1nat
        } else {
            0nat
        }
    }
}

pub proof fn lemma_tally_push(t: TallyModel, us: Seq<Unit>, u: Unit, by_chars: bool)
    ensures
        tally_units(t, us.push(u), by_chars) == tally_unit(tally_units(t, us, by_chars), u, by_chars),
        width_sum(us.push(u)) == width_sum(us) + u.width,
        count_newlines(us.push(u)) == count_newlines(us) + if is_newline(u.code) {
            1nat
        } else {
            0nat
        },
{
    assert(us.push(u).drop_last() =~= us);
}

pub proof fn lemma_count_newlines_append(a: Seq<Unit>, b: Seq<Unit>)
    ensures
        count_newlines(a + b) == count_newlines(a) + count_newlines(b),
    decreases b.len(),
{
    if b.len() == 0 {
        assert(a + b =~= a);
    } else {
        assert((a + b).drop_last() =~= a + b.drop_last());
        lemma_count_newlines_append(a, b.drop_last());
    }
}

/// Each newline adds one line, and nothing else does.
pub proof fn lemma_tally_lines(t: TallyModel, us: Seq<Unit>, by_chars: bool)
    ensures
        tally_units(t, us, by_chars).lines == t.lines + count_newlines(us),
    decreases us.len(),
{
    if us.len() > 0 {
        lemma_tally_lines(t, us.drop_last(), by_chars);
    }
}

/// Running counters over decoded characters.
pub struct Tally {
    pub chars: u64,
    pub words: u64,
    pub lines: u64,
    pub line_len: u64,
    pub longest: u64,
    pub in_word: bool,
}

impl View for Tally {
    type V = TallyModel;

    open spec fn view(&self) -> TallyModel {
        TallyModel {
            chars: self.chars as nat,
            words: self.words as nat,
            lines: self.lines as nat,
            line_len: self.line_len as nat,
            longest: self.longest as nat,
            in_word: self.in_word,
        }
    }
}

impl Tally {
    pub fn new() -> (r: Tally)
        ensures
            r@ == tally_zero(),
    {
        Tally { chars: 0, words: 0, lines: 0, line_len: 0, longest: 0, in_word: false }
    }

    /// Takes one more character.
    pub fn add(&mut self, u: Unit, by_chars: bool)
        requires
            tally_fits(old(self)@, u.width as nat),
            u.width >= 1,
        ensures
            final(self)@ == tally_unit(old(self)@, u, by_chars),
            tally_fits(final(self)@, 0),
    {
        self.chars = self.chars + 1;
        if u.code == 0x0A {
            self.lines = self.lines + 1;
            if self.line_len > self.longest {
                self.longest = self.line_len;
            }
            self.line_len = 0;
            self.in_word = false;
        } else {
            if by_chars {
                self.line_len = self.line_len + 1;
            } else {
                self.line_len = self.line_len + u.width as u64;
            }
            if space(u.code) {
                self.in_word = false;
            } else {
                if !self.in_word {
                    self.words = self.words + 1;
                }
                self.in_word = true;
            }
        }
    }
}

} // verus!
