use vstd::prelude::*;
use crate::tally::{
    Unit,
    Tally,
    TallyModel,
    tally_zero,
    tally_units,
    tally_fits,
    lemma_tally_push,
    lemma_tally_units_append,
    lemma_tally_fits,
};
use crate::utf8::{
    decode_run,
    decode_step,
    flush,
    carry_ok,
    replacement_unit,
    decode_byte,
    lemma_step_facts,
};

verus! {

/// The five measurements of a stream, as numbers.
pub struct Measure {
    pub bytes: nat,
    pub characters: nat,
    pub words: nat,
    pub lines: nat,
    pub longest_line: nat,
}

/// The five measurements of a stream.
#[derive(Clone, Copy, Debug, PartialEq, Eq, Structural)]
pub struct Counts {
    pub bytes: u64,
    pub characters: u64,
    pub words: u64,
    pub lines: u64,
    pub longest_line: u64,
}

impl View for Counts {
    type V = Measure;

    open spec fn view(&self) -> Measure {
        Measure {
            bytes: self.bytes as nat,
            characters: self.characters as nat,
            words: self.words as nat,
            lines: self.lines as nat,
            longest_line: self.longest_line as nat,
        }
    }
}

/// The state of a counter between two chunks: the bytes of an unfinished
/// character, the running counters, and the number of bytes read.
pub struct CounterModel {
    pub carry: Seq<u8>,
    pub tally: TallyModel,
    pub bytes: nat,
}

pub open spec fn counter_start() -> CounterModel {
    CounterModel { carry: seq![], tally: tally_zero(), bytes: 0 }
}

/// The state after one more chunk.
pub open spec fn feed_model(
    multibyte: bool,
    by_chars: bool,
    m: CounterModel,
    chunk: Seq<u8>,
) -> CounterModel {
    CounterModel {
        carry: decode_run(multibyte, m.carry, chunk).0,
        tally: tally_units(m.tally, decode_run(multibyte, m.carry, chunk).1, by_chars),
        bytes: m.bytes + chunk.len(),
    }
}

/// The measurements at the end of the stream: a carried fragment becomes one
/// character, and an unterminated last line still counts for the longest.
pub open spec fn finish_model(by_chars: bool, m: CounterModel) -> Measure {
    let t = tally_units(m.tally, flush(m.carry), by_chars);
    Measure {
        bytes: m.bytes,
        characters: t.chars,
        words: t.words,
        lines: t.lines,
        longest_line: if t.line_len > t.longest {
            t.line_len
        } else {
            t.longest
        },
    }
}

/// The measurements of a whole stream.
pub open spec fn measure(multibyte: bool, by_chars: bool, x: Seq<u8>) -> Measure {
    finish_model(by_chars, feed_model(multibyte, by_chars, counter_start(), x))
}

/// A counter over one stream, fed chunk by chunk. With `multibyte` the bytes
/// are read as UTF-8; else each byte is one character. With `by_chars` line
/// lengths are measured in characters, else in bytes.
pub struct Counter {
    carry: Vec<u8>,
    tally: Tally,
    bytes: u64,
    multibyte: bool,
    by_chars: bool,
}

impl View for Counter {
    type V = CounterModel;

    closed spec fn view(&self) -> CounterModel {
        CounterModel { carry: self.carry@, tally: self.tally@, bytes: self.bytes as nat }
    }
}

impl Counter {
    pub closed spec fn wf(&self) -> bool {
        &&& carry_ok(self.multibyte, self.carry@)
        &&& tally_fits(self.tally@, ((u64::MAX - self.bytes) + self.carry@.len()) as nat)
    }

    pub closed spec fn multibyte(&self) -> bool {
        self.multibyte
    }

    pub closed spec fn by_chars(&self) -> bool {
        self.by_chars
    }

    pub fn new(multibyte: bool, by_chars: bool) -> (r: Counter)
        ensures
            r.wf(),
            r@ == counter_start(),
            r.multibyte() == multibyte,
            r.by_chars() == by_chars,
    {
        let r = Counter { carry: Vec::new(), tally: Tally::new(), bytes: 0, multibyte, by_chars };
        proof {
            assert(r.carry@ =~= seq![]);
        }
        r
    }

    /// Number of bytes read so far.
    pub fn bytes_read(&self) -> (r: u64)
        ensures
            r == self@.bytes,
    {
        self.bytes
    }

    /// Takes the next chunk of the stream; chunk boundaries need not fall
    /// between characters or lines.
    pub fn feed(&mut self, chunk: &[u8])
        requires
            old(self).wf(),
            old(self)@.bytes + chunk@.len() <= u64::MAX,
        ensures
            final(self).wf(),
            final(self)@ == feed_model(old(self).multibyte(), old(self).by_chars(), old(self)@, chunk@),
            final(self).multibyte() == old(self).multibyte(),
            final(self).by_chars() == old(self).by_chars(),
    {
        let ghost m0 = self@;
        let mut i: usize = 0;
        proof {
            assert(chunk@.subrange(0, 0) =~= seq![]);
            assert(tally_units(m0.tally, seq![], self.by_chars) == m0.tally);
        }
        while i < chunk.len()
            invariant
                i <= chunk@.len(),
                self.wf(),
                self.multibyte == old(self).multibyte,
                self.by_chars == old(self).by_chars,
                m0 == old(self)@,
                m0.bytes + chunk@.len() <= u64::MAX,
                self@ == feed_model(self.multibyte, self.by_chars, m0, chunk@.subrange(0, i as int)),
            decreases chunk.len() - i,
        {
            let b = chunk[i];
            let ghost pre = chunk@.subrange(0, i as int);
            let ghost next = chunk@.subrange(0, i + 1);
            let ghost carry0 = self.carry@;
            let ghost t0 = self.tally@;
            let ghost st = decode_step(self.multibyte, carry0, b);
            proof {
                assert(next.drop_last() =~= pre);
                assert(next.last() == b);
                lemma_step_facts(self.multibyte, carry0, b);
                lemma_tally_units_append(
                    m0.tally,
                    decode_run(self.multibyte, m0.carry, pre).1,
                    st.1,
                    self.by_chars,
                );
                lemma_tally_fits(
                    t0,
                    st.1,
                    ((u64::MAX - self.bytes) + carry0.len()) as nat,
                    self.by_chars,
                );
            }
            decode_byte(&mut self.carry, self.multibyte, b, &mut self.tally, self.by_chars);
            self.bytes = self.bytes + 1;
            i = i + 1;
        }
        proof {
            assert(chunk@.subrange(0, chunk@.len() as int) =~= chunk@);
        }
    }

    /// The measurements of the stream read so far, taken as the whole stream.
    pub fn finish(&self) -> (r: Counts)
        requires
            self.wf(),
        ensures
            r@ == finish_model(self.by_chars(), self@),
    {
        let mut t = Tally {
            chars: self.tally.chars,
            words: self.tally.words,
            lines: self.tally.lines,
            line_len: self.tally.line_len,
            longest: self.tally.longest,
            in_word: self.tally.in_word,
        };
        let ghost t0 = t@;
        let n = self.carry.len();
        if n > 0 {
            let u = Unit { code: crate::tally::REPLACEMENT, width: n as u32 };
            proof {
                assert(u == replacement_unit(n as nat));
                lemma_tally_push(t0, seq![], u, self.by_chars);
                assert(Seq::<Unit>::empty().push(u) =~= seq![u]);
            }
            t.add(u, self.by_chars);
        } else {
            proof {
                assert(flush(self.carry@) =~= seq![]);
            }
        }
        let longest = if t.line_len > t.longest {
            t.line_len
        } else {
            t.longest
        };
        Counts {
            bytes: self.bytes,
            characters: t.chars,
            words: t.words,
            lines: t.lines,
            longest_line: longest,
        }
    }
}

/// Measures a whole stream held in memory.
pub fn count(multibyte: bool, by_chars: bool, data: &[u8]) -> (r: Counts)
    requires
        data@.len() <= u64::MAX,
    ensures
        r@ == measure(multibyte, by_chars, data@),
{
    let mut c = Counter::new(multibyte, by_chars);
    c.feed(data);
    c.finish()
}

} // verus!
