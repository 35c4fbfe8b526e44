use vstd::prelude::*;
use crate::tally::{
    Unit,
    REPLACEMENT,
    Tally,
    tally_units,
    tally_fits,
    width_sum,
    widths_positive,
    count_newlines,
    lemma_tally_push,
};

verus! {

/// Length of the UTF-8 sequence that a byte begins: 1 for ASCII, 2 to 4 for a
/// lead byte, 0 for a byte that begins none.
pub open spec fn seq_len(b: u8) -> nat {
    if b < 0x80 {
        1
    } else if 0xC2 <= b <= 0xDF {
        2
    } else if 0xE0 <= b <= 0xEF {
        3
    } else if 0xF0 <= b <= 0xF4 {
        4
    } else {
        0
    }
}

/// Whether `b` may stand at position `pos` (1 to 3) of a sequence begun by
/// `lead`; the ranges after E0, ED, F0 and F4 rule out overlong forms,
/// surrogates and code points past U+10FFFF.
pub open spec fn cont_ok(lead: u8, pos: nat, b: u8) -> bool {
    if pos == 1 && lead == 0xE0 {
        0xA0 <= b <= 0xBF
    } else if pos == 1 && lead == 0xED {
        0x80 <= b <= 0x9F
    } else if pos == 1 && lead == 0xF0 {
        0x90 <= b <= 0xBF
    } else if pos == 1 && lead == 0xF4 {
        0x80 <= b <= 0x8F
    } else {
        0x80 <= b <= 0xBF
    }
}

/// The code point of a complete sequence of two to four bytes.
pub open spec fn code_of(s: Seq<u8>) -> u32 {
    (if s.len() == 2 {
        (s[0] - 0xC0) * 64 + (s[1] - 0x80)
    } else if s.len() == 3 {
        (s[0] - 0xE0) * 4096 + (s[1] - 0x80) * 64 + (s[2] - 0x80)
    } else {
        (s[0] - 0xF0) * 262144 + (s[1] - 0x80) * 4096 + (s[2] - 0x80) * 64 + (s[3] - 0x80)
    }) as u32
}

/// The first bytes of a multibyte sequence that has not ended yet.
pub open spec fn valid_carry(c: Seq<u8>) -> bool {
    c.len() == 0 || (2 <= seq_len(c[0]) && c.len() < seq_len(c[0]) && forall|i: int|
        1 <= i < c.len() ==> cont_ok(c[0], i as nat, #[trigger] c[i]))
}

pub open spec fn replacement_unit(width: nat) -> Unit {
    Unit { code: REPLACEMENT, width: width as u32 }
}

/// `k` replacement characters of one byte each.
pub open spec fn replacements(k: nat) -> Seq<Unit> {
    Seq::new(k, |i: int| replacement_unit(1))
}

/// A byte read with nothing carried.
pub open spec fn start_step(b: u8) -> (Seq<u8>, Seq<Unit>) {
    if b < 0x80 {
        (seq![], seq![Unit { code: b as u32, width: 1 }])
    } else if seq_len(b) >= 2 {
        (seq![b], seq![])
    } else {
        (seq![], seq![replacement_unit(1)])
    }
}

/// One byte through the decoder: the new carry and the characters that come
/// out. Without multibyte decoding every byte is one character. A byte that
/// cannot continue the carried sequence turns each carried byte into a
/// replacement character and is then read afresh.
pub open spec fn decode_step(multibyte: bool, carry: Seq<u8>, b: u8) -> (Seq<u8>, Seq<Unit>) {
    if !multibyte {
        (carry, seq![Unit { code: b as u32, width: 1 }])
    } else if carry.len() == 0 {
        start_step(b)
    } else if cont_ok(carry[0], carry.len(), b) {
        let c = carry.push(b);
        if c.len() == seq_len(carry[0]) {
            (seq![], seq![Unit { code: code_of(c), width: c.len() as u32 }])
        } else {
            (c, seq![])
        }
    } else {
        (start_step(b).0, replacements(carry.len()) + start_step(b).1)
    }
}

/// Bytes through the decoder from left to right.
pub open spec fn decode_run(multibyte: bool, carry: Seq<u8>, bytes: Seq<u8>) -> (
    Seq<u8>,
    Seq<Unit>,
)
    decreases bytes.len(),
{
    if bytes.len() == 0 {
        (carry, seq![])
    } else {
        let prev = decode_run(multibyte, carry, bytes.drop_last());
        let next = decode_step(multibyte, prev.0, bytes.last());
        (next.0, prev.1 + next.1)
    }
}

/// What a carry left at the end of a stream becomes: one replacement
/// character as wide as the carry.
pub open spec fn flush(carry: Seq<u8>) -> Seq<Unit> {
    if carry.len() == 0 {
        seq![]
    } else {
        seq![replacement_unit(carry.len())]
    }
}

/// The characters of a whole stream.
pub open spec fn decode(multibyte: bool, bytes: Seq<u8>) -> Seq<Unit> {
    decode_run(multibyte, seq![], bytes).1 + flush(decode_run(multibyte, seq![], bytes).0)
}

/// A carry that the decoder can hold in the given mode.
pub open spec fn carry_ok(multibyte: bool, c: Seq<u8>) -> bool {
    valid_carry(c) && (!multibyte ==> c.len() == 0)
}

pub proof fn lemma_decode_run_append(multibyte: bool, c: Seq<u8>, a: Seq<u8>, b: Seq<u8>)
    ensures
        decode_run(multibyte, c, a + b) == (
            decode_run(multibyte, decode_run(multibyte, c, a).0, b).0,
            decode_run(multibyte, c, a).1 + decode_run(multibyte, decode_run(multibyte, c, a).0, b).1,
        ),
    decreases b.len(),
{
    if b.len() == 0 {
        assert(a + b =~= a);
        assert(decode_run(multibyte, c, a).1 + seq![] =~= decode_run(multibyte, c, a).1);
    } else {
        assert((a + b).drop_last() =~= a + b.drop_last());
        assert((a + b).last() == b.last());
        lemma_decode_run_append(multibyte, c, a, b.drop_last());
        let ra = decode_run(multibyte, c, a);
        let rb = decode_run(multibyte, ra.0, b.drop_last());
        let st = decode_step(multibyte, rb.0, b.last());
        assert(ra.1 + rb.1 + st.1 =~= ra.1 + (rb.1 + st.1));
    }
}

/// A code point read from a complete sequence is past the ASCII range.
proof fn lemma_code_of_wide(s: Seq<u8>)
    requires
        2 <= s.len() <= 4,
        s.len() == seq_len(s[0]),
        forall|i: int| 1 <= i < s.len() ==> cont_ok(s[0], i as nat, #[trigger] s[i]),
    ensures
        code_of(s) >= 0x80,
{
    assert(cont_ok(s[0], 1, s[1]));
    if s.len() >= 3 {
        assert(cont_ok(s[0], 2, s[2]));
    }
    if s.len() == 4 {
        assert(cont_ok(s[0], 3, s[3]));
    }
}

/// What one decoder step keeps: a valid carry, and every byte either still
/// carried or in exactly one character; a newline comes out exactly for the
/// byte 0x0A.
pub proof fn lemma_step_facts(multibyte: bool, carry: Seq<u8>, b: u8)
    requires
        carry_ok(multibyte, carry),
    ensures
        carry_ok(multibyte, decode_step(multibyte, carry, b).0),
        widths_positive(decode_step(multibyte, carry, b).1),
        width_sum(decode_step(multibyte, carry, b).1) + decode_step(multibyte, carry, b).0.len()
            == carry.len() + 1,
        count_newlines(decode_step(multibyte, carry, b).1) == if b == 0x0A {
            1nat
        } else {
            0nat
        },
{
    let st = decode_step(multibyte, carry, b);
    let s0 = start_step(b);
    lemma_start_facts(b);
    if !multibyte {
        lemma_one_unit(Unit { code: b as u32, width: 1 });
    } else if carry.len() == 0 {
    } else if cont_ok(carry[0], carry.len(), b) {
        let c = carry.push(b);
        assert(c[0] == carry[0]);
        assert forall|i: int| 1 <= i < c.len() implies cont_ok(c[0], i as nat, #[trigger] c[i]) by {
            if i < carry.len() {
                assert(c[i] == carry[i]);
            }
        }
        if c.len() == seq_len(carry[0]) {
            lemma_code_of_wide(c);
            lemma_one_unit(Unit { code: code_of(c), width: c.len() as u32 });
        } else {
            assert(Seq::<Unit>::empty().len() == 0);
            assert(width_sum(Seq::<Unit>::empty()) == 0);
            assert(count_newlines(Seq::<Unit>::empty()) == 0);
        }
    } else {
        lemma_replacements(carry.len());
        crate::tally::lemma_width_sum_append(replacements(carry.len()), s0.1);
        crate::tally::lemma_count_newlines_append(replacements(carry.len()), s0.1);
        assert forall|i: int| 0 <= i < st.1.len() implies st.1[i].width >= 1 by {
            if i < carry.len() {
                assert(st.1[i] == replacements(carry.len())[i]);
            } else {
                assert(st.1[i] == s0.1[i - carry.len()]);
            }
        }
    }
}

proof fn lemma_one_unit(u: Unit)
    ensures
        width_sum(seq![u]) == u.width,
        count_newlines(seq![u]) == if u.code == 0x0A {
            1nat
        } else {
            0nat
        },
{
    lemma_tally_push(crate::tally::tally_zero(), Seq::<Unit>::empty(), u, true);
    assert(Seq::<Unit>::empty().push(u) =~= seq![u]);
}

proof fn lemma_start_facts(b: u8)
    ensures
        valid_carry(start_step(b).0),
        widths_positive(start_step(b).1),
        width_sum(start_step(b).1) + start_step(b).0.len() == 1,
        count_newlines(start_step(b).1) == if b == 0x0A {
            1nat
        } else {
            0nat
        },
{
    if b < 0x80 {
        lemma_one_unit(Unit { code: b as u32, width: 1 });
    } else if seq_len(b) >= 2 {
        assert(width_sum(Seq::<Unit>::empty()) == 0);
        assert(count_newlines(Seq::<Unit>::empty()) == 0);
    } else {
        lemma_one_unit(replacement_unit(1));
    }
}

proof fn lemma_replacements(k: nat)
    ensures
        width_sum(replacements(k)) == k,
        count_newlines(replacements(k)) == 0,
        widths_positive(replacements(k)),
    decreases k,
{
    if k > 0 {
        lemma_replacements((k - 1) as nat);
        assert(replacements(k).drop_last() =~= replacements((k - 1) as nat));
    }
}

/// Runs one byte through the decoder whose carry is `carry`, and hands the
/// characters that come out to `sink`.
pub fn decode_byte(carry: &mut Vec<u8>, multibyte: bool, b: u8, sink: &mut Tally, by_chars: bool)
    requires
        carry_ok(multibyte, old(carry)@),
        tally_fits(old(sink)@, old(carry)@.len() + 1),
    ensures
        final(carry)@ == decode_step(multibyte, old(carry)@, b).0,
        final(sink)@ == tally_units(old(sink)@, decode_step(multibyte, old(carry)@, b).1, by_chars),
{
    proof {
        lemma_step_facts(multibyte, carry@, b);
    }
    let ghost t0 = sink@;
    if !multibyte {
        let u = Unit { code: b as u32, width: 1 };
        sink.add(u, by_chars);
        proof {
            lemma_tally_push(t0, Seq::<Unit>::empty(), u, by_chars);
            assert(Seq::<Unit>::empty().push(u) =~= seq![u]);
        }
        return;
    }
    let n = carry.len();
    if n == 0 {
        start_byte(carry, b, sink, by_chars);
        return;
    }
    let lead = carry[0];
    if continues(lead, n, b) {
        let ghost c0 = carry@;
        carry.push(b);
        if carry.len() == lead_len(lead) {
            let code = code_exec(carry);
            let w = carry.len() as u32;
            carry.clear();
            let u = Unit { code, width: w };
            sink.add(u, by_chars);
            proof {
                lemma_tally_push(t0, Seq::<Unit>::empty(), u, by_chars);
                assert(Seq::<Unit>::empty().push(u) =~= seq![u]);
            }
        } else {
            proof {
                assert(decode_step(multibyte, c0, b).1 =~= seq![]);
            }
        }
    } else {
        carry.clear();
        let mut j: usize = 0;
        while j < n
            invariant
                j <= n,
                n >= 1,
                carry@.len() == 0,
                sink@ == tally_units(t0, replacements(j as nat), by_chars),
                tally_fits(sink@, (n - j + 1) as nat),
            decreases n - j,
        {
            let u = Unit { code: REPLACEMENT, width: 1 };
            proof {
                lemma_tally_push(t0, replacements(j as nat), u, by_chars);
                assert(replacements(j as nat).push(u) =~= replacements((j + 1) as nat));
            }
            sink.add(u, by_chars);
            j = j + 1;
        }
        let ghost t1 = sink@;
        start_byte(carry, b, sink, by_chars);
        proof {
            crate::tally::lemma_tally_units_append(t0, replacements(n as nat), start_step(b).1, by_chars);
        }
    }
}

/// Reads `b` with nothing carried.
fn start_byte(carry: &mut Vec<u8>, b: u8, sink: &mut Tally, by_chars: bool)
    requires
        old(carry)@.len() == 0,
        tally_fits(old(sink)@, 1),
    ensures
        final(carry)@ == start_step(b).0,
        final(sink)@ == tally_units(old(sink)@, start_step(b).1, by_chars),
{
    let ghost t0 = sink@;
    if b < 0x80 {
        let u = Unit { code: b as u32, width: 1 };
        sink.add(u, by_chars);
        proof {
            lemma_tally_push(t0, Seq::<Unit>::empty(), u, by_chars);
            assert(Seq::<Unit>::empty().push(u) =~= seq![u]);
        }
    } else if lead_len(b) >= 2 {
        carry.push(b);
        proof {
            assert(carry@ =~= seq![b]);
        }
    } else {
        let u = Unit { code: REPLACEMENT, width: 1 };
        sink.add(u, by_chars);
        proof {
            lemma_tally_push(t0, Seq::<Unit>::empty(), u, by_chars);
            assert(Seq::<Unit>::empty().push(u) =~= seq![u]);
        }
    }
}

fn lead_len(b: u8) -> (r: usize)
    ensures
        r == seq_len(b),
{
    if b < 0x80 {
        1
    } else if 0xC2 <= b && b <= 0xDF {
        2
    } else if 0xE0 <= b && b <= 0xEF {
        3
    } else if 0xF0 <= b && b <= 0xF4 {
        4
    } else {
        0
    }
}

fn continues(lead: u8, pos: usize, b: u8) -> (r: bool)
    ensures
        r == cont_ok(lead, pos as nat, b),
{
    if pos == 1 && lead == 0xE0 {
        0xA0 <= b && b <= 0xBF
    } else if pos == 1 && lead == 0xED {
        0x80 <= b && b <= 0x9F
    } else if pos == 1 && lead == 0xF0 {
        0x90 <= b && b <= 0xBF
    } else if pos == 1 && lead == 0xF4 {
        0x80 <= b && b <= 0x8F
    } else {
        0x80 <= b && b <= 0xBF
    }
}

fn code_exec(s: &Vec<u8>) -> (r: u32)
    requires
        2 <= s@.len() <= 4,
        s@.len() == seq_len(s@[0]),
        forall|i: int| 1 <= i < s@.len() ==> cont_ok(s@[0], i as nat, #[trigger] s@[i]),
    ensures
        r == code_of(s@),
{
    assert(cont_ok(s@[0], 1, s@[1]));
    if s.len() == 2 {
        (s[0] - 0xC0) as u32 * 64 + (s[1] - 0x80) as u32
    } else if s.len() == 3 {
        assert(cont_ok(s@[0], 2, s@[2]));
        (s[0] - 0xE0) as u32 * 4096 + (s[1] - 0x80) as u32 * 64 + (s[2] - 0x80) as u32
    } else {
        assert(cont_ok(s@[0], 2, s@[2]));
        assert(cont_ok(s@[0], 3, s@[3]));
        (s[0] - 0xF0) as u32 * 262144 + (s[1] - 0x80) as u32 * 4096 + (s[2] - 0x80) as u32 * 64
            + (s[3] - 0x80) as u32
    }
}

} // verus!
