use vstd::prelude::*;

verus! {

/// The first non-empty value, from `i` on, of the variables in their order of
/// precedence; empty when every one is unset or empty.
pub open spec fn first_set_from(vals: Seq<Vec<u8>>, i: int) -> Seq<u8>
    decreases vals.len() - i,
{
    if i < 0 || i >= vals.len() {
        seq![]
    } else if vals[i]@.len() > 0 {
        vals[i]@
    } else {
        first_set_from(vals, i + 1)
    }
}

pub open spec fn ascii_lower(b: u8) -> u8 {
    if 0x41 <= b <= 0x5A {
        (b + 32) as u8
    } else {
        b
    }
}

/// `utf8` or `utf-8`, in any case, begins at `i`.
pub open spec fn utf8_tag_at(s: Seq<u8>, i: int) -> bool {
    &&& 0 <= i
    &&& i + 4 <= s.len()
    &&& ascii_lower(s[i]) == 0x75
    &&& ascii_lower(s[i + 1]) == 0x74
    &&& ascii_lower(s[i + 2]) == 0x66
    &&& (s[i + 3] == 0x38 || (i + 5 <= s.len() && s[i + 3] == 0x2D && s[i + 4] == 0x38))
}

/// The locale name advertises the UTF-8 encoding.
pub open spec fn names_utf8(s: Seq<u8>) -> bool {
    exists|i: int| #[trigger] utf8_tag_at(s, i)
}

fn lower(b: u8) -> (r: u8)
    ensures
        r == ascii_lower(b),
{
    if 0x41 <= b && b <= 0x5A {
        b + 32
    } else {
        b
    }
}

fn tag_at(s: &Vec<u8>, i: usize) -> (r: bool)
    ensures
        r == utf8_tag_at(s@, i as int),
{
    if i >= s.len() || s.len() - i < 4 {
        return false;
    }
    lower(s[i]) == 0x75 && lower(s[i + 1]) == 0x74 && lower(s[i + 2]) == 0x66 && (s[i + 3] == 0x38
        || (s.len() - i >= 5 && s[i + 3] == 0x2D && s[i + 4] == 0x38))
}

/// Whether decoding is multibyte: `vals` holds the values of `LC_ALL`,
/// `LC_CTYPE` and `LANG`, in that order, an unset one as empty; the first
/// non-empty one is the active locale, and it is multibyte when its name
/// advertises UTF-8.
pub fn multibyte_locale(vals: &Vec<Vec<u8>>) -> (r: bool)
    ensures
        r == names_utf8(first_set_from(vals@, 0)),
{
    let mut k: usize = 0;
    while k < vals.len() && vals[k].len() == 0
        invariant
            k <= vals@.len(),
            first_set_from(vals@, 0) == first_set_from(vals@, k as int),
        decreases vals.len() - k,
    {
        k = k + 1;
    }
    if k == vals.len() {
        proof {
            assert(!utf8_tag_at(first_set_from(vals@, k as int), 0));
        }
        return false;
    }
    let s = &vals[k];
    let mut i: usize = 0;
    while i < s.len()
        invariant
            i <= s@.len(),
            s@ == first_set_from(vals@, 0),
            forall|j: int| 0 <= j < i ==> !utf8_tag_at(s@, j),
        decreases s.len() - i,
    {
        if tag_at(s, i) {
            return true;
        }
        i = i + 1;
    }
    proof {
        assert forall|j: int| !utf8_tag_at(s@, j) by {
            if 0 <= j < i {
            }
        }
    }
    false
}

} // verus!
