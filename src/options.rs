use vstd::prelude::*;

verus! {

/// One command-line switch; each enables one counter.
#[derive(Clone, Copy, Debug, PartialEq, Eq, Structural)]
pub enum Switch {
    /// `-c`
    Bytes,
    /// `-m`
    Characters,
    /// `-l`
    Lines,
    /// `-w`
    Words,
    /// `-L`
    Longest,
}

/// The counters that a run reports.
#[derive(Clone, Copy, Debug, PartialEq, Eq, Structural)]
pub struct Selection {
    pub bytes: bool,
    pub characters: bool,
    pub words: bool,
    pub lines: bool,
    pub longest_line: bool,
}

/// The last of `-c` and `-m` among the switches, if either was given.
pub open spec fn last_size_switch(s: Seq<Switch>) -> Option<Switch>
    decreases s.len(),
{
    if s.len() == 0 {
        None
    } else if s.last() == Switch::Bytes || s.last() == Switch::Characters {
        Some(s.last())
    } else {
        last_size_switch(s.drop_last())
    }
}

/// Whether the switch `w` was given.
pub open spec fn has_switch(s: Seq<Switch>, w: Switch) -> bool
    decreases s.len(),
{
    s.len() > 0 && (s.last() == w || has_switch(s.drop_last(), w))
}

/// The counters enabled by switches given in this order: with none, lines,
/// words and bytes; else each switch enables its counter, and of `-c` and
/// `-m` the later one wins.
pub open spec fn selection_of(s: Seq<Switch>) -> Selection {
    if s.len() == 0 {
        Selection {
            bytes: true,
            characters: false,
            words: true,
            lines: true,
            longest_line: false,
        }
    } else {
        Selection {
            bytes: last_size_switch(s) == Some(Switch::Bytes),
            characters: last_size_switch(s) == Some(Switch::Characters),
            words: has_switch(s, Switch::Words),
            lines: has_switch(s, Switch::Lines),
            longest_line: has_switch(s, Switch::Longest),
        }
    }
}

/// Works out the enabled counters from the switches in command-line order.
pub fn select(switches: &Vec<Switch>) -> (r: Selection)
    ensures
        r == selection_of(switches@),
{
    let s = switches;
    if s.len() == 0 {
        return Selection {
            bytes: true,
            characters: false,
            words: true,
            lines: true,
            longest_line: false,
        };
    }
    let mut sel = Selection {
        bytes: false,
        characters: false,
        words: false,
        lines: false,
        longest_line: false,
    };
    let mut i: usize = 0;
    while i < s.len()
        invariant
            i <= s@.len(),
            sel.bytes == (last_size_switch(s@.subrange(0, i as int)) == Some(Switch::Bytes)),
            sel.characters == (last_size_switch(s@.subrange(0, i as int)) == Some(
                Switch::Characters,
            )),
            sel.words == has_switch(s@.subrange(0, i as int), Switch::Words),
            sel.lines == has_switch(s@.subrange(0, i as int), Switch::Lines),
            sel.longest_line == has_switch(s@.subrange(0, i as int), Switch::Longest),
        decreases s.len() - i,
    {
        let w = s[i];
        proof {
            assert(s@.subrange(0, i + 1).drop_last() =~= s@.subrange(0, i as int));
            assert(s@.subrange(0, i + 1).last() == w);
        }
        match w {
            Switch::Bytes => {
                sel.bytes = true;
                sel.characters = false;
            },
            Switch::Characters => {
                sel.characters = true;
                sel.bytes = false;
            },
            Switch::Words => {
                sel.words = true;
            },
            Switch::Lines => {
                sel.lines = true;
            },
            Switch::Longest => {
                sel.longest_line = true;
            },
        }
        i = i + 1;
    }
    proof {
        assert(s@.subrange(0, s@.len() as int) =~= s@);
    }
    sel
}

} // verus!
