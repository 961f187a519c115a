use vstd::prelude::*;

verus! {

/// Where a byte-by-byte check of UTF-8 stands, following the table of
/// well-formed byte sequences: at a character boundary, inside a character
/// with a number of plain continuation bytes (0x80..=0xBF) still due, right
/// after one of the lead bytes 0xE0, 0xED, 0xF0, 0xF4 whose second byte has a
/// narrower range, or past an ill-formed byte.
#[derive(Clone, Copy, Debug, PartialEq, Eq, Structural)]
pub enum Utf8State {
    Ready,
    Tail1,
    Tail2,
    Tail3,
    AfterE0,
    AfterED,
    AfterF0,
    AfterF4,
    Invalid,
}

pub open spec fn in_range(b: u8, lo: u8, hi: u8) -> bool {
    lo <= b <= hi
}

/// The state after reading byte `b` in state `st`.
pub open spec fn utf8_step(st: Utf8State, b: u8) -> Utf8State {
    match st {
        Utf8State::Ready => if b <= 0x7F {
            Utf8State::Ready
        } else if in_range(b, 0xC2, 0xDF) {
            Utf8State::Tail1
        } else if b == 0xE0 {
            Utf8State::AfterE0
        } else if in_range(b, 0xE1, 0xEC) || in_range(b, 0xEE, 0xEF) {
            Utf8State::Tail2
        } else if b == 0xED {
            Utf8State::AfterED
        } else if b == 0xF0 {
            Utf8State::AfterF0
        } else if in_range(b, 0xF1, 0xF3) {
            Utf8State::Tail3
        } else if b == 0xF4 {
            Utf8State::AfterF4
        } else {
            Utf8State::Invalid
        },
        Utf8State::Tail1 => if in_range(b, 0x80, 0xBF) {
            Utf8State::Ready
        } else {
            Utf8State::Invalid
        },
        Utf8State::Tail2 => if in_range(b, 0x80, 0xBF) {
            Utf8State::Tail1
        } else {
            Utf8State::Invalid
        },
        Utf8State::Tail3 => if in_range(b, 0x80, 0xBF) {
            Utf8State::Tail2
        } else {
            Utf8State::Invalid
        },
        Utf8State::AfterE0 => if in_range(b, 0xA0, 0xBF) {
            Utf8State::Tail1
        } else {
            Utf8State::Invalid
        },
        Utf8State::AfterED => if in_range(b, 0x80, 0x9F) {
            Utf8State::Tail1
        } else {
            Utf8State::Invalid
        },
        Utf8State::AfterF0 => if in_range(b, 0x90, 0xBF) {
            Utf8State::Tail2
        } else {
            Utf8State::Invalid
        },
        Utf8State::AfterF4 => if in_range(b, 0x80, 0x8F) {
            Utf8State::Tail2
        } else {
            Utf8State::Invalid
        },
        Utf8State::Invalid => Utf8State::Invalid,
    }
}

/// The state after reading all of `s` from state `st`.
pub open spec fn utf8_run(st: Utf8State, s: Seq<u8>) -> Utf8State
    decreases s.len(),
{
    if s.len() == 0 {
        st
    } else {
        utf8_step(utf8_run(st, s.drop_last()), s.last())
    }
}

/// `s` is well-formed UTF-8: read from a boundary, it ends on a boundary.
pub open spec fn valid_text(s: Seq<u8>) -> bool {
    utf8_run(Utf8State::Ready, s) == Utf8State::Ready
}

/// Reading `a` then `b` is reading `a + b`: a check may stop and resume at
/// any byte.
pub proof fn lemma_run_concat(st: Utf8State, a: Seq<u8>, b: Seq<u8>)
    ensures
        utf8_run(st, a + b) == utf8_run(utf8_run(st, a), b),
    decreases b.len(),
{
    if b.len() > 0 {
        lemma_run_concat(st, a, b.drop_last());
        assert((a + b).drop_last() =~= a + b.drop_last());
    }
}

/// Once ill-formed, always ill-formed.
pub proof fn lemma_invalid_stays(s: Seq<u8>)
    ensures
        utf8_run(Utf8State::Invalid, s) == Utf8State::Invalid,
    decreases s.len(),
{
    if s.len() > 0 {
        lemma_invalid_stays(s.drop_last());
    }
}

/// A prefix of well-formed text never reaches the ill-formed state.
pub proof fn lemma_valid_prefix(a: Seq<u8>, b: Seq<u8>)
    requires
        valid_text(a + b),
    ensures
        utf8_run(Utf8State::Ready, a) != Utf8State::Invalid,
{
    lemma_run_concat(Utf8State::Ready, a, b);
    if utf8_run(Utf8State::Ready, a) == Utf8State::Invalid {
        lemma_invalid_stays(b);
    }
}

impl Utf8State {
    pub fn step(self, b: u8) -> (r: Utf8State)
        ensures
            r == utf8_step(self, b),
    {
        match self {
            Utf8State::Ready => if b <= 0x7F {
                Utf8State::Ready
            } else if 0xC2 <= b && b <= 0xDF {
                Utf8State::Tail1
            } else if b == 0xE0 {
                Utf8State::AfterE0
            } else if (0xE1 <= b && b <= 0xEC) || (0xEE <= b && b <= 0xEF) {
                Utf8State::Tail2
            } else if b == 0xED {
                Utf8State::AfterED
            } else if b == 0xF0 {
                Utf8State::AfterF0
            } else if 0xF1 <= b && b <= 0xF3 {
                Utf8State::Tail3
            } else if b == 0xF4 {
                Utf8State::AfterF4
            } else {
                Utf8State::Invalid
            },
            Utf8State::Tail1 => if 0x80 <= b && b <= 0xBF {
                Utf8State::Ready
            } else {
                Utf8State::Invalid
            },
            Utf8State::Tail2 => if 0x80 <= b && b <= 0xBF {
                Utf8State::Tail1
            } else {
                Utf8State::Invalid
            },
            Utf8State::Tail3 => if 0x80 <= b && b <= 0xBF {
                Utf8State::Tail2
            } else {
                Utf8State::Invalid
            },
            Utf8State::AfterE0 => if 0xA0 <= b && b <= 0xBF {
                Utf8State::Tail1
            } else {
                Utf8State::Invalid
            },
            Utf8State::AfterED => if 0x80 <= b && b <= 0x9F {
                Utf8State::Tail1
            } else {
                Utf8State::Invalid
            },
            Utf8State::AfterF0 => if 0x90 <= b && b <= 0xBF {
                Utf8State::Tail2
            } else {
                Utf8State::Invalid
            },
            Utf8State::AfterF4 => if 0x80 <= b && b <= 0x8F {
                Utf8State::Tail2
            } else {
                Utf8State::Invalid
            },
            Utf8State::Invalid => Utf8State::Invalid,
        }
    }

    /// The state after reading all of `bytes`.
    pub fn feed(self, bytes: &[u8]) -> (r: Utf8State)
        ensures
            r == utf8_run(self, bytes@),
    {
        let mut st = self;
        let mut i: usize = 0;
        while i < bytes.len()
            invariant
                i <= bytes@.len(),
                st == utf8_run(self, bytes@.take(i as int)),
            decreases bytes@.len() - i,
        {
            assert(bytes@.take(i + 1).drop_last() =~= bytes@.take(i as int));
            st = st.step(bytes[i]);
            i = i + 1;
        }
        assert(bytes@.take(i as int) =~= bytes@);
        st
    }
}

/// Whether `bytes` is well-formed UTF-8.
pub fn is_valid_text(bytes: &[u8]) -> (r: bool)
    ensures
        r == valid_text(bytes@),
{
    Utf8State::Ready.feed(bytes) == Utf8State::Ready
}

} // verus!
