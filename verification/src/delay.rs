//! Where to look for the delay that best lines a decode up with its reference.

use vstd::prelude::*;

verus! {

/// The most samples that are compared at one delay: the answer is the same as on the whole
/// signal, and this is much faster.
pub const WINDOW: usize = 8192;

/// The fewest samples that make a comparison worth anything.
pub const ENOUGH: usize = 256;

/// How to find the delay.
#[derive(Clone, Copy, Debug, PartialEq, Eq, Structural)]
pub enum Search {
    /// There is too little to compare: this is the delay.
    Settled(usize),
    /// Try every delay from the first to the last, on this many samples.
    Try { first: usize, last: usize, window: usize },
}

pub open spec fn less(a: int, b: int) -> int {
    if a < b {
        a
    } else {
        b
    }
}

/// The samples that can be compared at every delay up to `last`. The window has to leave room
/// for the largest delay tried, or only the first few would be.
pub open spec fn room(reference: nat, decoded: nat, last: nat) -> int {
    let left = if decoded < last {
        0
    } else {
        decoded - last
    };
    less(less(WINDOW as int, reference as int), left)
}

/// How to find the delay between signals of these lengths, around `hint`.
pub open spec fn search_of(reference: nat, decoded: nat, hint: nat, span: nat) -> Search {
    let window = room(reference, decoded, hint + span);
    if window < ENOUGH {
        Search::Settled(less(hint as int, decoded as int) as usize)
    } else {
        Search::Try {
            first: if hint < span {
                0
            } else {
                (hint - span) as usize
            },
            last: (hint + span) as usize,
            window: window as usize,
        }
    }
}

/// How to find the delay between signals of these lengths, around `hint`.
pub fn search(reference: usize, decoded: usize, hint: usize, span: usize) -> (s: Search)
    requires
        hint + span <= usize::MAX,
    ensures
        s == search_of(reference as nat, decoded as nat, hint as nat, span as nat),
{
    let last: usize = hint + span;
    let left: usize = if decoded < last {
        0
    } else {
        decoded - last
    };
    let most: usize = if WINDOW < reference {
        WINDOW
    } else {
        reference
    };
    let window: usize = if most < left {
        most
    } else {
        left
    };
    if window < ENOUGH {
        Search::Settled(
            if hint < decoded {
                hint
            } else {
                decoded
            },
        )
    } else {
        let first: usize = if hint < span {
            0
        } else {
            hint - span
        };
        Search::Try { first, last, window }
    }
}

/// Every delay that is tried leaves a whole window inside both signals, the hint is among
/// them, and so is every delay within the span of it.
pub proof fn law_every_window_fits(
    reference: nat,
    decoded: nat,
    hint: nat,
    span: nat,
    delay: nat,
)
    requires
        hint + span <= usize::MAX,
    ensures
        match search_of(reference, decoded, hint, span) {
            Search::Settled(d) => d <= decoded,
            Search::Try { first, last, window } => {
                &&& ENOUGH <= window <= WINDOW
                &&& window <= reference
                &&& first <= hint <= last
                &&& first <= delay <= last ==> delay + window <= decoded
                &&& hint <= delay + span && delay <= hint + span <==> first <= delay <= last
            },
        },
{
}

/// What a search settles on or tries, in full: every delay within `span` of the hint is tried on
/// as many samples as there are for all of them, at most 8192; with fewer than 256 the hint is
/// kept, as far as the decode reaches.
pub proof fn law_search(reference: nat, decoded: nat, hint: nat, span: nat)
    requires
        hint + span <= usize::MAX,
    ensures
        match search_of(reference, decoded, hint, span) {
            Search::Settled(d) => {
                &&& reference < 256 || decoded < hint + span + 256
                &&& d <= hint && d <= decoded
                &&& d == hint || d == decoded
            },
            Search::Try { first, last, window } => {
                &&& reference >= 256 && decoded >= hint + span + 256
                &&& first == 0 || first + span == hint
                &&& first == 0 ==> hint <= span
                &&& last == hint + span
                &&& window <= 8192 && window <= reference && window + last <= decoded
                &&& window == 8192 || window == reference || window + last == decoded
            },
        },
{
}

} // verus!
