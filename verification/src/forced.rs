//! The forced-move automaton: exhaustively applies autoplay-eligible
//! foundation moves to a fixpoint, updating the raw state and the frontier
//! summary together, in lockstep.
//!
//! Each round walks the column tops in fixed order.  When the freecell is
//! empty only the major suit is eligible and the (empty) freecell slot is
//! additionally scanned as a source; when it holds a card all five suits
//! are eligible but the freecell is never scanned, so a card resting there
//! is never auto-scored.  A source's occupant moves onto a foundation when
//! its rank extends that foundation by one: its raw-state entry becomes
//! that foundation's sentinel, the source takes what lay beneath it, and
//! the same source is retried immediately so chain runs complete within
//! one pass.

use vstd::prelude::*;
use vstd::set_lib::lemma_len_subset;
use crate::card::{C, Suit, CardInfo};
use crate::card::{CARDS_COUNT, CARDS_HIGH, EVERY_HIGH, FREEC_BYTE, FOUND_BYTE, MAJHI_BYTE};
use crate::card::{is_card_ord, ord_rank, ord_suit, suit_index, suit_min_rank, suit_max_rank};
use crate::card::{TABLE_BYTE, NOCRD_BYTE, pack_ord};
use crate::state::{Board, BoardInfo, BoardState, card_indices, derivable, entries_in_space,
    lemma_card_indices_props, no_bifurcation, no_missing, one_freecell, bases_upto,
    suit_of_index, fnd_upto, down_upto, freecell_upto, lemma_fnd_char, lemma_down_char};
use crate::layout::{asc_closed, down_closed};

verus! {

// ---------------------------------------------------------------------
// Foundation measures
// ---------------------------------------------------------------------

/// Rank of the top of an ascending foundation holding `fnd`, or one below
/// the suit's lowest rank when the foundation is empty.
pub open spec fn asc_measure(fnd: C, su: Suit) -> int {
    if fnd.0 <= CARDS_HIGH {
        ord_rank(fnd.0 as int)
    } else {
        suit_min_rank(su) - 1
    }
}

/// Rank of the top of the descending major foundation holding `dfnd`, or
/// one above the major suit's highest rank when it is empty.
pub open spec fn down_measure(dfnd: C) -> int {
    if dfnd.0 <= CARDS_HIGH {
        ord_rank(dfnd.0 as int)
    } else {
        22
    }
}

/// How far the foundations have been built; grows by one with each forced
/// move, whatever the move.
pub open spec fn score(fnds: Seq<C>, dfnd: C) -> int {
    (asc_measure(fnds[0], Suit::Wands) - 1) + (asc_measure(fnds[1], Suit::Stars) - 1) + (
    asc_measure(fnds[2], Suit::Swrds) - 1) + (asc_measure(fnds[3], Suit::Cuups) - 1) + (asc_measure(
        fnds[4],
        Suit::Magic,
    ) + 1) + (22 - down_measure(dfnd))
}

/// Every rank of a real card lies in its suit's declared range.
pub proof fn lemma_rank_bounds(o: int)
    requires
        0 <= o <= CARDS_HIGH as int,
    ensures
        suit_min_rank(ord_suit(o)) <= ord_rank(o) <= suit_max_rank(ord_suit(o)),
        0 <= ord_rank(o) <= 21,
{
}

/// The score is bounded however the foundation pointers look.
pub proof fn lemma_score_bounds(fnds: Seq<C>, dfnd: C)
    requires
        fnds.len() == 5,
    ensures
        -4 <= score(fnds, dfnd) <= 124,
{
    if fnds[0].0 <= CARDS_HIGH {
        lemma_rank_bounds(fnds[0].0 as int);
    }
    if fnds[1].0 <= CARDS_HIGH {
        lemma_rank_bounds(fnds[1].0 as int);
    }
    if fnds[2].0 <= CARDS_HIGH {
        lemma_rank_bounds(fnds[2].0 as int);
    }
    if fnds[3].0 <= CARDS_HIGH {
        lemma_rank_bounds(fnds[3].0 as int);
    }
    if fnds[4].0 <= CARDS_HIGH {
        lemma_rank_bounds(fnds[4].0 as int);
    }
    if dfnd.0 <= CARDS_HIGH {
        lemma_rank_bounds(dfnd.0 as int);
    }
}

// ---------------------------------------------------------------------
// What a run writes into the raw state
// ---------------------------------------------------------------------

/// Card `i` was freshly scored by a run that raised the ascending
/// foundations from `f0` to `f1`: its rank extends its suit's old top by
/// one of the consecutive newly covered ranks.
pub open spec fn newly_asc(f0: Seq<C>, f1: Seq<C>, i: int) -> bool {
    let su = ord_suit(i);
    asc_measure(f0[suit_index(su)], su) < ord_rank(i) <= asc_measure(f1[suit_index(su)], su)
}

/// Card `i` was freshly scored by a run that lowered the descending
/// foundation from `d0` to `d1`.
pub open spec fn newly_down(d0: C, d1: C, i: int) -> bool {
    ord_suit(i) is Magic && down_measure(d1) <= ord_rank(i) < down_measure(d0)
}

/// The only raw-state writes a run makes: each changed entry belongs to a
/// freshly scored card and carries its foundation's sentinel, so the
/// entries of all unmoved cards are unchanged and each pile grew by
/// consecutive ranks from its old top.
pub open spec fn marks_only(s0: Seq<C>, s1: Seq<C>, f0: Seq<C>, f1: Seq<C>, d0: C, d1: C) -> bool {
    &&& s1.len() == s0.len()
    &&& forall|i: int|
        0 <= i < s0.len() ==> ((#[trigger] s1[i]) == s0[i] || (s1[i] == C(FOUND_BYTE) && newly_asc(
            f0,
            f1,
            i,
        )) || (s1[i] == C(MAJHI_BYTE) && newly_down(d0, d1, i)))
}

/// Two runs in sequence write only marks of the combined run.
pub proof fn lemma_marks_compose(
    s0: Seq<C>,
    s1: Seq<C>,
    s2: Seq<C>,
    f0: Seq<C>,
    f1: Seq<C>,
    f2: Seq<C>,
    d0: C,
    d1: C,
    d2: C,
)
    requires
        marks_only(s0, s1, f0, f1, d0, d1),
        marks_only(s1, s2, f1, f2, d1, d2),
        forall|k: int|
            0 <= k < 5 ==> asc_measure(#[trigger] f0[k], suit_of_index(k)) <= asc_measure(
                f1[k],
                suit_of_index(k),
            ) <= asc_measure(f2[k], suit_of_index(k)),
        down_measure(d2) <= down_measure(d1) <= down_measure(d0),
    ensures
        marks_only(s0, s2, f0, f2, d0, d2),
{
    assert forall|i: int| 0 <= i < s0.len() implies ((#[trigger] s2[i]) == s0[i] || (s2[i] == C(
        FOUND_BYTE,
    ) && newly_asc(f0, f2, i)) || (s2[i] == C(MAJHI_BYTE) && newly_down(d0, d2, i))) by {
        let su = ord_suit(i);
        let k = suit_index(su);
        assert(0 <= k < 5 && suit_of_index(k) == su);
        assert(asc_measure(f0[k], suit_of_index(k)) <= asc_measure(f1[k], suit_of_index(k))
            <= asc_measure(f2[k], suit_of_index(k)));
    }
}

/// Marks never touch the structural validity of a raw state: changed
/// entries hold foundation sentinels, which are neither cards, nor the
/// freecell, column-bottom or no-card sentinels.
pub proof fn lemma_marks_keep_derivable(
    s0: Seq<C>,
    s1: Seq<C>,
    f0: Seq<C>,
    f1: Seq<C>,
    d0: C,
    d1: C,
)
    requires
        marks_only(s0, s1, f0, f1, d0, d1),
        derivable(s0),
    ensures
        derivable(s1),
{
    assert(entries_in_space(s1));
    assert(no_missing(s1));
    assert(one_freecell(s1)) by {
        assert forall|i: int, j: int|
            #![trigger s1[i], s1[j]]
            0 <= i < s1.len() && 0 <= j < s1.len() && i != j implies !(s1[i].0 == FREEC_BYTE
            && s1[j].0 == FREEC_BYTE) by {
            if s1[i].0 == FREEC_BYTE && s1[j].0 == FREEC_BYTE {
                assert(s0[i] == s1[i] && s0[j] == s1[j]);
            }
        }
    }
    assert(no_bifurcation(s1)) by {
        assert forall|i: int, j: int|
            #![trigger s1[i], s1[j]]
            0 <= i < s1.len() && 0 <= j < s1.len() && i != j && s1[i].0 <= CARDS_HIGH implies s1[j]
            != s1[i] by {
            if s1[j] == s1[i] {
                assert(s1[i] == s0[i]);
                assert(s1[j] == s0[j]);
            }
        }
    }
    lemma_bases_len_monotone(s0, s1, s0.len() as int);
}

/// Fewer column-bottom marks mean no more column bottoms.
proof fn lemma_bases_len_monotone(s0: Seq<C>, s1: Seq<C>, n: int)
    requires
        s0.len() == s1.len(),
        0 <= n <= s0.len(),
        forall|i: int| 0 <= i < s0.len() && (#[trigger] s1[i]).0 == crate::card::TABLE_BYTE
            ==> s0[i].0 == crate::card::TABLE_BYTE,
    ensures
        bases_upto(s1, n).len() <= bases_upto(s0, n).len(),
    decreases n,
{
    if n > 0 {
        lemma_bases_len_monotone(s0, s1, n - 1);
    }
}

// ---------------------------------------------------------------------
// One source against one destination: the optimistic retry chain
// ---------------------------------------------------------------------

/// Moves the source occupant onto suit `su`'s ascending foundation as long
/// as it is a card of that suit whose rank extends the foundation by one.
/// Each move marks the moved card's raw-state entry with the ascending
/// sentinel and replaces the occupant by what lay beneath it.  Returns the
/// updated raw state, the final occupant, the final foundation top, and
/// whether anything moved.
pub open spec fn chase_asc(s: Seq<C>, src: C, fnd: C, su: Suit) -> (Seq<C>, C, C, bool)
    decreases 22 - asc_measure(fnd, su)
        via chase_asc_decreases
{
    if src.0 <= CARDS_HIGH && (src.0 as int) < s.len() && ord_suit(src.0 as int) == su && ord_rank(
        src.0 as int,
    ) == asc_measure(fnd, su) + 1 {
        let under = s[src.0 as int];
        let r = chase_asc(s.update(src.0 as int, C(FOUND_BYTE)), under, src, su);
        (r.0, r.1, r.2, true)
    } else {
        (s, src, fnd, false)
    }
}

#[via_fn]
proof fn chase_asc_decreases(s: Seq<C>, src: C, fnd: C, su: Suit) {
    if src.0 <= CARDS_HIGH {
        lemma_rank_bounds(src.0 as int);
    }
}

/// The same retry chain against the descending major foundation, marking
/// each moved card with the descending sentinel.
pub open spec fn chase_down(s: Seq<C>, src: C, dfnd: C) -> (Seq<C>, C, C, bool)
    decreases down_measure(dfnd)
        via chase_down_decreases
{
    if src.0 <= CARDS_HIGH && (src.0 as int) < s.len() && ord_suit(src.0 as int) is Magic
        && ord_rank(src.0 as int) == down_measure(dfnd) - 1 {
        let under = s[src.0 as int];
        let r = chase_down(s.update(src.0 as int, C(MAJHI_BYTE)), under, src);
        (r.0, r.1, r.2, true)
    } else {
        (s, src, dfnd, false)
    }
}

#[via_fn]
proof fn chase_down_decreases(s: Seq<C>, src: C, dfnd: C) {
    if src.0 <= CARDS_HIGH {
        lemma_rank_bounds(src.0 as int);
    }
    if dfnd.0 <= CARDS_HIGH {
        lemma_rank_bounds(dfnd.0 as int);
    }
}

// ---------------------------------------------------------------------
// One source against every eligible destination
// ---------------------------------------------------------------------

/// One ascending chase, recorded in the foundation vector.
pub open spec fn step_asc(s: Seq<C>, src: C, fnds: Seq<C>, su: Suit) -> (Seq<C>, C, Seq<C>, bool) {
    let r = chase_asc(s, src, fnds[suit_index(su)], su);
    (r.0, r.1, fnds.update(suit_index(su), r.2), r.3)
}

/// Plays one source against each eligible ascending foundation in suit
/// order, then against the descending major foundation.
pub open spec fn process_src(s: Seq<C>, src: C, fnds: Seq<C>, dfnd: C, all: bool) -> (
    Seq<C>,
    C,
    Seq<C>,
    C,
    bool,
) {
    let a = if all {
        let r0 = step_asc(s, src, fnds, Suit::Wands);
        let r1 = step_asc(r0.0, r0.1, r0.2, Suit::Stars);
        let r2 = step_asc(r1.0, r1.1, r1.2, Suit::Swrds);
        let r3 = step_asc(r2.0, r2.1, r2.2, Suit::Cuups);
        let r4 = step_asc(r3.0, r3.1, r3.2, Suit::Magic);
        (r4.0, r4.1, r4.2, r0.3 || r1.3 || r2.3 || r3.3 || r4.3)
    } else {
        step_asc(s, src, fnds, Suit::Magic)
    };
    let rd = chase_down(a.0, a.1, dfnd);
    (rd.0, rd.1, a.2, rd.2, a.3 || rd.3)
}

// ---------------------------------------------------------------------
// One round over every source, and the run to a fixpoint
// ---------------------------------------------------------------------

/// Plays the first `n` column tops in order, each against every eligible
/// destination.
pub open spec fn round_upto(s: Seq<C>, tabs: Seq<C>, fnds: Seq<C>, dfnd: C, all: bool, n: int) -> (
    Seq<C>,
    Seq<C>,
    Seq<C>,
    C,
    bool,
)
    decreases n,
{
    if n <= 0 {
        (s, tabs, fnds, dfnd, false)
    } else {
        let p = round_upto(s, tabs, fnds, dfnd, all, n - 1);
        let q = process_src(p.0, p.1[n - 1], p.2, p.3, all);
        (q.0, p.1.update(n - 1, q.1), q.2, q.3, p.4 || q.4)
    }
}

/// One full round: all eleven column tops, all five suits when the
/// freecell holds a card, only the major suit when it is empty.
pub open spec fn round(s: Seq<C>, tabs: Seq<C>, fc: C, fnds: Seq<C>, dfnd: C) -> (
    Seq<C>,
    Seq<C>,
    Seq<C>,
    C,
    bool,
) {
    round_upto(s, tabs, fnds, dfnd, fc.0 != FREEC_BYTE, 11)
}

/// A chase only raises its foundation, strictly so when a move happened;
/// it keeps values in the declared space and writes nothing but the
/// ascending marks of the newly covered ranks.
pub proof fn lemma_chase_asc_props(s: Seq<C>, src: C, fnd: C, su: Suit)
    requires
        entries_in_space(s),
        src.0 <= EVERY_HIGH,
        fnd.0 <= EVERY_HIGH,
    ensures
        ({
            let r = chase_asc(s, src, fnd, su);
            &&& r.0.len() == s.len()
            &&& entries_in_space(r.0)
            &&& asc_measure(r.2, su) >= asc_measure(fnd, su)
            &&& (r.3 ==> asc_measure(r.2, su) > asc_measure(fnd, su))
            &&& r.1.0 <= EVERY_HIGH
            &&& r.2.0 <= EVERY_HIGH
            &&& forall|i: int|
                0 <= i < s.len() ==> ((#[trigger] r.0[i]) == s[i] || (r.0[i] == C(FOUND_BYTE)
                    && ord_suit(i) == su && asc_measure(fnd, su) < ord_rank(i) <= asc_measure(
                    r.2,
                    su,
                )))
        }),
    decreases 22 - asc_measure(fnd, su),
{
    if src.0 <= CARDS_HIGH {
        lemma_rank_bounds(src.0 as int);
    }
    if fnd.0 <= CARDS_HIGH {
        lemma_rank_bounds(fnd.0 as int);
    }
    if src.0 <= CARDS_HIGH && (src.0 as int) < s.len() && ord_suit(src.0 as int) == su && ord_rank(
        src.0 as int,
    ) == asc_measure(fnd, su) + 1 {
        let m = src.0 as int;
        let s2 = s.update(m, C(FOUND_BYTE));
        let under = s[m];
        lemma_chase_asc_props(s2, under, src, su);
        let r = chase_asc(s, src, fnd, su);
        assert forall|i: int| 0 <= i < s.len() implies ((#[trigger] r.0[i]) == s[i] || (r.0[i]
            == C(FOUND_BYTE) && ord_suit(i) == su && asc_measure(fnd, su) < ord_rank(i)
            <= asc_measure(r.2, su))) by {
            if i == m {
                if r.0[i] != s2[i] {
                    assert(asc_measure(src, su) < ord_rank(i));
                }
            }
        }
    }
}

/// The descending counterpart: the chase only lowers the foundation, and
/// writes nothing but the descending marks of the newly covered ranks.
pub proof fn lemma_chase_down_props(s: Seq<C>, src: C, dfnd: C)
    requires
        entries_in_space(s),
        src.0 <= EVERY_HIGH,
        dfnd.0 <= EVERY_HIGH,
    ensures
        ({
            let r = chase_down(s, src, dfnd);
            &&& r.0.len() == s.len()
            &&& entries_in_space(r.0)
            &&& down_measure(r.2) <= down_measure(dfnd)
            &&& (r.3 ==> down_measure(r.2) < down_measure(dfnd))
            &&& r.1.0 <= EVERY_HIGH
            &&& r.2.0 <= EVERY_HIGH
            &&& forall|i: int|
                0 <= i < s.len() ==> ((#[trigger] r.0[i]) == s[i] || (r.0[i] == C(MAJHI_BYTE)
                    && ord_suit(i) is Magic && down_measure(r.2) <= ord_rank(i) < down_measure(
                    dfnd,
                )))
        }),
    decreases down_measure(dfnd),
{
    if src.0 <= CARDS_HIGH {
        lemma_rank_bounds(src.0 as int);
    }
    if dfnd.0 <= CARDS_HIGH {
        lemma_rank_bounds(dfnd.0 as int);
    }
    if src.0 <= CARDS_HIGH && (src.0 as int) < s.len() && ord_suit(src.0 as int) is Magic
        && ord_rank(src.0 as int) == down_measure(dfnd) - 1 {
        let m = src.0 as int;
        let s2 = s.update(m, C(MAJHI_BYTE));
        let under = s[m];
        lemma_chase_down_props(s2, under, src);
        let r = chase_down(s, src, dfnd);
        assert forall|i: int| 0 <= i < s.len() implies ((#[trigger] r.0[i]) == s[i] || (r.0[i]
            == C(MAJHI_BYTE) && ord_suit(i) is Magic && down_measure(r.2) <= ord_rank(i)
            < down_measure(dfnd))) by {
            if i == m {
                if r.0[i] != s2[i] {
                    assert(ord_rank(i) < down_measure(src));
                }
            }
        }
    }
}

/// Playing one source never lowers the score, raises it strictly when
/// anything moved, and writes only the marks of the newly scored cards.
pub proof fn lemma_process_src_props(s: Seq<C>, src: C, fnds: Seq<C>, dfnd: C, all: bool)
    requires
        entries_in_space(s),
        src.0 <= EVERY_HIGH,
        fnds.len() == 5,
        forall|k: int| 0 <= k < 5 ==> (#[trigger] fnds[k]).0 <= EVERY_HIGH,
        dfnd.0 <= EVERY_HIGH,
    ensures
        ({
            let r = process_src(s, src, fnds, dfnd, all);
            &&& r.0.len() == s.len()
            &&& entries_in_space(r.0)
            &&& r.2.len() == 5
            &&& score(r.2, r.3) >= score(fnds, dfnd)
            &&& (r.4 ==> score(r.2, r.3) > score(fnds, dfnd))
            &&& r.1.0 <= EVERY_HIGH
            &&& forall|k: int| 0 <= k < 5 ==> (#[trigger] r.2[k]).0 <= EVERY_HIGH
            &&& r.3.0 <= EVERY_HIGH
            &&& forall|k: int|
                0 <= k < 5 ==> asc_measure(#[trigger] r.2[k], suit_of_index(k)) >= asc_measure(
                    fnds[k],
                    suit_of_index(k),
                )
            &&& down_measure(r.3) <= down_measure(dfnd)
            &&& marks_only(s, r.0, fnds, r.2, dfnd, r.3)
        }),
{
    let r = process_src(s, src, fnds, dfnd, all);
    if all {
        let r0 = step_asc(s, src, fnds, Suit::Wands);
        let r1 = step_asc(r0.0, r0.1, r0.2, Suit::Stars);
        let r2 = step_asc(r1.0, r1.1, r1.2, Suit::Swrds);
        let r3 = step_asc(r2.0, r2.1, r2.2, Suit::Cuups);
        let r4 = step_asc(r3.0, r3.1, r3.2, Suit::Magic);
        lemma_chase_asc_props(s, src, fnds[0], Suit::Wands);
        lemma_chase_asc_props(r0.0, r0.1, r0.2[1], Suit::Stars);
        lemma_chase_asc_props(r1.0, r1.1, r1.2[2], Suit::Swrds);
        lemma_chase_asc_props(r2.0, r2.1, r2.2[3], Suit::Cuups);
        lemma_chase_asc_props(r3.0, r3.1, r3.2[4], Suit::Magic);
        lemma_chase_down_props(r4.0, r4.1, dfnd);
        assert(marks_only(s, r0.0, fnds, r0.2, dfnd, dfnd));
        assert(marks_only(r0.0, r1.0, r0.2, r1.2, dfnd, dfnd));
        assert(marks_only(r1.0, r2.0, r1.2, r2.2, dfnd, dfnd));
        assert(marks_only(r2.0, r3.0, r2.2, r3.2, dfnd, dfnd));
        assert(marks_only(r3.0, r4.0, r3.2, r4.2, dfnd, dfnd));
        assert(marks_only(r4.0, r.0, r4.2, r4.2, dfnd, r.3));
        lemma_marks_compose(s, r0.0, r1.0, fnds, r0.2, r1.2, dfnd, dfnd, dfnd);
        lemma_marks_compose(s, r1.0, r2.0, fnds, r1.2, r2.2, dfnd, dfnd, dfnd);
        lemma_marks_compose(s, r2.0, r3.0, fnds, r2.2, r3.2, dfnd, dfnd, dfnd);
        lemma_marks_compose(s, r3.0, r4.0, fnds, r3.2, r4.2, dfnd, dfnd, dfnd);
        lemma_marks_compose(s, r4.0, r.0, fnds, r4.2, r4.2, dfnd, dfnd, r.3);
    } else {
        let r4 = step_asc(s, src, fnds, Suit::Magic);
        lemma_chase_asc_props(s, src, fnds[4], Suit::Magic);
        lemma_chase_down_props(r4.0, r4.1, dfnd);
        assert(marks_only(s, r4.0, fnds, r4.2, dfnd, dfnd));
        assert(marks_only(r4.0, r.0, r4.2, r4.2, dfnd, r.3));
        lemma_marks_compose(s, r4.0, r.0, fnds, r4.2, r4.2, dfnd, dfnd, r.3);
    }
}

/// A round never lowers the score, raises it strictly when anything
/// moved, and writes only the marks of the newly scored cards.
pub proof fn lemma_round_upto_props(
    s: Seq<C>,
    tabs: Seq<C>,
    fnds: Seq<C>,
    dfnd: C,
    all: bool,
    n: int,
)
    requires
        entries_in_space(s),
        0 <= n <= tabs.len(),
        forall|k: int| 0 <= k < tabs.len() ==> (#[trigger] tabs[k]).0 <= EVERY_HIGH,
        fnds.len() == 5,
        forall|k: int| 0 <= k < 5 ==> (#[trigger] fnds[k]).0 <= EVERY_HIGH,
        dfnd.0 <= EVERY_HIGH,
    ensures
        ({
            let r = round_upto(s, tabs, fnds, dfnd, all, n);
            &&& r.0.len() == s.len()
            &&& entries_in_space(r.0)
            &&& r.1.len() == tabs.len()
            &&& r.2.len() == 5
            &&& score(r.2, r.3) >= score(fnds, dfnd)
            &&& (r.4 ==> score(r.2, r.3) > score(fnds, dfnd))
            &&& forall|k: int| 0 <= k < tabs.len() ==> (#[trigger] r.1[k]).0 <= EVERY_HIGH
            &&& forall|k: int| 0 <= k < 5 ==> (#[trigger] r.2[k]).0 <= EVERY_HIGH
            &&& r.3.0 <= EVERY_HIGH
            &&& forall|k: int|
                0 <= k < 5 ==> asc_measure(#[trigger] r.2[k], suit_of_index(k)) >= asc_measure(
                    fnds[k],
                    suit_of_index(k),
                )
            &&& down_measure(r.3) <= down_measure(dfnd)
            &&& marks_only(s, r.0, fnds, r.2, dfnd, r.3)
        }),
    decreases n,
{
    if n > 0 {
        lemma_round_upto_props(s, tabs, fnds, dfnd, all, n - 1);
        let p = round_upto(s, tabs, fnds, dfnd, all, n - 1);
        lemma_process_src_props(p.0, p.1[n - 1], p.2, p.3, all);
        let q = process_src(p.0, p.1[n - 1], p.2, p.3, all);
        lemma_marks_compose(s, p.0, q.0, fnds, p.2, q.2, dfnd, p.3, q.3);
    }
}

/// Playing a source that reports no change leaves everything as it was.
pub proof fn lemma_process_src_no_change(s: Seq<C>, src: C, fnds: Seq<C>, dfnd: C, all: bool)
    requires
        fnds.len() == 5,
        !process_src(s, src, fnds, dfnd, all).4,
    ensures
        process_src(s, src, fnds, dfnd, all).0 == s,
        process_src(s, src, fnds, dfnd, all).1 == src,
        process_src(s, src, fnds, dfnd, all).2 == fnds,
        process_src(s, src, fnds, dfnd, all).3 == dfnd,
{
    if all {
        let r0 = step_asc(s, src, fnds, Suit::Wands);
        assert(r0.2 =~= fnds);
        let r1 = step_asc(r0.0, r0.1, r0.2, Suit::Stars);
        assert(r1.2 =~= fnds);
        let r2 = step_asc(r1.0, r1.1, r1.2, Suit::Swrds);
        assert(r2.2 =~= fnds);
        let r3 = step_asc(r2.0, r2.1, r2.2, Suit::Cuups);
        assert(r3.2 =~= fnds);
        let r4 = step_asc(r3.0, r3.1, r3.2, Suit::Magic);
        assert(r4.2 =~= fnds);
    } else {
        let r4 = step_asc(s, src, fnds, Suit::Magic);
        assert(r4.2 =~= fnds);
    }
}

/// A round that reports no change leaves everything as it was.
pub proof fn lemma_round_upto_no_change(
    s: Seq<C>,
    tabs: Seq<C>,
    fnds: Seq<C>,
    dfnd: C,
    all: bool,
    n: int,
)
    requires
        fnds.len() == 5,
        0 <= n <= tabs.len(),
        !round_upto(s, tabs, fnds, dfnd, all, n).4,
    ensures
        round_upto(s, tabs, fnds, dfnd, all, n).0 == s,
        round_upto(s, tabs, fnds, dfnd, all, n).1 =~= tabs,
        round_upto(s, tabs, fnds, dfnd, all, n).2 == fnds,
        round_upto(s, tabs, fnds, dfnd, all, n).3 == dfnd,
    decreases n,
{
    if n > 0 {
        let p = round_upto(s, tabs, fnds, dfnd, all, n - 1);
        lemma_round_upto_no_change(s, tabs, fnds, dfnd, all, n - 1);
        lemma_process_src_no_change(p.0, p.1[n - 1], p.2, p.3, all);
        assert(p.1.update(n - 1, process_src(p.0, p.1[n - 1], p.2, p.3, all).1) =~= tabs);
    }
}

/// The shapes and spaces the automaton relies on.
pub open spec fn auto_wf(s: Seq<C>, tabs: Seq<C>, fnds: Seq<C>, dfnd: C) -> bool {
    &&& s.len() == CARDS_COUNT as int
    &&& entries_in_space(s)
    &&& tabs.len() == 11
    &&& forall|k: int| 0 <= k < 11 ==> (#[trigger] tabs[k]).0 <= EVERY_HIGH
    &&& fnds.len() == 5
    &&& forall|k: int| 0 <= k < 5 ==> (#[trigger] fnds[k]).0 <= EVERY_HIGH
    &&& dfnd.0 <= EVERY_HIGH
}

/// Runs rounds until one makes no change, carrying the raw state along.
pub open spec fn auto_run(s: Seq<C>, tabs: Seq<C>, fc: C, fnds: Seq<C>, dfnd: C) -> (
    Seq<C>,
    Seq<C>,
    Seq<C>,
    C,
)
    decreases 125 - score(fnds, dfnd)
        when auto_wf(s, tabs, fnds, dfnd)
        via auto_run_decreases
{
    let r = round(s, tabs, fc, fnds, dfnd);
    if r.4 {
        auto_run(r.0, r.1, fc, r.2, r.3)
    } else {
        (s, tabs, fnds, dfnd)
    }
}

#[via_fn]
proof fn auto_run_decreases(s: Seq<C>, tabs: Seq<C>, fc: C, fnds: Seq<C>, dfnd: C) {
    lemma_round_upto_props(s, tabs, fnds, dfnd, fc.0 != FREEC_BYTE, 11);
    lemma_score_bounds(fnds, dfnd);
    let r = round(s, tabs, fc, fnds, dfnd);
    lemma_score_bounds(r.2, r.3);
}

/// A full run keeps the shapes, writes only the marks of the newly scored
/// cards, and only builds the foundations.
pub proof fn lemma_auto_run_props(s: Seq<C>, tabs: Seq<C>, fc: C, fnds: Seq<C>, dfnd: C)
    requires
        auto_wf(s, tabs, fnds, dfnd),
    ensures
        ({
            let r = auto_run(s, tabs, fc, fnds, dfnd);
            &&& auto_wf(r.0, r.1, r.2, r.3)
            &&& marks_only(s, r.0, fnds, r.2, dfnd, r.3)
            &&& forall|k: int|
                0 <= k < 5 ==> asc_measure(#[trigger] r.2[k], suit_of_index(k)) >= asc_measure(
                    fnds[k],
                    suit_of_index(k),
                )
            &&& down_measure(r.3) <= down_measure(dfnd)
        }),
    decreases 125 - score(fnds, dfnd),
{
    lemma_round_upto_props(s, tabs, fnds, dfnd, fc.0 != FREEC_BYTE, 11);
    lemma_score_bounds(fnds, dfnd);
    let rr = round(s, tabs, fc, fnds, dfnd);
    lemma_score_bounds(rr.2, rr.3);
    if rr.4 {
        lemma_auto_run_props(rr.0, rr.1, fc, rr.2, rr.3);
        let r = auto_run(s, tabs, fc, fnds, dfnd);
        lemma_marks_compose(s, rr.0, r.0, fnds, rr.2, r.2, dfnd, rr.3, r.3);
    }
}

/// The automaton's result is converged: one more round moves nothing.
pub proof fn lemma_auto_run_fixpoint(s: Seq<C>, tabs: Seq<C>, fc: C, fnds: Seq<C>, dfnd: C)
    requires
        auto_wf(s, tabs, fnds, dfnd),
    ensures
        ({
            let r = auto_run(s, tabs, fc, fnds, dfnd);
            &&& auto_wf(r.0, r.1, r.2, r.3)
            &&& !round(r.0, r.1, fc, r.2, r.3).4
        }),
    decreases 125 - score(fnds, dfnd),
{
    lemma_round_upto_props(s, tabs, fnds, dfnd, fc.0 != FREEC_BYTE, 11);
    lemma_score_bounds(fnds, dfnd);
    let rr = round(s, tabs, fc, fnds, dfnd);
    lemma_score_bounds(rr.2, rr.3);
    if rr.4 {
        lemma_auto_run_fixpoint(rr.0, rr.1, fc, rr.2, rr.3);
    }
}

/// Law: running the automaton twice is running it once — on a converged
/// board a further run changes nothing, raw state included.
pub proof fn lemma_auto_run_idempotent(s: Seq<C>, tabs: Seq<C>, fc: C, fnds: Seq<C>, dfnd: C)
    requires
        auto_wf(s, tabs, fnds, dfnd),
    ensures
        ({
            let r = auto_run(s, tabs, fc, fnds, dfnd);
            auto_run(r.0, r.1, fc, r.2, r.3) == r
        }),
{
    lemma_auto_run_fixpoint(s, tabs, fc, fnds, dfnd);
}

// ---------------------------------------------------------------------
// Foundation-resident cards
// ---------------------------------------------------------------------

/// The cards resident on suit `su`'s ascending foundation.
pub open spec fn asc_set(fnd: C, su: Suit) -> Set<int> {
    Set::new(
        |o: int| is_card_ord(o) && ord_suit(o) == su && ord_rank(o) <= asc_measure(fnd, su),
    )
}

/// The cards resident on the descending major foundation.
pub open spec fn down_set(dfnd: C) -> Set<int> {
    Set::new(|o: int| is_card_ord(o) && ord_suit(o) is Magic && ord_rank(o) >= down_measure(dfnd))
}

/// Every card resident on some foundation.
pub open spec fn scored_cards(fnds: Seq<C>, dfnd: C) -> Set<int> {
    asc_set(fnds[0], Suit::Wands).union(asc_set(fnds[1], Suit::Stars)).union(
        asc_set(fnds[2], Suit::Swrds),
    ).union(asc_set(fnds[3], Suit::Cuups)).union(asc_set(fnds[4], Suit::Magic)).union(
        down_set(dfnd),
    )
}

/// Law: the set of foundation-resident cards never shrinks across a run
/// of the automaton, so their count never decreases.
pub proof fn lemma_auto_run_scored_monotone(s: Seq<C>, tabs: Seq<C>, fc: C, fnds: Seq<C>, dfnd: C)
    requires
        auto_wf(s, tabs, fnds, dfnd),
    ensures
        ({
            let r = auto_run(s, tabs, fc, fnds, dfnd);
            &&& scored_cards(fnds, dfnd).subset_of(scored_cards(r.2, r.3))
            &&& scored_cards(fnds, dfnd).len() <= scored_cards(r.2, r.3).len()
        }),
{
    lemma_auto_run_props(s, tabs, fc, fnds, dfnd);
    let rend = auto_run(s, tabs, fc, fnds, dfnd);
    assert forall|o: int| scored_cards(fnds, dfnd).contains(o) implies scored_cards(
        rend.2,
        rend.3,
    ).contains(o) by {
        assert(asc_measure(rend.2[0], suit_of_index(0)) >= asc_measure(fnds[0], suit_of_index(0)));
        assert(asc_measure(rend.2[1], suit_of_index(1)) >= asc_measure(fnds[1], suit_of_index(1)));
        assert(asc_measure(rend.2[2], suit_of_index(2)) >= asc_measure(fnds[2], suit_of_index(2)));
        assert(asc_measure(rend.2[3], suit_of_index(3)) >= asc_measure(fnds[3], suit_of_index(3)));
        assert(asc_measure(rend.2[4], suit_of_index(4)) >= asc_measure(fnds[4], suit_of_index(4)));
    }
    lemma_card_indices_props();
    lemma_len_subset(scored_cards(rend.2, rend.3), card_indices());
    lemma_len_subset(scored_cards(fnds, dfnd), scored_cards(rend.2, rend.3));
}

/// Law: the foundations never hold more cards than the deck has.
pub proof fn lemma_scored_cards_bounded(fnds: Seq<C>, dfnd: C)
    ensures
        scored_cards(fnds, dfnd).len() <= CARDS_COUNT as int,
{
    lemma_card_indices_props();
    assert(scored_cards(fnds, dfnd).subset_of(card_indices()));
    lemma_len_subset(scored_cards(fnds, dfnd), card_indices());
}

// ---------------------------------------------------------------------
// Preservation of placement: every card stays in exactly one zone
// ---------------------------------------------------------------------

/// Nothing rests on occupant `t`.
pub open spec fn nothing_on(s: Seq<C>, t: C) -> bool {
    forall|x: int| 0 <= x < s.len() ==> (#[trigger] s[x]) != t
}

/// Card `t` is an exposed column top: nothing rests on it, and it rests on
/// a card or on the column bottom — never on a foundation or the freecell.
pub open spec fn exposed(s: Seq<C>, t: C) -> bool {
    &&& s[t.0 as int].0 <= CARDS_HIGH || s[t.0 as int].0 == TABLE_BYTE
    &&& nothing_on(s, t)
}

/// Whatever a card rests on is itself in the tableau zone: no card rests
/// on a foundation or freecell card.
pub open spec fn tableau_closed(s: Seq<C>) -> bool {
    forall|x: int|
        0 <= x < s.len() && (#[trigger] s[x]).0 <= CARDS_HIGH ==> (s[s[x].0 as int].0 <= CARDS_HIGH
            || s[s[x].0 as int].0 == TABLE_BYTE)
}

/// Scans agree on states whose relevant marks agree.
proof fn lemma_fnd_upto_same(s0: Seq<C>, s1: Seq<C>, n: int, su: Suit)
    requires
        s0.len() == s1.len(),
        0 <= n <= s0.len(),
        forall|o: int|
            0 <= o < s0.len() ==> (((#[trigger] s1[o]).0 == FOUND_BYTE && ord_suit(o) == su) <==> (
            s0[o].0 == FOUND_BYTE && ord_suit(o) == su)),
    ensures
        fnd_upto(s1, n, su) == fnd_upto(s0, n, su),
    decreases n,
{
    if n > 0 {
        lemma_fnd_upto_same(s0, s1, n - 1, su);
    }
}

/// Scans agree on states whose descending marks agree.
proof fn lemma_down_upto_same(s0: Seq<C>, s1: Seq<C>, n: int)
    requires
        s0.len() == s1.len(),
        0 <= n <= s0.len(),
        forall|o: int|
            0 <= o < s0.len() ==> (((#[trigger] s1[o]).0 == MAJHI_BYTE) <==> (s0[o].0
                == MAJHI_BYTE)),
    ensures
        down_upto(s1, n) == down_upto(s0, n),
    decreases n,
{
    if n > 0 {
        lemma_down_upto_same(s0, s1, n - 1);
    }
}

/// Scans agree on states whose freecell marks agree.
proof fn lemma_freecell_upto_same(s0: Seq<C>, s1: Seq<C>, n: int)
    requires
        s0.len() == s1.len(),
        0 <= n <= s0.len(),
        forall|o: int|
            0 <= o < s0.len() ==> (((#[trigger] s1[o]).0 == FREEC_BYTE) <==> (s0[o].0
                == FREEC_BYTE)),
    ensures
        freecell_upto(s1, n) == freecell_upto(s0, n),
    decreases n,
{
    if n > 0 {
        lemma_freecell_upto_same(s0, s1, n - 1);
    }
}

/// One ascending move on a placed state: the facts about the state right
/// after the moved card's entry becomes the ascending sentinel.
#[verifier::rlimit(60)]
#[verifier::spinoff_prover]
proof fn lemma_asc_move_placed(s: Seq<C>, src: C, fnd: C, su: Suit)
    requires
        derivable(s),
        asc_closed(s),
        down_closed(s),
        tableau_closed(s),
        fnd == fnd_upto(s, s.len() as int, su),
        src.0 <= CARDS_HIGH,
        exposed(s, src),
        ord_suit(src.0 as int) == su,
        ord_rank(src.0 as int) == asc_measure(fnd, su) + 1,
    ensures
        ({
            let s2 = s.update(src.0 as int, C(FOUND_BYTE));
            let under = s[src.0 as int];
            &&& derivable(s2)
            &&& asc_closed(s2)
            &&& down_closed(s2)
            &&& tableau_closed(s2)
            &&& fnd_upto(s2, s2.len() as int, su) == src
            &&& forall|su2: Suit|
                su2 != su ==> #[trigger] fnd_upto(s2, s2.len() as int, su2) == fnd_upto(
                    s,
                    s.len() as int,
                    su2,
                )
            &&& down_upto(s2, s2.len() as int) == down_upto(s, s.len() as int)
            &&& freecell_upto(s2, s2.len() as int) == freecell_upto(s, s.len() as int)
            &&& under.0 <= EVERY_HIGH
            &&& (under.0 <= CARDS_HIGH ==> exposed(s2, under))
            &&& forall|tc: C|
                #![trigger exposed(s2, tc)]
                tc.0 <= CARDS_HIGH && tc != src && exposed(s, tc) ==> exposed(s2, tc) && tc
                    != under
        }),
{
    let n = s.len() as int;
    lemma_rank_bounds(src.0 as int);
    if fnd.0 <= CARDS_HIGH {
        lemma_rank_bounds(fnd.0 as int);
    }
    lemma_fnd_char(s, n, su);
    let m = src.0 as int;
    let under = s[m];
    let s2 = s.update(m, C(FOUND_BYTE));
    // the moved card sat exactly one rank above its pile: in ordinals,
    // directly after its pile's top
    assert(m == pack_ord(su, asc_measure(fnd, su) + 1));
    if fnd.0 != NOCRD_BYTE {
        assert(fnd.0 < n && s[fnd.0 as int].0 == FOUND_BYTE && ord_suit(fnd.0 as int) == su);
        assert(fnd.0 as int == pack_ord(su, asc_measure(fnd, su)));
        assert(m == fnd.0 + 1);
    }
    // the updated state is still structurally valid
    assert(derivable(s2)) by {
        assert(entries_in_space(s2));
        assert(no_missing(s2));
        assert(one_freecell(s2)) by {
            assert forall|i: int, j: int|
                #![trigger s2[i], s2[j]]
                0 <= i < s2.len() && 0 <= j < s2.len() && i != j implies !(s2[i].0 == FREEC_BYTE
                && s2[j].0 == FREEC_BYTE) by {
                if s2[i].0 == FREEC_BYTE && s2[j].0 == FREEC_BYTE {
                    assert(s2[i] == s[i] && s2[j] == s[j]);
                }
            }
        }
        assert(no_bifurcation(s2)) by {
            assert forall|i: int, j: int|
                #![trigger s2[i], s2[j]]
                0 <= i < s2.len() && 0 <= j < s2.len() && i != j && s2[i].0
                <= CARDS_HIGH implies s2[j] != s2[i] by {
                if s2[j] == s2[i] {
                    assert(s2[i] == s[i] && s2[j] == s[j]);
                }
            }
        }
        lemma_bases_len_monotone(s, s2, s.len() as int);
    }
    // the pile stays gapless: the new mark sits right above the old top
    assert(asc_closed(s2)) by {
        assert forall|o1: int, o2: int|
            #![trigger s2[o1], s2[o2]]
            0 <= o1 < s2.len() && 0 <= o2 < s2.len() && ord_suit(o1) == ord_suit(o2) && ord_rank(
                o1,
            ) < ord_rank(o2) && s2[o2].0 == FOUND_BYTE implies s2[o1].0 == FOUND_BYTE by {
            lemma_rank_bounds(o1);
            lemma_rank_bounds(o2);
            if o2 == m {
                assert(ord_suit(o1) == su && ord_rank(o1) <= asc_measure(fnd, su));
                if fnd.0 == NOCRD_BYTE {
                    assert(ord_rank(o1) >= suit_min_rank(su));
                    assert(false);
                } else {
                    if ord_rank(o1) < asc_measure(fnd, su) {
                        assert(s[fnd.0 as int].0 == FOUND_BYTE);
                        assert(s[o1].0 == FOUND_BYTE);
                    } else {
                        assert(o1 == pack_ord(su, ord_rank(o1)));
                        assert(o1 == fnd.0 as int);
                        assert(s[o1].0 == FOUND_BYTE);
                    }
                }
                assert(o1 != m);
            } else {
                assert(s2[o2] == s[o2]);
                if o1 != m {
                    assert(s[o1].0 == FOUND_BYTE);
                }
            }
        }
    }
    // the descending pile and the freecell are untouched
    assert(down_closed(s2)) by {
        assert(s[m].0 != MAJHI_BYTE);
    }
    // nothing rested on the moved card, so resting cards still rest on
    // tableau cards
    assert(tableau_closed(s2)) by {
        assert forall|x: int|
            0 <= x < s2.len() && (#[trigger] s2[x]).0 <= CARDS_HIGH implies (s2[s2[x].0 as int].0
            <= CARDS_HIGH || s2[s2[x].0 as int].0 == TABLE_BYTE) by {
            assert(x != m);
            assert(s2[x] == s[x]);
            if s[x].0 as int == m {
                assert(s[x] == src);
                assert(false);
            }
        }
    }
    // the suit's derived top is now the moved card
    assert(fnd_upto(s2, n, su) == src) by {
        lemma_fnd_char(s2, n, su);
        let f2 = fnd_upto(s2, n, su);
        assert(s2[m].0 == FOUND_BYTE && ord_suit(m) == su);
        if f2.0 == NOCRD_BYTE {
            assert(!(s2[m].0 == FOUND_BYTE && ord_suit(m) == su));
        }
        assert(f2.0 != NOCRD_BYTE);
        if f2.0 as int != m {
            if (f2.0 as int) < m {
                assert(!(s2[m].0 == FOUND_BYTE && ord_suit(m) == su));
                assert(false);
            } else {
                assert(s2[f2.0 as int] == s[f2.0 as int]);
                if fnd.0 == NOCRD_BYTE {
                    assert(!(s[f2.0 as int].0 == FOUND_BYTE && ord_suit(f2.0 as int) == su));
                } else {
                    assert(f2.0 > fnd.0);
                    assert(!(s[f2.0 as int].0 == FOUND_BYTE && ord_suit(f2.0 as int) == su));
                }
                assert(false);
            }
        }
    }
    // the other piles' derived tops are untouched
    assert forall|su2: Suit| su2 != su implies #[trigger] fnd_upto(s2, n, su2) == fnd_upto(
        s,
        n,
        su2,
    ) by {
        lemma_fnd_upto_same(s, s2, n, su2);
    }
    lemma_down_upto_same(s, s2, n);
    lemma_freecell_upto_same(s, s2, n);
    // what lay beneath the moved card is the newly exposed top
    if under.0 <= CARDS_HIGH {
        assert(exposed(s2, under)) by {
            assert(under.0 as int != m) by {
                if under.0 as int == m {
                    assert(s[m] == src);
                }
            }
            assert(s2[under.0 as int] == s[under.0 as int]);
            assert(s[under.0 as int].0 <= CARDS_HIGH || s[under.0 as int].0 == TABLE_BYTE);
            assert forall|x: int| 0 <= x < s2.len() implies (#[trigger] s2[x]) != under by {
                if x != m && s2[x] == under {
                    assert(s[x] == under && s[m] == under);
                    assert(x == m);
                }
            }
        }
    }
    // every other exposed occupant stays exposed through this move
    assert forall|tc: C|
        #![trigger exposed(s2, tc)]
        tc.0 <= CARDS_HIGH && tc != src && exposed(s, tc) implies exposed(s2, tc) && tc
        != under by {
        assert(tc.0 as int != m);
        assert(s2[tc.0 as int] == s[tc.0 as int]);
        assert forall|x: int| 0 <= x < s2.len() implies (#[trigger] s2[x]) != tc by {
            if x != m {
                assert(s[x] != tc);
            }
        }
        if tc == under {
            assert(s[m] == tc);
            assert(false);
        }
    }
}

/// One descending move on a placed state: the counterpart facts.
#[verifier::rlimit(60)]
#[verifier::spinoff_prover]
proof fn lemma_down_move_placed(s: Seq<C>, src: C, dfnd: C)
    requires
        derivable(s),
        asc_closed(s),
        down_closed(s),
        tableau_closed(s),
        dfnd == down_upto(s, s.len() as int),
        src.0 <= CARDS_HIGH,
        exposed(s, src),
        ord_suit(src.0 as int) is Magic,
        ord_rank(src.0 as int) == down_measure(dfnd) - 1,
    ensures
        ({
            let s2 = s.update(src.0 as int, C(MAJHI_BYTE));
            let under = s[src.0 as int];
            &&& derivable(s2)
            &&& asc_closed(s2)
            &&& down_closed(s2)
            &&& tableau_closed(s2)
            &&& down_upto(s2, s2.len() as int) == src
            &&& forall|su2: Suit|
                #![trigger fnd_upto(s2, s2.len() as int, su2)]
                fnd_upto(s2, s2.len() as int, su2) == fnd_upto(s, s.len() as int, su2)
            &&& freecell_upto(s2, s2.len() as int) == freecell_upto(s, s.len() as int)
            &&& under.0 <= EVERY_HIGH
            &&& (under.0 <= CARDS_HIGH ==> exposed(s2, under))
            &&& forall|tc: C|
                #![trigger exposed(s2, tc)]
                tc.0 <= CARDS_HIGH && tc != src && exposed(s, tc) ==> exposed(s2, tc) && tc
                    != under
        }),
{
    let n = s.len() as int;
    lemma_rank_bounds(src.0 as int);
    if dfnd.0 <= CARDS_HIGH {
        lemma_rank_bounds(dfnd.0 as int);
    }
    lemma_down_char(s, n);
    let m = src.0 as int;
    let under = s[m];
    let s2 = s.update(m, C(MAJHI_BYTE));
    assert(m == pack_ord(Suit::Magic, down_measure(dfnd) - 1));
    if dfnd.0 != NOCRD_BYTE {
        assert(dfnd.0 < n && s[dfnd.0 as int].0 == MAJHI_BYTE);
        assert(ord_suit(dfnd.0 as int) is Magic);
        assert(dfnd.0 as int == pack_ord(Suit::Magic, down_measure(dfnd)));
        assert(m == dfnd.0 - 1);
    }
    assert(derivable(s2)) by {
        assert(entries_in_space(s2));
        assert(no_missing(s2));
        assert(one_freecell(s2)) by {
            assert forall|i: int, j: int|
                #![trigger s2[i], s2[j]]
                0 <= i < s2.len() && 0 <= j < s2.len() && i != j implies !(s2[i].0 == FREEC_BYTE
                && s2[j].0 == FREEC_BYTE) by {
                if s2[i].0 == FREEC_BYTE && s2[j].0 == FREEC_BYTE {
                    assert(s2[i] == s[i] && s2[j] == s[j]);
                }
            }
        }
        assert(no_bifurcation(s2)) by {
            assert forall|i: int, j: int|
                #![trigger s2[i], s2[j]]
                0 <= i < s2.len() && 0 <= j < s2.len() && i != j && s2[i].0
                <= CARDS_HIGH implies s2[j] != s2[i] by {
                if s2[j] == s2[i] {
                    assert(s2[i] == s[i] && s2[j] == s[j]);
                }
            }
        }
        lemma_bases_len_monotone(s, s2, s.len() as int);
    }
    assert(asc_closed(s2)) by {
        assert forall|o1: int, o2: int|
            #![trigger s2[o1], s2[o2]]
            0 <= o1 < s2.len() && 0 <= o2 < s2.len() && ord_suit(o1) == ord_suit(o2) && ord_rank(
                o1,
            ) < ord_rank(o2) && s2[o2].0 == FOUND_BYTE implies s2[o1].0 == FOUND_BYTE by {
            assert(o2 != m);
            assert(s2[o2] == s[o2]);
            if o1 != m {
                assert(s[o1].0 == FOUND_BYTE);
            } else {
                assert(s[m].0 == FOUND_BYTE);
                assert(false);
            }
        }
    }
    // the pile stays gapless downward: the new mark sits right below the
    // old bottom
    assert(down_closed(s2)) by {
        assert forall|o: int|
            0 <= o < s2.len() && (#[trigger] s2[o]).0 == MAJHI_BYTE implies ord_suit(o)
            is Magic by {
            if o != m {
                assert(s2[o] == s[o]);
            }
        }
        assert forall|o1: int, o2: int|
            #![trigger s2[o1], s2[o2]]
            0 <= o1 < s2.len() && 0 <= o2 < s2.len() && ord_suit(o1) is Magic && ord_suit(o2)
                is Magic && ord_rank(o1) > ord_rank(o2) && s2[o2].0 == MAJHI_BYTE implies s2[o1].0
            == MAJHI_BYTE by {
            lemma_rank_bounds(o1);
            lemma_rank_bounds(o2);
            if o2 == m {
                assert(ord_rank(o1) >= down_measure(dfnd));
                if dfnd.0 == NOCRD_BYTE {
                    assert(false);
                } else {
                    if ord_rank(o1) > down_measure(dfnd) {
                        assert(s[dfnd.0 as int].0 == MAJHI_BYTE);
                        assert(s[o1].0 == MAJHI_BYTE);
                    } else {
                        assert(o1 == pack_ord(Suit::Magic, ord_rank(o1)));
                        assert(o1 == dfnd.0 as int);
                        assert(s[o1].0 == MAJHI_BYTE);
                    }
                }
                assert(o1 != m);
            } else {
                assert(s2[o2] == s[o2]);
                if o1 != m {
                    assert(s[o1].0 == MAJHI_BYTE);
                }
            }
        }
    }
    assert(tableau_closed(s2)) by {
        assert forall|x: int|
            0 <= x < s2.len() && (#[trigger] s2[x]).0 <= CARDS_HIGH implies (s2[s2[x].0 as int].0
            <= CARDS_HIGH || s2[s2[x].0 as int].0 == TABLE_BYTE) by {
            assert(x != m);
            assert(s2[x] == s[x]);
            if s[x].0 as int == m {
                assert(s[x] == src);
                assert(false);
            }
        }
    }
    // the pile's derived bottom is now the moved card
    assert(down_upto(s2, n) == src) by {
        lemma_down_char(s2, n);
        let d2 = down_upto(s2, n);
        assert(s2[m].0 == MAJHI_BYTE);
        if d2.0 == NOCRD_BYTE {
            assert(s2[m].0 != MAJHI_BYTE);
        }
        assert(d2.0 != NOCRD_BYTE);
        if d2.0 as int != m {
            if (d2.0 as int) > m {
                assert(s2[m].0 != MAJHI_BYTE);
                assert(false);
            } else {
                assert(s2[d2.0 as int] == s[d2.0 as int]);
                if dfnd.0 == NOCRD_BYTE {
                    assert(s[d2.0 as int].0 != MAJHI_BYTE);
                } else {
                    assert(d2.0 < dfnd.0);
                    assert(s[d2.0 as int].0 != MAJHI_BYTE);
                }
                assert(false);
            }
        }
    }
    assert forall|su2: Suit|
        #![trigger fnd_upto(s2, n, su2)]
        fnd_upto(s2, n, su2) == fnd_upto(s, n, su2) by {
        lemma_fnd_upto_same(s, s2, n, su2);
    }
    lemma_freecell_upto_same(s, s2, n);
    if under.0 <= CARDS_HIGH {
        assert(exposed(s2, under)) by {
            assert(under.0 as int != m) by {
                if under.0 as int == m {
                    assert(s[m] == src);
                }
            }
            assert(s2[under.0 as int] == s[under.0 as int]);
            assert forall|x: int| 0 <= x < s2.len() implies (#[trigger] s2[x]) != under by {
                if x != m && s2[x] == under {
                    assert(s[x] == under && s[m] == under);
                    assert(x == m);
                }
            }
        }
    }
    assert forall|tc: C|
        #![trigger exposed(s2, tc)]
        tc.0 <= CARDS_HIGH && tc != src && exposed(s, tc) implies exposed(s2, tc) && tc
        != under by {
        assert(tc.0 as int != m);
        assert(s2[tc.0 as int] == s[tc.0 as int]);
        assert forall|x: int| 0 <= x < s2.len() implies (#[trigger] s2[x]) != tc by {
            if x != m {
                assert(s[x] != tc);
            }
        }
        if tc == under {
            assert(s[m] == tc);
            assert(false);
        }
    }
}

/// Law (placement, ascending): a retry chain on a placed board keeps
/// every card in exactly one zone: each scored card moves from an exposed
/// column top onto its suit's pile, which stays gapless with its pointer
/// at the derived top; the other piles, the freecell and every other
/// exposed top are untouched, and the state stays structurally valid.
#[verifier::rlimit(60)]
#[verifier::spinoff_prover]
pub proof fn lemma_chase_asc_placed(s: Seq<C>, src: C, fnd: C, su: Suit)
    requires
        derivable(s),
        asc_closed(s),
        down_closed(s),
        tableau_closed(s),
        fnd == fnd_upto(s, s.len() as int, su),
        src.0 <= EVERY_HIGH,
        src.0 <= CARDS_HIGH ==> exposed(s, src),
    ensures
        ({
            let r = chase_asc(s, src, fnd, su);
            &&& derivable(r.0)
            &&& asc_closed(r.0)
            &&& down_closed(r.0)
            &&& tableau_closed(r.0)
            &&& r.2 == fnd_upto(r.0, r.0.len() as int, su)
            &&& forall|su2: Suit|
                su2 != su ==> #[trigger] fnd_upto(r.0, r.0.len() as int, su2) == fnd_upto(
                    s,
                    s.len() as int,
                    su2,
                )
            &&& down_upto(r.0, r.0.len() as int) == down_upto(s, s.len() as int)
            &&& freecell_upto(r.0, r.0.len() as int) == freecell_upto(s, s.len() as int)
            &&& r.1.0 <= EVERY_HIGH
            &&& (r.1.0 <= CARDS_HIGH ==> exposed(r.0, r.1))
            &&& forall|tc: C|
                #![trigger exposed(r.0, tc)]
                tc.0 <= CARDS_HIGH && tc != src && exposed(s, tc) ==> exposed(r.0, tc) && tc != r.1
        }),
    decreases 22 - asc_measure(fnd, su),
{
    if src.0 <= CARDS_HIGH {
        lemma_rank_bounds(src.0 as int);
    }
    if fnd.0 <= CARDS_HIGH {
        lemma_rank_bounds(fnd.0 as int);
    }
    if src.0 <= CARDS_HIGH && (src.0 as int) < s.len() && ord_suit(src.0 as int) == su && ord_rank(
        src.0 as int,
    ) == asc_measure(fnd, su) + 1 {
        let m = src.0 as int;
        let under = s[m];
        let s2 = s.update(m, C(FOUND_BYTE));
        lemma_asc_move_placed(s, src, fnd, su);
        lemma_chase_asc_placed(s2, under, src, su);
        let r = chase_asc(s, src, fnd, su);
        assert forall|tc: C|
            #![trigger exposed(r.0, tc)]
            tc.0 <= CARDS_HIGH && tc != src && exposed(s, tc) implies exposed(r.0, tc) && tc
            != r.1 by {
            assert(exposed(s2, tc) && tc != under);
            assert(exposed(r.0, tc) && tc != r.1);
        }
    }
}

/// Law (placement, descending): the counterpart retry chain against the
/// descending pile preserves placement the same way.
#[verifier::rlimit(60)]
#[verifier::spinoff_prover]
pub proof fn lemma_chase_down_placed(s: Seq<C>, src: C, dfnd: C)
    requires
        derivable(s),
        asc_closed(s),
        down_closed(s),
        tableau_closed(s),
        dfnd == down_upto(s, s.len() as int),
        src.0 <= EVERY_HIGH,
        src.0 <= CARDS_HIGH ==> exposed(s, src),
    ensures
        ({
            let r = chase_down(s, src, dfnd);
            &&& derivable(r.0)
            &&& asc_closed(r.0)
            &&& down_closed(r.0)
            &&& tableau_closed(r.0)
            &&& r.2 == down_upto(r.0, r.0.len() as int)
            &&& forall|su2: Suit|
                #![trigger fnd_upto(r.0, r.0.len() as int, su2)]
                fnd_upto(r.0, r.0.len() as int, su2) == fnd_upto(s, s.len() as int, su2)
            &&& freecell_upto(r.0, r.0.len() as int) == freecell_upto(s, s.len() as int)
            &&& r.1.0 <= EVERY_HIGH
            &&& (r.1.0 <= CARDS_HIGH ==> exposed(r.0, r.1))
            &&& forall|tc: C|
                #![trigger exposed(r.0, tc)]
                tc.0 <= CARDS_HIGH && tc != src && exposed(s, tc) ==> exposed(r.0, tc) && tc != r.1
        }),
    decreases down_measure(dfnd),
{
    if src.0 <= CARDS_HIGH {
        lemma_rank_bounds(src.0 as int);
    }
    if dfnd.0 <= CARDS_HIGH {
        lemma_rank_bounds(dfnd.0 as int);
    }
    if src.0 <= CARDS_HIGH && (src.0 as int) < s.len() && ord_suit(src.0 as int) is Magic
        && ord_rank(src.0 as int) == down_measure(dfnd) - 1 {
        let m = src.0 as int;
        let under = s[m];
        let s2 = s.update(m, C(MAJHI_BYTE));
        lemma_down_move_placed(s, src, dfnd);
        lemma_chase_down_placed(s2, under, src);
        let r = chase_down(s, src, dfnd);
        assert forall|tc: C|
            #![trigger exposed(r.0, tc)]
            tc.0 <= CARDS_HIGH && tc != src && exposed(s, tc) implies exposed(r.0, tc) && tc
            != r.1 by {
            assert(exposed(s2, tc) && tc != under);
            assert(exposed(r.0, tc) && tc != r.1);
        }
    }
}

// ---------------------------------------------------------------------
// Executable automaton
// ---------------------------------------------------------------------

/// Every pointer of a summary lies in the declared ordinal space.
pub open spec fn info_in_space(info: BoardInfo) -> bool {
    &&& forall|k: int|
        0 <= k < info.tableau@.len() ==> (#[trigger] info.tableau@[k]).0 <= EVERY_HIGH
    &&& info.freecell.0 <= EVERY_HIGH
    &&& forall|k: int|
        0 <= k < info.foundation@.len() ==> (#[trigger] info.foundation@[k]).0 <= EVERY_HIGH
    &&& info.down_foundn.0 <= EVERY_HIGH
}

/// One optimistic retry chain against an ascending foundation.
fn chase_asc_exec(cards: Vec<C>, src: C, fnd: C, su: Suit) -> (r: (Vec<C>, C, C, bool))
    requires
        cards@.len() == CARDS_COUNT as int,
        entries_in_space(cards@),
        src.0 <= EVERY_HIGH,
        fnd.0 <= EVERY_HIGH,
    ensures
        ({
            let sp = chase_asc(cards@, src, fnd, su);
            &&& r.0@ == sp.0
            &&& r.1 == sp.1
            &&& r.2 == sp.2
            &&& r.3 == sp.3
            &&& r.1.0 <= EVERY_HIGH
            &&& r.2.0 <= EVERY_HIGH
            &&& r.0@.len() == CARDS_COUNT as int
            &&& entries_in_space(r.0@)
        }),
    decreases 22 - asc_measure(fnd, su),
{
    proof {
        if src.0 <= CARDS_HIGH {
            lemma_rank_bounds(src.0 as int);
        }
        if fnd.0 <= CARDS_HIGH {
            lemma_rank_bounds(fnd.0 as int);
        }
    }
    if src.0 <= CARDS_HIGH {
        let si = src.info();
        let target: u8 = if fnd.0 <= CARDS_HIGH {
            fnd.info().card_rank() + 1
        } else if su == Suit::Magic {
            0
        } else {
            2
        };
        if si.card_suit() == su && si.card_rank() == target {
            let mut cards = cards;
            let under = cards[src.0 as usize];
            cards[src.0 as usize] = C(FOUND_BYTE);
            let rec = chase_asc_exec(cards, under, src, su);
            return (rec.0, rec.1, rec.2, true);
        }
    }
    (cards, src, fnd, false)
}

/// One optimistic retry chain against the descending major foundation.
fn chase_down_exec(cards: Vec<C>, src: C, dfnd: C) -> (r: (Vec<C>, C, C, bool))
    requires
        cards@.len() == CARDS_COUNT as int,
        entries_in_space(cards@),
        src.0 <= EVERY_HIGH,
        dfnd.0 <= EVERY_HIGH,
    ensures
        ({
            let sp = chase_down(cards@, src, dfnd);
            &&& r.0@ == sp.0
            &&& r.1 == sp.1
            &&& r.2 == sp.2
            &&& r.3 == sp.3
            &&& r.1.0 <= EVERY_HIGH
            &&& r.2.0 <= EVERY_HIGH
            &&& r.0@.len() == CARDS_COUNT as int
            &&& entries_in_space(r.0@)
        }),
    decreases down_measure(dfnd),
{
    proof {
        if src.0 <= CARDS_HIGH {
            lemma_rank_bounds(src.0 as int);
        }
        if dfnd.0 <= CARDS_HIGH {
            lemma_rank_bounds(dfnd.0 as int);
        }
    }
    if src.0 <= CARDS_HIGH {
        let si = src.info();
        let go: bool = if dfnd.0 <= CARDS_HIGH {
            let fr = dfnd.info().card_rank();
            fr > 0 && si.card_suit() == Suit::Magic && si.card_rank() == fr - 1
        } else {
            si.card_suit() == Suit::Magic && si.card_rank() == 21
        };
        if go {
            let mut cards = cards;
            let under = cards[src.0 as usize];
            cards[src.0 as usize] = C(MAJHI_BYTE);
            let rec = chase_down_exec(cards, under, src);
            return (rec.0, rec.1, rec.2, true);
        }
    }
    (cards, src, dfnd, false)
}

/// Plays one source against every eligible destination.
fn process_src_exec(cards: Vec<C>, src: C, foundation: Vec<C>, down: C, all: bool) -> (r: (
    Vec<C>,
    C,
    Vec<C>,
    C,
    bool,
))
    requires
        cards@.len() == CARDS_COUNT as int,
        entries_in_space(cards@),
        src.0 <= EVERY_HIGH,
        foundation@.len() == 5,
        forall|k: int| 0 <= k < 5 ==> (#[trigger] foundation@[k]).0 <= EVERY_HIGH,
        down.0 <= EVERY_HIGH,
    ensures
        ({
            let sp = process_src(cards@, src, foundation@, down, all);
            &&& r.0@ == sp.0
            &&& r.1 == sp.1
            &&& r.2@ == sp.2
            &&& r.3 == sp.3
            &&& r.4 == sp.4
            &&& r.0@.len() == CARDS_COUNT as int
            &&& entries_in_space(r.0@)
            &&& r.1.0 <= EVERY_HIGH
            &&& r.2@.len() == 5
            &&& forall|k: int| 0 <= k < 5 ==> (#[trigger] r.2@[k]).0 <= EVERY_HIGH
            &&& r.3.0 <= EVERY_HIGH
        }),
{
    let mut cards = cards;
    let mut foundation = foundation;
    let mut src = src;
    let mut changed = false;
    if all {
        let c0 = chase_asc_exec(cards, src, foundation[0], Suit::Wands);
        cards = c0.0;
        src = c0.1;
        foundation[0] = c0.2;
        changed = changed || c0.3;
        let c1 = chase_asc_exec(cards, src, foundation[1], Suit::Stars);
        cards = c1.0;
        src = c1.1;
        foundation[1] = c1.2;
        changed = changed || c1.3;
        let c2 = chase_asc_exec(cards, src, foundation[2], Suit::Swrds);
        cards = c2.0;
        src = c2.1;
        foundation[2] = c2.2;
        changed = changed || c2.3;
        let c3 = chase_asc_exec(cards, src, foundation[3], Suit::Cuups);
        cards = c3.0;
        src = c3.1;
        foundation[3] = c3.2;
        changed = changed || c3.3;
        let c4 = chase_asc_exec(cards, src, foundation[4], Suit::Magic);
        cards = c4.0;
        src = c4.1;
        foundation[4] = c4.2;
        changed = changed || c4.3;
    } else {
        let c4 = chase_asc_exec(cards, src, foundation[4], Suit::Magic);
        cards = c4.0;
        src = c4.1;
        foundation[4] = c4.2;
        changed = changed || c4.3;
    }
    let cd = chase_down_exec(cards, src, down);
    (cd.0, cd.1, foundation, cd.2, changed || cd.3)
}

/// Plays every column top once, in order, against every eligible
/// destination.
fn round_exec(cards: Vec<C>, tableau: Vec<C>, fc: C, foundation: Vec<C>, down: C) -> (r: (
    Vec<C>,
    Vec<C>,
    Vec<C>,
    C,
    bool,
))
    requires
        auto_wf(cards@, tableau@, foundation@, down),
    ensures
        ({
            let sp = round(cards@, tableau@, fc, foundation@, down);
            &&& r.0@ == sp.0
            &&& r.1@ == sp.1
            &&& r.2@ == sp.2
            &&& r.3 == sp.3
            &&& r.4 == sp.4
            &&& auto_wf(r.0@, r.1@, r.2@, r.3)
        }),
{
    let ghost s0 = cards@;
    let ghost tabs0 = tableau@;
    let ghost fnds0 = foundation@;
    let ghost down0 = down;
    let all = fc.0 != FREEC_BYTE;
    let mut cards = cards;
    let mut tableau = tableau;
    let mut foundation = foundation;
    let mut down = down;
    let mut changed = false;
    let mut j: usize = 0;
    while j < 11
        invariant
            j <= 11,
            cards@.len() == CARDS_COUNT as int,
            entries_in_space(cards@),
            tableau@.len() == 11,
            foundation@.len() == 5,
            forall|k: int| 0 <= k < 11 ==> (#[trigger] tableau@[k]).0 <= EVERY_HIGH,
            forall|k: int| 0 <= k < 5 ==> (#[trigger] foundation@[k]).0 <= EVERY_HIGH,
            down.0 <= EVERY_HIGH,
            ({
                let p = round_upto(s0, tabs0, fnds0, down0, all, j as int);
                &&& cards@ == p.0
                &&& tableau@ == p.1
                &&& foundation@ == p.2
                &&& down == p.3
                &&& changed == p.4
            }),
        decreases 11 - j,
    {
        let src = tableau[j];
        let pr = process_src_exec(cards, src, foundation, down, all);
        cards = pr.0;
        tableau[j] = pr.1;
        foundation = pr.2;
        down = pr.3;
        changed = changed || pr.4;
        j += 1;
    }
    (cards, tableau, foundation, down, changed)
}

/// Copies a vector of cards.
fn copy_cards(v: &Vec<C>) -> (r: Vec<C>)
    ensures
        r@ == v@,
{
    let mut r: Vec<C> = Vec::new();
    let mut i: usize = 0;
    while i < v.len()
        invariant
            i <= v@.len(),
            r@ == v@.take(i as int),
        decreases v@.len() - i,
    {
        r.push(v[i]);
        proof {
            assert(r@ =~= v@.take(i + 1));
        }
        i += 1;
    }
    proof {
        assert(v@.take(v@.len() as int) =~= v@);
    }
    r
}

impl Board {
    /// Everything the automaton reads lies in the declared space.
    pub open spec fn auto_ready(self) -> bool {
        &&& self.state.wf()
        &&& self.info.wf()
        &&& info_in_space(self.info)
    }

    /// Exhaustively applies autoplay-eligible foundation moves to a
    /// fixpoint, mutating the raw state and the frontier summary in
    /// lockstep: each scored card's raw-state entry becomes its
    /// foundation's sentinel, every other entry is unchanged, each pile
    /// grows by consecutive ranks from its old top, and the freecell
    /// occupant never moves.  A structurally valid raw state stays so.
    pub fn apply_forced(&mut self)
        requires
            old(self).auto_ready(),
        ensures
            ({
                let r = auto_run(
                    old(self).state.cards@,
                    old(self).info.tableau@,
                    old(self).info.freecell,
                    old(self).info.foundation@,
                    old(self).info.down_foundn,
                );
                &&& final(self).state.cards@ == r.0
                &&& final(self).info.tableau@ == r.1
                &&& final(self).info.foundation@ == r.2
                &&& final(self).info.down_foundn == r.3
            }),
            final(self).info.freecell == old(self).info.freecell,
            !round(
                final(self).state.cards@,
                final(self).info.tableau@,
                final(self).info.freecell,
                final(self).info.foundation@,
                final(self).info.down_foundn,
            ).4,
            marks_only(
                old(self).state.cards@,
                final(self).state.cards@,
                old(self).info.foundation@,
                final(self).info.foundation@,
                old(self).info.down_foundn,
                final(self).info.down_foundn,
            ),
            scored_cards(old(self).info.foundation@, old(self).info.down_foundn).subset_of(
                scored_cards(final(self).info.foundation@, final(self).info.down_foundn),
            ),
            old(self).state.derivable() ==> final(self).state.derivable(),
            final(self).auto_ready(),
    {
        let ghost s0 = self.state.cards@;
        let ghost tabs0 = self.info.tableau@;
        let ghost fnds0 = self.info.foundation@;
        let ghost down0 = self.info.down_foundn;
        let fc = self.info.freecell;
        let mut cards = copy_cards(&self.state.cards);
        let mut tabs = copy_cards(&self.info.tableau);
        let mut fnds = copy_cards(&self.info.foundation);
        let mut down = self.info.down_foundn;
        let mut done = false;
        while !done
            invariant
                auto_wf(cards@, tabs@, fnds@, down),
                auto_run(cards@, tabs@, fc, fnds@, down) == auto_run(s0, tabs0, fc, fnds0, down0),
                done ==> !round(cards@, tabs@, fc, fnds@, down).4,
                marks_only(s0, cards@, fnds0, fnds@, down0, down),
                forall|k: int|
                    0 <= k < 5 ==> asc_measure(#[trigger] fnds@[k], suit_of_index(k))
                        >= asc_measure(fnds0[k], suit_of_index(k)),
                down_measure(down) <= down_measure(down0),
                scored_cards(fnds0, down0).subset_of(scored_cards(fnds@, down)),
            decreases 125 - score(fnds@, down), (if done {
                0int
            } else {
                1int
            }),
        {
            proof {
                lemma_score_bounds(fnds@, down);
                lemma_round_upto_props(cards@, tabs@, fnds@, down, fc.0 != FREEC_BYTE, 11);
                let rr = round(cards@, tabs@, fc, fnds@, down);
                lemma_score_bounds(rr.2, rr.3);
                if !rr.4 {
                    lemma_round_upto_no_change(cards@, tabs@, fnds@, down, fc.0 != FREEC_BYTE, 11);
                }
                lemma_marks_compose(s0, cards@, rr.0, fnds0, fnds@, rr.2, down0, down, rr.3);
                assert forall|o: int| scored_cards(fnds@, down).contains(o) implies scored_cards(
                    rr.2,
                    rr.3,
                ).contains(o) by {
                    assert(asc_measure(rr.2[0], suit_of_index(0)) >= asc_measure(
                        fnds@[0],
                        suit_of_index(0),
                    ));
                    assert(asc_measure(rr.2[1], suit_of_index(1)) >= asc_measure(
                        fnds@[1],
                        suit_of_index(1),
                    ));
                    assert(asc_measure(rr.2[2], suit_of_index(2)) >= asc_measure(
                        fnds@[2],
                        suit_of_index(2),
                    ));
                    assert(asc_measure(rr.2[3], suit_of_index(3)) >= asc_measure(
                        fnds@[3],
                        suit_of_index(3),
                    ));
                    assert(asc_measure(rr.2[4], suit_of_index(4)) >= asc_measure(
                        fnds@[4],
                        suit_of_index(4),
                    ));
                }
            }
            let rr = round_exec(cards, tabs, fc, fnds, down);
            cards = rr.0;
            tabs = rr.1;
            fnds = rr.2;
            down = rr.3;
            if !rr.4 {
                done = true;
            }
        }
        proof {
            if derivable(s0) {
                lemma_marks_keep_derivable(s0, cards@, fnds0, fnds@, down0, down);
            }
        }
        self.state = BoardState { cards };
        self.info = BoardInfo { tableau: tabs, freecell: fc, foundation: fnds, down_foundn: down };
    }
}

} // verus!