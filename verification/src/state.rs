//! Canonical board state and the frontier summary derived from it.
//!
//! A board is a fixed mapping from each real card to what lies directly
//! beneath it: another card, or a zone sentinel.  The frontier summary
//! (column tops, freecell occupant, foundation pointers) is a pure
//! derivation obtained by one linear scan plus a per-column chase.

use vstd::prelude::*;
use vstd::set_lib::set_int_range;
use vstd::set_lib::lemma_int_range;
use vstd::set_lib::lemma_len_subset;
use crate::card::{C, Suit, CardInfo};
use crate::card::{CARDS_COUNT, CARDS_HIGH, EVERY_HIGH, TABLE_BYTE, FREEC_BYTE, FOUND_BYTE, MAJHI_BYTE, NOCRD_BYTE};
use crate::card::{WANDS_HIGH, STARS_HIGH, SWRDS_HIGH, CUUPS_HIGH, MAGIC_HIGH};
use crate::card::{ord_suit, suit_index};

verus! {

/// Core state representing the game's underlying position.
#[derive(Debug, Clone, Hash, PartialEq, Eq)]
pub struct BoardState {
    /// What lies directly beneath each card: another card, or a zone
    /// sentinel; indexed by card ordinal.
    pub cards: Vec<C>,
}

/// Auxiliary state useful for manipulating a board quickly.
#[derive(Debug, Clone, Hash, PartialEq, Eq)]
pub struct BoardInfo {
    /// Card at the top of each tableau column, in ascending order of the
    /// column's bottom card; the column-bottom sentinel for empty columns.
    pub tableau: Vec<C>,
    /// Card resting in the freecell, or the freecell-empty sentinel.
    pub freecell: C,
    /// Card at the top of each ascending foundation, suit-indexed, or the
    /// no-card sentinel where a foundation is empty.
    pub foundation: Vec<C>,
    /// Card at the top of the descending major-arcana foundation, or the
    /// no-card sentinel.
    pub down_foundn: C,
}

/// A full board: the canonical state together with its derived summary.
#[derive(Debug, Clone)]
pub struct Board {
    pub state: BoardState,
    pub info: BoardInfo,
}

/// A position a freely chosen move can start from or end at.
#[derive(Debug, Clone, Copy, Hash, PartialEq, Eq, Structural, PartialOrd, Ord)]
pub enum MoveLoc {
    Tableau(u8),
    Freecell,
}

/// A freely chosen move between two frontier positions.
#[derive(Debug, Clone, Copy, Hash, PartialEq, Eq, Structural, PartialOrd, Ord)]
pub struct Move {
    pub src: MoveLoc,
    pub dst: MoveLoc,
}

impl Default for BoardState {
    /// The default state is the lexically smallest win: every card on its
    /// ascending foundation.
    fn default() -> (r: Self)
        ensures
            r.cards@.len() == CARDS_COUNT as int,
            forall|i: int|
                0 <= i < CARDS_COUNT as int ==> (#[trigger] r.cards@[i]) == C(FOUND_BYTE),
    {
        let mut cards: Vec<C> = Vec::new();
        let mut i: usize = 0;
        while i < CARDS_COUNT as usize
            invariant
                i <= CARDS_COUNT as usize,
                cards@.len() == i,
                forall|k: int| 0 <= k < i ==> (#[trigger] cards@[k]) == C(FOUND_BYTE),
            decreases CARDS_COUNT as int - i,
        {
            cards.push(C(FOUND_BYTE));
            i += 1;
        }
        BoardState { cards }
    }
}

impl Default for BoardInfo {
    /// The summary of the lexically smallest win: empty columns and
    /// freecell, every ascending foundation at its suit's top rank, and an
    /// empty descending foundation.
    fn default() -> (r: Self)
        ensures
            r.tableau@.len() == 11,
            forall|j: int| 0 <= j < 11 ==> (#[trigger] r.tableau@[j]) == C(TABLE_BYTE),
            r.freecell == C(FREEC_BYTE),
            r.foundation@ == seq![
                C(WANDS_HIGH),
                C(STARS_HIGH),
                C(SWRDS_HIGH),
                C(CUUPS_HIGH),
                C(MAGIC_HIGH),
            ],
            r.down_foundn == C(NOCRD_BYTE),
            r.wf(),
    {
        let mut tableau: Vec<C> = Vec::new();
        let mut j: usize = 0;
        while j < 11
            invariant
                j <= 11,
                tableau@.len() == j,
                forall|k: int| 0 <= k < j ==> (#[trigger] tableau@[k]) == C(TABLE_BYTE),
            decreases 11 - j,
        {
            tableau.push(C(TABLE_BYTE));
            j += 1;
        }
        let mut foundation: Vec<C> = Vec::new();
        foundation.push(C(WANDS_HIGH));
        foundation.push(C(STARS_HIGH));
        foundation.push(C(SWRDS_HIGH));
        foundation.push(C(CUUPS_HIGH));
        foundation.push(C(MAGIC_HIGH));
        proof {
            assert(foundation@ =~= seq![
                C(WANDS_HIGH),
                C(STARS_HIGH),
                C(SWRDS_HIGH),
                C(CUUPS_HIGH),
                C(MAGIC_HIGH),
            ]);
        }
        BoardInfo { tableau, freecell: C(FREEC_BYTE), foundation, down_foundn: C(NOCRD_BYTE) }
    }
}

impl Default for Board {
    /// The lexically smallest fully won board: every card on its ascending
    /// foundation, with the matching summary.
    fn default() -> (r: Self)
        ensures
            r.state.cards@.len() == CARDS_COUNT as int,
            forall|i: int|
                0 <= i < CARDS_COUNT as int ==> (#[trigger] r.state.cards@[i]) == C(FOUND_BYTE),
            r.info.tableau@.len() == 11,
            forall|j: int| 0 <= j < 11 ==> (#[trigger] r.info.tableau@[j]) == C(TABLE_BYTE),
            r.info.freecell == C(FREEC_BYTE),
            r.info.foundation@ == seq![
                C(WANDS_HIGH),
                C(STARS_HIGH),
                C(SWRDS_HIGH),
                C(CUUPS_HIGH),
                C(MAGIC_HIGH),
            ],
            r.info.down_foundn == C(NOCRD_BYTE),
            r.info.wf(),
    {
        Board { state: BoardState::default(), info: BoardInfo::default() }
    }
}

impl PartialEq for Board {
    /// Board identity is defined solely by the raw state; the summary is a
    /// derived cache, excluded from comparison.
    fn eq(&self, other: &Self) -> (r: bool) {
        if self.state.cards.len() != other.state.cards.len() {
            return false;
        }
        let mut i: usize = 0;
        while i < self.state.cards.len()
            invariant
                self.state.cards@.len() == other.state.cards@.len(),
                i <= self.state.cards@.len(),
                forall|k: int| 0 <= k < i ==> self.state.cards@[k] == other.state.cards@[k],
            decreases self.state.cards@.len() - i,
        {
            if self.state.cards[i].0 != other.state.cards[i].0 {
                return false;
            }
            i += 1;
        }
        proof {
            assert(self.state.cards@ =~= other.state.cards@);
        }
        true
    }
}

impl Eq for Board {

}

impl vstd::std_specs::cmp::PartialEqSpecImpl for Board {
    open spec fn obeys_eq_spec() -> bool {
        true
    }

    open spec fn eq_spec(&self, other: &Self) -> bool {
        self.state.cards@ == other.state.cards@
    }
}

/// Lexicographic order of two raw states, from position `i` on.
pub open spec fn lex_cmp(a: Seq<C>, b: Seq<C>, i: int) -> core::cmp::Ordering
    decreases a.len() - i
        when 0 <= i
{
    if i >= a.len() && i >= b.len() {
        core::cmp::Ordering::Equal
    } else if i >= a.len() {
        core::cmp::Ordering::Less
    } else if i >= b.len() {
        core::cmp::Ordering::Greater
    } else if a[i].0 < b[i].0 {
        core::cmp::Ordering::Less
    } else if a[i].0 > b[i].0 {
        core::cmp::Ordering::Greater
    } else {
        lex_cmp(a, b, i + 1)
    }
}

impl PartialOrd for Board {
    /// Boards are ordered by their raw states alone, lexicographically;
    /// the summary is excluded, as in comparison.
    fn partial_cmp(&self, other: &Self) -> (r: Option<core::cmp::Ordering>) {
        let na = self.state.cards.len();
        let nb = other.state.cards.len();
        let mut i: usize = 0;
        while i < na && i < nb
            invariant
                na == self.state.cards@.len(),
                nb == other.state.cards@.len(),
                i <= na,
                i <= nb,
                lex_cmp(self.state.cards@, other.state.cards@, 0) == lex_cmp(
                    self.state.cards@,
                    other.state.cards@,
                    i as int,
                ),
            decreases na - i,
        {
            let ca = self.state.cards[i];
            let cb = other.state.cards[i];
            if ca.0 < cb.0 {
                return Some(core::cmp::Ordering::Less);
            }
            if ca.0 > cb.0 {
                return Some(core::cmp::Ordering::Greater);
            }
            i += 1;
        }
        if i < nb {
            Some(core::cmp::Ordering::Less)
        } else if i < na {
            Some(core::cmp::Ordering::Greater)
        } else {
            Some(core::cmp::Ordering::Equal)
        }
    }
}

impl vstd::std_specs::cmp::PartialOrdSpecImpl for Board {
    open spec fn obeys_partial_cmp_spec() -> bool {
        true
    }

    open spec fn partial_cmp_spec(&self, other: &Self) -> Option<core::cmp::Ordering> {
        Some(lex_cmp(self.state.cards@, other.state.cards@, 0))
    }
}

// ---------------------------------------------------------------------
// Structural validity of a raw state
// ---------------------------------------------------------------------

/// Every entry is an ordinal of the declared space.
pub open spec fn entries_in_space(s: Seq<C>) -> bool {
    forall|i: int| 0 <= i < s.len() ==> (#[trigger] s[i]).0 <= EVERY_HIGH
}

/// No entry holds the no-card sentinel.
pub open spec fn no_missing(s: Seq<C>) -> bool {
    forall|i: int| 0 <= i < s.len() ==> (#[trigger] s[i]).0 != NOCRD_BYTE
}

/// At most one card rests in the freecell.
pub open spec fn one_freecell(s: Seq<C>) -> bool {
    forall|i: int, j: int|
        #![trigger s[i], s[j]]
        0 <= i < s.len() && 0 <= j < s.len() && i != j ==> !(s[i].0 == FREEC_BYTE && s[j].0
            == FREEC_BYTE)
}

/// The points-to relation never bifurcates: no two distinct cards rest
/// directly on the same card.
pub open spec fn no_bifurcation(s: Seq<C>) -> bool {
    forall|i: int, j: int|
        #![trigger s[i], s[j]]
        0 <= i < s.len() && 0 <= j < s.len() && i != j && s[i].0 <= CARDS_HIGH ==> s[j] != s[i]
}

/// Indices of entries holding the column-bottom sentinel, as card values,
/// in ascending order, among the first `n` entries.
pub open spec fn bases_upto(s: Seq<C>, n: int) -> Seq<C>
    decreases n,
{
    if n <= 0 {
        Seq::empty()
    } else if s[n - 1].0 == TABLE_BYTE {
        bases_upto(s, n - 1).push(C((n - 1) as u8))
    } else {
        bases_upto(s, n - 1)
    }
}

/// The bottom card of every column, in ascending ordinal order.
pub open spec fn bases(s: Seq<C>) -> Seq<C> {
    bases_upto(s, s.len() as int)
}

/// A raw state from which the frontier summary can be derived: the right
/// size, entries in the declared space, every card placed (no no-card
/// sentinel), at most one freecell occupant, simple chains only, and at
/// most eleven column bottoms.
pub open spec fn derivable(s: Seq<C>) -> bool {
    &&& s.len() == CARDS_COUNT as int
    &&& entries_in_space(s)
    &&& no_missing(s)
    &&& one_freecell(s)
    &&& no_bifurcation(s)
    &&& bases(s).len() <= 11
}

impl BoardState {
    /// The state has one entry per real card, each in the declared space.
    pub open spec fn wf(self) -> bool {
        self.cards@.len() == CARDS_COUNT as int && entries_in_space(self.cards@)
    }

    /// The frontier summary can be derived from this state.
    pub open spec fn derivable(self) -> bool {
        derivable(self.cards@)
    }
}

// ---------------------------------------------------------------------
// Scan-derived components of the frontier summary
// ---------------------------------------------------------------------

/// The freecell occupant found among the first `n` entries: the card whose
/// entry is the freecell sentinel, or the sentinel itself if none.
pub open spec fn freecell_upto(s: Seq<C>, n: int) -> C
    decreases n,
{
    if n <= 0 {
        C(FREEC_BYTE)
    } else if s[n - 1].0 == FREEC_BYTE {
        C((n - 1) as u8)
    } else {
        freecell_upto(s, n - 1)
    }
}

/// The suit whose ascending foundation sits at position `k`.
pub open spec fn suit_of_index(k: int) -> Suit {
    if k == 0 {
        Suit::Wands
    } else if k == 1 {
        Suit::Stars
    } else if k == 2 {
        Suit::Swrds
    } else if k == 3 {
        Suit::Cuups
    } else {
        Suit::Magic
    }
}

/// The top of suit `su`'s ascending foundation among the first `n`
/// entries: the highest card of the suit marked with the ascending
/// sentinel, or the no-card sentinel if none is.
pub open spec fn fnd_upto(s: Seq<C>, n: int, su: Suit) -> C
    decreases n,
{
    if n <= 0 {
        C(NOCRD_BYTE)
    } else if s[n - 1].0 == FOUND_BYTE && ord_suit(n - 1) == su {
        C((n - 1) as u8)
    } else {
        fnd_upto(s, n - 1, su)
    }
}

/// The top of the descending major foundation among the first `n`
/// entries: the lowest card marked with the descending sentinel, or the
/// no-card sentinel if none is.
pub open spec fn down_upto(s: Seq<C>, n: int) -> C
    decreases n,
{
    if n <= 0 {
        C(NOCRD_BYTE)
    } else {
        let prev = down_upto(s, n - 1);
        if prev.0 != NOCRD_BYTE {
            prev
        } else if s[n - 1].0 == MAJHI_BYTE {
            C((n - 1) as u8)
        } else {
            prev
        }
    }
}

// ---------------------------------------------------------------------
// Column chase
// ---------------------------------------------------------------------

/// The real-card index range.
pub open spec fn card_indices() -> Set<int> {
    Set::new(|i: int| 0 <= i < CARDS_COUNT as int)
}

pub proof fn lemma_card_indices_props()
    ensures
        card_indices().finite(),
        card_indices().len() == CARDS_COUNT as int,
{
    assert(card_indices() =~= set_int_range(0, CARDS_COUNT as int));
    lemma_int_range(0, CARDS_COUNT as int);
}

/// Card index `c` rests directly on `t` and has not been visited.
pub open spec fn on_pred(s: Seq<C>, t: C, seen: Set<int>, c: int) -> bool {
    0 <= c < s.len() && c < CARDS_COUNT as int && !seen.contains(c) && s[c] == t
}

/// Some unvisited card rests directly on `t`.
pub open spec fn has_on(s: Seq<C>, t: C, seen: Set<int>) -> bool {
    exists|c: int| on_pred(s, t, seen, c)
}

/// The unvisited card resting directly on `t`.
pub open spec fn next_on(s: Seq<C>, t: C, seen: Set<int>) -> int {
    choose|c: int| on_pred(s, t, seen, c)
}

/// The cards stacked directly and indirectly on `t`, nearest first,
/// never revisiting an index in `seen`.
pub open spec fn stack_on(s: Seq<C>, t: C, seen: Set<int>) -> Seq<C>
    decreases CARDS_COUNT as int - seen.len()
        when seen.finite() && seen.subset_of(card_indices())
        via stack_on_decreases
{
    if has_on(s, t, seen) {
        let c = next_on(s, t, seen);
        seq![C(c as u8)] + stack_on(s, C(c as u8), seen.insert(c))
    } else {
        Seq::empty()
    }
}

#[via_fn]
proof fn stack_on_decreases(s: Seq<C>, t: C, seen: Set<int>) {
    broadcast use vstd::set::group_set_axioms;

    lemma_card_indices_props();
    if has_on(s, t, seen) {
        let c = next_on(s, t, seen);
        assert(on_pred(s, t, seen, c));
        lemma_len_subset(seen.insert(c), card_indices());
    }
}

/// A whole column from its bottom card upward.
pub open spec fn column_of(s: Seq<C>, base: C) -> Seq<C> {
    seq![base] + stack_on(s, base, Set::empty())
}

/// The exposed top card of the column resting on `base`.
pub open spec fn top_of(s: Seq<C>, base: C) -> C {
    column_of(s, base).last()
}

/// The eleven column tops of the frontier summary: the chase result for
/// each column bottom, the column-bottom sentinel past the last one.
pub open spec fn derived_tableau(s: Seq<C>) -> Seq<C> {
    Seq::new(
        11,
        |j: int|
            if j < bases(s).len() {
                top_of(s, bases(s)[j])
            } else {
                C(TABLE_BYTE)
            },
    )
}

/// What it means for a summary to be the one derived from a raw state.
pub open spec fn matches_derived(info: BoardInfo, s: Seq<C>) -> bool {
    &&& info.tableau@ == derived_tableau(s)
    &&& info.freecell == freecell_upto(s, s.len() as int)
    &&& info.foundation@.len() == 5
    &&& forall|k: int|
        0 <= k < 5 ==> info.foundation@[k] == fnd_upto(s, s.len() as int, suit_of_index(k))
    &&& info.down_foundn == down_upto(s, s.len() as int)
}

/// The stack on `t` is made of fresh card indices chained by the
/// points-to relation, without repeats.
pub proof fn lemma_stack_on_props(s: Seq<C>, t: C, seen: Set<int>)
    requires
        s.len() == CARDS_COUNT as int,
        seen.finite(),
        seen.subset_of(card_indices()),
    ensures
        ({
            let st = stack_on(s, t, seen);
            &&& forall|i: int|
                0 <= i < st.len() ==> (#[trigger] st[i]).0 < CARDS_COUNT && !seen.contains(
                    st[i].0 as int,
                )
            &&& (st.len() > 0 ==> s[st[0].0 as int] == t)
            &&& forall|i: int| 1 <= i < st.len() ==> s[(#[trigger] st[i]).0 as int] == st[i - 1]
            &&& forall|i1: int, i2: int| 0 <= i1 < i2 < st.len() ==> st[i1] != st[i2]
        }),
    decreases CARDS_COUNT as int - seen.len(),
{
    broadcast use vstd::set::group_set_axioms;

    lemma_card_indices_props();
    if has_on(s, t, seen) {
        let c = next_on(s, t, seen);
        assert(on_pred(s, t, seen, c));
        lemma_len_subset(seen.insert(c), card_indices());
        lemma_stack_on_props(s, C(c as u8), seen.insert(c));
        let tail = stack_on(s, C(c as u8), seen.insert(c));
        let st = stack_on(s, t, seen);
        assert(st == seq![C(c as u8)] + tail);
        assert(st[0] == C(c as u8));
        assert forall|i: int| 1 <= i < st.len() implies s[(#[trigger] st[i]).0 as int] == st[i
            - 1] by {
            assert(st[i] == tail[i - 1]);
            if i == 1 {
                assert(s[tail[0].0 as int] == C(c as u8));
            } else {
                assert(st[i - 1] == tail[i - 2]);
            }
        }
        assert forall|i1: int, i2: int| 0 <= i1 < i2 < st.len() implies st[i1] != st[i2] by {
            if i1 == 0 {
                assert(st[i2] == tail[i2 - 1]);
                assert(!seen.insert(c).contains(tail[i2 - 1].0 as int));
            } else {
                assert(st[i1] == tail[i1 - 1] && st[i2] == tail[i2 - 1]);
            }
        }
    }
}

/// A whole column is chained, bounded, and free of repeats.
pub proof fn lemma_column_props(s: Seq<C>, base: C)
    requires
        s.len() == CARDS_COUNT as int,
        base.0 < CARDS_COUNT,
        s[base.0 as int].0 == TABLE_BYTE,
    ensures
        ({
            let col = column_of(s, base);
            &&& col.len() >= 1
            &&& col[0] == base
            &&& forall|i: int| 0 <= i < col.len() ==> (#[trigger] col[i]).0 < CARDS_COUNT
            &&& forall|i: int| 1 <= i < col.len() ==> s[(#[trigger] col[i]).0 as int] == col[i - 1]
            &&& forall|i1: int, i2: int| 0 <= i1 < i2 < col.len() ==> col[i1] != col[i2]
        }),
{
    lemma_stack_on_props(s, base, Set::empty());
    let st = stack_on(s, base, Set::empty());
    let col = column_of(s, base);
    assert(col[0] == base);
    assert forall|i: int| 1 <= i < col.len() implies s[(#[trigger] col[i]).0 as int] == col[i
        - 1] by {
        assert(col[i] == st[i - 1]);
        if i == 1 {
            assert(s[st[0].0 as int] == base);
        } else {
            assert(col[i - 1] == st[i - 2]);
        }
    }
    assert forall|i1: int, i2: int| 0 <= i1 < i2 < col.len() implies col[i1] != col[i2] by {
        if i1 == 0 {
            assert(col[i2] == st[i2 - 1]);
            if st[i2 - 1] == base {
                if i2 == 1 {
                    assert(s[base.0 as int] == base);
                } else {
                    assert(s[st[i2 - 1].0 as int] == st[i2 - 2]);
                    assert(st[i2 - 2].0 < CARDS_COUNT);
                }
                assert(false);
            }
        } else {
            assert(col[i1] == st[i1 - 1] && col[i2] == st[i2 - 1]);
        }
    }
}

/// Two columns sharing a card are the same column at the same height.
pub proof fn lemma_columns_share(s: Seq<C>, b1: C, b2: C, i: int, k: int)
    requires
        s.len() == CARDS_COUNT as int,
        no_bifurcation(s),
        b1.0 < CARDS_COUNT,
        b2.0 < CARDS_COUNT,
        s[b1.0 as int].0 == TABLE_BYTE,
        s[b2.0 as int].0 == TABLE_BYTE,
        0 <= i < column_of(s, b1).len(),
        0 <= k < column_of(s, b2).len(),
        column_of(s, b1)[i] == column_of(s, b2)[k],
    ensures
        b1 == b2,
        i == k,
    decreases i,
{
    lemma_column_props(s, b1);
    lemma_column_props(s, b2);
    let c1 = column_of(s, b1);
    let c2 = column_of(s, b2);
    if i == 0 {
        if k > 0 {
            assert(s[c2[k].0 as int] == c2[k - 1]);
            assert(s[b1.0 as int].0 == TABLE_BYTE);
            assert(c2[k - 1].0 < CARDS_COUNT);
            assert(false);
        }
    } else {
        if k == 0 {
            assert(s[c1[i].0 as int] == c1[i - 1]);
            assert(s[b2.0 as int].0 == TABLE_BYTE);
            assert(false);
        } else {
            assert(s[c1[i].0 as int] == c1[i - 1]);
            assert(s[c2[k].0 as int] == c2[k - 1]);
            assert(c1[i - 1] == c2[k - 1]);
            lemma_columns_share(s, b1, b2, i - 1, k - 1);
        }
    }
}

/// The recorded column bottoms: bounded, marked, in ascending order, and
/// complete.
pub proof fn lemma_bases_upto_props(s: Seq<C>, n: int)
    requires
        s.len() == CARDS_COUNT as int,
        0 <= n <= s.len(),
    ensures
        ({
            let b = bases_upto(s, n);
            &&& forall|j: int|
                0 <= j < b.len() ==> (#[trigger] b[j]).0 < n && s[b[j].0 as int].0 == TABLE_BYTE
            &&& forall|j1: int, j2: int| 0 <= j1 < j2 < b.len() ==> b[j1].0 < b[j2].0
            &&& forall|o: int|
                0 <= o < n && (#[trigger] s[o]).0 == TABLE_BYTE ==> exists|j: int|
                    0 <= j < b.len() && (#[trigger] b[j]).0 as int == o
        }),
    decreases n,
{
    if n > 0 {
        lemma_bases_upto_props(s, n - 1);
        let bp = bases_upto(s, n - 1);
        let b = bases_upto(s, n);
        if s[n - 1].0 == TABLE_BYTE {
            assert(b == bp.push(C((n - 1) as u8)));
            assert forall|o: int| 0 <= o < n && (#[trigger] s[o]).0 == TABLE_BYTE implies exists|
                j: int,
            | 0 <= j < b.len() && (#[trigger] b[j]).0 as int == o by {
                if o == n - 1 {
                    assert(b[b.len() - 1].0 as int == o);
                } else {
                    let j = choose|j: int| 0 <= j < bp.len() && (#[trigger] bp[j]).0 as int == o;
                    assert(b[j].0 as int == o);
                }
            }
        }
    }
}

/// What the freecell scan yields: the empty sentinel when no entry names
/// the freecell, else a card whose entry names it.
pub proof fn lemma_freecell_char(s: Seq<C>, n: int)
    requires
        s.len() == CARDS_COUNT as int,
        0 <= n <= s.len(),
    ensures
        ({
            let f = freecell_upto(s, n);
            &&& (f.0 == FREEC_BYTE ==> forall|o: int|
                0 <= o < n ==> (#[trigger] s[o]).0 != FREEC_BYTE)
            &&& (f.0 != FREEC_BYTE ==> f.0 < n && s[f.0 as int].0 == FREEC_BYTE)
        }),
    decreases n,
{
    if n > 0 {
        lemma_freecell_char(s, n - 1);
    }
}

/// What the ascending-foundation scan yields for suit `su`: the no-card
/// sentinel when nothing of the suit is marked, else the highest marked
/// card of the suit.
pub proof fn lemma_fnd_char(s: Seq<C>, n: int, su: Suit)
    requires
        s.len() == CARDS_COUNT as int,
        0 <= n <= s.len(),
    ensures
        ({
            let f = fnd_upto(s, n, su);
            &&& (f.0 == NOCRD_BYTE ==> forall|o: int|
                0 <= o < n ==> !((#[trigger] s[o]).0 == FOUND_BYTE && ord_suit(o) == su))
            &&& (f.0 != NOCRD_BYTE ==> f.0 < n && s[f.0 as int].0 == FOUND_BYTE && ord_suit(
                f.0 as int,
            ) == su && forall|o: int|
                f.0 < o < n ==> !((#[trigger] s[o]).0 == FOUND_BYTE && ord_suit(o) == su))
        }),
    decreases n,
{
    if n > 0 {
        lemma_fnd_char(s, n - 1, su);
    }
}

/// What the descending-foundation scan yields: the no-card sentinel when
/// nothing is marked, else the lowest marked card.
pub proof fn lemma_down_char(s: Seq<C>, n: int)
    requires
        s.len() == CARDS_COUNT as int,
        0 <= n <= s.len(),
    ensures
        ({
            let d = down_upto(s, n);
            &&& (d.0 == NOCRD_BYTE ==> forall|o: int|
                0 <= o < n ==> (#[trigger] s[o]).0 != MAJHI_BYTE)
            &&& (d.0 != NOCRD_BYTE ==> d.0 < n && s[d.0 as int].0 == MAJHI_BYTE && forall|o: int|
                0 <= o < d.0 as int ==> (#[trigger] s[o]).0 != MAJHI_BYTE)
        }),
    decreases n,
{
    if n > 0 {
        lemma_down_char(s, n - 1);
    }
}

/// Only one card can rest directly on a given card.
pub proof fn lemma_on_unique(s: Seq<C>, t: C, i: int, j: int)
    requires
        no_bifurcation(s),
        t.0 <= CARDS_HIGH,
        0 <= i < s.len(),
        0 <= j < s.len(),
        s[i] == t,
        s[j] == t,
    ensures
        i == j,
{
}

/// Finds the unique card resting directly on `t`, if any.
fn find_on(cards: &Vec<C>, t: C) -> (r: Option<C>)
    requires
        cards@.len() == CARDS_COUNT as int,
        no_bifurcation(cards@),
        t.0 <= CARDS_HIGH,
    ensures
        match r {
            Option::Some(c) => c.0 < CARDS_COUNT && cards@[c.0 as int] == t && forall|k: int|
                0 <= k < cards@.len() && cards@[k] == t ==> k == c.0 as int,
            Option::None => forall|k: int| 0 <= k < cards@.len() ==> cards@[k] != t,
        },
{
    let mut i: usize = 0;
    while i < cards.len()
        invariant
            cards@.len() == CARDS_COUNT as int,
            i <= cards@.len(),
            no_bifurcation(cards@),
            t.0 <= CARDS_HIGH,
            forall|k: int| 0 <= k < i ==> cards@[k] != t,
        decreases cards@.len() - i,
    {
        if cards[i].0 == t.0 {
            proof {
                assert(cards@[i as int] == t);
                assert forall|k: int| 0 <= k < cards@.len() && cards@[k] == t implies k
                    == i as int by {
                    if k != i as int {
                        lemma_on_unique(cards@, t, k, i as int);
                    }
                }
            }
            return Some(C(i as u8));
        }
        i += 1;
    }
    None
}

/// Chases the chain of cards resting on `base`, producing the whole
/// column bottom-to-top.
pub fn column_from(cards: &Vec<C>, base: C) -> (col: Vec<C>)
    requires
        cards@.len() == CARDS_COUNT as int,
        no_bifurcation(cards@),
        base.0 < CARDS_COUNT,
        cards@[base.0 as int].0 == TABLE_BYTE,
    ensures
        col@ == column_of(cards@, base),
        col@.len() >= 1,
        col@[0] == base,
{
    let ghost s = cards@;
    let mut col: Vec<C> = Vec::new();
    col.push(base);
    let mut t = base;
    let ghost mut seen: Set<int> = Set::empty();
    proof {
        assert(col@ =~= seq![base]);
        assert(column_of(s, base) == col@ + stack_on(s, t, seen));
    }
    loop
        invariant
            cards@ == s,
            s.len() == CARDS_COUNT as int,
            no_bifurcation(s),
            base.0 < CARDS_COUNT,
            s[base.0 as int].0 == TABLE_BYTE,
            col@.len() >= 1,
            col@[0] == base,
            forall|k: int| 0 <= k < col@.len() ==> (#[trigger] col@[k]).0 < CARDS_COUNT,
            forall|k: int| 1 <= k < col@.len() ==> s[(#[trigger] col@[k]).0 as int] == col@[k - 1],
            col@.no_duplicates(),
            t == col@.last(),
            seen.finite(),
            seen.subset_of(card_indices()),
            forall|c: int|
                seen.contains(c) <==> exists|k: int|
                    1 <= k < col@.len() && (#[trigger] col@[k]).0 as int == c,
            column_of(s, base) == col@ + stack_on(s, t, seen),
        ensures
            col@ == column_of(s, base),
        decreases CARDS_COUNT as int - seen.len(),
    {
        broadcast use vstd::set::group_set_axioms;

        match find_on(cards, t) {
            None => {
                proof {
                    assert(!has_on(s, t, seen)) by {
                        if has_on(s, t, seen) {
                            let cc = next_on(s, t, seen);
                            assert(on_pred(s, t, seen, cc));
                        }
                    }
                    assert(stack_on(s, t, seen) =~= Seq::<C>::empty());
                    assert(col@ + stack_on(s, t, seen) =~= col@);
                }
                break ;
            },
            Some(c) => {
                proof {
                    let ci = c.0 as int;
                    // the found card was not seen before: a repeat would
                    // put two cards on one card, or a card on a column base
                    if seen.contains(ci) {
                        let k = choose|k: int|
                            1 <= k < col@.len() && (#[trigger] col@[k]).0 as int == ci;
                        assert(col@[k] == c);
                        assert(s[ci] == col@[k - 1]);
                        assert(s[ci] == t);
                        assert(col@[k - 1] == col@[col@.len() - 1]);
                        assert(k - 1 == col@.len() - 1);
                        assert(false);
                    }
                    if c == base {
                        assert(s[ci].0 == TABLE_BYTE);
                        assert(t.0 < CARDS_COUNT);
                        assert(false);
                    }
                    assert(forall|k: int| 0 <= k < col@.len() ==> col@[k] != c) by {
                        assert forall|k: int| 0 <= k < col@.len() implies col@[k] != c by {
                            if 1 <= k && col@[k] == c {
                                assert(seen.contains(ci));
                            }
                        }
                    }
                    // unfold the stack: the unique card on `t` comes next
                    assert(on_pred(s, t, seen, ci));
                    let cc = next_on(s, t, seen);
                    assert(on_pred(s, t, seen, cc));
                    lemma_on_unique(s, t, cc, ci);
                    assert(stack_on(s, t, seen) == seq![c] + stack_on(s, c, seen.insert(ci)));
                    assert(col@ + stack_on(s, t, seen) =~= col@.push(c) + stack_on(
                        s,
                        c,
                        seen.insert(ci),
                    ));
                    lemma_card_indices_props();
                    lemma_len_subset(seen.insert(ci), card_indices());
                }
                let ghost old_col = col@;
                let ghost old_seen = seen;
                col.push(c);
                t = c;
                proof {
                    seen = seen.insert(c.0 as int);
                    assert forall|cx: int| seen.contains(cx) <==> exists|k: int|
                        1 <= k < col@.len() && (#[trigger] col@[k]).0 as int == cx by {
                        if seen.contains(cx) {
                            if old_seen.contains(cx) {
                                let k = choose|k: int|
                                    1 <= k < old_col.len() && (#[trigger] old_col[k]).0 as int
                                        == cx;
                                assert(col@[k].0 as int == cx);
                            } else {
                                assert(col@[col@.len() - 1].0 as int == cx);
                            }
                        }
                    }
                }
            },
        }
    }
    col
}

/// Collects the column bottoms of a raw state, in ascending order.
pub fn collect_bases(cards: &Vec<C>) -> (r: Vec<C>)
    requires
        cards@.len() == CARDS_COUNT as int,
    ensures
        r@ == bases(cards@),
        forall|k: int|
            0 <= k < r@.len() ==> (#[trigger] r@[k]).0 < CARDS_COUNT && cards@[r@[k].0 as int].0
                == TABLE_BYTE,
{
    let ghost s = cards@;
    let mut r: Vec<C> = Vec::new();
    let mut i: usize = 0;
    while i < CARDS_COUNT as usize
        invariant
            cards@ == s,
            s.len() == CARDS_COUNT as int,
            i <= CARDS_COUNT as usize,
            r@ == bases_upto(s, i as int),
            forall|k: int|
                0 <= k < r@.len() ==> (#[trigger] r@[k]).0 < CARDS_COUNT && s[r@[k].0 as int].0
                    == TABLE_BYTE,
        decreases CARDS_COUNT as int - i,
    {
        if cards[i].0 == TABLE_BYTE {
            r.push(C(i as u8));
        }
        i += 1;
    }
    r
}

// ---------------------------------------------------------------------
// Frontier derivation
// ---------------------------------------------------------------------

impl BoardInfo {
    /// The summary's containers have their fixed sizes.
    pub open spec fn wf(self) -> bool {
        self.tableau@.len() == 11 && self.foundation@.len() == 5
    }

    /// Derives the frontier summary from a raw state: one linear scan
    /// records column bottoms, the freecell occupant and the foundation
    /// tops, then each column bottom is chased to its exposed top.
    pub fn from_state(st: &BoardState) -> (info: BoardInfo)
        requires
            st.derivable(),
        ensures
            matches_derived(info, st.cards@),
            info.wf(),
    {
        let ghost s = st.cards@;
        let mut bases_v: Vec<C> = Vec::new();
        let mut freecell = C(FREEC_BYTE);
        let mut foundation: Vec<C> = Vec::new();
        foundation.push(C(NOCRD_BYTE));
        foundation.push(C(NOCRD_BYTE));
        foundation.push(C(NOCRD_BYTE));
        foundation.push(C(NOCRD_BYTE));
        foundation.push(C(NOCRD_BYTE));
        let mut down_foundn = C(NOCRD_BYTE);

        let mut i: usize = 0;
        while i < CARDS_COUNT as usize
            invariant
                st.cards@ == s,
                derivable(s),
                i <= CARDS_COUNT as usize,
                bases_v@ == bases_upto(s, i as int),
                forall|k: int|
                    0 <= k < bases_v@.len() ==> (#[trigger] bases_v@[k]).0 < CARDS_COUNT && s[
                        bases_v@[k].0 as int].0 == TABLE_BYTE,
                freecell == freecell_upto(s, i as int),
                foundation@.len() == 5,
                forall|k: int|
                    0 <= k < 5 ==> foundation@[k] == fnd_upto(s, i as int, suit_of_index(k)),
                down_foundn == down_upto(s, i as int),
            decreases CARDS_COUNT as int - i,
        {
            let e = st.cards[i];
            if e.0 <= CARDS_HIGH {
                // a real card lies beneath this one: handled by the chase
            } else if e.0 == TABLE_BYTE {
                bases_v.push(C(i as u8));
            } else if e.0 == FREEC_BYTE {
                freecell = C(i as u8);
            } else if e.0 == FOUND_BYTE {
                let su = C(i as u8).info().card_suit();
                let k = su.index();
                foundation[k] = C(i as u8);
                proof {
                    assert(ord_suit(i as int) == su);
                    assert(suit_of_index(suit_index(su)) == su);
                    assert forall|k2: int| 0 <= k2 < 5 implies foundation@[k2] == fnd_upto(
                        s,
                        i + 1,
                        suit_of_index(k2),
                    ) by {
                        if k2 != suit_index(su) {
                            assert(ord_suit(i as int) != suit_of_index(k2));
                        }
                    }
                }
            } else if e.0 == MAJHI_BYTE {
                if down_foundn.0 == NOCRD_BYTE {
                    down_foundn = C(i as u8);
                }
            } else {
                // the no-card sentinel or an ordinal out of space: both are
                // excluded for a derivable state
                proof {
                    assert(s[i as int].0 <= EVERY_HIGH);
                    assert(s[i as int].0 != NOCRD_BYTE);
                    assert(false);
                }
            }
            i += 1;
        }

        proof {
            assert(bases_v@ == bases(s));
        }

        let mut tableau: Vec<C> = Vec::new();
        let mut j: usize = 0;
        while j < 11
            invariant
                st.cards@ == s,
                derivable(s),
                bases_v@ == bases(s),
                forall|k: int|
                    0 <= k < bases_v@.len() ==> (#[trigger] bases_v@[k]).0 < CARDS_COUNT && s[
                        bases_v@[k].0 as int].0 == TABLE_BYTE,
                j <= 11,
                tableau@.len() == j,
                forall|k: int| 0 <= k < j ==> tableau@[k] == derived_tableau(s)[k],
            decreases 11 - j,
        {
            if j < bases_v.len() {
                let col = column_from(&st.cards, bases_v[j]);
                tableau.push(col[col.len() - 1]);
                proof {
                    assert(col@[col@.len() - 1] == col@.last());
                    assert(col@.last() == top_of(s, bases(s)[j as int]));
                }
            } else {
                tableau.push(C(TABLE_BYTE));
            }
            j += 1;
        }

        proof {
            assert(tableau@ =~= derived_tableau(s));
        }

        BoardInfo { tableau, freecell, foundation, down_foundn }
    }
}

impl Board {
    /// Pairs a raw state with its freshly derived frontier summary.
    pub fn from_state(st: BoardState) -> (b: Board)
        requires
            st.derivable(),
        ensures
            b.state == st,
            matches_derived(b.info, st.cards@),
            b.info.wf(),
    {
        let info = BoardInfo::from_state(&st);
        Board { state: st, info }
    }
}

} // verus!
