//! Column layout: the ordered bottom-to-top card sequences of the eleven
//! tableau columns, convertible from a raw state by chasing each column's
//! chain, and back to a board by marking what lies beneath every card.

use vstd::prelude::*;
use crate::card::{C, Suit, CardInfo};
use crate::card::{CARDS_COUNT, CARDS_HIGH, EVERY_HIGH, TABLE_BYTE, FREEC_BYTE, FOUND_BYTE,
    MAJHI_BYTE, NOCRD_BYTE};
use crate::card::{is_card_ord, ord_rank, ord_suit, pack_ord, suit_index, suit_min_rank,
    suit_max_rank};
use crate::state::{Board, BoardInfo, BoardState, bases, collect_bases, column_from, column_of,
    derivable, derived_tableau, matches_derived, suit_of_index, fnd_upto, down_upto,
    freecell_upto};

verus! {

/// Ordered bottom-to-top sequence per column plus the frontier summary.
#[derive(Debug, Clone, Hash, PartialEq, Eq)]
pub struct BoardLayout {
    /// The eleven columns, each bottom card first.
    pub tableau: Vec<Vec<C>>,
    /// The frontier summary this layout carries.
    pub info: BoardInfo,
}

/// The columns of a layout as mathematical sequences.
pub open spec fn cols_view(tableau: Seq<Vec<C>>) -> Seq<Seq<C>> {
    Seq::new(tableau.len(), |j: int| tableau[j]@)
}

/// The column that the read path produces at position `j`.
pub open spec fn layout_column(s: Seq<C>, j: int) -> Seq<C> {
    if j < bases(s).len() {
        column_of(s, bases(s)[j])
    } else {
        Seq::empty()
    }
}

impl Default for BoardLayout {
    /// The layout of the lexically smallest win: eleven empty columns and
    /// the won board's summary.
    fn default() -> (r: Self)
        ensures
            r.tableau@.len() == 11,
            forall|j: int| 0 <= j < 11 ==> (#[trigger] r.tableau@[j])@.len() == 0,
            forall|j: int| 0 <= j < 11 ==> (#[trigger] r.info.tableau@[j]) == C(TABLE_BYTE),
            r.info.freecell == C(FREEC_BYTE),
            r.info.foundation@ == seq![
                C(crate::card::WANDS_HIGH),
                C(crate::card::STARS_HIGH),
                C(crate::card::SWRDS_HIGH),
                C(crate::card::CUUPS_HIGH),
                C(crate::card::MAGIC_HIGH),
            ],
            r.info.down_foundn == C(NOCRD_BYTE),
            r.info.wf(),
    {
        let mut tableau: Vec<Vec<C>> = Vec::new();
        let mut j: usize = 0;
        while j < 11
            invariant
                j <= 11,
                tableau@.len() == j,
                forall|k: int| 0 <= k < j ==> (#[trigger] tableau@[k])@.len() == 0,
            decreases 11 - j,
        {
            tableau.push(Vec::new());
            j += 1;
        }
        BoardLayout { tableau, info: BoardInfo::default() }
    }
}

impl BoardLayout {
    /// The columns of this layout as mathematical sequences.
    pub open spec fn cols(self) -> Seq<Seq<C>> {
        cols_view(self.tableau@)
    }

    /// Reads a layout off a raw state: for each column bottom, the chain
    /// of cards resting on it; the summary is the scan-derived one, and
    /// each column's last card provably equals the summary's column top.
    pub fn from_state(st: &BoardState) -> (l: BoardLayout)
        requires
            st.derivable(),
        ensures
            l.tableau@.len() == 11,
            forall|j: int| 0 <= j < 11 ==> (#[trigger] l.tableau@[j])@ == layout_column(
                st.cards@,
                j,
            ),
            matches_derived(l.info, st.cards@),
            l.info.wf(),
    {
        let ghost s = st.cards@;
        let info = BoardInfo::from_state(st);
        let bases_v = collect_bases(&st.cards);
        let mut tableau: Vec<Vec<C>> = Vec::new();
        let mut j: usize = 0;
        while j < 11
            invariant
                st.cards@ == s,
                derivable(s),
                bases_v@ == bases(s),
                forall|k: int|
                    0 <= k < bases_v@.len() ==> (#[trigger] bases_v@[k]).0 < CARDS_COUNT && s[
                        bases_v@[k].0 as int].0 == TABLE_BYTE,
                j <= 11,
                tableau@.len() == j,
                forall|k: int| 0 <= k < j ==> (#[trigger] tableau@[k])@ == layout_column(s, k),
            decreases 11 - j,
        {
            if j < bases_v.len() {
                let col = column_from(&st.cards, bases_v[j]);
                tableau.push(col);
            } else {
                tableau.push(Vec::new());
            }
            j += 1;
        }
        BoardLayout { tableau, info }
    }
}

// ---------------------------------------------------------------------
// The write path: layout to raw state
// ---------------------------------------------------------------------

/// Card `o` appears at some position of the columns.
pub open spec fn present(cols: Seq<Seq<C>>, o: int) -> bool {
    exists|j: int, i: int|
        #![trigger cols[j][i]]
        0 <= j < cols.len() && 0 <= i < cols[j].len() && cols[j][i].0 as int == o
}

/// No card appears at two positions of the columns.
pub open spec fn columns_distinct(cols: Seq<Seq<C>>) -> bool {
    forall|j1: int, i1: int, j2: int, i2: int|
        #![trigger cols[j1][i1], cols[j2][i2]]
        0 <= j1 < cols.len() && 0 <= i1 < cols[j1].len() && 0 <= j2 < cols.len() && 0 <= i2
            < cols[j2].len() && (j1 != j2 || i1 != i2) ==> cols[j1][i1] != cols[j2][i2]
}

/// Two positions holding the same card are the same position.
pub proof fn lemma_position_unique(cols: Seq<Seq<C>>, j1: int, i1: int, j2: int, i2: int)
    requires
        columns_distinct(cols),
        0 <= j1 < cols.len(),
        0 <= i1 < cols[j1].len(),
        0 <= j2 < cols.len(),
        0 <= i2 < cols[j2].len(),
        cols[j1][i1].0 == cols[j2][i2].0,
    ensures
        j1 == j2 && i1 == i2,
{
}

/// Card `o` has been marked once the first `j` columns and the first `i`
/// cards of column `j` are written.
pub open spec fn tab_mark_before(cols: Seq<Seq<C>>, j: int, i: int, o: int) -> bool {
    exists|jj: int, ii: int|
        #![trigger cols[jj][ii]]
        0 <= jj < cols.len() && 0 <= ii < cols[jj].len() && (jj < j || (jj == j && ii < i)) && cols[
            jj][ii].0 as int == o
}

/// The entry for card `o` once the first `j` columns and the first `i`
/// cards of column `j` are written: the column-bottom sentinel under a
/// bottom card, the card beneath otherwise, and the untouched default
/// elsewhere.
pub open spec fn tab_entry_partial(cols: Seq<Seq<C>>, j: int, i: int, o: int) -> C {
    if tab_mark_before(cols, j, i, o) {
        let (jj, ii) = choose|jj: int, ii: int|
            0 <= jj < cols.len() && 0 <= ii < cols[jj].len() && (jj < j || (jj == j && ii < i))
                && cols[jj][ii].0 as int == o;
        if ii == 0 {
            C(TABLE_BYTE)
        } else {
            cols[jj][ii - 1]
        }
    } else {
        C(FOUND_BYTE)
    }
}

/// The entry the tableau-marking phase leaves for card `o`.
pub open spec fn tab_entry(cols: Seq<Seq<C>>, o: int) -> C {
    tab_entry_partial(cols, cols.len() as int, 0, o)
}

/// Marks agreeing on whether `o` is covered produce the same entry.
pub proof fn lemma_tab_partial_agree(cols: Seq<Seq<C>>, ja: int, ia: int, jb: int, ib: int, o: int)
    requires
        columns_distinct(cols),
        tab_mark_before(cols, ja, ia, o) == tab_mark_before(cols, jb, ib, o),
    ensures
        tab_entry_partial(cols, ja, ia, o) == tab_entry_partial(cols, jb, ib, o),
{
    if tab_mark_before(cols, ja, ia, o) {
        let (j1, i1) = choose|jj: int, ii: int|
            0 <= jj < cols.len() && 0 <= ii < cols[jj].len() && (jj < ja || (jj == ja && ii < ia))
                && cols[jj][ii].0 as int == o;
        let (j2, i2) = choose|jj: int, ii: int|
            0 <= jj < cols.len() && 0 <= ii < cols[jj].len() && (jj < jb || (jj == jb && ii < ib))
                && cols[jj][ii].0 as int == o;
        lemma_position_unique(cols, j1, i1, j2, i2);
    }
}

/// Writing position `(j, i)` marks its card and nothing else.
pub proof fn lemma_tab_mark_grow(cols: Seq<Seq<C>>, j: int, i: int)
    requires
        0 <= j < cols.len(),
        0 <= i < cols[j].len(),
    ensures
        tab_mark_before(cols, j, i + 1, cols[j][i].0 as int),
        forall|o: int|
            o != cols[j][i].0 as int ==> (tab_mark_before(cols, j, i + 1, o) == tab_mark_before(
                cols,
                j,
                i,
                o,
            )),
{
    let oc = cols[j][i].0 as int;
    assert(tab_mark_before(cols, j, i + 1, oc)) by {
        assert(0 <= j < cols.len() && 0 <= i < cols[j].len() && (j < j || (j == j && i < i + 1))
            && cols[j][i].0 as int == oc);
    }
    assert forall|o: int| o != oc implies (tab_mark_before(cols, j, i + 1, o) == tab_mark_before(
        cols,
        j,
        i,
        o,
    )) by {
        if tab_mark_before(cols, j, i + 1, o) {
            let (j3, i3) = choose|jj: int, ii: int|
                0 <= jj < cols.len() && 0 <= ii < cols[jj].len() && (jj < j || (jj == j && ii < i
                    + 1)) && cols[jj][ii].0 as int == o;
            if j3 == j && i3 == i {
                assert(false);
            }
            assert(tab_mark_before(cols, j, i, o));
        }
        if tab_mark_before(cols, j, i, o) {
            let (j4, i4) = choose|jj: int, ii: int|
                0 <= jj < cols.len() && 0 <= ii < cols[jj].len() && (jj < j || (jj == j && ii < i))
                    && cols[jj][ii].0 as int == o;
            assert(tab_mark_before(cols, j, i + 1, o));
        }
    }
}

/// Writing position `(j, i)` marks exactly its card, with the value the
/// write path assigns there.
pub proof fn lemma_tab_mark_step(cols: Seq<Seq<C>>, j: int, i: int)
    requires
        columns_distinct(cols),
        0 <= j < cols.len(),
        0 <= i < cols[j].len(),
    ensures
        !tab_mark_before(cols, j, i, cols[j][i].0 as int),
        tab_mark_before(cols, j, i + 1, cols[j][i].0 as int),
        tab_entry_partial(cols, j, i + 1, cols[j][i].0 as int) == (if i == 0 {
            C(TABLE_BYTE)
        } else {
            cols[j][i - 1]
        }),
        forall|o: int|
            o != cols[j][i].0 as int ==> (tab_mark_before(cols, j, i + 1, o) == tab_mark_before(
                cols,
                j,
                i,
                o,
            )),
{
    lemma_tab_mark_grow(cols, j, i);
    let oc = cols[j][i].0 as int;
    if tab_mark_before(cols, j, i, oc) {
        let (j1, i1) = choose|jj: int, ii: int|
            0 <= jj < cols.len() && 0 <= ii < cols[jj].len() && (jj < j || (jj == j && ii < i))
                && cols[jj][ii].0 as int == oc;
        lemma_position_unique(cols, j1, i1, j, i);
        assert(false);
    }
    let (j2, i2) = choose|jj: int, ii: int|
        0 <= jj < cols.len() && 0 <= ii < cols[jj].len() && (jj < j || (jj == j && ii < i + 1))
            && cols[jj][ii].0 as int == oc;
    lemma_position_unique(cols, j2, i2, j, i);
}

/// Card `o` belongs to its suit's ascending-foundation run.
pub open spec fn in_asc_run(fnds: Seq<C>, o: int) -> bool {
    let su = ord_suit(o);
    let top = fnds[suit_index(su)];
    top.0 <= CARDS_HIGH && ord_suit(top.0 as int) == su && ord_rank(o) <= ord_rank(top.0 as int)
}

/// Card `o` belongs to the descending major run.
pub open spec fn in_down_run(dfnd: C, o: int) -> bool {
    ord_suit(o) is Magic && dfnd.0 <= CARDS_HIGH && ord_rank(o) >= ord_rank(dfnd.0 as int)
}

/// The raw-state entry the write path produces for card `o`: descending
/// marks overwrite ascending ones, which overwrite the freecell mark,
/// which overwrites the tableau links.
pub open spec fn write_entry(cols: Seq<Seq<C>>, fc: C, fnds: Seq<C>, dfnd: C, o: int) -> C {
    if in_down_run(dfnd, o) {
        C(MAJHI_BYTE)
    } else if in_asc_run(fnds, o) {
        C(FOUND_BYTE)
    } else if fc.0 as int == o {
        C(FREEC_BYTE)
    } else {
        tab_entry(cols, o)
    }
}

/// Ascending marks written so far: suits before `k` wholly, suit `k` up to
/// rank `r` exclusive.
pub open spec fn asc_partial(fnds: Seq<C>, k: int, r: int, o: int) -> bool {
    in_asc_run(fnds, o) && (suit_index(ord_suit(o)) < k || (suit_index(ord_suit(o)) == k
        && ord_rank(o) < r))
}

/// Descending marks written so far: ranks below `r` of the run.
pub open spec fn down_partial(dfnd: C, r: int, o: int) -> bool {
    in_down_run(dfnd, o) && ord_rank(o) < r
}

impl BoardLayout {
    /// A layout the write path accepts: columns hold distinct real cards,
    /// the freecell a card or its empty sentinel, and each foundation
    /// pointer a card of its own suit or an empty marker.
    pub open spec fn writable(self) -> bool {
        &&& self.tableau@.len() == 11
    &&& forall|j: int, i: int|
            #![trigger self.cols()[j][i]]
            0 <= j < 11 && 0 <= i < self.cols()[j].len() ==> self.cols()[j][i].0 <= CARDS_HIGH
        &&& columns_distinct(self.cols())
        &&& self.info.wf()
        &&& (self.info.freecell.0 <= CARDS_HIGH || self.info.freecell.0 == FREEC_BYTE)
        &&& forall|k: int|
            0 <= k < 5 ==> ((#[trigger] self.info.foundation@[k]).0 <= EVERY_HIGH && (
            self.info.foundation@[k].0 <= CARDS_HIGH ==> ord_suit(self.info.foundation@[k].0 as int)
                == suit_of_index(k)))
        &&& self.info.down_foundn.0 <= EVERY_HIGH
        &&& (self.info.down_foundn.0 <= CARDS_HIGH ==> ord_suit(self.info.down_foundn.0 as int)
            is Magic)
    }

    /// Writes a layout back into a board: each column bottom gets the
    /// column-bottom sentinel and every other column card the card beneath
    /// it; the freecell occupant gets the freecell sentinel; each suit's
    /// run up to its ascending top gets the ascending sentinel; the major
    /// run from the descending top upward gets the descending sentinel.
    pub fn into_board(self) -> (b: Board)
        requires
            self.writable(),
        ensures
            b.info == self.info,
            b.state.cards@.len() == CARDS_COUNT as int,
            forall|o: int|
                0 <= o < CARDS_COUNT as int ==> b.state.cards@[o] == write_entry(
                    self.cols(),
                    self.info.freecell,
                    self.info.foundation@,
                    self.info.down_foundn,
                    o,
                ),
    {
        let ghost cols = self.cols();
        let ghost fc = self.info.freecell;
        let ghost fnds = self.info.foundation@;
        let ghost dfnd = self.info.down_foundn;

        // every card starts on the ascending foundations, as in the won
        // board; each placed card is overwritten below
        let mut cards: Vec<C> = Vec::new();
        let mut o: usize = 0;
        while o < CARDS_COUNT as usize
            invariant
                o <= CARDS_COUNT as usize,
                cards@.len() == o,
                forall|k: int| 0 <= k < o ==> (#[trigger] cards@[k]) == C(FOUND_BYTE),
            decreases CARDS_COUNT as int - o,
        {
            cards.push(C(FOUND_BYTE));
            o += 1;
        }

        // tableau links
        let mut j: usize = 0;
        proof {
            assert forall|oo: int| 0 <= oo < CARDS_COUNT as int implies cards@[oo]
                == tab_entry_partial(cols, 0, 0, oo) by {
                if tab_mark_before(cols, 0, 0, oo) {
                    let (jj, ii) = choose|jj: int, ii: int|
                        0 <= jj < cols.len() && 0 <= ii < cols[jj].len() && (jj < 0 || (jj == 0
                            && ii < 0)) && cols[jj][ii].0 as int == oo;
                    assert(false);
                }
            }
        }
        while j < 11
            invariant
                self.writable(),
                cols == self.cols(),
                j <= 11,
                cards@.len() == CARDS_COUNT as int,
                forall|oo: int|
                    0 <= oo < CARDS_COUNT as int ==> (#[trigger] cards@[oo]) == tab_entry_partial(
                        cols,
                        j as int,
                        0,
                        oo,
                    ),
            decreases 11 - j,
        {
            let collen = self.tableau[j].len();
            let mut i: usize = 0;
            proof {
                assert forall|oo: int|
                    tab_mark_before(cols, j as int, 0, oo) == tab_mark_before(
                        cols,
                        j as int,
                        0,
                        oo,
                    ) by {}
            }
            while i < collen
                invariant
                    self.writable(),
                    cols == self.cols(),
                    j < 11,
                    collen == cols[j as int].len(),
                    i <= collen,
                    cards@.len() == CARDS_COUNT as int,
                    forall|oo: int|
                        0 <= oo < CARDS_COUNT as int ==> (#[trigger] cards@[oo])
                            == tab_entry_partial(cols, j as int, i as int, oo),
                decreases collen - i,
            {
                let card = self.tableau[j][i];
                let val = if i == 0 {
                    C(TABLE_BYTE)
                } else {
                    self.tableau[j][i - 1]
                };
                proof {
                    lemma_tab_mark_step(cols, j as int, i as int);
                }
                let ghost before = cards@;
                cards[card.0 as usize] = val;
                proof {
                    assert forall|oo: int| 0 <= oo < CARDS_COUNT as int implies cards@[oo]
                        == tab_entry_partial(cols, j as int, i + 1, oo) by {
                        if oo == card.0 as int {
                        } else {
                            lemma_tab_partial_agree(cols, j as int, i + 1, j as int, i as int, oo);
                            assert(cards@[oo] == before[oo]);
                        }
                    }
                }
                i += 1;
            }
            proof {
                assert forall|oo: int| 0 <= oo < CARDS_COUNT as int implies tab_entry_partial(
                    cols,
                    j as int,
                    collen as int,
                    oo,
                ) == tab_entry_partial(cols, j + 1, 0, oo) by {
                    assert(tab_mark_before(cols, j as int, collen as int, oo) == tab_mark_before(
                        cols,
                        j + 1,
                        0,
                        oo,
                    )) by {
                        if tab_mark_before(cols, j as int, collen as int, oo) {
                            let (j1, i1) = choose|jj: int, ii: int|
                                0 <= jj < cols.len() && 0 <= ii < cols[jj].len() && (jj < j as int
                                    || (jj == j as int && ii < collen as int)) && cols[jj][ii].0
                                    as int == oo;
                            assert(tab_mark_before(cols, j + 1, 0, oo));
                        }
                        if tab_mark_before(cols, j + 1, 0, oo) {
                            let (j1, i1) = choose|jj: int, ii: int|
                                0 <= jj < cols.len() && 0 <= ii < cols[jj].len() && (jj < j + 1 || (
                                jj == j + 1 && ii < 0)) && cols[jj][ii].0 as int == oo;
                            if j1 == j as int {
                                assert(i1 < collen as int);
                            }
                            assert(tab_mark_before(cols, j as int, collen as int, oo));
                        }
                    }
                    lemma_tab_partial_agree(cols, j as int, collen as int, j + 1, 0, oo);
                }
            }
            j += 1;
        }

        // freecell occupant
        if self.info.freecell.0 <= CARDS_HIGH {
            cards[self.info.freecell.0 as usize] = C(FREEC_BYTE);
        }
        proof {
            assert forall|oo: int| 0 <= oo < CARDS_COUNT as int implies cards@[oo] == (if fc.0
                as int == oo {
                C(FREEC_BYTE)
            } else {
                tab_entry(cols, oo)
            }) by {
                lemma_tab_partial_agree(cols, 11, 0, cols.len() as int, 0, oo);
            }
        }

        // ascending runs, suit by suit from each suit's lowest rank
        let mut k: usize = 0;
        proof {
            assert forall|oo: int| 0 <= oo < CARDS_COUNT as int implies !asc_partial(
                fnds,
                0,
                0,
                oo,
            ) by {
                if suit_index(ord_suit(oo)) == 0 {
                    crate::forced::lemma_rank_bounds(oo);
                }
            }
        }
        while k < 5
            invariant
                self.writable(),
                cols == self.cols(),
                fnds == self.info.foundation@,
                fc == self.info.freecell,
                k <= 5,
                cards@.len() == CARDS_COUNT as int,
                forall|oo: int|
                    0 <= oo < CARDS_COUNT as int ==> (#[trigger] cards@[oo]) == (if asc_partial(
                        fnds,
                        k as int,
                        0,
                        oo,
                    ) {
                        C(FOUND_BYTE)
                    } else if fc.0 as int == oo {
                        C(FREEC_BYTE)
                    } else {
                        tab_entry(cols, oo)
                    }),
            decreases 5 - k,
        {
            let top = self.info.foundation[k];
            if top.0 <= CARDS_HIGH {
                let ti = top.info();
                let su = ti.card_suit();
                let topr = ti.card_rank();
                let minr: u8 = if su.is_minor() {
                    2
                } else {
                    0
                };
                proof {
                    crate::forced::lemma_rank_bounds(top.0 as int);
                }
                let mut r: u8 = minr;
                proof {
                    assert forall|oo: int| 0 <= oo < CARDS_COUNT as int implies asc_partial(
                        fnds,
                        k as int,
                        minr as int,
                        oo,
                    ) == asc_partial(fnds, k as int, 0, oo) by {
                        if suit_index(ord_suit(oo)) == k as int {
                            crate::forced::lemma_rank_bounds(oo);
                        }
                    }
                }
                while r <= topr
                    invariant
                        self.writable(),
                        cols == self.cols(),
                        fnds == self.info.foundation@,
                        fc == self.info.freecell,
                        k < 5,
                        top == fnds[k as int],
                        top.0 <= CARDS_HIGH,
                        su == ord_suit(top.0 as int),
                        su == suit_of_index(k as int),
                        topr == ord_rank(top.0 as int),
                        minr == suit_min_rank(su),
                        minr <= r <= topr + 1,
                        topr <= suit_max_rank(su),
                        cards@.len() == CARDS_COUNT as int,
                        forall|oo: int|
                            0 <= oo < CARDS_COUNT as int ==> (#[trigger] cards@[oo]) == (if
                        asc_partial(fnds, k as int, r as int, oo) {
                            C(FOUND_BYTE)
                        } else if fc.0 as int == oo {
                            C(FREEC_BYTE)
                        } else {
                            tab_entry(cols, oo)
                        }),
                    decreases topr + 1 - r,
                {
                    let c = CardInfo::Card(su, r).pack();
                    let ghost before = cards@;
                    cards[c.0 as usize] = C(FOUND_BYTE);
                    proof {
                        assert forall|oo: int| 0 <= oo < CARDS_COUNT as int implies cards@[oo] == (
                        if asc_partial(fnds, k as int, r + 1, oo) {
                            C(FOUND_BYTE)
                        } else if fc.0 as int == oo {
                            C(FREEC_BYTE)
                        } else {
                            tab_entry(cols, oo)
                        }) by {
                            if oo == c.0 as int {
                                assert(ord_suit(oo) == su && ord_rank(oo) == r as int);
                                assert(in_asc_run(fnds, oo));
                                assert(asc_partial(fnds, k as int, r + 1, oo));
                            } else {
                                assert(cards@[oo] == before[oo]);
                                assert(asc_partial(fnds, k as int, r + 1, oo) == asc_partial(
                                    fnds,
                                    k as int,
                                    r as int,
                                    oo,
                                )) by {
                                    if asc_partial(fnds, k as int, r + 1, oo) && !asc_partial(
                                        fnds,
                                        k as int,
                                        r as int,
                                        oo,
                                    ) {
                                        assert(suit_index(ord_suit(oo)) == k as int && ord_rank(oo)
                                            == r as int);
                                        assert(oo == pack_ord(ord_suit(oo), ord_rank(oo)));
                                        assert(false);
                                    }
                                }
                            }
                        }
                    }
                    r += 1;
                }
                proof {
                    assert forall|oo: int| 0 <= oo < CARDS_COUNT as int implies asc_partial(
                        fnds,
                        k as int,
                        r as int,
                        oo,
                    ) == asc_partial(fnds, k + 1, 0, oo) by {
                        if suit_index(ord_suit(oo)) == k as int {
                            crate::forced::lemma_rank_bounds(oo);
                        }
                    }
                }
            } else {
                proof {
                    assert forall|oo: int| 0 <= oo < CARDS_COUNT as int implies asc_partial(
                        fnds,
                        k as int,
                        0,
                        oo,
                    ) == asc_partial(fnds, k + 1, 0, oo) by {
                        if suit_index(ord_suit(oo)) == k as int {
                            assert(!in_asc_run(fnds, oo));
                        }
                    }
                }
            }
            k += 1;
        }

        // descending major run, from the descending top to the highest rank
        let ghost phase3 = cards@;
        proof {
            assert forall|oo: int| 0 <= oo < CARDS_COUNT as int implies asc_partial(fnds, 5, 0, oo)
                == in_asc_run(fnds, oo) by {}
        }
        if self.info.down_foundn.0 <= CARDS_HIGH {
            let dtop = self.info.down_foundn;
            let di = dtop.info();
            let dr = di.card_rank();
            proof {
                crate::forced::lemma_rank_bounds(dtop.0 as int);
            }
            let mut r: u8 = dr;
            proof {
                assert forall|oo: int| 0 <= oo < CARDS_COUNT as int implies !down_partial(
                    dfnd,
                    dr as int,
                    oo,
                ) by {}
            }
            while r <= 21
                invariant
                    self.writable(),
                    cols == self.cols(),
                    fnds == self.info.foundation@,
                    fc == self.info.freecell,
                    dfnd == self.info.down_foundn,
                    dfnd.0 <= CARDS_HIGH,
                    ord_suit(dfnd.0 as int) is Magic,
                    dr == ord_rank(dfnd.0 as int),
                    dr <= r <= 22,
                    cards@.len() == CARDS_COUNT as int,
                    forall|oo: int|
                        0 <= oo < CARDS_COUNT as int ==> (#[trigger] cards@[oo]) == (if
                    down_partial(dfnd, r as int, oo) {
                        C(MAJHI_BYTE)
                    } else if in_asc_run(fnds, oo) {
                        C(FOUND_BYTE)
                    } else if fc.0 as int == oo {
                        C(FREEC_BYTE)
                    } else {
                        tab_entry(cols, oo)
                    }),
                decreases 22 - r,
            {
                let c = CardInfo::Card(Suit::Magic, r).pack();
                let ghost before = cards@;
                cards[c.0 as usize] = C(MAJHI_BYTE);
                proof {
                    assert forall|oo: int| 0 <= oo < CARDS_COUNT as int implies cards@[oo] == (if
                    down_partial(dfnd, r + 1, oo) {
                        C(MAJHI_BYTE)
                    } else if in_asc_run(fnds, oo) {
                        C(FOUND_BYTE)
                    } else if fc.0 as int == oo {
                        C(FREEC_BYTE)
                    } else {
                        tab_entry(cols, oo)
                    }) by {
                        if oo == c.0 as int {
                            assert(ord_suit(oo) is Magic && ord_rank(oo) == r as int);
                            assert(down_partial(dfnd, r + 1, oo));
                        } else {
                            assert(cards@[oo] == before[oo]);
                            assert(down_partial(dfnd, r + 1, oo) == down_partial(
                                dfnd,
                                r as int,
                                oo,
                            )) by {
                                if down_partial(dfnd, r + 1, oo) && !down_partial(
                                    dfnd,
                                    r as int,
                                    oo,
                                ) {
                                    assert(ord_suit(oo) is Magic && ord_rank(oo) == r as int);
                                    assert(oo == pack_ord(ord_suit(oo), ord_rank(oo)));
                                    assert(false);
                                }
                            }
                        }
                    }
                }
                r += 1;
            }
            proof {
                assert forall|oo: int| 0 <= oo < CARDS_COUNT as int implies down_partial(
                    dfnd,
                    22,
                    oo,
                ) == in_down_run(dfnd, oo) by {
                    if in_down_run(dfnd, oo) {
                        crate::forced::lemma_rank_bounds(oo);
                    }
                }
            }
        } else {
            proof {
                assert forall|oo: int| 0 <= oo < CARDS_COUNT as int implies !in_down_run(
                    dfnd,
                    oo,
                ) by {}
            }
        }

        Board { state: BoardState { cards }, info: self.info }
    }
}

// ---------------------------------------------------------------------
// Construction from literal columns
// ---------------------------------------------------------------------

/// Every column entry is a real card.
pub open spec fn cols_all_real(cols: Seq<Seq<C>>) -> bool {
    forall|j: int, i: int|
        #![trigger cols[j][i]]
        0 <= j < cols.len() && 0 <= i < cols[j].len() ==> cols[j][i].0 <= CARDS_HIGH
}

/// The first rank at or above `r` of suit `su` that cannot join the
/// ascending run: either above the suit's range, or present in a column.
pub open spec fn asc_stop(cols: Seq<Seq<C>>, su: Suit, r: int) -> int
    decreases 22 - r
        when r <= 22
{
    if r > suit_max_rank(su) {
        r
    } else if present(cols, pack_ord(su, r)) {
        r
    } else {
        asc_stop(cols, su, r + 1)
    }
}

/// The first rank at or below `r` that cannot join the descending run:
/// either already in the ascending run (at or below `stop_at`), or present
/// in a column.
pub open spec fn down_stop(cols: Seq<Seq<C>>, stop_at: int, r: int) -> int
    decreases r - stop_at
        when stop_at <= r
{
    if r <= stop_at {
        r
    } else if present(cols, pack_ord(Suit::Magic, r)) {
        r
    } else {
        down_stop(cols, stop_at, r - 1)
    }
}

/// The rank below which suit `su`'s ascending run is assigned.
pub open spec fn asc_stop_of(cols: Seq<Seq<C>>, su: Suit) -> int {
    asc_stop(cols, su, suit_min_rank(su))
}

/// The ascending stop stays within the suit's rank range.
pub proof fn lemma_asc_stop_bounds(cols: Seq<Seq<C>>, su: Suit, r: int)
    requires
        suit_min_rank(su) <= r <= suit_max_rank(su) + 1,
    ensures
        r <= asc_stop(cols, su, r) <= suit_max_rank(su) + 1,
    decreases 22 - r,
{
    if r <= suit_max_rank(su) && !present(cols, pack_ord(su, r)) {
        lemma_asc_stop_bounds(cols, su, r + 1);
    }
}

/// The rank above which the descending major run is assigned.
pub open spec fn down_stop_of(cols: Seq<Seq<C>>) -> int {
    down_stop(cols, asc_stop_of(cols, Suit::Magic) - 1, 21)
}

/// The ascending-foundation pointer construction infers for suit `su`.
pub open spec fn asc_pointer(cols: Seq<Seq<C>>, su: Suit) -> C {
    if asc_stop_of(cols, su) == suit_min_rank(su) {
        C(NOCRD_BYTE)
    } else {
        C(pack_ord(su, asc_stop_of(cols, su) - 1) as u8)
    }
}

/// The descending-foundation pointer construction infers.
pub open spec fn down_pointer(cols: Seq<Seq<C>>) -> C {
    if down_stop_of(cols) == 21 {
        C(NOCRD_BYTE)
    } else {
        C(pack_ord(Suit::Magic, down_stop_of(cols) + 1) as u8)
    }
}

/// Card `o` is in no column and in neither inferred foundation run: it can
/// only wait in the freecell.
pub open spec fn leftover(cols: Seq<Seq<C>>, o: int) -> bool {
    &&& 0 <= o < CARDS_COUNT as int
    &&& !present(cols, o)
    &&& ord_rank(o) >= asc_stop_of(cols, ord_suit(o))
    &&& (ord_suit(o) is Magic ==> ord_rank(o) <= down_stop_of(cols))
}

/// At most one card is left over after the runs are assigned.
pub open spec fn at_most_one_leftover(cols: Seq<Seq<C>>) -> bool {
    forall|o1: int, o2: int| leftover(cols, o1) && leftover(cols, o2) ==> o1 == o2
}

/// What construction from literal columns accepts: real cards, no card
/// twice, and at most one card unaccounted for.
pub open spec fn constructible(cols: Seq<Seq<C>>) -> bool {
    &&& cols_all_real(cols)
    &&& columns_distinct(cols)
    &&& at_most_one_leftover(cols)
}

/// No card appears at two positions before bound `(j, i)`.
pub open spec fn distinct_before(cols: Seq<Seq<C>>, j: int, i: int) -> bool {
    forall|j1: int, i1: int, j2: int, i2: int|
        #![trigger cols[j1][i1], cols[j2][i2]]
        0 <= j1 < cols.len() && 0 <= i1 < cols[j1].len() && (j1 < j || (j1 == j && i1 < i)) && 0
            <= j2 < cols.len() && 0 <= i2 < cols[j2].len() && (j2 < j || (j2 == j && i2 < i)) && (j1
            != j2 || i1 != i2) ==> cols[j1][i1] != cols[j2][i2]
}

/// Cards the ascending runs have claimed: suits before `k` up to their
/// stop, suit `k` up to rank `r`.
pub open spec fn taken_asc(cols: Seq<Seq<C>>, k: int, r: int, o: int) -> bool {
    if suit_index(ord_suit(o)) < k {
        ord_rank(o) < asc_stop_of(cols, ord_suit(o))
    } else if suit_index(ord_suit(o)) == k {
        ord_rank(o) < r
    } else {
        false
    }
}

/// Cards the descending run has claimed: major ranks at or above `r`.
pub open spec fn taken_down(cols: Seq<Seq<C>>, r: int, o: int) -> bool {
    ord_suit(o) is Magic && ord_rank(o) >= r
}

/// What a successful construction from literal columns yields: the given
/// columns, their exposed tops, the greedily inferred foundation runs,
/// and the lone leftover card (if any) in the freecell.
pub open spec fn constructed_from(l: BoardLayout, cols: Seq<Seq<C>>) -> bool {
    &&& l.cols() == cols
    &&& l.info.wf()
    &&& forall|j: int|
        0 <= j < 11 ==> l.info.tableau@[j] == (if cols[j].len() == 0 {
            C(TABLE_BYTE)
        } else {
            cols[j].last()
        })
    &&& forall|k: int| 0 <= k < 5 ==> l.info.foundation@[k] == asc_pointer(cols, suit_of_index(k))
    &&& l.info.down_foundn == down_pointer(cols)
    &&& (forall|o: int| leftover(cols, o) ==> l.info.freecell.0 as int == o)
    &&& ((forall|o: int| !leftover(cols, o)) ==> l.info.freecell.0 == FREEC_BYTE)
    &&& l.writable()
}

/// Executable suit lookup by foundation position.
fn suit_at(k: usize) -> (s: Suit)
    requires
        k < 5,
    ensures
        s == suit_of_index(k as int),
{
    match k {
        0 => Suit::Wands,
        1 => Suit::Stars,
        2 => Suit::Swrds,
        3 => Suit::Cuups,
        _ => Suit::Magic,
    }
}

impl BoardLayout {
    /// Builds a layout from eleven literal columns, inferring the
    /// foundations and freecell: the complement of the columns' cards is
    /// assigned greedily to each suit's ascending run from its lowest
    /// rank, then to the descending major run from the highest rank; a
    /// single remaining card becomes the freecell occupant.  Fails when a
    /// column holds something other than a card, a card appears twice, or
    /// more than one card is left over.
    pub fn from_columns(tableau: Vec<Vec<C>>) -> (r: Result<BoardLayout, ()>)
        requires
            tableau@.len() == 11,
        ensures
            r is Ok <==> constructible(cols_view(tableau@)),
            r matches Ok(l) ==> l.tableau@ == tableau@ && constructed_from(
                l,
                cols_view(tableau@),
            ),
    {
        let ghost cols = cols_view(tableau@);

        // record each column card once; a repeat or a non-card fails
        let mut present_v: Vec<bool> = Vec::new();
        let mut o: usize = 0;
        while o < CARDS_COUNT as usize
            invariant
                o <= CARDS_COUNT as usize,
                present_v@.len() == o,
                forall|x: int| 0 <= x < o ==> !(#[trigger] present_v@[x]),
            decreases CARDS_COUNT as int - o,
        {
            present_v.push(false);
            o += 1;
        }
        let mut j: usize = 0;
        proof {
            assert forall|oo: int| 0 <= oo < CARDS_COUNT as int implies !tab_mark_before(
                cols,
                0,
                0,
                oo,
            ) by {
                if tab_mark_before(cols, 0, 0, oo) {
                    let (jj, ii) = choose|jj: int, ii: int|
                        0 <= jj < cols.len() && 0 <= ii < cols[jj].len() && (jj < 0 || (jj == 0
                            && ii < 0)) && cols[jj][ii].0 as int == oo;
                    assert(false);
                }
            }
        }
        while j < 11
            invariant
                tableau@.len() == 11,
                cols == cols_view(tableau@),
                j <= 11,
                present_v@.len() == CARDS_COUNT as int,
                forall|oo: int|
                    0 <= oo < CARDS_COUNT as int ==> (#[trigger] present_v@[oo]) == tab_mark_before(
                        cols,
                        j as int,
                        0,
                        oo,
                    ),
                distinct_before(cols, j as int, 0),
                forall|j1: int, i1: int|
                    #![trigger cols[j1][i1]]
                    0 <= j1 < 11 && 0 <= i1 < cols[j1].len() && j1 < j ==> cols[j1][i1].0
                        <= CARDS_HIGH,
            decreases 11 - j,
        {
            let collen = tableau[j].len();
            let mut i: usize = 0;
            while i < collen
                invariant
                    tableau@.len() == 11,
                    cols == cols_view(tableau@),
                    j < 11,
                    collen == cols[j as int].len(),
                    i <= collen,
                    present_v@.len() == CARDS_COUNT as int,
                    forall|oo: int|
                        0 <= oo < CARDS_COUNT as int ==> (#[trigger] present_v@[oo])
                            == tab_mark_before(cols, j as int, i as int, oo),
                    distinct_before(cols, j as int, i as int),
                    forall|j1: int, i1: int|
                        #![trigger cols[j1][i1]]
                        0 <= j1 < 11 && 0 <= i1 < cols[j1].len() && (j1 < j as int || (j1 == j as int
                            && i1 < i as int)) ==> cols[j1][i1].0 <= CARDS_HIGH,
                decreases collen - i,
            {
                let card = tableau[j][i];
                if card.0 > CARDS_HIGH {
                    proof {
                        assert(!cols_all_real(cols));
                    }
                    return Err(());
                }
                if present_v[card.0 as usize] {
                    proof {
                        let (j1, i1) = choose|jj: int, ii: int|
                            0 <= jj < cols.len() && 0 <= ii < cols[jj].len() && (jj < j as int || (
                            jj == j as int && ii < i as int)) && cols[jj][ii].0 as int == card.0
                                as int;
                        assert(cols[j1][i1] == cols[j as int][i as int]);
                        assert(!columns_distinct(cols));
                    }
                    return Err(());
                }
                present_v[card.0 as usize] = true;
                proof {
                    lemma_tab_mark_grow(cols, j as int, i as int);
                    assert(distinct_before(cols, j as int, i + 1)) by {
                        assert forall|j1: int, i1: int, j2: int, i2: int|
                            0 <= j1 < cols.len() && 0 <= i1 < cols[j1].len() && (j1 < j as int || (
                            j1 == j as int && i1 < i + 1)) && 0 <= j2 < cols.len() && 0 <= i2
                                < cols[j2].len() && (j2 < j as int || (j2 == j as int && i2 < i + 1))
                                && (j1 != j2 || i1 != i2) implies #[trigger] cols[j1][i1]
                            != #[trigger] cols[j2][i2] by {
                            if j1 == j as int && i1 == i as int {
                                if cols[j2][i2] == cols[j as int][i as int] {
                                    assert(tab_mark_before(cols, j as int, i as int, card.0 as int));
                                }
                            } else if j2 == j as int && i2 == i as int {
                                if cols[j1][i1] == cols[j as int][i as int] {
                                    assert(tab_mark_before(cols, j as int, i as int, card.0 as int));
                                }
                            }
                        }
                    }
                }
                i += 1;
            }
            proof {
                assert forall|oo: int|
                    tab_mark_before(cols, j as int, collen as int, oo) == tab_mark_before(
                        cols,
                        j + 1,
                        0,
                        oo,
                    ) by {
                    if tab_mark_before(cols, j as int, collen as int, oo) {
                        let (j1, i1) = choose|jj: int, ii: int|
                            0 <= jj < cols.len() && 0 <= ii < cols[jj].len() && (jj < j as int || (
                            jj == j as int && ii < collen as int)) && cols[jj][ii].0 as int == oo;
                        assert(tab_mark_before(cols, j + 1, 0, oo));
                    }
                    if tab_mark_before(cols, j + 1, 0, oo) {
                        let (j1, i1) = choose|jj: int, ii: int|
                            0 <= jj < cols.len() && 0 <= ii < cols[jj].len() && (jj < j + 1 || (jj
                                == j + 1 && ii < 0)) && cols[jj][ii].0 as int == oo;
                        if j1 == j as int {
                            assert(i1 < collen as int);
                        }
                        assert(tab_mark_before(cols, j as int, collen as int, oo));
                    }
                }
                assert(distinct_before(cols, j + 1, 0)) by {
                    assert forall|j1: int, i1: int, j2: int, i2: int|
                        0 <= j1 < cols.len() && 0 <= i1 < cols[j1].len() && (j1 < j + 1 || (j1 == j
                            + 1 && i1 < 0)) && 0 <= j2 < cols.len() && 0 <= i2 < cols[j2].len() && (
                        j2 < j + 1 || (j2 == j + 1 && i2 < 0)) && (j1 != j2 || i1 != i2) implies #[trigger] cols[j1][i1] != #[trigger] cols[j2][i2] by {
                        assert(i1 < cols[j1].len() && i2 < cols[j2].len());
                        if j1 == j as int {
                            assert(i1 < collen as int);
                        }
                        if j2 == j as int {
                            assert(i2 < collen as int);
                        }
                    }
                }
            }
            j += 1;
        }
        proof {
            assert(columns_distinct(cols)) by {
                assert forall|j1: int, i1: int, j2: int, i2: int|
                    0 <= j1 < cols.len() && 0 <= i1 < cols[j1].len() && 0 <= j2 < cols.len() && 0
                        <= i2 < cols[j2].len() && (j1 != j2 || i1 != i2) implies #[trigger] cols[j1][i1] != #[trigger] cols[j2][i2] by {
                    assert(distinct_before(cols, 11, 0));
                }
            }
            assert(cols_all_real(cols));
            assert forall|oo: int| 0 <= oo < CARDS_COUNT as int implies (present_v@[oo] == present(
                cols,
                oo,
            )) by {
                if present(cols, oo) {
                    assert(tab_mark_before(cols, 11, 0, oo));
                }
                if tab_mark_before(cols, 11, 0, oo) {
                    assert(present(cols, oo));
                }
            }
        }

        // assign the ascending runs greedily, from each suit's lowest rank
        let mut foundation: Vec<C> = Vec::new();
        let mut k: usize = 0;
        while k < 5
            invariant
                cols == cols_view(tableau@),
                cols_all_real(cols),
                columns_distinct(cols),
                k <= 5,
                foundation@.len() == k,
                present_v@.len() == CARDS_COUNT as int,
                forall|kk: int|
                    0 <= kk < k ==> foundation@[kk] == asc_pointer(cols, suit_of_index(kk)),
                forall|oo: int|
                    0 <= oo < CARDS_COUNT as int ==> (#[trigger] present_v@[oo]) == (present(
                        cols,
                        oo,
                    ) || taken_asc(cols, k as int, 0, oo)),
            decreases 5 - k,
        {
            let su = suit_at(k);
            let minr: u8 = if su.is_minor() {
                2
            } else {
                0
            };
            let maxr: u8 = if su.is_minor() {
                13
            } else {
                21
            };
            let mut top = C(NOCRD_BYTE);
            let mut r: u8 = minr;
            proof {
                assert forall|oo: int| 0 <= oo < CARDS_COUNT as int implies (taken_asc(
                    cols,
                    k as int,
                    minr as int,
                    oo,
                ) == taken_asc(cols, k as int, 0, oo)) by {
                    if suit_index(ord_suit(oo)) == k as int {
                        crate::forced::lemma_rank_bounds(oo);
                    }
                }
            }
            while r <= maxr
                invariant
                    cols == cols_view(tableau@),
                    cols_all_real(cols),
                    columns_distinct(cols),
                    k < 5,
                    su == suit_of_index(k as int),
                    minr == suit_min_rank(su),
                    maxr == suit_max_rank(su),
                    minr <= r <= maxr + 1,
                    present_v@.len() == CARDS_COUNT as int,
                    asc_stop(cols, su, r as int) == asc_stop_of(cols, su),
                    top == (if r == minr {
                        C(NOCRD_BYTE)
                    } else {
                        C(pack_ord(su, r - 1) as u8)
                    }),
                    forall|oo: int|
                        0 <= oo < CARDS_COUNT as int ==> (#[trigger] present_v@[oo]) == (present(
                            cols,
                            oo,
                        ) || taken_asc(cols, k as int, r as int, oo)),
                ensures
                    minr <= r <= maxr + 1,
                    asc_stop_of(cols, su) == r as int,
                    top == asc_pointer(cols, su),
                    present_v@.len() == CARDS_COUNT as int,
                    forall|oo: int|
                        0 <= oo < CARDS_COUNT as int ==> (#[trigger] present_v@[oo]) == (present(
                            cols,
                            oo,
                        ) || taken_asc(cols, k as int, r as int, oo)),
                decreases maxr + 1 - r,
            {
                let c = CardInfo::Card(su, r).pack();
                if present_v[c.0 as usize] {
                    proof {
                        assert(!taken_asc(cols, k as int, r as int, c.0 as int));
                        assert(present(cols, c.0 as int));
                        assert(asc_stop(cols, su, r as int) == r as int);
                        assert(top == asc_pointer(cols, su));
                    }
                    break ;
                }
                present_v[c.0 as usize] = true;
                top = c;
                proof {
                    assert(!present(cols, c.0 as int) && !taken_asc(
                        cols,
                        k as int,
                        r as int,
                        c.0 as int,
                    ));
                    assert(asc_stop(cols, su, r as int) == asc_stop(cols, su, r + 1));
                    assert forall|oo: int| 0 <= oo < CARDS_COUNT as int implies ((oo == c.0 as int
                        || present_v@[oo]) == (present(cols, oo) || taken_asc(
                        cols,
                        k as int,
                        r + 1,
                        oo,
                    ))) by {
                        if oo != c.0 as int && taken_asc(cols, k as int, r + 1, oo) && !taken_asc(
                            cols,
                            k as int,
                            r as int,
                            oo,
                        ) {
                            assert(suit_index(ord_suit(oo)) == k as int && ord_rank(oo) == r as int);
                            assert(oo == pack_ord(ord_suit(oo), ord_rank(oo)));
                            assert(false);
                        }
                    }
                }
                r += 1;
            }
            proof {
                assert forall|oo: int| 0 <= oo < CARDS_COUNT as int implies (taken_asc(
                    cols,
                    k as int,
                    r as int,
                    oo,
                ) == taken_asc(cols, k + 1, 0, oo)) by {
                    if suit_index(ord_suit(oo)) == k as int {
                        crate::forced::lemma_rank_bounds(oo);
                    }
                }
            }
            foundation.push(top);
            k += 1;
        }

        // assign the descending major run, from the highest rank down
        let ghost sa = asc_stop_of(cols, Suit::Magic) - 1;
        proof {
            lemma_asc_stop_bounds(cols, Suit::Magic, 0);
            assert(foundation@[4] == asc_pointer(cols, suit_of_index(4)));
        }
        let mstop: u8 = {
            // the rank where the magic ascending run stopped
            let t = foundation[4];
            if t.0 == NOCRD_BYTE {
                0
            } else {
                let ti = t.info();
                ti.card_rank() + 1
            }
        };
        proof {
            assert(mstop as int == sa + 1);
        }
        let mut dtop = C(NOCRD_BYTE);
        let mut rr: u8 = 0;
        proof {
            assert(down_stop(cols, sa, 21 - rr) == down_stop_of(cols));
            assert forall|oo: int| 0 <= oo < CARDS_COUNT as int implies (present_v@[oo] == (present(
                cols,
                oo,
            ) || taken_asc(cols, 5, 0, oo) || taken_down(cols, 22 - rr, oo))) by {
                if taken_down(cols, 22, oo) {
                    crate::forced::lemma_rank_bounds(oo);
                }
            }
        }
        while rr < 22 - mstop
            invariant
                cols == cols_view(tableau@),
                cols_all_real(cols),
                columns_distinct(cols),
                present_v@.len() == CARDS_COUNT as int,
                sa == asc_stop_of(cols, Suit::Magic) - 1,
                mstop as int == sa + 1,
                0 <= sa + 1 <= 22,
                rr as int <= 21 - sa,
                down_stop(cols, sa, 21 - rr as int) == down_stop_of(cols),
                dtop == (if rr == 0 {
                    C(NOCRD_BYTE)
                } else {
                    C(pack_ord(Suit::Magic, 22 - rr as int) as u8)
                }),
                forall|oo: int|
                    0 <= oo < CARDS_COUNT as int ==> (#[trigger] present_v@[oo]) == (present(
                        cols,
                        oo,
                    ) || taken_asc(cols, 5, 0, oo) || taken_down(cols, 22 - rr as int, oo)),
            ensures
                rr as int <= 21 - sa,
                down_stop_of(cols) == 21 - rr as int,
                dtop == down_pointer(cols),
                present_v@.len() == CARDS_COUNT as int,
                forall|oo: int|
                    0 <= oo < CARDS_COUNT as int ==> (#[trigger] present_v@[oo]) == (present(
                        cols,
                        oo,
                    ) || taken_asc(cols, 5, 0, oo) || taken_down(cols, 22 - rr as int, oo)),
            decreases 22 - mstop - rr,
        {
            let r: u8 = 21 - rr;
            let c = CardInfo::Card(Suit::Magic, r).pack();
            proof {
                assert(c.0 as int == pack_ord(Suit::Magic, r as int));
                assert(ord_suit(c.0 as int) == Suit::Magic);
                assert(ord_rank(c.0 as int) == r as int);
                assert(r as int > sa);
                assert(asc_stop_of(cols, ord_suit(c.0 as int)) == sa + 1);
                assert(!taken_asc(cols, 5, 0, c.0 as int));
                assert(!taken_down(cols, 22 - rr as int, c.0 as int));
            }
            if present_v[c.0 as usize] {
                proof {
                    assert(present(cols, c.0 as int));
                    assert(down_stop(cols, sa, r as int) == r as int);
                    assert(dtop == down_pointer(cols));
                }
                break ;
            }
            present_v[c.0 as usize] = true;
            dtop = c;
            proof {
                assert(down_stop(cols, sa, r as int) == down_stop(cols, sa, r - 1));
                assert forall|oo: int| 0 <= oo < CARDS_COUNT as int implies ((oo == c.0 as int
                    || present_v@[oo]) == (present(cols, oo) || taken_asc(cols, 5, 0, oo)
                    || taken_down(cols, 21 - rr as int, oo))) by {
                    if oo != c.0 as int && taken_down(cols, 21 - rr as int, oo) && !taken_down(
                        cols,
                        22 - rr as int,
                        oo,
                    ) {
                        assert(ord_suit(oo) is Magic && ord_rank(oo) == r as int);
                        assert(oo == pack_ord(ord_suit(oo), ord_rank(oo)));
                        assert(false);
                    }
                }
            }
            rr += 1;
        }
        proof {
            assert forall|oo: int| 0 <= oo < CARDS_COUNT as int implies ((!present_v@[oo])
                == leftover(cols, oo)) by {
                if !present_v@[oo] {
                    crate::forced::lemma_rank_bounds(oo);
                    assert(!present(cols, oo) && !taken_asc(cols, 5, 0, oo) && !taken_down(
                        cols,
                        22 - rr as int,
                        oo,
                    ));
                    assert(ord_rank(oo) >= asc_stop_of(cols, ord_suit(oo)));
                    if ord_suit(oo) is Magic {
                        assert(ord_rank(oo) <= 21 - rr as int);
                        assert(ord_rank(oo) <= down_stop_of(cols));
                    }
                }
                if leftover(cols, oo) {
                    assert(!present(cols, oo));
                    assert(!taken_asc(cols, 5, 0, oo));
                    if taken_down(cols, 22 - rr as int, oo) {
                        assert(ord_rank(oo) > down_stop_of(cols));
                    }
                }
            }
        }

        // at most one card may wait in the freecell
        let mut freecell = C(FREEC_BYTE);
        let mut got_one = false;
        let mut o: usize = 0;
        while o < CARDS_COUNT as usize
            invariant
                cols == cols_view(tableau@),
                o <= CARDS_COUNT as usize,
                present_v@.len() == CARDS_COUNT as int,
                forall|oo: int|
                    0 <= oo < CARDS_COUNT as int ==> ((!(#[trigger] present_v@[oo])) == leftover(
                        cols,
                        oo,
                    )),
                got_one == (exists|oo: int| 0 <= oo < o && leftover(cols, oo)),
                got_one ==> leftover(cols, freecell.0 as int) && freecell.0 < o,
                !got_one ==> freecell.0 == FREEC_BYTE,
                forall|oo: int| 0 <= oo < o && leftover(cols, oo) ==> freecell.0 as int == oo,
            decreases CARDS_COUNT as int - o,
        {
            if !present_v[o] {
                proof {
                    assert(leftover(cols, o as int));
                }
                if got_one {
                    proof {
                        assert(leftover(cols, freecell.0 as int));
                        assert(leftover(cols, o as int));
                        assert(freecell.0 as int != o as int);
                        if at_most_one_leftover(cols) {
                            assert(freecell.0 as int == o as int);
                        }
                        assert(!constructible(cols));
                    }
                    return Err(());
                }
                freecell = C(o as u8);
                got_one = true;
            } else {
                proof {
                    assert(!leftover(cols, o as int));
                    if exists|oo: int| 0 <= oo < o + 1 && leftover(cols, oo) {
                        let w = choose|oo: int| 0 <= oo < o + 1 && leftover(cols, oo);
                        assert(w < o as int);
                        assert(exists|oo: int| 0 <= oo < o && leftover(cols, oo));
                    }
                }
            }
            o += 1;
        }

        // exposed column tops
        let mut tops: Vec<C> = Vec::new();
        let mut j: usize = 0;
        while j < 11
            invariant
                tableau@.len() == 11,
                cols == cols_view(tableau@),
                j <= 11,
                tops@.len() == j,
                forall|jj: int|
                    0 <= jj < j ==> tops@[jj] == (if cols[jj].len() == 0 {
                        C(TABLE_BYTE)
                    } else {
                        cols[jj].last()
                    }),
            decreases 11 - j,
        {
            let collen = tableau[j].len();
            if collen == 0 {
                tops.push(C(TABLE_BYTE));
            } else {
                tops.push(tableau[j][collen - 1]);
            }
            j += 1;
        }

        proof {
            assert(at_most_one_leftover(cols)) by {
                assert forall|o1: int, o2: int| leftover(cols, o1) && leftover(cols, o2) implies o1
                    == o2 by {}
            }
            lemma_asc_stop_bounds(cols, Suit::Wands, 2);
            lemma_asc_stop_bounds(cols, Suit::Stars, 2);
            lemma_asc_stop_bounds(cols, Suit::Swrds, 2);
            lemma_asc_stop_bounds(cols, Suit::Cuups, 2);
            lemma_asc_stop_bounds(cols, Suit::Magic, 0);
            assert forall|kk: int| 0 <= kk < 5 implies ((#[trigger] foundation@[kk]).0
                <= EVERY_HIGH && (foundation@[kk].0 <= CARDS_HIGH ==> ord_suit(
                foundation@[kk].0 as int,
            ) == suit_of_index(kk))) by {
                assert(foundation@[kk] == asc_pointer(cols, suit_of_index(kk)));
                if kk == 0 {
                } else if kk == 1 {
                } else if kk == 2 {
                } else if kk == 3 {
                } else {
                }
            }
            assert(dtop.0 <= EVERY_HIGH);
            assert(dtop.0 <= CARDS_HIGH ==> ord_suit(dtop.0 as int) is Magic);
            assert(freecell.0 <= CARDS_HIGH || freecell.0 == FREEC_BYTE);
        }
        let info = BoardInfo { tableau: tops, freecell, foundation, down_foundn: dtop };
        Ok(BoardLayout { tableau, info })
    }
}

// ---------------------------------------------------------------------
// Round-trip laws
// ---------------------------------------------------------------------

/// Law: the summary derived by the linear scan equals the summary embedded
/// in a column layout built independently from the same raw state.
pub proof fn lemma_frontier_paths_agree(i1: BoardInfo, i2: BoardInfo, s: Seq<C>)
    requires
        matches_derived(i1, s),
        matches_derived(i2, s),
    ensures
        i1.tableau@ == i2.tableau@,
        i1.freecell == i2.freecell,
        i1.foundation@ == i2.foundation@,
        i1.down_foundn == i2.down_foundn,
{
    assert(i1.foundation@ =~= i2.foundation@);
}

/// The columns the read path yields.
pub open spec fn read_cols(s: Seq<C>) -> Seq<Seq<C>> {
    Seq::new(11, |j: int| layout_column(s, j))
}

/// Each ascending foundation is a gapless pile from its suit's lowest
/// rank.
pub open spec fn asc_closed(s: Seq<C>) -> bool {
    forall|o1: int, o2: int|
        #![trigger s[o1], s[o2]]
        0 <= o1 < s.len() && 0 <= o2 < s.len() && ord_suit(o1) == ord_suit(o2) && ord_rank(o1)
            < ord_rank(o2) && s[o2].0 == FOUND_BYTE ==> s[o1].0 == FOUND_BYTE
}

/// The descending foundation is a gapless pile of major cards down from
/// the highest rank.
pub open spec fn down_closed(s: Seq<C>) -> bool {
    &&& forall|o: int|
        0 <= o < s.len() && (#[trigger] s[o]).0 == MAJHI_BYTE ==> ord_suit(o) is Magic
    &&& forall|o1: int, o2: int|
        #![trigger s[o1], s[o2]]
        0 <= o1 < s.len() && 0 <= o2 < s.len() && ord_suit(o1) is Magic && ord_suit(o2) is Magic
            && ord_rank(o1) > ord_rank(o2) && s[o2].0 == MAJHI_BYTE ==> s[o1].0 == MAJHI_BYTE
}

/// Every stacked card is reachable from some column bottom.
pub open spec fn tableau_reachable(s: Seq<C>) -> bool {
    forall|o: int|
        0 <= o < s.len() && (#[trigger] s[o]).0 <= CARDS_HIGH ==> exists|j: int|
            0 <= j < bases(s).len() && column_of(s, bases(s)[j]).contains(C(o as u8))
}

/// A raw state with no unplaced card: derivable, with gapless foundation
/// piles and every stacked card reachable from a column bottom.
pub open spec fn fully_placed(s: Seq<C>) -> bool {
    derivable(s) && asc_closed(s) && down_closed(s) && tableau_reachable(s)
}

/// The columns read off a derivable state never repeat a card.
pub proof fn lemma_read_columns_distinct(s: Seq<C>)
    requires
        derivable(s),
    ensures
        columns_distinct(read_cols(s)),
{
    let cols = read_cols(s);
    crate::state::lemma_bases_upto_props(s, s.len() as int);
    assert forall|j1: int, i1: int, j2: int, i2: int|
        0 <= j1 < cols.len() && 0 <= i1 < cols[j1].len() && 0 <= j2 < cols.len() && 0 <= i2
            < cols[j2].len() && (j1 != j2 || i1 != i2) implies #[trigger] cols[j1][i1]
        != #[trigger] cols[j2][i2] by {
        if cols[j1][i1] == cols[j2][i2] {
            assert(j1 < bases(s).len() && j2 < bases(s).len());
            crate::state::lemma_columns_share(s, bases(s)[j1], bases(s)[j2], i1, i2);
            assert(bases(s)[j1] == bases(s)[j2]);
            if j1 < j2 {
                assert(bases(s)[j1].0 < bases(s)[j2].0);
            }
            if j2 < j1 {
                assert(bases(s)[j2].0 < bases(s)[j1].0);
            }
            assert(false);
        }
    }
}

/// The tableau marking leaves, under the card at position `(j, i)`, the
/// value the write path assigns there.
proof fn lemma_tab_entry_lookup(cols: Seq<Seq<C>>, j: int, i: int)
    requires
        columns_distinct(cols),
        0 <= j < cols.len(),
        0 <= i < cols[j].len(),
    ensures
        tab_entry(cols, cols[j][i].0 as int) == (if i == 0 {
            C(TABLE_BYTE)
        } else {
            cols[j][i - 1]
        }),
{
    let o = cols[j][i].0 as int;
    assert(tab_mark_before(cols, cols.len() as int, 0, o)) by {
        assert(0 <= j < cols.len() && 0 <= i < cols[j].len() && (j < cols.len() as int || (j
            == cols.len() as int && i < 0)) && cols[j][i].0 as int == o);
    }
    let (j2, i2) = choose|jj: int, ii: int|
        0 <= jj < cols.len() && 0 <= ii < cols[jj].len() && (jj < cols.len() as int || (jj
            == cols.len() as int && ii < 0)) && cols[jj][ii].0 as int == o;
    lemma_position_unique(cols, j2, i2, j, i);
}

/// The write path's ascending and descending runs and freecell mark miss
/// card `o` when its entry names none of them.
proof fn lemma_not_in_runs(s: Seq<C>, o: int)
    requires
        fully_placed(s),
        0 <= o < s.len(),
        s[o].0 != FOUND_BYTE,
        s[o].0 != MAJHI_BYTE,
    ensures
        !in_asc_run(Seq::new(5, |k: int| fnd_upto(s, s.len() as int, suit_of_index(k))), o),
        !in_down_run(down_upto(s, s.len() as int), o),
{
    let n = s.len() as int;
    let fnds = Seq::new(5, |k: int| fnd_upto(s, n, suit_of_index(k)));
    let dfnd = down_upto(s, n);
    let su = ord_suit(o);
    let k = suit_index(su);
    crate::forced::lemma_rank_bounds(o);
    assert(suit_of_index(k) == su);
    crate::state::lemma_fnd_char(s, n, su);
    crate::state::lemma_down_char(s, n);
    if in_asc_run(fnds, o) {
        let ftop = fnds[k];
        assert(ftop == fnd_upto(s, n, su));
        assert(ftop.0 != NOCRD_BYTE);
        assert(s[ftop.0 as int].0 == FOUND_BYTE && ord_suit(ftop.0 as int) == su);
        if ord_rank(o) < ord_rank(ftop.0 as int) {
            assert(s[o].0 == FOUND_BYTE);
        } else {
            assert(ord_rank(o) == ord_rank(ftop.0 as int));
            assert(o == pack_ord(su, ord_rank(o)));
            assert(ftop.0 as int == pack_ord(su, ord_rank(ftop.0 as int)));
            assert(o == ftop.0 as int);
        }
        assert(false);
    }
    if in_down_run(dfnd, o) {
        assert(dfnd.0 != NOCRD_BYTE);
        assert(s[dfnd.0 as int].0 == MAJHI_BYTE);
        assert(ord_suit(dfnd.0 as int) is Magic);
        if ord_rank(o) > ord_rank(dfnd.0 as int) {
            assert(s[o].0 == MAJHI_BYTE);
        } else {
            assert(ord_rank(o) == ord_rank(dfnd.0 as int));
            assert(o == pack_ord(Suit::Magic, ord_rank(o)));
            assert(dfnd.0 as int == pack_ord(Suit::Magic, ord_rank(dfnd.0 as int)));
            assert(o == dfnd.0 as int);
        }
        assert(false);
    }
}

/// Law: writing back the layout read from a fully placed raw state
/// reproduces the state exactly.
pub proof fn lemma_read_write_identity(s: Seq<C>)
    requires
        fully_placed(s),
    ensures
        forall|o: int|
            0 <= o < s.len() ==> write_entry(
                read_cols(s),
                freecell_upto(s, s.len() as int),
                Seq::new(5, |k: int| fnd_upto(s, s.len() as int, suit_of_index(k))),
                down_upto(s, s.len() as int),
                o,
            ) == s[o],
{
    let cols = read_cols(s);
    let n = s.len() as int;
    let fc = freecell_upto(s, n);
    let fnds = Seq::new(5, |k: int| fnd_upto(s, n, suit_of_index(k)));
    let dfnd = down_upto(s, n);
    lemma_read_columns_distinct(s);
    crate::state::lemma_bases_upto_props(s, n);
    crate::state::lemma_freecell_char(s, n);
    crate::state::lemma_down_char(s, n);
    assert forall|o: int| 0 <= o < s.len() implies write_entry(cols, fc, fnds, dfnd, o)
        == s[o] by {
        let su = ord_suit(o);
        let k = suit_index(su);
        crate::forced::lemma_rank_bounds(o);
        assert(suit_of_index(k) == su);
        crate::state::lemma_fnd_char(s, n, su);
        if s[o].0 == MAJHI_BYTE {
            // `o` is in the descending run
            assert(dfnd.0 != NOCRD_BYTE) by {
                if dfnd.0 == NOCRD_BYTE {
                    assert(s[o].0 != MAJHI_BYTE);
                }
            }
            assert(ord_suit(o) is Magic);
            assert(ord_suit(dfnd.0 as int) is Magic);
            assert(dfnd.0 as int <= o) by {
                if o < dfnd.0 as int {
                    assert(s[o].0 != MAJHI_BYTE);
                }
            }
            assert(ord_rank(o) >= ord_rank(dfnd.0 as int));
            assert(in_down_run(dfnd, o));
        } else if s[o].0 == FOUND_BYTE {
            // `o` is in its suit's ascending run and not in the descending one
            let ftop = fnds[k];
            assert(ftop == fnd_upto(s, n, su));
            assert(ftop.0 != NOCRD_BYTE) by {
                if ftop.0 == NOCRD_BYTE {
                    assert(!(s[o].0 == FOUND_BYTE && ord_suit(o) == su));
                }
            }
            assert(o <= ftop.0 as int) by {
                if ftop.0 < o {
                    assert(!(s[o].0 == FOUND_BYTE && ord_suit(o) == su));
                }
            }
            assert(ord_suit(ftop.0 as int) == su);
            assert(ord_rank(o) <= ord_rank(ftop.0 as int));
            assert(in_asc_run(fnds, o));
            assert(!in_down_run(dfnd, o)) by {
                if in_down_run(dfnd, o) {
                    assert(s[dfnd.0 as int].0 == MAJHI_BYTE);
                    assert(ord_suit(dfnd.0 as int) is Magic);
                    if ord_rank(o) > ord_rank(dfnd.0 as int) {
                        assert(s[o].0 == MAJHI_BYTE);
                    } else {
                        assert(o == pack_ord(Suit::Magic, ord_rank(o)));
                        assert(dfnd.0 as int == pack_ord(Suit::Magic, ord_rank(dfnd.0 as int)));
                        assert(o == dfnd.0 as int);
                    }
                    assert(false);
                }
            }
        } else if s[o].0 == FREEC_BYTE {
            // `o` rests in the freecell
            lemma_not_in_runs(s, o);
            assert(fc.0 != FREEC_BYTE) by {
                if fc.0 == FREEC_BYTE {
                    assert(s[o].0 != FREEC_BYTE);
                }
            }
            assert(s[fc.0 as int].0 == FREEC_BYTE);
            assert(fc.0 as int == o) by {
                if fc.0 as int != o {
                    assert(!(s[fc.0 as int].0 == FREEC_BYTE && s[o].0 == FREEC_BYTE));
                }
            }
        } else if s[o].0 == TABLE_BYTE {
            // `o` is a column bottom
            lemma_not_in_runs(s, o);
            let jb = choose|j: int| 0 <= j < bases(s).len() && (#[trigger] bases(s)[j]).0 as int
                == o;
            assert(0 <= jb < bases(s).len() && bases(s)[jb].0 as int == o);
            assert(bases(s).len() <= 11);
            crate::state::lemma_column_props(s, bases(s)[jb]);
            assert(cols[jb] == column_of(s, bases(s)[jb]));
            assert(cols[jb][0] == bases(s)[jb]);
            assert(cols[jb][0].0 as int == o);
            lemma_tab_entry_lookup(cols, jb, 0);
            assert(fc.0 as int != o) by {
                if fc.0 as int == o {
                    assert(fc.0 != FREEC_BYTE);
                    assert(s[fc.0 as int].0 == FREEC_BYTE);
                }
            }
            assert(write_entry(cols, fc, fnds, dfnd, o) == C(TABLE_BYTE));
            assert(s[o] == C(TABLE_BYTE));
        } else {
            // `o` rests on another card in some column
            assert(s[o].0 <= CARDS_HIGH) by {
                assert(s[o].0 <= EVERY_HIGH);
                assert(s[o].0 != NOCRD_BYTE);
            }
            lemma_not_in_runs(s, o);
            let j = choose|j: int|
                0 <= j < bases(s).len() && column_of(s, bases(s)[j]).contains(C(o as u8));
            let col = column_of(s, bases(s)[j]);
            let i = choose|i: int| 0 <= i < col.len() && col[i] == C(o as u8);
            assert(0 <= i < col.len() && col[i] == C(o as u8));
            crate::state::lemma_column_props(s, bases(s)[j]);
            assert(i >= 1) by {
                if i == 0 {
                    assert(col[0] == bases(s)[j]);
                    assert(s[o].0 == TABLE_BYTE);
                }
            }
            assert(s[col[i].0 as int] == col[i - 1]);
            assert(cols[j] == col);
            lemma_tab_entry_lookup(cols, j, i);
            assert(fc.0 as int != o) by {
                if fc.0 as int == o {
                    assert(fc.0 != FREEC_BYTE);
                    assert(s[fc.0 as int].0 == FREEC_BYTE);
                }
            }
            assert(write_entry(cols, fc, fnds, dfnd, o) == col[i - 1]);
        }
    }
}

} // verus!
