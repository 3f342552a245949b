use tarot_patience::card::{C, CARDS_BASE, CARDS_HIGH, FOUND_BYTE, FREEC_BYTE, MAGIC_HIGH,
    MAJHI_BYTE, NOCRD_BYTE, TABLE_BYTE};
use tarot_patience::state::{Board, BoardInfo, BoardState};
use tarot_patience::layout::BoardLayout;

#[test]
fn default_boardinfo_correct() {
    let board = Board::default();
    let dbi: BoardInfo = board.info;
    let dsi: BoardInfo = BoardInfo::from_state(&board.state);

    assert_eq!(dbi, dsi);
}

/// Eleven columns: the given cards in the first, the rest empty.
fn one_column(cards: Vec<C>) -> Vec<Vec<C>> {
    let mut cols = vec![cards];
    for _ in 0..10 {
        cols.push(Vec::new());
    }
    cols
}

#[test]
fn empty_columns_are_the_won_board() {
    // eleven empty columns round-trip to all five ascending foundations at
    // their top ranks, descending foundation empty, freecell empty
    let layout = BoardLayout::from_columns(one_column(Vec::new())).expect("construction error");
    assert_eq!(layout.info, BoardInfo::default());
    let board = layout.into_board();
    assert_eq!(board.state, BoardState::default());
    assert!(board == Board::default());
}

#[test]
fn lone_world_card_is_won_in_one_call() {
    // one column holding the single highest major card, all else at rest,
    // becomes fully won after one automaton call
    let layout =
        BoardLayout::from_columns(one_column(vec![C(MAGIC_HIGH)])).expect("construction error");
    let mut board = layout.into_board();
    assert_eq!(board.info.tableau[0], C(MAGIC_HIGH));
    assert_eq!(board.state.cards[MAGIC_HIGH as usize], C(TABLE_BYTE));
    board.apply_forced();
    for j in 0..11 {
        assert_eq!(board.info.tableau[j], C(TABLE_BYTE));
    }
    assert_eq!(board.info.foundation[4], C(MAGIC_HIGH));
    assert_eq!(board.info.freecell, C(FREEC_BYTE));
    // the raw state was updated in lockstep: the scored card now carries
    // the ascending sentinel and the board equals the won board
    assert_eq!(board.state.cards[MAGIC_HIGH as usize], C(FOUND_BYTE));
    assert_eq!(board.state, BoardState::default());
    // the summary re-derived from the updated state matches the one the
    // automaton maintained
    assert_eq!(BoardInfo::from_state(&board.state), board.info);
}

#[test]
fn chain_run_clears_a_column_in_one_call() {
    // the top major card goes to the empty descending foundation, and the
    // freshly exposed one follows it down in the same retry chain
    let layout = BoardLayout::from_columns(one_column(vec![C(MAGIC_HIGH - 1), C(MAGIC_HIGH)]))
        .expect("construction error");
    let mut board = layout.into_board();
    assert_eq!(board.info.foundation[4], C(MAGIC_HIGH - 2));
    board.apply_forced();
    assert_eq!(board.info.tableau[0], C(TABLE_BYTE));
    assert_eq!(board.info.foundation[4], C(MAGIC_HIGH - 2));
    assert_eq!(board.info.down_foundn, C(MAGIC_HIGH - 1));
    // both scored cards carry the descending sentinel in the raw state
    assert_eq!(board.state.cards[MAGIC_HIGH as usize], C(MAJHI_BYTE));
    assert_eq!(board.state.cards[(MAGIC_HIGH - 1) as usize], C(MAJHI_BYTE));
    // an unmoved card's entry is unchanged
    assert_eq!(board.state.cards[0], C(FOUND_BYTE));
}

#[test]
fn automaton_is_idempotent() {
    let s = "05 07 2$ 8| T! 3* 8$
18 20 9* 03 K| 2! 01
16 09 9| 4* 3! 15 11
K$ 6* 5$ T* 5* 4! 5|
Q* 6$ J! 14 5! 00 8!

6| Q| 7* 4$ 2| 7! 12
06 02 K* 3| 04 3$ 7|
2* 19 13 T| T$ 4| 10
J| 21 7$ Q$ J* 6! 9!
9$ 17 K! J$ Q! 8* 08";
    let layout = BoardLayout::from_str(s).expect("parse error");
    let mut board = layout.into_board();
    board.apply_forced();
    let once_state = board.state.clone();
    let once_info = board.info.clone();
    board.apply_forced();
    assert_eq!(board.state, once_state);
    assert_eq!(board.info, once_info);
}

#[test]
fn frontier_paths_agree() {
    // the linear-scan summary equals the one embedded in the layout built
    // from the same raw state
    let s = "05 07 2$ 8| T! 3* 8$
18 20 9* 03 K| 2! 01
16 09 4* 3! 15 11
K$ 6* 5$ T* 5* 4! 5|
Q* 6$ J! 14 5! 00 8!

6| Q| 7* 4$ 2| 7! 12
06 02 K* 3| 04 3$ 7|
2* 19 13 T| T$ 4| 10
J| 21 7$ Q$ J* 6! 9!
9$ 17 K! J$ Q! 8* 08";
    let board = BoardLayout::from_str(s).expect("parse error").into_board();
    let scan = BoardInfo::from_state(&board.state);
    let embedded = BoardLayout::from_state(&board.state).info;
    assert_eq!(scan, embedded);
}

#[test]
fn state_layout_board_roundtrip() {
    // raw state -> column layout -> board reproduces the raw state
    let s = "05 07 2$ 8| T! 3* 8$
18 20 9* 03 K| 2! 01
16 09 9| 4* 3! 15 11
K$ 6* 5$ T* 5* 4! 5|
Q* 6$ J! 14 5! 00 8!

6| Q| 7* 4$ 2| 7! 12
06 02 K* 3| 04 3$ 7|
2* 19 13 T| T$ 4| 10
J| 21 7$ Q$ J* 6! 9!
9$ 17 K! J$ Q! 8* 08";
    let board = BoardLayout::from_str(s).expect("parse error").into_board();
    let again = BoardLayout::from_state(&board.state).into_board();
    assert_eq!(again.state, board.state);
    assert!(again == board);
}

#[test]
fn two_leftover_cards_fail_construction() {
    // columns holding every card except two non-run cards leave two cards
    // with nowhere to rest
    let mut cards: Vec<C> = Vec::new();
    for o in CARDS_BASE..=CARDS_HIGH {
        // leave out the five and the nine of the first suit
        if o != 3 && o != 7 {
            cards.push(C(o));
        }
    }
    let mut cols: Vec<Vec<C>> = Vec::new();
    for chunk in cards.chunks(7) {
        cols.push(chunk.to_vec());
    }
    while cols.len() < 11 {
        cols.push(Vec::new());
    }
    while cols.len() > 11 {
        let extra = cols.pop().unwrap();
        cols[0].extend(extra);
    }
    assert!(BoardLayout::from_columns(cols).is_err());
}

#[test]
fn freecell_card_is_never_auto_scored() {
    // a card resting in the freecell stays there even when it could score
    let mut cards: Vec<C> = Vec::new();
    for o in CARDS_BASE..=CARDS_HIGH {
        // the three of the first suit waits in the freecell: its two is
        // buried, so it was not drawn into the ascending run
        if o != 1 {
            cards.push(C(o));
        }
    }
    let mut cols: Vec<Vec<C>> = vec![cards];
    for _ in 0..10 {
        cols.push(Vec::new());
    }
    let layout = BoardLayout::from_columns(cols).expect("construction error");
    assert_eq!(layout.info.freecell, C(1));
    let mut board = layout.into_board();
    board.apply_forced();
    assert_eq!(board.info.freecell, C(1));
    assert_eq!(board.info.foundation[0], C(NOCRD_BYTE));
    assert_eq!(board.state.cards[1], C(FREEC_BYTE));
}

#[test]
fn board_identity_ignores_the_summary() {
    // two boards with one raw state compare equal whatever their summaries
    let a = Board::default();
    let mut b = Board::default();
    b.info.down_foundn = C(MAGIC_HIGH);
    assert!(a == b);
    let mut c = Board::default();
    c.state.cards[0] = C(FOUND_BYTE);
    c.state.cards[0] = C(TABLE_BYTE);
    assert!(a != c);
}

#[test]
fn board_order_follows_the_state() {
    let a = Board::default();
    let mut b = Board::default();
    // a column-bottom mark sorts below a foundation mark
    b.state.cards[0] = C(TABLE_BYTE);
    assert!(b < a);
    assert!(a > b);
    let c = Board::default();
    assert_eq!(a.partial_cmp(&c), Some(std::cmp::Ordering::Equal));
}
