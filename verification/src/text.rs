//! Text codec: compact human-typeable tokens for cards, suits and zone
//! sentinels, and the whole-board text form.
//!
//! Each minor suit has a punctuation glyph and a letter; the major suit
//! has a blank glyph (absence is meaningful) and a dedicated letter.
//! Parsing scans case-insensitively for distinguishing characters and
//! succeeds only when exactly one suit is indicated; no indication at all
//! names the major suit.  Ranks are two-digit zero-padded decimals or the
//! face letters, recognised the same presence-based way.

use vstd::prelude::*;
use crate::card::{C, Suit, CardInfo};
use crate::card::{CARDS_HIGH, EVERY_HIGH, TABLE_BYTE, FREEC_BYTE, FOUND_BYTE, MAJHI_BYTE,
    NOCRD_BYTE};
use crate::card::{is_card_ord, ord_rank, ord_suit, pack_ord, suit_min_rank, suit_max_rank};

verus! {

// ---------------------------------------------------------------------
// Character helpers
// ---------------------------------------------------------------------

/// The string holds character `c` somewhere.
pub open spec fn has_char(s: Seq<char>, c: char) -> bool {
    exists|i: int| 0 <= i < s.len() && s[i] == c
}

/// The string holds `a` or `b` somewhere: one case-insensitive letter.
pub open spec fn has_either(s: Seq<char>, a: char, b: char) -> bool {
    has_char(s, a) || has_char(s, b)
}

pub open spec fn is_digit_char(c: char) -> bool {
    c == '0' || c == '1' || c == '2' || c == '3' || c == '4' || c == '5' || c == '6' || c == '7'
        || c == '8' || c == '9'
}

pub open spec fn digit_val(c: char) -> int {
    if c == '0' {
        0
    } else if c == '1' {
        1
    } else if c == '2' {
        2
    } else if c == '3' {
        3
    } else if c == '4' {
        4
    } else if c == '5' {
        5
    } else if c == '6' {
        6
    } else if c == '7' {
        7
    } else if c == '8' {
        8
    } else {
        9
    }
}

pub open spec fn digit_of(d: int) -> char {
    if d == 0 {
        '0'
    } else if d == 1 {
        '1'
    } else if d == 2 {
        '2'
    } else if d == 3 {
        '3'
    } else if d == 4 {
        '4'
    } else if d == 5 {
        '5'
    } else if d == 6 {
        '6'
    } else if d == 7 {
        '7'
    } else if d == 8 {
        '8'
    } else {
        '9'
    }
}

/// Whether the string holds character `c`.
pub fn contains_char(s: &str, c: char) -> (b: bool)
    ensures
        b == has_char(s@, c),
{
    let n = s.unicode_len();
    let mut i: usize = 0;
    while i < n
        invariant
            n == s@.len(),
            i <= n,
            forall|k: int| 0 <= k < i ==> s@[k] != c,
        decreases n - i,
    {
        if s.get_char(i) == c {
            return true;
        }
        i += 1;
    }
    false
}

/// Whether the string holds `a` or `b`.
pub fn contains_either(s: &str, a: char, b: char) -> (r: bool)
    ensures
        r == has_either(s@, a, b),
{
    contains_char(s, a) || contains_char(s, b)
}

// ---------------------------------------------------------------------
// Suit tokens
// ---------------------------------------------------------------------

/// The distinguishing glyph of each suit, blank for the major suit.
pub open spec fn glyph_lower(su: Suit) -> Seq<char> {
    match su {
        Suit::Wands => seq!['|'],
        Suit::Stars => seq!['*'],
        Suit::Swrds => seq!['!'],
        Suit::Cuups => seq!['$'],
        Suit::Magic => Seq::empty(),
    }
}

/// The glyph of each suit with the major suit spelled out.
pub open spec fn glyph_upper(su: Suit) -> Seq<char> {
    if su is Magic {
        seq!['@']
    } else {
        glyph_lower(su)
    }
}

/// The distinguishing letter of each suit, blank for the major suit.
pub open spec fn letter_lower(su: Suit) -> Seq<char> {
    match su {
        Suit::Wands => seq!['W'],
        Suit::Stars => seq!['P'],
        Suit::Swrds => seq!['X'],
        Suit::Cuups => seq!['C'],
        Suit::Magic => Seq::empty(),
    }
}

/// The letter of each suit with the major suit spelled out.
pub open spec fn letter_upper(su: Suit) -> Seq<char> {
    if su is Magic {
        seq!['M']
    } else {
        letter_lower(su)
    }
}

/// Whether the token indicates each suit, by glyph or by letter of either
/// case.
pub open spec fn suit_flag(s: Seq<char>, su: Suit) -> bool {
    match su {
        Suit::Wands => has_char(s, '|') || has_either(s, 'W', 'w'),
        Suit::Stars => has_char(s, '*') || has_either(s, 'P', 'p'),
        Suit::Swrds => has_char(s, '!') || has_either(s, 'X', 'x'),
        Suit::Cuups => has_char(s, '$') || has_either(s, 'C', 'c'),
        Suit::Magic => has_char(s, '@') || has_either(s, 'M', 'm'),
    }
}

pub open spec fn count_flag(b: bool) -> int {
    if b {
        1
    } else {
        0
    }
}

/// How many suits the token indicates.
pub open spec fn suit_flag_count(s: Seq<char>) -> int {
    count_flag(suit_flag(s, Suit::Wands)) + count_flag(suit_flag(s, Suit::Stars)) + count_flag(
        suit_flag(s, Suit::Swrds),
    ) + count_flag(suit_flag(s, Suit::Cuups)) + count_flag(suit_flag(s, Suit::Magic))
}

/// The suit a token names: exactly one indicated suit, or the major suit
/// when none is indicated at all.
pub open spec fn parse_suit(s: Seq<char>) -> Option<Suit> {
    if suit_flag_count(s) == 0 {
        Some(Suit::Magic)
    } else if suit_flag_count(s) != 1 {
        None
    } else if suit_flag(s, Suit::Wands) {
        Some(Suit::Wands)
    } else if suit_flag(s, Suit::Stars) {
        Some(Suit::Stars)
    } else if suit_flag(s, Suit::Swrds) {
        Some(Suit::Swrds)
    } else if suit_flag(s, Suit::Cuups) {
        Some(Suit::Cuups)
    } else {
        Some(Suit::Magic)
    }
}

impl Suit {
    /// The compact glyph form.
    pub fn lower_hex(&self) -> (r: String)
        ensures
            r@ == glyph_lower(*self),
    {
        match self {
            Suit::Wands => {
                let s = String::from_str("|");
                proof {
                    reveal_strlit("|");
                    assert(s@ =~= seq!['|']);
                }
                s
            },
            Suit::Stars => {
                let s = String::from_str("*");
                proof {
                    reveal_strlit("*");
                    assert(s@ =~= seq!['*']);
                }
                s
            },
            Suit::Swrds => {
                let s = String::from_str("!");
                proof {
                    reveal_strlit("!");
                    assert(s@ =~= seq!['!']);
                }
                s
            },
            Suit::Cuups => {
                let s = String::from_str("$");
                proof {
                    reveal_strlit("$");
                    assert(s@ =~= seq!['$']);
                }
                s
            },
            Suit::Magic => {
                let s = String::new();
                proof {
                    assert(s@ =~= Seq::<char>::empty());
                }
                s
            },
        }
    }

    /// The glyph form with the major suit spelled out.
    pub fn upper_hex(&self) -> (r: String)
        ensures
            r@ == glyph_upper(*self),
    {
        match self {
            Suit::Magic => {
                let s = String::from_str("@");
                proof {
                    reveal_strlit("@");
                    assert(s@ =~= seq!['@']);
                }
                s
            },
            _ => self.lower_hex(),
        }
    }

    /// The compact letter form.
    pub fn lower_exp(&self) -> (r: String)
        ensures
            r@ == letter_lower(*self),
    {
        match self {
            Suit::Wands => {
                let s = String::from_str("W");
                proof {
                    reveal_strlit("W");
                    assert(s@ =~= seq!['W']);
                }
                s
            },
            Suit::Stars => {
                let s = String::from_str("P");
                proof {
                    reveal_strlit("P");
                    assert(s@ =~= seq!['P']);
                }
                s
            },
            Suit::Swrds => {
                let s = String::from_str("X");
                proof {
                    reveal_strlit("X");
                    assert(s@ =~= seq!['X']);
                }
                s
            },
            Suit::Cuups => {
                let s = String::from_str("C");
                proof {
                    reveal_strlit("C");
                    assert(s@ =~= seq!['C']);
                }
                s
            },
            Suit::Magic => {
                let s = String::new();
                proof {
                    assert(s@ =~= Seq::<char>::empty());
                }
                s
            },
        }
    }

    /// The letter form with the major suit spelled out.
    pub fn upper_exp(&self) -> (r: String)
        ensures
            r@ == letter_upper(*self),
    {
        match self {
            Suit::Magic => {
                let s = String::from_str("M");
                proof {
                    reveal_strlit("M");
                    assert(s@ =~= seq!['M']);
                }
                s
            },
            _ => self.lower_exp(),
        }
    }

    /// The canonical display form: the compact glyph form.
    pub fn display(&self) -> (r: String)
        ensures
            r@ == glyph_lower(*self),
    {
        self.lower_hex()
    }

    /// Parses a suit token: case-insensitive, succeeding when exactly one
    /// suit is indicated; no indication at all names the major suit.
    pub fn from_str(s: &str) -> (r: Result<Suit, ()>)
        ensures
            match parse_suit(s@) {
                Option::Some(su) => r == Result::<Suit, ()>::Ok(su),
                Option::None => r is Err,
            },
    {
        let is_wands = contains_char(s, '|') || contains_either(s, 'W', 'w');
        let is_stars = contains_char(s, '*') || contains_either(s, 'P', 'p');
        let is_swrds = contains_char(s, '!') || contains_either(s, 'X', 'x');
        let is_cuups = contains_char(s, '$') || contains_either(s, 'C', 'c');
        let is_magic = contains_char(s, '@') || contains_either(s, 'M', 'm');

        let num_matches: u32 = is_wands as u32 + is_stars as u32 + is_swrds as u32 + is_cuups
            as u32 + is_magic as u32;
        if num_matches == 0 {
            Ok(Suit::Magic)
        } else if num_matches == 1 {
            if is_wands {
                Ok(Suit::Wands)
            } else if is_stars {
                Ok(Suit::Stars)
            } else if is_swrds {
                Ok(Suit::Swrds)
            } else if is_cuups {
                Ok(Suit::Cuups)
            } else {
                Ok(Suit::Magic)
            }
        } else {
            Err(())
        }
    }
}

// ---------------------------------------------------------------------
// Rank tokens
// ---------------------------------------------------------------------

/// The single-character form of a rank: a digit, or a face letter.
pub open spec fn shortrank_char(r: int) -> char {
    if r <= 9 {
        digit_of(r)
    } else if r == 10 {
        'T'
    } else if r == 11 {
        'J'
    } else if r == 12 {
        'Q'
    } else {
        'K'
    }
}

/// Two-digit zero-padded decimal.
pub open spec fn dec2(r: int) -> Seq<char> {
    seq![digit_of(r / 10), digit_of(r % 10)]
}

/// Unpadded decimal of a rank up to 99.
pub open spec fn dec(r: int) -> Seq<char> {
    if r < 10 {
        seq![digit_of(r)]
    } else {
        dec2(r)
    }
}

/// Whether the token indicates each face rank, by letter of either case.
pub open spec fn face_flag(s: Seq<char>, r: int) -> bool {
    if r == 1 {
        has_either(s, 'A', 'a')
    } else if r == 10 {
        has_either(s, 'T', 't')
    } else if r == 11 {
        has_either(s, 'J', 'j')
    } else if r == 12 {
        has_either(s, 'Q', 'q')
    } else {
        has_either(s, 'K', 'k')
    }
}

pub open spec fn face_flag_count(s: Seq<char>) -> int {
    count_flag(face_flag(s, 1)) + count_flag(face_flag(s, 10)) + count_flag(face_flag(s, 11))
        + count_flag(face_flag(s, 12)) + count_flag(face_flag(s, 13))
}

/// The face rank a token names, when exactly one is indicated.
pub open spec fn parse_face(s: Seq<char>) -> Option<u8> {
    if face_flag_count(s) != 1 {
        None
    } else if face_flag(s, 1) {
        Some(1u8)
    } else if face_flag(s, 10) {
        Some(10u8)
    } else if face_flag(s, 11) {
        Some(11u8)
    } else if face_flag(s, 12) {
        Some(12u8)
    } else {
        Some(13u8)
    }
}

/// Index of the first digit at or after `i`, or the length when none is.
pub open spec fn first_digit(s: Seq<char>, i: int) -> int
    decreases s.len() - i
        when 0 <= i <= s.len()
{
    if i >= s.len() {
        s.len() as int
    } else if is_digit_char(s[i]) {
        i
    } else {
        first_digit(s, i + 1)
    }
}

/// Index of the last digit at or before `i`, or `-1` when none is.
pub open spec fn last_digit(s: Seq<char>, i: int) -> int
    decreases i + 1
        when -1 <= i < s.len()
{
    if i < 0 {
        -1
    } else if is_digit_char(s[i]) {
        i
    } else {
        last_digit(s, i - 1)
    }
}

/// The decimal value of `s[lo ..= hi]`, continuing from `acc`: every
/// character must be a digit and the value must fit in a byte.
pub open spec fn digits_value(s: Seq<char>, lo: int, hi: int, acc: int) -> Option<int>
    decreases hi + 1 - lo
        when lo <= hi + 1
{
    if lo > hi {
        Some(acc)
    } else if !is_digit_char(s[lo]) {
        None
    } else if acc * 10 + digit_val(s[lo]) > 255 {
        None
    } else {
        digits_value(s, lo + 1, hi, acc * 10 + digit_val(s[lo]))
    }
}

/// The rank named by the longest contiguous digit run: the slice from the
/// first to the last digit, read as a decimal byte.
pub open spec fn parse_rank_digits(s: Seq<char>) -> Option<u8> {
    let lo = first_digit(s, 0);
    if lo == s.len() {
        None
    } else {
        let hi = last_digit(s, s.len() - 1);
        match digits_value(s, lo, hi, 0) {
            Some(v) => Some(v as u8),
            None => None,
        }
    }
}

/// A single digit as text.
fn digit_str(d: u8) -> (r: String)
    requires
        d <= 9,
    ensures
        r@ == seq![digit_of(d as int)],
{
    if d == 0 {
        let s = String::from_str("0");
        proof {
            reveal_strlit("0");
            assert(s@ =~= seq!['0']);
        }
        s
    } else if d == 1 {
        let s = String::from_str("1");
        proof {
            reveal_strlit("1");
            assert(s@ =~= seq!['1']);
        }
        s
    } else if d == 2 {
        let s = String::from_str("2");
        proof {
            reveal_strlit("2");
            assert(s@ =~= seq!['2']);
        }
        s
    } else if d == 3 {
        let s = String::from_str("3");
        proof {
            reveal_strlit("3");
            assert(s@ =~= seq!['3']);
        }
        s
    } else if d == 4 {
        let s = String::from_str("4");
        proof {
            reveal_strlit("4");
            assert(s@ =~= seq!['4']);
        }
        s
    } else if d == 5 {
        let s = String::from_str("5");
        proof {
            reveal_strlit("5");
            assert(s@ =~= seq!['5']);
        }
        s
    } else if d == 6 {
        let s = String::from_str("6");
        proof {
            reveal_strlit("6");
            assert(s@ =~= seq!['6']);
        }
        s
    } else if d == 7 {
        let s = String::from_str("7");
        proof {
            reveal_strlit("7");
            assert(s@ =~= seq!['7']);
        }
        s
    } else if d == 8 {
        let s = String::from_str("8");
        proof {
            reveal_strlit("8");
            assert(s@ =~= seq!['8']);
        }
        s
    } else {
        let s = String::from_str("9");
        proof {
            reveal_strlit("9");
            assert(s@ =~= seq!['9']);
        }
        s
    }
}

/// The single-character form of a rank up to the king.
pub fn fmt_shortrank(rank: u8) -> (r: String)
    requires
        rank <= 13,
    ensures
        r@ == seq![shortrank_char(rank as int)],
{
    if rank <= 9 {
        digit_str(rank)
    } else if rank == 10 {
        let s = String::from_str("T");
        proof {
            reveal_strlit("T");
            assert(s@ =~= seq!['T']);
        }
        s
    } else if rank == 11 {
        let s = String::from_str("J");
        proof {
            reveal_strlit("J");
            assert(s@ =~= seq!['J']);
        }
        s
    } else if rank == 12 {
        let s = String::from_str("Q");
        proof {
            reveal_strlit("Q");
            assert(s@ =~= seq!['Q']);
        }
        s
    } else {
        let s = String::from_str("K");
        proof {
            reveal_strlit("K");
            assert(s@ =~= seq!['K']);
        }
        s
    }
}

/// Two-digit zero-padded decimal of a rank up to 99.
fn fmt_dec2(rank: u8) -> (r: String)
    requires
        rank <= 99,
    ensures
        r@ == dec2(rank as int),
{
    let mut s = digit_str(rank / 10);
    let lo = digit_str(rank % 10);
    s.append(lo.as_str());
    proof {
        assert(s@ =~= dec2(rank as int));
    }
    s
}

/// Unpadded decimal of a rank up to 99.
fn fmt_dec(rank: u8) -> (r: String)
    requires
        rank <= 99,
    ensures
        r@ == dec(rank as int),
{
    if rank < 10 {
        digit_str(rank)
    } else {
        fmt_dec2(rank)
    }
}

/// Parses a face-letter rank token, case-insensitively, succeeding when
/// exactly one face letter is present.
pub fn from_shortrank_special(s: &str) -> (r: Result<u8, ()>)
    ensures
        match parse_face(s@) {
            Option::Some(v) => r == Result::<u8, ()>::Ok(v),
            Option::None => r is Err,
        },
{
    let is_ace = contains_either(s, 'A', 'a');
    let is_ten = contains_either(s, 'T', 't');
    let is_jack = contains_either(s, 'J', 'j');
    let is_queen = contains_either(s, 'Q', 'q');
    let is_king = contains_either(s, 'K', 'k');

    let num_matches: u32 = is_ace as u32 + is_ten as u32 + is_jack as u32 + is_queen as u32
        + is_king as u32;
    if num_matches == 1 {
        if is_ace {
            Ok(1)
        } else if is_ten {
            Ok(10)
        } else if is_jack {
            Ok(11)
        } else if is_queen {
            Ok(12)
        } else {
            Ok(13)
        }
    } else {
        Err(())
    }
}

/// The digit value of a character, if it is a digit.
fn digit_of_char(c: char) -> (r: Option<u8>)
    ensures
        is_digit_char(c) ==> r == Some(digit_val(c) as u8),
        !is_digit_char(c) ==> r is None,
{
    match c {
        '0' => Some(0),
        '1' => Some(1),
        '2' => Some(2),
        '3' => Some(3),
        '4' => Some(4),
        '5' => Some(5),
        '6' => Some(6),
        '7' => Some(7),
        '8' => Some(8),
        '9' => Some(9),
        _ => None,
    }
}

/// Parses the contiguous digit run between the first and last digit of
/// the token as a decimal rank.
pub fn from_rank(s: &str) -> (r: Result<u8, ()>)
    ensures
        match parse_rank_digits(s@) {
            Option::Some(v) => r == Result::<u8, ()>::Ok(v),
            Option::None => r is Err,
        },
{
    let n = s.unicode_len();
    let mut lo: usize = 0;
    while lo < n && digit_of_char(s.get_char(lo)).is_none()
        invariant
            n == s@.len(),
            lo <= n,
            first_digit(s@, 0) == first_digit(s@, lo as int),
        decreases n - lo,
    {
        lo += 1;
    }
    if lo == n {
        return Err(());
    }
    let mut hi: usize = n - 1;
    while digit_of_char(s.get_char(hi)).is_none()
        invariant
            n == s@.len(),
            lo < n,
            hi < n,
            is_digit_char(s@[lo as int]),
            lo <= hi,
            last_digit(s@, n - 1) == last_digit(s@, hi as int),
        decreases hi,
    {
        hi -= 1;
    }
    let mut acc: u32 = 0;
    let mut i: usize = lo;
    while i <= hi
        invariant
            n == s@.len(),
            lo <= i <= hi + 1,
            hi < n,
            lo < n,
            first_digit(s@, 0) == lo as int,
            last_digit(s@, n - 1) == hi as int,
            acc <= 255,
            digits_value(s@, lo as int, hi as int, 0) == digits_value(s@, i as int, hi as int, acc as int),
        decreases hi + 1 - i,
    {
        match digit_of_char(s.get_char(i)) {
            None => {
                return Err(());
            },
            Some(d) => {
                let next: u32 = acc * 10 + d as u32;
                if next > 255 {
                    return Err(());
                }
                acc = next;
            },
        }
        i += 1;
    }
    Ok(acc as u8)
}

// ---------------------------------------------------------------------
// Zone-sentinel tokens
// ---------------------------------------------------------------------

/// The two-character form of each zone sentinel.
pub open spec fn noncard_str(o: int) -> Seq<char> {
    if o == TABLE_BYTE as int {
        seq!['-', '-']
    } else if o == FREEC_BYTE as int {
        seq!['F', 'F']
    } else if o == FOUND_BYTE as int {
        seq!['v', 'v']
    } else if o == MAJHI_BYTE as int {
        seq!['^', '^']
    } else {
        seq!['.', '.']
    }
}

/// Whether the token indicates each zone sentinel.
pub open spec fn noncard_flag(s: Seq<char>, o: int) -> bool {
    if o == TABLE_BYTE as int {
        has_char(s, '-')
    } else if o == FREEC_BYTE as int {
        has_either(s, 'F', 'f')
    } else if o == FOUND_BYTE as int {
        has_either(s, 'V', 'v')
    } else if o == MAJHI_BYTE as int {
        has_char(s, '^')
    } else {
        has_char(s, '.')
    }
}

pub open spec fn noncard_flag_count(s: Seq<char>) -> int {
    count_flag(noncard_flag(s, TABLE_BYTE as int)) + count_flag(noncard_flag(s, FREEC_BYTE as int))
        + count_flag(noncard_flag(s, FOUND_BYTE as int)) + count_flag(
        noncard_flag(s, MAJHI_BYTE as int),
    ) + count_flag(noncard_flag(s, NOCRD_BYTE as int))
}

/// The zone sentinel a token names, when exactly one is indicated.
pub open spec fn parse_noncard(s: Seq<char>) -> Option<C> {
    if noncard_flag_count(s) != 1 {
        None
    } else if noncard_flag(s, TABLE_BYTE as int) {
        Some(C(TABLE_BYTE))
    } else if noncard_flag(s, FREEC_BYTE as int) {
        Some(C(FREEC_BYTE))
    } else if noncard_flag(s, FOUND_BYTE as int) {
        Some(C(FOUND_BYTE))
    } else if noncard_flag(s, MAJHI_BYTE as int) {
        Some(C(MAJHI_BYTE))
    } else {
        Some(C(NOCRD_BYTE))
    }
}

/// The two-character form of a zone sentinel.
pub fn fmt_noncard(noncard: C) -> (r: String)
    requires
        TABLE_BYTE <= noncard.0 <= NOCRD_BYTE,
    ensures
        r@ == noncard_str(noncard.0 as int),
{
    if noncard.0 == TABLE_BYTE {
        let s = String::from_str("--");
        proof {
            reveal_strlit("--");
            assert(s@ =~= seq!['-', '-']);
        }
        s
    } else if noncard.0 == FREEC_BYTE {
        let s = String::from_str("FF");
        proof {
            reveal_strlit("FF");
            assert(s@ =~= seq!['F', 'F']);
        }
        s
    } else if noncard.0 == FOUND_BYTE {
        let s = String::from_str("vv");
        proof {
            reveal_strlit("vv");
            assert(s@ =~= seq!['v', 'v']);
        }
        s
    } else if noncard.0 == MAJHI_BYTE {
        let s = String::from_str("^^");
        proof {
            reveal_strlit("^^");
            assert(s@ =~= seq!['^', '^']);
        }
        s
    } else {
        let s = String::from_str("..");
        proof {
            reveal_strlit("..");
            assert(s@ =~= seq!['.', '.']);
        }
        s
    }
}

/// Parses a zone-sentinel token, succeeding when exactly one sentinel is
/// indicated.
pub fn from_noncard(s: &str) -> (r: Result<C, ()>)
    ensures
        match parse_noncard(s@) {
            Option::Some(c) => r == Result::<C, ()>::Ok(c),
            Option::None => r is Err,
        },
{
    let is_tab = contains_char(s, '-');
    let is_free = contains_either(s, 'F', 'f');
    let is_found = contains_either(s, 'V', 'v');
    let is_down = contains_char(s, '^');
    let is_no = contains_char(s, '.');

    let num_matches: u32 = is_tab as u32 + is_free as u32 + is_found as u32 + is_down as u32
        + is_no as u32;
    if num_matches == 1 {
        if is_tab {
            Ok(C(TABLE_BYTE))
        } else if is_free {
            Ok(C(FREEC_BYTE))
        } else if is_found {
            Ok(C(FOUND_BYTE))
        } else if is_down {
            Ok(C(MAJHI_BYTE))
        } else {
            Ok(C(NOCRD_BYTE))
        }
    } else {
        Err(())
    }
}

// ---------------------------------------------------------------------
// Whole-card tokens
// ---------------------------------------------------------------------

/// The compact form: suit glyph and single-character rank for minor
/// cards, two-digit decimal for major cards, the sentinel form otherwise.
pub open spec fn fmt_lower_hex(o: int) -> Seq<char> {
    if is_card_ord(o) {
        if ord_suit(o) is Magic {
            dec2(ord_rank(o))
        } else {
            glyph_lower(ord_suit(o)) + seq![shortrank_char(ord_rank(o))]
        }
    } else {
        noncard_str(o)
    }
}

/// Glyph (major spelled out) and unpadded decimal rank.
pub open spec fn fmt_upper_hex(o: int) -> Seq<char> {
    if is_card_ord(o) {
        glyph_upper(ord_suit(o)) + dec(ord_rank(o))
    } else {
        noncard_str(o)
    }
}

/// Letter and single-character rank for minor cards, two-digit decimal
/// for major cards.
pub open spec fn fmt_lower_exp(o: int) -> Seq<char> {
    if is_card_ord(o) {
        if ord_suit(o) is Magic {
            dec2(ord_rank(o))
        } else {
            letter_lower(ord_suit(o)) + seq![shortrank_char(ord_rank(o))]
        }
    } else {
        noncard_str(o)
    }
}

/// Letter (major spelled out) and unpadded decimal rank.
pub open spec fn fmt_upper_exp(o: int) -> Seq<char> {
    if is_card_ord(o) {
        letter_upper(ord_suit(o)) + dec(ord_rank(o))
    } else {
        noncard_str(o)
    }
}

/// What a token names: a zone sentinel if one is indicated, else a card
/// read from the suit and rank indications; the rank must lie in the
/// suit's range.
pub open spec fn parse_card(s: Seq<char>) -> Option<C> {
    match parse_noncard(s) {
        Some(c) => Some(c),
        None => match parse_suit(s) {
            None => None,
            Some(su) => {
                let rank = match parse_face(s) {
                    Some(r) => Some(r),
                    None => parse_rank_digits(s),
                };
                match rank {
                    None => None,
                    Some(r) => if suit_min_rank(su) <= r as int <= suit_max_rank(su) {
                        Some(C(pack_ord(su, r as int) as u8))
                    } else {
                        None
                    },
                }
            },
        },
    }
}

impl C {
    /// The compact display form.
    pub fn lower_hex(&self) -> (r: String)
        requires
            self.0 <= EVERY_HIGH,
        ensures
            r@ == fmt_lower_hex(self.0 as int),
    {
        if self.0 <= CARDS_HIGH {
            let info = self.info();
            let su = info.card_suit();
            let rank = info.card_rank();
            if su.is_minor() {
                let mut out = su.lower_hex();
                let tail = fmt_shortrank(rank);
                out.append(tail.as_str());
                proof {
                    assert(out@ =~= glyph_lower(ord_suit(self.0 as int)) + seq![
                        shortrank_char(ord_rank(self.0 as int)),
                    ]);
                }
                out
            } else {
                fmt_dec2(rank)
            }
        } else {
            fmt_noncard(*self)
        }
    }

    /// The glyph form with the major suit and full ranks spelled out.
    pub fn upper_hex(&self) -> (r: String)
        requires
            self.0 <= EVERY_HIGH,
        ensures
            r@ == fmt_upper_hex(self.0 as int),
    {
        if self.0 <= CARDS_HIGH {
            let info = self.info();
            let su = info.card_suit();
            let rank = info.card_rank();
            let mut out = su.upper_hex();
            let tail = fmt_dec(rank);
            out.append(tail.as_str());
            proof {
                assert(out@ =~= glyph_upper(ord_suit(self.0 as int)) + dec(
                    ord_rank(self.0 as int),
                ));
            }
            out
        } else {
            fmt_noncard(*self)
        }
    }

    /// The compact letter form.
    pub fn lower_exp(&self) -> (r: String)
        requires
            self.0 <= EVERY_HIGH,
        ensures
            r@ == fmt_lower_exp(self.0 as int),
    {
        if self.0 <= CARDS_HIGH {
            let info = self.info();
            let su = info.card_suit();
            let rank = info.card_rank();
            if su.is_minor() {
                let mut out = su.lower_exp();
                let tail = fmt_shortrank(rank);
                out.append(tail.as_str());
                proof {
                    assert(out@ =~= letter_lower(ord_suit(self.0 as int)) + seq![
                        shortrank_char(ord_rank(self.0 as int)),
                    ]);
                }
                out
            } else {
                fmt_dec2(rank)
            }
        } else {
            fmt_noncard(*self)
        }
    }

    /// The letter form with the major suit and full ranks spelled out.
    pub fn upper_exp(&self) -> (r: String)
        requires
            self.0 <= EVERY_HIGH,
        ensures
            r@ == fmt_upper_exp(self.0 as int),
    {
        if self.0 <= CARDS_HIGH {
            let info = self.info();
            let su = info.card_suit();
            let rank = info.card_rank();
            let mut out = su.upper_exp();
            let tail = fmt_dec(rank);
            out.append(tail.as_str());
            proof {
                assert(out@ =~= letter_upper(ord_suit(self.0 as int)) + dec(
                    ord_rank(self.0 as int),
                ));
            }
            out
        } else {
            fmt_noncard(*self)
        }
    }

    /// The canonical display form: the compact glyph form.
    pub fn display(&self) -> (r: String)
        requires
            self.0 <= EVERY_HIGH,
        ensures
            r@ == fmt_lower_hex(self.0 as int),
    {
        self.lower_hex()
    }

    /// Parses a card or zone-sentinel token.  A token naming a rank
    /// outside its suit's range is an input error.
    pub fn from_str(s: &str) -> (r: Result<C, ()>)
        ensures
            match parse_card(s@) {
                Option::Some(c) => r == Result::<C, ()>::Ok(c),
                Option::None => r is Err,
            },
    {
        match from_noncard(s) {
            Ok(c) => Ok(c),
            Err(_) => {
                let su = match Suit::from_str(s) {
                    Ok(su) => su,
                    Err(_) => {
                        return Err(());
                    },
                };
                let rank = match from_shortrank_special(s) {
                    Ok(r) => r,
                    Err(_) => match from_rank(s) {
                        Ok(r) => r,
                        Err(_) => {
                            return Err(());
                        },
                    },
                };
                let minr: u8 = if su.is_minor() {
                    2
                } else {
                    0
                };
                let maxr: u8 = if su.is_minor() {
                    13
                } else {
                    21
                };
                if minr <= rank && rank <= maxr {
                    Ok(CardInfo::Card(su, rank).pack())
                } else {
                    Err(())
                }
            },
        }
    }
}

// ---------------------------------------------------------------------
// Whole-board text
// ---------------------------------------------------------------------

/// Whitespace separating tokens within a row.
pub open spec fn is_ws(c: char) -> bool {
    c == ' ' || c == '\t' || c == '\r'
}

/// Index of the first row separator at or after `i`, or the length.
pub open spec fn line_end(s: Seq<char>, i: int) -> int
    decreases s.len() - i
        when 0 <= i <= s.len()
{
    if i >= s.len() {
        s.len() as int
    } else if s[i] == '\n' {
        i
    } else {
        line_end(s, i + 1)
    }
}

/// Index of the first in-row whitespace at or after `i`, or the length.
pub open spec fn token_end(l: Seq<char>, i: int) -> int
    decreases l.len() - i
        when 0 <= i <= l.len()
{
    if i >= l.len() {
        l.len() as int
    } else if is_ws(l[i]) {
        i
    } else {
        token_end(l, i + 1)
    }
}

/// The end indices stay within the text.
pub proof fn lemma_end_bounds(s: Seq<char>, i: int)
    requires
        0 <= i <= s.len(),
    ensures
        i <= line_end(s, i) <= s.len(),
        i <= token_end(s, i) <= s.len(),
    decreases s.len() - i,
{
    if i < s.len() {
        lemma_end_bounds(s, i + 1);
    }
}

/// The cards a row of whitespace-separated tokens names, bottom first;
/// nothing when any token is unparseable.
pub open spec fn row_cards(l: Seq<char>) -> Option<Seq<C>>
    decreases l.len()
        via row_cards_decreases
{
    if l.len() == 0 {
        Some(Seq::empty())
    } else if is_ws(l[0]) {
        row_cards(l.drop_first())
    } else {
        let e = token_end(l, 0);
        match parse_card(l.take(e)) {
            None => None,
            Some(c) => match row_cards(l.skip(e)) {
                None => None,
                Some(rest) => Some(seq![c] + rest),
            },
        }
    }
}

#[via_fn]
proof fn row_cards_decreases(l: Seq<char>) {
    if l.len() > 0 && !is_ws(l[0]) {
        lemma_end_bounds(l, 1);
        assert(token_end(l, 0) == token_end(l, 1));
    }
}

/// The rows of newline-separated text, each read as a row of cards;
/// nothing when any row fails.
pub open spec fn board_rows(s: Seq<char>) -> Option<Seq<Seq<C>>>
    decreases s.len()
        via board_rows_decreases
{
    if s.len() == 0 {
        Some(Seq::empty())
    } else {
        let e = line_end(s, 0);
        match row_cards(s.take(e)) {
            None => None,
            Some(row) => if e == s.len() {
                Some(seq![row])
            } else {
                match board_rows(s.skip(e + 1)) {
                    None => None,
                    Some(rest) => Some(seq![row] + rest),
                }
            },
        }
    }
}

#[via_fn]
proof fn board_rows_decreases(s: Seq<char>) {
    if s.len() > 0 {
        lemma_end_bounds(s, 0);
    }
}

/// Whether a character separates tokens within a row.
fn ws_char(c: char) -> (b: bool)
    ensures
        b == is_ws(c),
{
    c == ' ' || c == '\t' || c == '\r'
}

/// Reads one row of whitespace-separated card tokens.
fn parse_row_exec(l: &str) -> (r: Result<Vec<C>, ()>)
    ensures
        match row_cards(l@) {
            Option::Some(cs) => r matches Ok(v) && v@ == cs,
            Option::None => r is Err,
        },
    decreases l@.len(),
{
    let n = l.unicode_len();
    if n == 0 {
        proof {
            assert(row_cards(l@) == Some(Seq::<C>::empty()));
        }
        return Ok(Vec::new());
    }
    let c0 = l.get_char(0);
    if c0 == ' ' || c0 == '\t' || c0 == '\r' {
        let rest = l.substring_char(1, n);
        proof {
            assert(rest@ =~= l@.drop_first());
        }
        parse_row_exec(rest)
    } else {
        let mut e: usize = 1;
        proof {
            assert(token_end(l@, 0) == token_end(l@, 1));
        }
        while e < n && !ws_char(l.get_char(e))
            invariant
                n == l@.len(),
                1 <= e <= n,
                token_end(l@, 0) == token_end(l@, e as int),
            decreases n - e,
        {
            e += 1;
        }
        proof {
            assert(token_end(l@, 0) == e as int);
        }
        let tok = l.substring_char(0, e);
        proof {
            assert(tok@ =~= l@.take(e as int));
        }
        let c = match C::from_str(tok) {
            Ok(c) => c,
            Err(_) => {
                return Err(());
            },
        };
        let rest = l.substring_char(e, n);
        proof {
            assert(rest@ =~= l@.skip(e as int));
        }
        let mut v = match parse_row_exec(rest) {
            Ok(v) => v,
            Err(_) => {
                return Err(());
            },
        };
        v.insert(0, c);
        proof {
            assert(v@ =~= seq![c] + row_cards(l@.skip(e as int)).unwrap());
        }
        Ok(v)
    }
}

/// Reads the newline-separated rows of a board text.
fn parse_rows_exec(s: &str) -> (r: Result<Vec<Vec<C>>, ()>)
    ensures
        match board_rows(s@) {
            Option::Some(rs) => r matches Ok(v) && crate::layout::cols_view(v@) == rs,
            Option::None => r is Err,
        },
    decreases s@.len(),
{
    let n = s.unicode_len();
    if n == 0 {
        let v: Vec<Vec<C>> = Vec::new();
        proof {
            assert(crate::layout::cols_view(v@) =~= Seq::<Seq<C>>::empty());
        }
        return Ok(v);
    }
    let mut e: usize = 0;
    while e < n && s.get_char(e) != '\n'
        invariant
            n == s@.len(),
            0 <= e <= n,
            line_end(s@, 0) == line_end(s@, e as int),
        decreases n - e,
    {
        e += 1;
    }
    proof {
        assert(line_end(s@, 0) == e as int);
    }
    let line = s.substring_char(0, e);
    proof {
        assert(line@ =~= s@.take(e as int));
    }
    let row = match parse_row_exec(line) {
        Ok(row) => row,
        Err(_) => {
            return Err(());
        },
    };
    if e == n {
        let mut v: Vec<Vec<C>> = Vec::new();
        v.push(row);
        proof {
            assert(crate::layout::cols_view(v@) =~= seq![row_cards(s@.take(e as int)).unwrap()]);
        }
        Ok(v)
    } else {
        let rest = s.substring_char(e + 1, n);
        proof {
            assert(rest@ =~= s@.skip(e + 1));
        }
        let mut v = match parse_rows_exec(rest) {
            Ok(v) => v,
            Err(_) => {
                return Err(());
            },
        };
        v.insert(0, row);
        proof {
            assert(crate::layout::cols_view(v@) =~= seq![row_cards(s@.take(e as int)).unwrap()]
                + board_rows(s@.skip(e + 1)).unwrap());
        }
        Ok(v)
    }
}

/// Checks that a parsed board has exactly its eleven rows.
pub fn vec_to_arr<T>(v: Vec<T>) -> (r: Result<Vec<T>, ()>)
    ensures
        v@.len() == 11 ==> r == Result::<Vec<T>, ()>::Ok(v),
        v@.len() != 11 ==> r is Err,
{
    if v.len() == 11 {
        Ok(v)
    } else {
        Err(())
    }
}

impl crate::layout::BoardLayout {
    /// Reads a whole board: eleven newline-separated rows of
    /// whitespace-separated card tokens, bottom card first per row, with
    /// the foundations and freecell inferred from the missing cards.
    /// Fails on an unparseable token, a row count other than eleven, or
    /// columns no board can have.
    pub fn from_str(s: &str) -> (r: Result<crate::layout::BoardLayout, ()>)
        ensures
            match board_rows(s@) {
                Option::None => r is Err,
                Option::Some(rows) => {
                    &&& (rows.len() != 11 ==> r is Err)
                    &&& (rows.len() == 11 ==> {
                        &&& (r is Ok <==> crate::layout::constructible(rows))
                        &&& (r matches Ok(l) ==> crate::layout::constructed_from(l, rows))
                    })
                },
            },
    {
        let rows = match parse_rows_exec(s) {
            Ok(rows) => rows,
            Err(_) => {
                return Err(());
            },
        };
        let tab = match vec_to_arr(rows) {
            Ok(tab) => tab,
            Err(_) => {
                return Err(());
            },
        };
        match crate::layout::BoardLayout::from_columns(tab) {
            Ok(l) => Ok(l),
            Err(_) => Err(()),
        }
    }
}

/// The first `i` cards of a row as space-separated compact tokens.
pub open spec fn row_text_upto(row: Seq<C>, i: int) -> Seq<char>
    decreases i,
{
    if i <= 0 {
        Seq::empty()
    } else if i == 1 {
        fmt_lower_hex(row[0].0 as int)
    } else {
        row_text_upto(row, i - 1) + seq![' '] + fmt_lower_hex(row[i - 1].0 as int)
    }
}

/// The first `j` columns as newline-separated rows of tokens.
pub open spec fn board_text_upto(cols: Seq<Seq<C>>, j: int) -> Seq<char>
    decreases j,
{
    if j <= 0 {
        Seq::empty()
    } else if j == 1 {
        row_text_upto(cols[0], cols[0].len() as int)
    } else {
        board_text_upto(cols, j - 1) + seq!['\n'] + row_text_upto(cols[j - 1], cols[j - 1].len() as int)
    }
}

/// The canonical text of a whole board: eleven newline-separated rows of
/// space-separated compact tokens, bottom card first per row.
pub open spec fn board_text(cols: Seq<Seq<C>>) -> Seq<char> {
    board_text_upto(cols, cols.len() as int)
}

impl crate::layout::BoardLayout {
    /// Writes the canonical text form of the columns: eleven
    /// newline-separated rows of space-separated compact tokens, blank
    /// rows for empty columns.
    pub fn format_rows(&self) -> (r: String)
        ensures
            r@ == board_text(self.cols()),
    {
        let ghost cols = self.cols();
        let mut out = String::new();
        let mut j: usize = 0;
        proof {
            assert(out@ =~= board_text_upto(cols, 0));
        }
        while j < self.tableau.len()
            invariant
                cols == self.cols(),
                j <= self.tableau@.len(),
                out@ == board_text_upto(cols, j as int),
            decreases self.tableau@.len() - j,
        {
            if j > 0 {
                let sep = String::from_str("\n");
                proof {
                    reveal_strlit("\n");
                    assert(sep@ =~= seq!['\n']);
                }
                out.append(sep.as_str());
            }
            let collen = self.tableau[j].len();
            let mut i: usize = 0;
            let ghost row = cols[j as int];
            let ghost base = out@;
            proof {
                assert(base + row_text_upto(row, 0) =~= base);
            }
            while i < collen
                invariant
                    cols == self.cols(),
                    j < self.tableau@.len(),
                    row == cols[j as int],
                    collen == row.len(),
                    i <= collen,
                    out@ == base + row_text_upto(row, i as int),
                decreases collen - i,
            {
                if i > 0 {
                    let sep = String::from_str(" ");
                    proof {
                        reveal_strlit(" ");
                        assert(sep@ =~= seq![' ']);
                    }
                    out.append(sep.as_str());
                }
                let card = self.tableau[j][i];
                if card.0 > EVERY_HIGH {
                    // an ordinal outside the declared space has no token;
                    // write the construction-only no-card form
                    let tok = fmt_noncard(C(NOCRD_BYTE));
                    proof {
                        assert(noncard_str(NOCRD_BYTE as int) == fmt_lower_hex(card.0 as int));
                    }
                    out.append(tok.as_str());
                } else {
                    let tok = card.lower_hex();
                    out.append(tok.as_str());
                }
                proof {
                    if i == 0 {
                        assert(out@ =~= base + row_text_upto(row, 1));
                    } else {
                        assert(out@ =~= base + (row_text_upto(row, i as int) + seq![' ']
                            + fmt_lower_hex(row[i as int].0 as int)));
                        assert(base + (row_text_upto(row, i as int) + seq![' '] + fmt_lower_hex(
                            row[i as int].0 as int,
                        )) =~= base + row_text_upto(row, i + 1));
                    }
                }
                i += 1;
            }
            proof {
                if j == 0 {
                    assert(out@ =~= board_text_upto(cols, 1));
                } else {
                    assert(out@ =~= board_text_upto(cols, j + 1));
                }
            }
            j += 1;
        }
        out
    }
}

// ---------------------------------------------------------------------
// Round-trip laws
// ---------------------------------------------------------------------

/// Membership in the empty token.
proof fn lemma_has0_all()
    ensures
        forall|c: char| !has_char(Seq::<char>::empty(), c),
{
}

/// Membership in a one-character token.
proof fn lemma_has1_all(a: char)
    ensures
        forall|c: char| has_char(seq![a], c) == (a == c),
{
    assert forall|c: char| has_char(seq![a], c) == (a == c) by {
        if a == c {
            assert(seq![a][0] == c);
        }
    }
}

/// Membership in a two-character token.
proof fn lemma_has2_all(a: char, b: char)
    ensures
        forall|c: char| has_char(seq![a, b], c) == (a == c || b == c),
{
    assert forall|c: char| has_char(seq![a, b], c) == (a == c || b == c) by {
        if a == c {
            assert(seq![a, b][0] == c);
        }
        if b == c {
            assert(seq![a, b][1] == c);
        }
    }
}

/// Membership in a three-character token.
proof fn lemma_has3_all(a: char, b: char, c0: char)
    ensures
        forall|c: char| has_char(seq![a, b, c0], c) == (a == c || b == c || c0 == c),
{
    assert forall|c: char| has_char(seq![a, b, c0], c) == (a == c || b == c || c0 == c) by {
        if a == c {
            assert(seq![a, b, c0][0] == c);
        }
        if b == c {
            assert(seq![a, b, c0][1] == c);
        }
        if c0 == c {
            assert(seq![a, b, c0][2] == c);
        }
    }
}

/// Law: every suit token parses back to its source suit, under each of
/// the four format variants.
pub proof fn lemma_suit_token_roundtrip(su: Suit)
    ensures
        parse_suit(glyph_lower(su)) == Some(su),
        parse_suit(glyph_upper(su)) == Some(su),
        parse_suit(letter_lower(su)) == Some(su),
        parse_suit(letter_upper(su)) == Some(su),
{
    lemma_has0_all();
    lemma_has1_all('|');
    lemma_has1_all('*');
    lemma_has1_all('!');
    lemma_has1_all('$');
    lemma_has1_all('@');
    lemma_has1_all('W');
    lemma_has1_all('P');
    lemma_has1_all('X');
    lemma_has1_all('C');
    lemma_has1_all('M');
}

/// A sentinel token parses back to its sentinel.
proof fn lemma_noncard_roundtrip(o: int)
    requires
        TABLE_BYTE as int <= o <= NOCRD_BYTE as int,
    ensures
        parse_noncard(noncard_str(o)) == Some(C(o as u8)),
{
    lemma_has2_all('-', '-');
    lemma_has2_all('F', 'F');
    lemma_has2_all('v', 'v');
    lemma_has2_all('^', '^');
    lemma_has2_all('.', '.');
}

/// A two-digit token reads back its value.
proof fn lemma_dec2_value(r: int)
    requires
        0 <= r <= 99,
    ensures
        first_digit(dec2(r), 0) == 0,
        last_digit(dec2(r), 1) == 1,
        digits_value(dec2(r), 0, 1, 0) == Some(r),
        parse_rank_digits(dec2(r)) == Some(r as u8),
{
    let t = dec2(r);
    assert(is_digit_char(t[0]) && digit_val(t[0]) == r / 10);
    assert(is_digit_char(t[1]) && digit_val(t[1]) == r % 10);
    assert(digits_value(t, 0, 1, 0) == digits_value(t, 1, 1, r / 10));
    assert(digits_value(t, 1, 1, r / 10) == digits_value(t, 2, 1, r / 10 * 10 + r % 10));
    assert(r / 10 * 10 + r % 10 == r);
}

/// The glyph or letter of a minor suit, followed by a one- or two-digit
/// rank, reads back its value.
proof fn lemma_prefixed_dec_value(g: char, r: int)
    requires
        !is_digit_char(g),
        0 <= r <= 99,
    ensures
        parse_rank_digits(seq![g] + dec(r)) == Some(r as u8),
{
    let t = seq![g] + dec(r);
    if r < 10 {
        assert(t =~= seq![g, digit_of(r)]);
        assert(is_digit_char(t[1]) && digit_val(t[1]) == r);
        assert(first_digit(t, 0) == first_digit(t, 1));
        assert(first_digit(t, 1) == 1);
        assert(last_digit(t, 1) == 1);
        assert(digits_value(t, 1, 1, 0) == digits_value(t, 2, 1, r));
    } else {
        assert(t =~= seq![g, digit_of(r / 10), digit_of(r % 10)]);
        assert(is_digit_char(t[1]) && digit_val(t[1]) == r / 10);
        assert(is_digit_char(t[2]) && digit_val(t[2]) == r % 10);
        assert(first_digit(t, 0) == first_digit(t, 1));
        assert(first_digit(t, 1) == 1);
        assert(last_digit(t, 2) == 2);
        assert(digits_value(t, 1, 2, 0) == digits_value(t, 2, 2, r / 10));
        assert(digits_value(t, 2, 2, r / 10) == digits_value(t, 3, 2, r / 10 * 10 + r % 10));
        assert(r / 10 * 10 + r % 10 == r);
    }
}

/// A minor-suit compact token parses back to its card.
proof fn lemma_compact_minor_roundtrip(o: int, g: char)
    requires
        0 <= o <= CARDS_HIGH as int,
        !(ord_suit(o) is Magic),
        ({
            let t = seq![g, shortrank_char(ord_rank(o))];
            parse_suit(t) == Some(ord_suit(o)) && parse_noncard(t) is None
        }),
        !is_digit_char(g),
        g != 'A' && g != 'a' && g != 'T' && g != 't' && g != 'J' && g != 'j' && g != 'Q' && g
            != 'q' && g != 'K' && g != 'k',
    ensures
        parse_card(seq![g, shortrank_char(ord_rank(o))]) == Some(C(o as u8)),
{
    let r = ord_rank(o);
    crate::forced::lemma_rank_bounds(o);
    assert(pack_ord(ord_suit(o), r) == o);
    let t = seq![g, shortrank_char(r)];
    lemma_has2_all(g, shortrank_char(r));
    if r <= 9 {
        assert(parse_face(t) is None);
        assert(is_digit_char(t[1]) && digit_val(t[1]) == r);
        assert(first_digit(t, 0) == first_digit(t, 1));
        assert(first_digit(t, 1) == 1);
        assert(last_digit(t, 1) == 1);
        assert(digits_value(t, 1, 1, 0) == digits_value(t, 2, 1, r));
        assert(parse_rank_digits(t) == Some(r as u8));
    } else {
        assert(parse_face(t) == Some(r as u8));
    }
}

/// A spelled-out token parses back to its card, whatever suit mark leads
/// it.
proof fn lemma_spelled_roundtrip(o: int, g: char)
    requires
        0 <= o <= CARDS_HIGH as int,
        ({
            let t = seq![g] + dec(ord_rank(o));
            parse_suit(t) == Some(ord_suit(o)) && parse_noncard(t) is None && parse_face(t) is None
        }),
        !is_digit_char(g),
    ensures
        parse_card(seq![g] + dec(ord_rank(o))) == Some(C(o as u8)),
{
    let r = ord_rank(o);
    crate::forced::lemma_rank_bounds(o);
    assert(pack_ord(ord_suit(o), r) == o);
    lemma_prefixed_dec_value(g, r);
}

/// Law: every formatted token parses back to its source ordinal, under
/// each of the four format variants; hence no two distinct ordinals share
/// a formatted token under one variant.
#[verifier::rlimit(50)]
pub proof fn lemma_token_roundtrip(o: int)
    requires
        0 <= o <= EVERY_HIGH as int,
    ensures
        parse_card(fmt_lower_hex(o)) == Some(C(o as u8)),
        parse_card(fmt_upper_hex(o)) == Some(C(o as u8)),
        parse_card(fmt_lower_exp(o)) == Some(C(o as u8)),
        parse_card(fmt_upper_exp(o)) == Some(C(o as u8)),
{
    if is_card_ord(o) {
        let su = ord_suit(o);
        let r = ord_rank(o);
        crate::forced::lemma_rank_bounds(o);
        assert(pack_ord(su, r) == o);
        if su is Magic {
            // lower variants: a bare two-digit decimal
            let t = dec2(r);
            assert(fmt_lower_hex(o) == t && fmt_lower_exp(o) == t);
            assert(t =~= seq![digit_of(r / 10), digit_of(r % 10)]);
            lemma_has2_all(digit_of(r / 10), digit_of(r % 10));
            lemma_dec2_value(r);
            assert(parse_card(t) == Some(C(o as u8)));
            // upper variants: the major glyph or letter, then the rank
            let tg = glyph_upper(su) + dec(r);
            let tl = letter_upper(su) + dec(r);
            if r < 10 {
                assert(tg =~= seq!['@'] + dec(r));
                assert(tg =~= seq!['@', digit_of(r)]);
                assert(tl =~= seq!['M'] + dec(r));
                assert(tl =~= seq!['M', digit_of(r)]);
                lemma_has2_all('@', digit_of(r));
                lemma_has2_all('M', digit_of(r));
            } else {
                assert(tg =~= seq!['@'] + dec(r));
                assert(tg =~= seq!['@', digit_of(r / 10), digit_of(r % 10)]);
                assert(tl =~= seq!['M'] + dec(r));
                assert(tl =~= seq!['M', digit_of(r / 10), digit_of(r % 10)]);
                lemma_has3_all('@', digit_of(r / 10), digit_of(r % 10));
                lemma_has3_all('M', digit_of(r / 10), digit_of(r % 10));
            }
            lemma_spelled_roundtrip(o, '@');
            lemma_spelled_roundtrip(o, 'M');
        } else {
            let g = glyph_lower(su)[0];
            let l = letter_lower(su)[0];
            // compact variants: glyph or letter, then the short rank
            let tg = glyph_lower(su) + seq![shortrank_char(r)];
            let tl = letter_lower(su) + seq![shortrank_char(r)];
            assert(tg =~= seq![g, shortrank_char(r)]);
            assert(tl =~= seq![l, shortrank_char(r)]);
            lemma_has2_all(g, shortrank_char(r));
            lemma_has2_all(l, shortrank_char(r));
            lemma_compact_minor_roundtrip(o, g);
            lemma_compact_minor_roundtrip(o, l);
            // spelled-out variants: glyph or letter, then the decimal rank
            let ug = glyph_upper(su) + dec(r);
            let ul = letter_upper(su) + dec(r);
            if r < 10 {
                assert(ug =~= seq![g] + dec(r));
                assert(ug =~= seq![g, digit_of(r)]);
                assert(ul =~= seq![l] + dec(r));
                assert(ul =~= seq![l, digit_of(r)]);
                lemma_has2_all(g, digit_of(r));
                lemma_has2_all(l, digit_of(r));
            } else {
                assert(ug =~= seq![g] + dec(r));
                assert(ug =~= seq![g, digit_of(r / 10), digit_of(r % 10)]);
                assert(ul =~= seq![l] + dec(r));
                assert(ul =~= seq![l, digit_of(r / 10), digit_of(r % 10)]);
                lemma_has3_all(g, digit_of(r / 10), digit_of(r % 10));
                lemma_has3_all(l, digit_of(r / 10), digit_of(r % 10));
            }
            lemma_spelled_roundtrip(o, g);
            lemma_spelled_roundtrip(o, l);
        }
    } else {
        lemma_noncard_roundtrip(o);
        assert(parse_card(noncard_str(o)) == Some(C(o as u8)));
    }
}

/// Law: distinct ordinals never share a formatted token under one format
/// variant.
pub proof fn lemma_tokens_injective(o1: int, o2: int)
    requires
        0 <= o1 <= EVERY_HIGH as int,
        0 <= o2 <= EVERY_HIGH as int,
        o1 != o2,
    ensures
        fmt_lower_hex(o1) != fmt_lower_hex(o2),
        fmt_upper_hex(o1) != fmt_upper_hex(o2),
        fmt_lower_exp(o1) != fmt_lower_exp(o2),
        fmt_upper_exp(o1) != fmt_upper_exp(o2),
{
    lemma_token_roundtrip(o1);
    lemma_token_roundtrip(o2);
}

} // verus!
