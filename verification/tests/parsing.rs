use tarot_patience::card::{C, Suit, CardInfo, FREEC_BYTE, NOCRD_BYTE, WANDS_HIGH};
use tarot_patience::layout::BoardLayout;

#[test]
fn parse_fresh() {
    let s = "05 07 2$ 8| T! 3* 8$
18 20 9* 03 K| 2! 01
16 09 9| 4* 3! 15 11
K$ 6* 5$ T* 5* 4! 5|
Q* 6$ J! 14 5! 00 8!

6| Q| 7* 4$ 2| 7! 12
06 02 K* 3| 04 3$ 7|
2* 19 13 T| T$ 4| 10
J| 21 7$ Q$ J* 6! 9!
9$ 17 K! J$ Q! 8* 08";

    let fdn = vec![C(NOCRD_BYTE); 5];
    let dfdn = C(NOCRD_BYTE);
    let frec = C(FREEC_BYTE);

    let bl: BoardLayout = BoardLayout::from_str(s).expect("parse error");
    assert_eq!(bl.info.foundation, fdn);
    assert_eq!(bl.info.down_foundn, dfdn);
    assert_eq!(bl.info.freecell, frec);
}

#[test]
fn parse_handful_scored() {
    let s = "05 07 8| T! 3* 8$
18 9* 03 K|
16 09 9| 4* 3! 15 11
K$ 6* 5$ T* 5* 4! 5|
Q* 6$ J! 14 5! 8!

6| Q| 7* 4$ 2| 7! 12
06 02 K* 3| 04 7|
13 T| T$ 4| 10
J| 7$ Q$ J* 6! 9!
9$ 17 K! J$ Q! 8* 08";

    let fdn = vec![
        C(NOCRD_BYTE),
        C::from_str("2*").unwrap(),
        C::from_str("2!").unwrap(),
        C::from_str("3$").unwrap(),
        C::from_str("01").unwrap(),
    ];
    let dfdn = C::from_str("19").unwrap();
    let frec = C(FREEC_BYTE);

    let bl: BoardLayout = BoardLayout::from_str(s).expect("parse error");
    assert_eq!(bl.info.foundation, fdn);
    assert_eq!(bl.info.down_foundn, dfdn);
    assert_eq!(bl.info.freecell, frec);
}

#[test]
fn parse_freecell_filled() {
    let s = "05 07 2$ 8| T! 3* 8$
18 20 9* 03 K| 2! 01
16 09 4* 3! 15 11
K$ 6* 5$ T* 5* 4! 5|
Q* 6$ J! 14 5! 00 8!

6| Q| 7* 4$ 2| 7! 12
06 02 K* 3| 04 3$ 7|
2* 19 13 T| T$ 4| 10
J| 21 7$ Q$ J* 6! 9!
9$ 17 K! J$ Q! 8* 08";

    let fdn = vec![C(NOCRD_BYTE); 5];
    let dfdn = C(NOCRD_BYTE);
    let frec = C::from_str("9|").unwrap();

    let bl: BoardLayout = BoardLayout::from_str(s).expect("parse error");
    assert_eq!(bl.info.foundation, fdn);
    assert_eq!(bl.info.down_foundn, dfdn);
    assert_eq!(bl.info.freecell, frec);
}

#[test]
fn parse_empty() {
    let s = "\n\n\n\n\n\n\n\n\n\n\n";

    let fdn = vec![
        C::from_str("K|").unwrap(),
        C::from_str("K*").unwrap(),
        C::from_str("K!").unwrap(),
        C::from_str("K$").unwrap(),
        C::from_str("21").unwrap(),
    ];
    let dfdn = C(NOCRD_BYTE);
    let frec = C(FREEC_BYTE);

    let bl: BoardLayout = BoardLayout::from_str(s).expect("parse error");
    assert_eq!(bl.info.foundation, fdn);
    assert_eq!(bl.info.down_foundn, dfdn);
    assert_eq!(bl.info.freecell, frec);
}

#[test]
fn parse_king_of_wands_token() {
    // the reversed token form is parseable: letter order does not matter
    let c = C::from_str("K|").expect("parse error");
    let info = c.info();
    assert_eq!(info.card_suit(), Suit::Wands);
    assert_eq!(info.card_rank(), 13);
    assert_eq!(c, C(WANDS_HIGH));
    // the canonical form puts the glyph first and parses back to the card
    let s = c.lower_hex();
    assert_eq!(s, "|K");
    assert_eq!(C::from_str(&s).unwrap(), c);
}

#[test]
fn parse_rejects_bad_tokens() {
    // no suit or rank indication at all
    assert!(C::from_str("ZZ").is_err());
    // two suits indicated at once
    assert!(C::from_str("|*5").is_err());
    // the ace is parseable only where the suit has a rank below two
    assert!(C::from_str("A|").is_err());
    assert_eq!(
        C::from_str("MA").unwrap().info(),
        CardInfo::Card(Suit::Magic, 1)
    );
    // a rank outside the suit's range
    assert!(C::from_str("W99").is_err());
    // two face letters at once
    assert!(C::from_str("TK|").is_err());
}

#[test]
fn parse_rejects_wrong_row_count() {
    assert!(BoardLayout::from_str("").is_err());
    assert!(BoardLayout::from_str("\n\n\n\n\n\n\n\n\n\n").is_err());
    assert!(BoardLayout::from_str("\n\n\n\n\n\n\n\n\n\n\n\n").is_err());
}

#[test]
fn parse_rejects_duplicate_card() {
    let s = "2| 2|\n\n\n\n\n\n\n\n\n\n\n";
    assert!(BoardLayout::from_str(s).is_err());
}

#[test]
fn zone_tokens_roundtrip() {
    for b in [
        tarot_patience::card::TABLE_BYTE,
        tarot_patience::card::FREEC_BYTE,
        tarot_patience::card::FOUND_BYTE,
        tarot_patience::card::MAJHI_BYTE,
        tarot_patience::card::NOCRD_BYTE,
    ] {
        let c = C(b);
        let s = c.display();
        assert_eq!(C::from_str(&s).unwrap(), c);
    }
    assert_eq!(C(tarot_patience::card::TABLE_BYTE).display(), "--");
    assert_eq!(C(tarot_patience::card::FREEC_BYTE).display(), "FF");
    assert_eq!(C(tarot_patience::card::FOUND_BYTE).display(), "vv");
    assert_eq!(C(tarot_patience::card::MAJHI_BYTE).display(), "^^");
    assert_eq!(C(tarot_patience::card::NOCRD_BYTE).display(), "..");
}

#[test]
fn rank_tokens_exact() {
    // two-digit zero-padded decimals for major cards
    assert_eq!(C::from_str("05").unwrap().lower_hex(), "05");
    assert_eq!(C::from_str("21").unwrap().lower_hex(), "21");
    // face letters for high minor ranks
    assert_eq!(C::from_str("$T").unwrap().lower_hex(), "$T");
    assert_eq!(C::from_str("!j").unwrap().lower_hex(), "!J");
}

#[test]
fn board_text_roundtrip() {
    let s = "05 07 2$ 8| T! 3* 8$
18 20 9* 03 K| 2! 01
16 09 9| 4* 3! 15 11
K$ 6* 5$ T* 5* 4! 5|
Q* 6$ J! 14 5! 00 8!

6| Q| 7* 4$ 2| 7! 12
06 02 K* 3| 04 3$ 7|
2* 19 13 T| T$ 4| 10
J| 21 7$ Q$ J* 6! 9!
9$ 17 K! J$ Q! 8* 08";
    // the canonical text puts glyphs first where the permissive source put
    // them last; parsing it back reproduces the layout exactly
    let bl = BoardLayout::from_str(s).expect("parse error");
    let text = bl.format_rows();
    assert_ne!(text, s);
    let again = BoardLayout::from_str(&text).expect("parse error");
    assert_eq!(again, bl);
    assert_eq!(again.format_rows(), text);
}

#[test]
fn parse_rejects_construction_only_token() {
    // the no-card token is parseable on its own but no board can hold it
    assert!(C::from_str("..").is_ok());
    let s = ".. 2|\n\n\n\n\n\n\n\n\n\n";
    assert!(BoardLayout::from_str(s).is_err());
}
