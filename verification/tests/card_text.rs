use std::collections::HashSet;
use tarot_patience::card::{C, Suit, EVERY_BASE, EVERY_HIGH};

const SUITS: [Suit; 5] = [Suit::Wands, Suit::Stars, Suit::Swrds, Suit::Cuups, Suit::Magic];

#[test]
fn text_upperhex() {
    let mut ss: HashSet<String> = Default::default();
    for suit in SUITS {
        let s = suit.upper_hex();
        assert!(!s.is_empty(), "empty representation: {:?} -> {:?}", suit, &s);
        assert!(ss.insert(s.clone()), "non-unique representation: {:?} -> {:?}", suit, &s);
        let parsed: Suit = Suit::from_str(&s).expect("unable to parse");
        assert_eq!(parsed, suit, "misparsed representation: {:?} -> {:?} -> {:?}", suit, &s, parsed);
    }
    let all_c: Vec<C> = (EVERY_BASE..=EVERY_HIGH).map(|i| C(i)).collect();
    let mut cs: HashSet<String> = Default::default();
    for card in all_c {
        let s = card.upper_hex();
        assert!(cs.insert(s.clone()), "non-unique representation: {:?}, {:?}", card, &s);
        let parsed: C = C::from_str(&s).expect("unable to parse");
        assert_eq!(parsed, card, "misparsed representation: {:?} -> {:?} -> {:?}", card, &s, parsed);
    }
}

#[test]
fn text_lowerhex() {
    let mut ss: HashSet<String> = Default::default();
    for suit in SUITS {
        let s = suit.lower_hex();
        assert!(ss.insert(s.clone()), "non-unique representation: {:?} -> {:?}", suit, &s);
        let parsed: Suit = Suit::from_str(&s).expect("unable to parse");
        assert_eq!(parsed, suit, "misparsed representation: {:?} -> {:?} -> {:?}", suit, &s, parsed);
    }
    let all_c: Vec<C> = (EVERY_BASE..=EVERY_HIGH).map(|i| C(i)).collect();
    let mut cs: HashSet<String> = Default::default();
    for card in all_c {
        let s = card.lower_hex();
        assert!(s.len() == 2, "not length 2: {:?} -> {:?}", card, &s);
        assert!(cs.insert(s.clone()), "non-unique representation: {:?}, {:?}", card, &s);
        let parsed: C = C::from_str(&s).expect("unable to parse");
        assert_eq!(parsed, card, "misparsed representation: {:?} -> {:?} -> {:?}", card, &s, parsed);
    }
}

#[test]
fn text_display() {
    let mut ss: HashSet<String> = Default::default();
    for suit in SUITS {
        let s = suit.display();
        assert!(ss.insert(s.clone()), "non-unique representation: {:?} -> {:?}", suit, &s);
        let parsed: Suit = Suit::from_str(&s).expect("unable to parse");
        assert_eq!(parsed, suit, "misparsed representation: {:?} -> {:?} -> {:?}", suit, &s, parsed);
    }
    let all_c: Vec<C> = (EVERY_BASE..=EVERY_HIGH).map(|i| C(i)).collect();
    let mut cs: HashSet<String> = Default::default();
    for card in all_c {
        let s = card.display();
        assert!(cs.insert(s.clone()), "non-unique representation: {:?}, {:?}", card, &s);
        let parsed: C = C::from_str(&s).expect("unable to parse");
        assert_eq!(parsed, card, "misparsed representation: {:?} -> {:?} -> {:?}", card, &s, parsed);
    }
}

#[test]
fn text_upperexp() {
    let mut ss: HashSet<String> = Default::default();
    for suit in SUITS {
        let s = suit.upper_exp();
        assert!(!s.is_empty(), "empty representation: {:?} -> {:?}", suit, &s);
        assert!(ss.insert(s.clone()), "non-unique representation: {:?} -> {:?}", suit, &s);
        let parsed: Suit = Suit::from_str(&s).expect("unable to parse");
        assert_eq!(parsed, suit, "misparsed representation: {:?} -> {:?} -> {:?}", suit, &s, parsed);
    }
    let all_c: Vec<C> = (EVERY_BASE..=EVERY_HIGH).map(|i| C(i)).collect();
    let mut cs: HashSet<String> = Default::default();
    for card in all_c {
        let s = card.upper_exp();
        assert!(cs.insert(s.clone()), "non-unique representation: {:?}, {:?}", card, &s);
        let parsed: C = C::from_str(&s).expect("unable to parse");
        assert_eq!(parsed, card, "misparsed representation: {:?} -> {:?} -> {:?}", card, &s, parsed);
    }
}

#[test]
fn text_lowerexp() {
    let mut ss: HashSet<String> = Default::default();
    for suit in SUITS {
        let s = suit.lower_exp();
        assert!(ss.insert(s.clone()), "non-unique representation: {:?} -> {:?}", suit, &s);
        let parsed: Suit = Suit::from_str(&s).expect("unable to parse");
        assert_eq!(parsed, suit, "misparsed representation: {:?} -> {:?} -> {:?}", suit, &s, parsed);
    }
    let all_c: Vec<C> = (EVERY_BASE..=EVERY_HIGH).map(|i| C(i)).collect();
    let mut cs: HashSet<String> = Default::default();
    for card in all_c {
        let s = card.lower_exp();
        assert!(s.len() == 2, "not length 2: {:?} -> {:?}", card, &s);
        assert!(cs.insert(s.clone()), "non-unique representation: {:?}, {:?}", card, &s);
        let parsed: C = C::from_str(&s).expect("unable to parse");
        assert_eq!(parsed, card, "misparsed representation: {:?} -> {:?} -> {:?}", card, &s, parsed);
    }
}
