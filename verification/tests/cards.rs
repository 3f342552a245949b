use tarot_patience::card::{C, CardInfo, Suit};
use tarot_patience::card::{CARDS_COUNT, CUUPS_COUNT, EVERY_BASE, EVERY_COUNT, EVERY_HIGH,
    MAGIC_COUNT, OTHER_COUNT, STARS_COUNT, SWRDS_COUNT, WANDS_COUNT};

#[test]
fn all_c_have_cardinfo() {
    let all_c: Vec<C> = (EVERY_BASE..=EVERY_HIGH).map(|i| C(i)).collect();
    assert_eq!(all_c.len(), EVERY_COUNT.into());

    let info_conv: Vec<CardInfo> = all_c.clone().into_iter().map(|x| x.info()).collect();
    let c_conv: Vec<C> = info_conv.into_iter().map(|x| x.pack()).collect();

    assert_eq!(all_c, c_conv);
}

#[test]
fn all_cardinfo_have_c() {
    let all_info: Vec<CardInfo> = {
        let mut vec = Vec::with_capacity(74 + 4);
        vec.append(&mut (0..=21).map(|i| CardInfo::Card(Suit::Magic, i)).collect());
        for suit in [Suit::Wands, Suit::Stars, Suit::Swrds, Suit::Cuups] {
            vec.append(&mut (2..=13).map(|i| CardInfo::Card(suit, i)).collect());
        }
        vec.append(&mut vec![
            CardInfo::Tableau,
            CardInfo::Freecell,
            CardInfo::Foundation,
            CardInfo::DownFoundn,
            CardInfo::NoCard,
        ]);
        vec
    };

    let c_conv: Vec<C> = all_info.clone().into_iter().map(|x| x.pack()).collect();
    let info_conv: Vec<CardInfo> = c_conv.into_iter().map(|x| x.info()).collect();

    assert_eq!(all_info, info_conv);
}

#[test]
fn card_id_range_sanitycheck() {
    assert_eq!(
        CARDS_COUNT,
        MAGIC_COUNT + WANDS_COUNT + STARS_COUNT + SWRDS_COUNT + CUUPS_COUNT,
        "missing card suit?"
    );
    assert_eq!(EVERY_COUNT, CARDS_COUNT + OTHER_COUNT, "missing category?");
}

#[test]
fn card_properties() {
    assert_eq!(Suit::Magic.is_minor(), false);
    assert_eq!(Suit::Stars.is_minor(), true);
    assert_eq!(CardInfo::NoCard.is_card(), false);
    assert_eq!(CardInfo::Card(Suit::Wands, 10).is_card(), true);
    assert_eq!(CardInfo::Card(Suit::Cuups, 8).card_rank(), 8);
    assert_eq!(CardInfo::Card(Suit::Swrds, 4).card_suit(), Suit::Swrds);
}
