use savescummer_catalog::identity::slug;
use savescummer_catalog::model::{Detect, IdList};

#[test]
fn prefers_steam_then_gog_then_addendum_then_slug() {
    let mut detect = Detect::default();
    assert_eq!(savescummer_catalog::identity::derive("Some Game!", &detect, None), "some-game");
    assert_eq!(savescummer_catalog::identity::derive("Some Game!", &detect, Some("custom")), "custom");
    detect.gog = Some(IdList::one(123));
    assert_eq!(savescummer_catalog::identity::derive("Some Game!", &detect, Some("custom")), "gog-123");
    detect.steam = Some(IdList::one(456));
    assert_eq!(savescummer_catalog::identity::derive("Some Game!", &detect, Some("custom")), "steam-456");
}

#[test]
fn slugs_keep_letters_and_digits_joined_by_single_dashes() {
    assert_eq!(slug("ADOM: Ancient Domains of Mystery"), "adom-ancient-domains-of-mystery");
    assert_eq!(slug("  --Hello,   World 2!  "), "hello-world-2");
    assert_eq!(slug("Pokémon"), "pok-mon");
    assert_eq!(slug("!!!"), "game");
    assert_eq!(slug(""), "game");
}

#[test]
fn a_blank_addendum_id_falls_through_to_the_slug() {
    let detect = Detect::default();
    assert_eq!(savescummer_catalog::identity::derive("Void War", &detect, Some("  ")), "void-war");
    assert_eq!(savescummer_catalog::identity::derive("Void War", &detect, Some(" custom-id ")), "custom-id");
    let empty = Detect { steam: Some(IdList(vec![])), gog: None };
    assert_eq!(savescummer_catalog::identity::derive("Void War", &empty, None), "void-war");
}
