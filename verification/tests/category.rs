use nyaadesu::{
    map_category, Anime, Audio, Category, Literature, LiveAction, Pictures, Software,
};

#[test]
fn maps_each_label_to_its_category() {
    assert_eq!(map_category("Anime - Anime Music Video"), Some(Category::Anime(Anime::AnimeMusicVideo)));
    assert_eq!(map_category("Anime - English-translated"), Some(Category::Anime(Anime::EnglishTranslated)));
    assert_eq!(map_category("Anime - Non-English-translated"), Some(Category::Anime(Anime::NonEnglishTranslated)));
    assert_eq!(map_category("Anime - Raw"), Some(Category::Anime(Anime::Raw)));
    assert_eq!(map_category("Audio - Lossless"), Some(Category::Audio(Audio::Lossless)));
    assert_eq!(map_category("Audio - Lossy"), Some(Category::Audio(Audio::Lossy)));
    assert_eq!(map_category("Literature - English-translated"), Some(Category::Literature(Literature::EnglishTranslated)));
    assert_eq!(map_category("Literature - Non-English-translated"), Some(Category::Literature(Literature::NonEnglishTranslated)));
    assert_eq!(map_category("Literature - Raw"), Some(Category::Literature(Literature::Raw)));
    assert_eq!(map_category("Live Action - English-translated"), Some(Category::LiveAction(LiveAction::EnglishTranslated)));
    assert_eq!(map_category("Live Action - Idol/Promotional Video"), Some(Category::LiveAction(LiveAction::IdolPromotionalVideo)));
    assert_eq!(map_category("Live Action - Non-English-translated"), Some(Category::LiveAction(LiveAction::NonEnglishTranslated)));
    assert_eq!(map_category("Live Action - Raw"), Some(Category::LiveAction(LiveAction::Raw)));
    assert_eq!(map_category("Pictures - Graphics"), Some(Category::Pictures(Pictures::Graphics)));
    assert_eq!(map_category("Pictures - Photos"), Some(Category::Pictures(Pictures::Photos)));
    assert_eq!(map_category("Software - Applications"), Some(Category::Software(Software::Applications)));
    assert_eq!(map_category("Software - Games"), Some(Category::Software(Software::Games)));
}

#[test]
fn maps_no_other_text() {
    assert_eq!(map_category(""), None);
    assert_eq!(map_category("Anime"), None);
    assert_eq!(map_category("Anime - raw"), None);
    assert_eq!(map_category("Anime - Raw "), None);
    assert_eq!(map_category(" Anime - Raw"), None);
    assert_eq!(map_category("Anime-Raw"), None);
    assert_eq!(map_category("Audio - Raw"), None);
    assert_eq!(map_category("Software - Applications - Games"), None);
    assert_eq!(map_category("Live Action - Idol/Promotional Vide"), None);
}
