//! The site's category labels and the categories they stand for.

use vstd::prelude::*;
use crate::text::{chars_of, same_chars};
use crate::types::{Anime, Audio, Category, Literature, LiveAction, Pictures, Software};

verus! {

/// The label under which the site shows a category: `"<kind> - <variant>"`.
pub open spec fn label(category: Category) -> Seq<char> {
    match category {
        Category::Anime(Anime::AnimeMusicVideo) => "Anime - Anime Music Video"@,
        Category::Anime(Anime::EnglishTranslated) => "Anime - English-translated"@,
        Category::Anime(Anime::NonEnglishTranslated) => "Anime - Non-English-translated"@,
        Category::Anime(Anime::Raw) => "Anime - Raw"@,
        Category::Audio(Audio::Lossless) => "Audio - Lossless"@,
        Category::Audio(Audio::Lossy) => "Audio - Lossy"@,
        Category::Literature(Literature::EnglishTranslated) => "Literature - English-translated"@,
        Category::Literature(Literature::NonEnglishTranslated) => "Literature - Non-English-translated"@,
        Category::Literature(Literature::Raw) => "Literature - Raw"@,
        Category::LiveAction(LiveAction::EnglishTranslated) => "Live Action - English-translated"@,
        Category::LiveAction(LiveAction::IdolPromotionalVideo) => "Live Action - Idol/Promotional Video"@,
        Category::LiveAction(LiveAction::NonEnglishTranslated) => "Live Action - Non-English-translated"@,
        Category::LiveAction(LiveAction::Raw) => "Live Action - Raw"@,
        Category::Pictures(Pictures::Graphics) => "Pictures - Graphics"@,
        Category::Pictures(Pictures::Photos) => "Pictures - Photos"@,
        Category::Software(Software::Applications) => "Software - Applications"@,
        Category::Software(Software::Games) => "Software - Games"@,
    }
}

/// The category that the site shows under `text`, if there is one.
pub open spec fn category_of(text: Seq<char>) -> Option<Category> {
    if exists|c: Category| label(c) == text {
        Some(choose|c: Category| label(c) == text)
    } else {
        None
    }
}

/// No two categories share a label.
pub proof fn lemma_labels_distinct(a: Category, b: Category)
    requires
        label(a) == label(b),
    ensures
        a == b,
{
    reveal_strlit("Anime - Anime Music Video");
    reveal_strlit("Anime - English-translated");
    reveal_strlit("Anime - Non-English-translated");
    reveal_strlit("Anime - Raw");
    reveal_strlit("Audio - Lossless");
    reveal_strlit("Audio - Lossy");
    reveal_strlit("Literature - English-translated");
    reveal_strlit("Literature - Non-English-translated");
    reveal_strlit("Literature - Raw");
    reveal_strlit("Live Action - English-translated");
    reveal_strlit("Live Action - Idol/Promotional Video");
    reveal_strlit("Live Action - Non-English-translated");
    reveal_strlit("Live Action - Raw");
    reveal_strlit("Pictures - Graphics");
    reveal_strlit("Pictures - Photos");
    reveal_strlit("Software - Applications");
    reveal_strlit("Software - Games");
    let x = label(a);
    let y = label(b);
    assert(x.len() == y.len());
    assert(x[0] == y[0]);
    assert(x[8] == y[8]);
    assert(x[9] == y[9]);
    assert(x[13] == y[13]);
    assert(x[14] == y[14]);
}

/// Every category is found again from its own label, and a text that is the
/// label of no category stands for none.
pub proof fn lemma_category_of_label(c: Category)
    ensures
        category_of(label(c)) == Some(c),
{
    let found = choose|d: Category| label(d) == label(c);
    lemma_labels_distinct(found, c);
}

/// A text stands for the category `c` exactly if it is the label of `c`.
pub proof fn lemma_category_of(text: Seq<char>, c: Category)
    ensures
        category_of(text) == Some(c) <==> label(c) == text,
{
    if label(c) == text {
        lemma_category_of_label(c);
    }
}

/// Maps a label of the site to its category. Succeeds on the seventeen labels
/// of [`label`] and on nothing else.
pub fn map_category(text: &str) -> (r: Option<Category>)
    ensures
        r == category_of(text@),
{
    let t = chars_of(text);
    let r = if same_chars(&t, &chars_of("Anime - Anime Music Video")) {
        Some(Category::Anime(Anime::AnimeMusicVideo))
    } else if same_chars(&t, &chars_of("Anime - English-translated")) {
        Some(Category::Anime(Anime::EnglishTranslated))
    } else if same_chars(&t, &chars_of("Anime - Non-English-translated")) {
        Some(Category::Anime(Anime::NonEnglishTranslated))
    } else if same_chars(&t, &chars_of("Anime - Raw")) {
        Some(Category::Anime(Anime::Raw))
    } else if same_chars(&t, &chars_of("Audio - Lossless")) {
        Some(Category::Audio(Audio::Lossless))
    } else if same_chars(&t, &chars_of("Audio - Lossy")) {
        Some(Category::Audio(Audio::Lossy))
    } else if same_chars(&t, &chars_of("Literature - English-translated")) {
        Some(Category::Literature(Literature::EnglishTranslated))
    } else if same_chars(&t, &chars_of("Literature - Non-English-translated")) {
        Some(Category::Literature(Literature::NonEnglishTranslated))
    } else if same_chars(&t, &chars_of("Literature - Raw")) {
        Some(Category::Literature(Literature::Raw))
    } else if same_chars(&t, &chars_of("Live Action - English-translated")) {
        Some(Category::LiveAction(LiveAction::EnglishTranslated))
    } else if same_chars(&t, &chars_of("Live Action - Idol/Promotional Video")) {
        Some(Category::LiveAction(LiveAction::IdolPromotionalVideo))
    } else if same_chars(&t, &chars_of("Live Action - Non-English-translated")) {
        Some(Category::LiveAction(LiveAction::NonEnglishTranslated))
    } else if same_chars(&t, &chars_of("Live Action - Raw")) {
        Some(Category::LiveAction(LiveAction::Raw))
    } else if same_chars(&t, &chars_of("Pictures - Graphics")) {
        Some(Category::Pictures(Pictures::Graphics))
    } else if same_chars(&t, &chars_of("Pictures - Photos")) {
        Some(Category::Pictures(Pictures::Photos))
    } else if same_chars(&t, &chars_of("Software - Applications")) {
        Some(Category::Software(Software::Applications))
    } else if same_chars(&t, &chars_of("Software - Games")) {
        Some(Category::Software(Software::Games))
    } else {
        None
    };
    proof {
        match r {
            Some(c) => {
                lemma_category_of(text@, c);
            },
            None => {
                assert forall|c: Category| label(c) != text@ by {}
            },
        }
    }
    r
}

} // verus!
