use vstd::prelude::*;

verus! {

/// One row of the radicals table as the content provider delivers it; the radical forms are
/// still one string.
#[derive(Clone, Debug)]
pub struct Radical {
    pub number: i32,
    pub radical_forms: String,
    pub stroke_count: i32,
    pub meaning: String,
    pub colloquial_term: Option<String>,
    pub pinyin: String,
    pub han_viet: String,
    pub hiragana_romaji: String,
    pub hangul_romaja: String,
    pub frequency: i32,
    pub simplified: Option<String>,
    pub examples: String,
}

} // verus!
