use vstd::prelude::*;

use crate::radical_from_csv;

verus! {

/// Whether `c` has the Unicode `Alphabetic` property.
pub uninterp spec fn alphabetic(c: char) -> bool;

/// Relies on `char::is_alphabetic`: whether `c` has the Unicode `Alphabetic` property, which
/// depends on `c` alone.
#[verifier::external_body]
fn is_alphabetic(c: char) -> (r: bool)
    ensures
        r == alphabetic(c),
{
    c.is_alphabetic()
}

/// `c` lies in the ASCII range.
pub open spec fn ascii_char(c: char) -> bool {
    c < '\u{80}'
}

/// A radical form: a letter outside the ASCII range.
pub open spec fn is_radical_form(c: char) -> bool {
    alphabetic(c) && !ascii_char(c)
}

/// The test for a radical form, as a predicate.
pub open spec fn radical_form_test() -> spec_fn(char) -> bool {
    |c: char| is_radical_form(c)
}

/// The radical forms written in `s`, in order; separators, spaces and ASCII letters drop out.
pub open spec fn radical_forms_in(s: Seq<char>) -> Seq<char> {
    s.filter(radical_form_test())
}

/// Whether `c`, whose `Alphabetic` property is `is_letter`, counts as a radical form.
pub fn counts_as_radical_form(c: char, is_letter: bool) -> (r: bool)
    ensures
        r == (is_letter && !ascii_char(c)),
{
    is_letter && c >= '\u{80}'
}

/// The characters of `s` that are radical forms, in order.
pub fn radical_forms_of(s: &str) -> (r: Vec<char>)
    ensures
        r@ == radical_forms_in(s@),
{
    let mut r: Vec<char> = Vec::new();
    for c in it: s.chars()
        invariant
            it.seq() == s@,
            r@ == it.seq().subrange(0, it.index() as int).filter(radical_form_test()),
    {
        let ghost prefix = it.seq().subrange(0, it.index() as int);
        proof {
            assert(it.seq().subrange(0, it.index() + 1) =~= prefix.push(c));
            prefix.lemma_filter_push(c, radical_form_test());
        }
        let keep = counts_as_radical_form(c, is_alphabetic(c));
        if keep {
            r.push(c);
        }
    }
    proof {
        assert(s@.subrange(0, s@.len() as int) =~= s@);
    }
    r
}

/// A radical with its forms split into characters.
#[derive(Clone, Debug)]
pub struct Radical {
    pub number: i32,
    pub radical_forms: Vec<char>,
    pub stroke_count: i32,
    pub meaning: String,
    pub colloquial_term: Option<String>,
    pub pinyin: String,
    pub han_viet: String,
    pub hiragana_romaji: String,
    pub hangul_romaja: String,
    pub frequency: i32,
    pub simplified: Option<String>,
    pub examples: String,
}

impl From<radical_from_csv::Radical> for Radical {
    /// Keeps every field but the forms, which become the radical forms of the row's string.
    fn from(value: radical_from_csv::Radical) -> (r: Self)
        ensures
            r.radical_forms@ == radical_forms_in(value.radical_forms@),
            r.number == value.number,
            r.stroke_count == value.stroke_count,
            r.meaning == value.meaning,
            r.colloquial_term == value.colloquial_term,
            r.pinyin == value.pinyin,
            r.han_viet == value.han_viet,
            r.hiragana_romaji == value.hiragana_romaji,
            r.hangul_romaja == value.hangul_romaja,
            r.frequency == value.frequency,
            r.simplified == value.simplified,
            r.examples == value.examples,
    {
        let radical_forms_vec = radical_forms_of(value.radical_forms.as_str());
        Radical {
            radical_forms: radical_forms_vec,
            number: value.number,
            stroke_count: value.stroke_count,
            meaning: value.meaning,
            colloquial_term: value.colloquial_term,
            pinyin: value.pinyin,
            han_viet: value.han_viet,
            hiragana_romaji: value.hiragana_romaji,
            hangul_romaja: value.hangul_romaja,
            frequency: value.frequency,
            simplified: value.simplified,
            examples: value.examples,
        }
    }
}

impl vstd::std_specs::convert::FromSpecImpl<radical_from_csv::Radical> for Radical {
    open spec fn obeys_from_spec() -> bool {
        false
    }

    open spec fn from_spec(v: radical_from_csv::Radical) -> Radical {
        arbitrary()
    }
}

} // verus!
