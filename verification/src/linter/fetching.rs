//! When a dictionary is fetched, and what becomes of it.

use vstd::prelude::*;

use super::spell::{self, LocationView, PlanView, Present};

verus! {

/// Whether a plan fetches something.
pub open spec fn fetches(plan: PlanView) -> bool {
    plan is FetchWordlist || plan is FetchHunspell
}

/// What is fetched for a language is what is used afterwards, whether there is a network then
/// or not.
pub proof fn law_what_is_fetched_is_used(
    lang: Seq<char>,
    home: Option<Seq<char>>,
    present: Present,
    offline: bool,
    later: bool,
)
    ensures
        match spell::plan_of(lang, home, present, offline) {
            PlanView::FetchWordlist { path, .. } => spell::plan_of(
                lang,
                home,
                Present { txt: true, ..present },
                later,
            ) == PlanView::Use(LocationView::Wordlist(path)),
            PlanView::FetchHunspell { dic, aff, .. } => spell::plan_of(
                lang,
                home,
                Present { dic: true, aff: true, ..present },
                later,
            ) == PlanView::Use(LocationView::Hunspell { dic, aff }),
            _ => true,
        },
{
}

/// A download never begins in the place of a file that is used.
pub proof fn law_downloads_have_places_of_their_own(
    lang: Seq<char>,
    home: Seq<char>,
    present: Present,
    offline: bool,
)
    ensures
        spell::plan_of(lang, Some(home), present, offline) matches PlanView::FetchHunspell {
            dic,
            aff,
            dic_tmp,
            aff_tmp,
            ..
        } ==> dic != aff && dic_tmp != dic && dic_tmp != aff && aff_tmp != dic && aff_tmp != aff
            && dic_tmp != aff_tmp,
{
    let dic = spell::dictionary_file(home, lang, ".dic"@);
    let aff = spell::dictionary_file(home, lang, ".aff"@);
    let dic_tmp = spell::dictionary_file(home, lang, ".dic.part"@);
    let aff_tmp = spell::dictionary_file(home, lang, ".aff.part"@);
    reveal_strlit(".dic");
    reveal_strlit(".aff");
    reveal_strlit(".dic.part");
    reveal_strlit(".aff.part");
    assert(dic.last() == 'c');
    assert(aff.last() == 'f');
    assert(dic_tmp.last() == 't' && aff_tmp.last() == 't');
    assert(dic_tmp[dic_tmp.len() - 6] == 'c');
    assert(aff_tmp[aff_tmp.len() - 6] == 'f');
    assert(dic_tmp.len() == aff_tmp.len());
}

/// A dictionary is fetched exactly where there is none, there is a source for its language
/// and a place to put it, and the network may be used.
pub proof fn law_dictionaries_are_fetched_where_missing(
    lang: Seq<char>,
    home: Option<Seq<char>>,
    present: Present,
    offline: bool,
)
    ensures
        fetches(spell::plan_of(lang, home, present, offline)) <==> {
            &&& home is Some
            &&& !(present.dic && present.aff)
            &&& !present.txt
            &&& spell::remote_of(lang) is Some
            &&& !offline
        },
        spell::plan_of(lang, home, present, offline) is Use <==> home is Some && (present.txt
            || present.dic && present.aff),
{
}

} // verus!
