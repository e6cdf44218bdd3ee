//! What spell checking says of itself stays on one line.

use vstd::prelude::*;

use super::spell;
use crate::text;

verus! {

/// A text without a line feed.
pub open spec fn one_line(s: Seq<char>) -> bool {
    forall|i: int| 0 <= i < s.len() ==> #[trigger] s[i] != '\n'
}

/// The notice of a skipped check is one line: it breaks only where what it names does.
pub proof fn law_skip_notice_is_one_line(
    lang: Seq<char>,
    expected: Option<Seq<char>>,
    reason: Seq<char>,
)
    requires
        one_line(lang),
        expected matches Some(p) ==> one_line(p),
        one_line(reason),
    ensures
        one_line(spell::skipped(lang, expected, reason)),
{
    reveal_strlit("Spell-check skipped: resolved language '");
    reveal_strlit("', but its dictionary (");
    reveal_strlit("<unknown: could not determine home directory>");
    reveal_strlit(") is unavailable: ");
    assert(one_line("Spell-check skipped: resolved language '"@));
    assert(one_line("', but its dictionary ("@));
    assert(one_line("<unknown: could not determine home directory>"@));
    assert(one_line(") is unavailable: "@));
}

/// The notice of a running check is one line: it breaks only where what it names does.
pub proof fn law_running_notice_is_one_line(lang: Seq<char>, loc: spell::LocationView)
    requires
        one_line(lang),
        loc matches spell::LocationView::Wordlist(p) ==> one_line(p),
        loc matches spell::LocationView::Hunspell { dic, aff } ==> one_line(dic) && one_line(aff),
    ensures
        one_line(spell::running(lang, loc)),
{
    reveal_strlit("Spell-check: checking '");
    reveal_strlit("' prose against ");
    reveal_strlit("' prose against Hunspell dictionary ");
    reveal_strlit(" + ");
    assert(one_line("Spell-check: checking '"@));
    assert(one_line("' prose against "@));
    assert(one_line("' prose against Hunspell dictionary "@));
    assert(one_line(" + "@));
}

proof fn lemma_trimmed_line(s: Seq<char>)
    requires
        one_line(s),
    ensures
        one_line(text::trim(s)),
{
    lemma_front_trimmed(s);
    lemma_back_trimmed(text::trim_start(s));
}

proof fn lemma_front_trimmed(s: Seq<char>)
    requires
        one_line(s),
    ensures
        one_line(text::trim_start(s)),
    decreases s.len(),
{
    if s.len() > 0 {
        assert(one_line(s.skip(1)));
        lemma_front_trimmed(s.skip(1));
    }
}

proof fn lemma_back_trimmed(s: Seq<char>)
    requires
        one_line(s),
    ensures
        one_line(text::trim_end(s)),
    decreases s.len(),
{
    if s.len() > 0 {
        assert(one_line(s.drop_last()));
        lemma_back_trimmed(s.drop_last());
    }
}

proof fn lemma_lines(s: Seq<char>)
    ensures
        forall|k: int| 0 <= k < text::lines(s).len() ==> one_line(#[trigger] text::lines(s)[k]),
    decreases s.len(),
{
    if s.len() > 0 {
        text::lemma_find_char_bounds(s, '\n', 0);
        if let Some(k) = text::find_char(s, '\n') {
            lemma_lines(s.skip(k + 1));
            let rest = text::lines(s.skip(k + 1));
            assert(one_line(text::strip_cr(s.take(k))));
            assert forall|j: int| 0 <= j < text::lines(s).len() implies one_line(
                #[trigger] text::lines(s)[j],
            ) by {
                if j > 0 {
                    assert(text::lines(s)[j] == rest[j - 1]);
                }
            }
        }
    }
}

proof fn lemma_solid_lines(ls: Seq<Seq<char>>, k: int)
    requires
        0 <= k,
        forall|j: int| 0 <= j < ls.len() ==> one_line(#[trigger] ls[j]),
    ensures
        forall|j: int|
            0 <= j < spell::solid_lines(ls, k).len() ==> one_line(
                #[trigger] spell::solid_lines(ls, k)[j],
            ),
    decreases ls.len() - k,
{
    if k < ls.len() {
        lemma_trimmed_line(ls[k]);
        lemma_solid_lines(ls, k + 1);
        let all = spell::solid_lines(ls, k);
        let rest = spell::solid_lines(ls, k + 1);
        assert forall|j: int| 0 <= j < all.len() implies one_line(#[trigger] all[j]) by {
            if text::trim(ls[k]).len() > 0 && j > 0 {
                assert(all[j] == rest[j - 1]);
            }
        }
    }
}

proof fn lemma_joined(parts: Seq<Seq<char>>, sep: Seq<char>)
    requires
        one_line(sep),
        forall|j: int| 0 <= j < parts.len() ==> one_line(#[trigger] parts[j]),
    ensures
        one_line(text::join(parts, sep)),
    decreases parts.len(),
{
    if parts.len() > 1 {
        assert forall|j: int| 0 <= j < parts.drop_last().len() implies one_line(
            #[trigger] parts.drop_last()[j],
        ) by {
            assert(one_line(parts[j]));
        }
        lemma_joined(parts.drop_last(), sep);
        assert(one_line(parts.last()));
    }
}

/// However many lines a tool prints, what is told of them is one line.
pub proof fn law_tool_output_is_one_line(t: Seq<char>, n: nat)
    ensures
        one_line(spell::tail(t, n as int)),
{
    reveal_strlit(" | ");
    lemma_lines(t);
    lemma_solid_lines(text::lines(t), 0);
    let ls = spell::solid_lines(text::lines(t), 0);
    let kept = if ls.len() > n {
        ls.skip(ls.len() - n)
    } else {
        ls
    };
    assert forall|j: int| 0 <= j < kept.len() implies one_line(#[trigger] kept[j]) by {
        assert(one_line(ls[j + ls.len() - kept.len()]));
    }
    assert(one_line(" | "@));
    lemma_joined(kept, " | "@);
}

} // verus!
