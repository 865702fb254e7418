//! The search query: splitting it into lower-case tokens, and matching a
//! file name against all of them.
use vstd::prelude::*;
use crate::text::{
    all_white, char_vec_views, chars_of, contains_chars, is_white, lemma_words_of_unbroken_text,
    lemma_words_split_at_white, occurs_in, split_words, string_from_chars, string_views,
    to_lowercase, unicode_lowercase, words,
};

verus! {

/// The tokens of a query: its whitespace-separated words, each in lower
/// case, without the empty ones.
pub open spec fn query_tokens(query: Seq<char>) -> Seq<Seq<char>> {
    words(query).map_values(|w: Seq<char>| unicode_lowercase(w)).filter(
        |t: Seq<char>| t.len() > 0,
    )
}

/// Whether a file name matches every token: each token occurs in the
/// lower-case form of the name. No tokens match every name.
pub open spec fn name_matches(name: Seq<char>, tokens: Seq<Seq<char>>) -> bool {
    forall|i: int| 0 <= i < tokens.len() ==> occurs_in(#[trigger] tokens[i], unicode_lowercase(name))
}

/// Splits a query into its lower-case tokens.
pub fn normalize_query(query: &str) -> (tokens: Vec<String>)
    ensures
        string_views(tokens@) == query_tokens(query@),
{
    let chars = chars_of(query);
    let ws = split_words(&chars);
    let ghost lowered = words(query@).map_values(|w: Seq<char>| unicode_lowercase(w));
    let mut tokens: Vec<String> = Vec::new();
    let n = ws.len();
    let mut i: usize = 0;
    while i < n
        invariant
            n == ws@.len(),
            i <= n,
            char_vec_views(ws@) == words(query@),
            lowered == words(query@).map_values(|w: Seq<char>| unicode_lowercase(w)),
            string_views(tokens@) == lowered.take(i as int).filter(|t: Seq<char>| t.len() > 0),
        decreases n - i,
    {
        let word = string_from_chars(&ws[i]);
        let lower = to_lowercase(word.as_str());
        assert(lowered[i as int] == lower@) by {
            assert(char_vec_views(ws@)[i as int] == ws@[i as int]@);
        }
        assert(lowered.take(i + 1).drop_last() =~= lowered.take(i as int));
        reveal_with_fuel(Seq::<_>::filter, 1);
        if !lower.as_str().is_empty() {
            tokens.push(lower);
            assert(string_views(tokens@) =~= lowered.take(i + 1).filter(
                |t: Seq<char>| t.len() > 0,
            ));
        } else {
            assert(string_views(tokens@) =~= lowered.take(i + 1).filter(
                |t: Seq<char>| t.len() > 0,
            ));
        }
        i = i + 1;
    }
    assert(lowered.take(n as int) =~= lowered);
    tokens
}

/// Whether `name` matches every token of `tokens`.
pub fn matches_name(name: &str, tokens: &[String]) -> (r: bool)
    ensures
        r == name_matches(name@, string_views(tokens@)),
{
    if tokens.len() == 0 {
        return true;
    }
    let normalized = chars_of(to_lowercase(name).as_str());
    let n = tokens.len();
    let mut i: usize = 0;
    while i < n
        invariant
            n == tokens@.len(),
            i <= n,
            normalized@ == unicode_lowercase(name@),
            forall|j: int|
                0 <= j < i ==> occurs_in(
                    #[trigger] string_views(tokens@)[j],
                    unicode_lowercase(name@),
                ),
        decreases n - i,
    {
        let token = chars_of(tokens[i].as_str());
        if !contains_chars(&token, &normalized) {
            assert(string_views(tokens@)[i as int] == token@);
            return false;
        }
        i = i + 1;
    }
    true
}

/// A name matches a list of tokens exactly when it matches each part of the
/// list: the tokens of a query are joined by "and".
pub proof fn lemma_matching_is_conjunctive(
    name: Seq<char>,
    first: Seq<Seq<char>>,
    second: Seq<Seq<char>>,
)
    ensures
        name_matches(name, first + second) == (name_matches(name, first) && name_matches(
            name,
            second,
        )),
{
    let all = first + second;
    if name_matches(name, first) && name_matches(name, second) {
        assert forall|i: int| 0 <= i < all.len() implies occurs_in(
            #[trigger] all[i],
            unicode_lowercase(name),
        ) by {
            if i < first.len() {
                assert(all[i] == first[i]);
            } else {
                assert(all[i] == second[i - first.len()]);
            }
        }
    }
    if name_matches(name, all) {
        assert forall|i: int| 0 <= i < first.len() implies occurs_in(
            #[trigger] first[i],
            unicode_lowercase(name),
        ) by {
            assert(all[i] == first[i]);
        }
        assert forall|i: int| 0 <= i < second.len() implies occurs_in(
            #[trigger] second[i],
            unicode_lowercase(name),
        ) by {
            assert(all[i + first.len()] == second[i]);
        }
    }
}

proof fn lemma_white_has_no_words(s: Seq<char>)
    requires
        all_white(s),
    ensures
        words(s).len() == 0,
    decreases s.len(),
{
    if s.len() > 0 {
        assert(all_white(s.drop_last())) by {
            assert forall|i: int| 0 <= i < s.drop_last().len() implies is_white(
                #[trigger] s.drop_last()[i],
            ) by {
                assert(s.drop_last()[i] == s[i]);
            }
        }
        lemma_white_has_no_words(s.drop_last());
        assert(is_white(s[s.len() - 1]));
    }
}

/// A query of whitespace alone has no tokens, so it matches every name.
pub proof fn lemma_blank_query_matches_everything(query: Seq<char>, name: Seq<char>)
    requires
        all_white(query),
    ensures
        query_tokens(query).len() == 0,
        name_matches(name, query_tokens(query)),
{
    lemma_white_has_no_words(query);
    let lowered = words(query).map_values(|w: Seq<char>| unicode_lowercase(w));
    assert(lowered.len() == 0);
    reveal_with_fuel(Seq::<_>::filter, 1);
}

/// Every token of a query is non-empty.
pub proof fn lemma_tokens_are_nonempty(query: Seq<char>)
    ensures
        forall|i: int|
            0 <= i < query_tokens(query).len() ==> #[trigger] query_tokens(query)[i].len() > 0,
{
    let lowered = words(query).map_values(|w: Seq<char>| unicode_lowercase(w));
    assert forall|i: int| 0 <= i < query_tokens(query).len() implies #[trigger] query_tokens(
        query,
    )[i].len() > 0 by {
        lowered.lemma_filter_pred(|t: Seq<char>| t.len() > 0, i);
    }
}

/// Whether a name matches depends only on its lower-case form: names that
/// differ in case alone match the same queries.
pub proof fn lemma_matching_ignores_case(a: Seq<char>, b: Seq<char>, tokens: Seq<Seq<char>>)
    requires
        unicode_lowercase(a) == unicode_lowercase(b),
    ensures
        name_matches(a, tokens) == name_matches(b, tokens),
{
}

/// A query without whitespace is one token, all of it in lower case,
/// underscores, dots and digits included; it has none only when that lower
/// case form is empty.
pub proof fn lemma_unbroken_query_is_one_token(query: Seq<char>)
    requires
        query.len() > 0,
        forall|i: int| 0 <= i < query.len() ==> !is_white(#[trigger] query[i]),
    ensures
        query_tokens(query) == (if unicode_lowercase(query).len() > 0 {
            seq![unicode_lowercase(query)]
        } else {
            Seq::<Seq<char>>::empty()
        }),
{
    lemma_words_of_unbroken_text(query);
    let lowered = words(query).map_values(|w: Seq<char>| unicode_lowercase(w));
    assert(lowered =~= seq![unicode_lowercase(query)]);
    reveal_with_fuel(Seq::<_>::filter, 2);
    assert(lowered.drop_last() =~= Seq::<Seq<char>>::empty());
}

/// A whitespace character splits a query: the tokens of `a`, a whitespace
/// character and `b` are the tokens of `a` followed by those of `b`.
pub proof fn lemma_query_splits_at_white(a: Seq<char>, w: char, b: Seq<char>)
    requires
        is_white(w),
    ensures
        query_tokens(a + seq![w] + b) == query_tokens(a) + query_tokens(b),
{
    lemma_words_split_at_white(a, w, b);
    let f = |w: Seq<char>| unicode_lowercase(w);
    let la = words(a).map_values(f);
    let lb = words(b).map_values(f);
    assert(words(a + seq![w] + b).map_values(f) =~= la + lb);
    Seq::filter_distributes_over_add(la, lb, |t: Seq<char>| t.len() > 0);
}

/// Whether `token` stands in `text` from position `k` on, character for
/// character.
pub open spec fn stands_at(text: Seq<char>, token: Seq<char>, k: int) -> bool {
    &&& 0 <= k
    &&& k + token.len() <= text.len()
    &&& forall|j: int| 0 <= j < token.len() ==> #[trigger] text[k + j] == token[j]
}

/// A name matches a single token exactly when the token stands, character
/// for character, somewhere in the lower-case form of the name. So every
/// name matches its own lower-case form, dots and all.
pub proof fn lemma_one_token_matches_where_it_occurs(name: Seq<char>, token: Seq<char>)
    ensures
        name_matches(name, seq![token]) <==> exists|k: int|
            #[trigger] stands_at(unicode_lowercase(name), token, k),
        name_matches(name, seq![unicode_lowercase(name)]),
{
    let low = unicode_lowercase(name);
    let ts = seq![token];
    assert(ts[0] == token);
    if name_matches(name, ts) {
        assert(occurs_in(token, low));
        let k = choose|k: int|
            0 <= k && k + token.len() <= low.len() && #[trigger] low.subrange(k, k + token.len())
                =~= token;
        assert forall|j: int| 0 <= j < token.len() implies #[trigger] low[k + j] == token[j] by {
            assert(low.subrange(k, k + token.len())[j] == low[k + j]);
        }
        assert(stands_at(low, token, k));
    }
    if exists|k: int| #[trigger] stands_at(low, token, k) {
        let k = choose|k: int| #[trigger] stands_at(low, token, k);
        assert forall|j: int| 0 <= j < token.len() implies low.subrange(k, k + token.len())[j]
            == token[j] by {
            assert(low[k + j] == token[j]);
        }
        assert(low.subrange(k, k + token.len()) =~= token);
        assert(occurs_in(token, low));
        assert forall|i: int| 0 <= i < ts.len() implies occurs_in(#[trigger] ts[i], low) by {}
    }
    let own = seq![low];
    assert(own[0] == low);
    assert forall|i: int| 0 <= i < own.len() implies occurs_in(#[trigger] own[i], low) by {
        assert(low.subrange(0int, 0int + own[i].len()) =~= own[i]);
    }
}

} // verus!
