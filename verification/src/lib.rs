//! Reads the value of an Accept-Language header: the languages that it
//! names, the most preferred first, and those among them that an application
//! supports.

pub mod binary64;
pub mod language;
pub mod natural;
pub mod number;
pub mod ranking;
pub mod text;

use crate::binary64::ONE;
use crate::language::{language_from, tag_of, Language, Tag};
use crate::ranking::{descending, is_ranking, lemma_ranked, ranked, sort_by_preference, tags_of};
use crate::text::{chars_of, segments, split, strip_spaces, texts, without_spaces};
use vstd::prelude::*;

verus! {

/// The predicate that holds of every name but the empty one.
pub open spec fn not_empty() -> spec_fn(Seq<char>) -> bool {
    |name: Seq<char>| name.len() > 0
}

/// The predicate that holds of the names that occur in `supported`.
pub open spec fn is_among(supported: Seq<Seq<char>>) -> spec_fn(Seq<char>) -> bool {
    |name: Seq<char>| supported.contains(name)
}

/// The names of the tags, in order.
pub open spec fn names_of(tags: Seq<Tag>) -> Seq<Seq<char>> {
    Seq::new(tags.len(), |i: int| tags[i].name)
}

/// The tags that the segments stand for, in order.
pub open spec fn tags_from(pieces: Seq<Seq<char>>) -> Seq<Tag> {
    Seq::new(pieces.len(), |i: int| tag_of(pieces[i]))
}

/// The tags of a header, in the order in which it gives them: the header
/// without its spaces, cut at the commas.
pub open spec fn header_tags(raw: Seq<char>) -> Seq<Tag> {
    tags_from(segments(without_spaces(raw), ','))
}

/// The languages that a header names, the most preferred first. Languages of
/// one weight stand in the order in which the header gives them, and a
/// segment without a name gives no language.
pub open spec fn preference_list(raw: Seq<char>) -> Seq<Seq<char>> {
    names_of(ranked(header_tags(raw))).filter(not_empty())
}

/// The names that occur in `supported`, in the order that they have in
/// `names`.
pub open spec fn supported_only(names: Seq<Seq<char>>, supported: Seq<Seq<char>>) -> Seq<Seq<char>> {
    names.filter(is_among(supported))
}

/// Filtering a second time changes nothing.
pub proof fn lemma_filter_twice(names: Seq<Seq<char>>, pred: spec_fn(Seq<char>) -> bool)
    ensures
        names.filter(pred).filter(pred) == names.filter(pred),
    decreases names.len(),
{
    reveal(Seq::filter);
    if names.len() > 0 {
        let front = names.drop_last();
        lemma_filter_twice(front, pred);
        if pred(names.last()) {
            front.filter(pred).lemma_filter_push(names.last(), pred);
        }
    }
}

/// Each name that is left after filtering meets the predicate and is a name
/// of the sequence that was filtered.
pub proof fn lemma_filter_keeps(names: Seq<Seq<char>>, pred: spec_fn(Seq<char>) -> bool, i: int)
    requires
        0 <= i < names.filter(pred).len(),
    ensures
        pred(names.filter(pred)[i]),
        names.contains(names.filter(pred)[i]),
    decreases names.len(),
{
    reveal(Seq::filter);
    if names.len() > 0 {
        let front = names.drop_last();
        if i < front.filter(pred).len() {
            lemma_filter_keeps(front, pred, i);
            let j = choose|j: int| 0 <= j < front.len() && front[j] == front.filter(pred)[i];
            assert(names[j] == front[j]);
        } else {
            assert(names[names.len() - 1] == names.last());
        }
    }
}

/// What is supported among the supported languages of a list is all of
/// them: selecting a second time with the same supported languages gives the
/// same list.
pub proof fn lemma_supported_only_twice(names: Seq<Seq<char>>, supported: Seq<Seq<char>>)
    ensures
        supported_only(supported_only(names, supported), supported) == supported_only(
            names,
            supported,
        ),
{
    lemma_filter_twice(names, is_among(supported));
}

/// Each language that `supported_only` gives is one of `names` and one of
/// `supported`.
pub proof fn lemma_supported_only_members(
    names: Seq<Seq<char>>,
    supported: Seq<Seq<char>>,
    i: int,
)
    requires
        0 <= i < supported_only(names, supported).len(),
    ensures
        names.contains(supported_only(names, supported)[i]),
        supported.contains(supported_only(names, supported)[i]),
{
    lemma_filter_keeps(names, is_among(supported), i);
}

/// No language of a preference list has an empty name.
pub proof fn lemma_preference_list_names(raw: Seq<char>, i: int)
    requires
        0 <= i < preference_list(raw).len(),
    ensures
        preference_list(raw)[i].len() > 0,
{
    lemma_filter_keeps(names_of(ranked(header_tags(raw))), not_empty(), i);
}

/// The tags behind a preference list are those of the header, with weights
/// that never rise and with the tags of each weight in the order of the
/// header.
pub proof fn lemma_preference_list_order(raw: Seq<char>)
    ensures
        is_ranking(header_tags(raw), ranked(header_tags(raw))),
        descending(ranked(header_tags(raw))),
{
    lemma_ranked(header_tags(raw), header_tags(raw));
}

/// Spaces count for nothing: two headers that differ in their spaces only
/// have the same preference list.
pub proof fn lemma_spaces_ignored(a: Seq<char>, b: Seq<char>)
    requires
        without_spaces(a) == without_spaces(b),
    ensures
        preference_list(a) == preference_list(b),
{
}

/// A space put into a header anywhere leaves its preference list as it is.
pub proof fn lemma_space_inserted(raw: Seq<char>, at: int)
    requires
        0 <= at <= raw.len(),
    ensures
        preference_list(raw.insert(at, ' ')) == preference_list(raw),
{
    let pred = crate::text::not_space();
    let head = raw.take(at);
    let tail = raw.skip(at);
    assert(raw.insert(at, ' ') =~= head.push(' ') + tail);
    assert(raw =~= head + tail);
    Seq::filter_distributes_over_add(head.push(' '), tail, pred);
    Seq::filter_distributes_over_add(head, tail, pred);
    head.lemma_filter_push(' ', pred);
}

/// An empty header names no language.
pub proof fn lemma_empty_header()
    ensures
        preference_list(Seq::<char>::empty()) == Seq::<Seq<char>>::empty(),
{
    reveal(Seq::filter);
    let nothing = Seq::<char>::empty();
    assert(without_spaces(nothing) == nothing);
    assert(segments(nothing, ',') =~= seq![nothing]);
    let only = Tag { name: nothing, quality: ONE };
    let tags = header_tags(nothing);
    assert(tags =~= seq![only]);
    assert(descending(tags));
    assert(is_ranking(tags, tags));
    lemma_ranked(tags, tags);
    let names = names_of(tags);
    assert(names =~= seq![nothing]);
    assert(names.drop_last() =~= Seq::<Seq<char>>::empty());
    assert(names.drop_last().filter(not_empty()) =~= Seq::<Seq<char>>::empty());
}

/// Whether `a` and `b` hold the same characters.
fn same(a: &Vec<char>, b: &Vec<char>) -> (r: bool)
    ensures
        r == (a@ == b@),
{
    if a.len() != b.len() {
        return false;
    }
    let mut i: usize = 0;
    while i < a.len()
        invariant
            i <= a.len(),
            a.len() == b.len(),
            forall|j: int| 0 <= j < i ==> a@[j] == b@[j],
        decreases a.len() - i,
    {
        if a[i] != b[i] {
            return false;
        }
        i += 1;
    }
    assert(a@ =~= b@);
    true
}

/// Whether `name` occurs in `supported`.
fn occurs(name: &Vec<char>, supported: &Vec<Vec<char>>) -> (r: bool)
    ensures
        r == texts(supported@).contains(name@),
{
    let mut j: usize = 0;
    while j < supported.len()
        invariant
            j <= supported.len(),
            forall|k: int| 0 <= k < j ==> texts(supported@)[k] != name@,
        decreases supported.len() - j,
    {
        if same(&supported[j], name) {
            assert(texts(supported@)[j as int] == name@);
            return true;
        }
        j += 1;
    }
    false
}

/// The languages that the header `raw_languages` names, the most preferred
/// first.
pub fn parse(raw_languages: &str) -> (names: Vec<String>)
    ensures
        names.deep_view() == preference_list(raw_languages@),
        raw_languages@.len() == 0 ==> names.len() == 0,
{
    let raw = chars_of(raw_languages);
    let stripped = strip_spaces(&raw);
    let pieces = split(&stripped, ',');
    let mut languages: Vec<Language> = Vec::new();
    let mut i: usize = 0;
    while i < pieces.len()
        invariant
            i <= pieces.len(),
            languages@.len() == i,
            forall|j: int| 0 <= j < i ==> (#[trigger] languages@[j])@ == tag_of(pieces@[j]@),
        decreases pieces.len() - i,
    {
        let language = language_from(&pieces[i]);
        languages.push(language);
        i += 1;
    }
    proof {
        assert(tags_of(languages@) =~= header_tags(raw_languages@));
    }
    let sorted = sort_by_preference(languages);
    let ghost all = names_of(ranked(header_tags(raw_languages@)));
    let mut names: Vec<String> = Vec::new();
    let mut k: usize = 0;
    proof {
        reveal(Seq::filter);
        assert(all.take(0) =~= Seq::<Seq<char>>::empty());
        assert(names.deep_view() =~= Seq::<Seq<char>>::empty());
    }
    while k < sorted.len()
        invariant
            k <= sorted.len(),
            all.len() == sorted.len(),
            forall|j: int| 0 <= j < sorted.len() ==> all[j] == (#[trigger] sorted@[j]).name@,
            names.deep_view() == all.take(k as int).filter(not_empty()),
        decreases sorted.len() - k,
    {
        let name = sorted[k].name.clone();
        proof {
            let before = all.take(k as int);
            assert(all.take(k + 1) =~= before.push(name@));
            before.lemma_filter_push(name@, not_empty());
        }
        if !name.as_str().is_empty() {
            let ghost held = names.deep_view();
            names.push(name);
            assert(names.deep_view() =~= held.push(name@));
        }
        k += 1;
    }
    proof {
        assert(all.take(sorted.len() as int) =~= all);
        if raw_languages@.len() == 0 {
            lemma_empty_header();
            assert(raw_languages@ =~= Seq::<char>::empty());
        }
    }
    names
}

/// The languages that the header `raw_languages` names and that occur in
/// `supported_languages`, the most preferred first.
pub fn intersection(raw_languages: &str, supported_languages: Vec<&str>) -> (common: Vec<String>)
    ensures
        common.deep_view() == supported_only(
            preference_list(raw_languages@),
            supported_languages.deep_view(),
        ),
{
    let user_languages = parse(raw_languages);
    let mut supported: Vec<Vec<char>> = Vec::new();
    let mut i: usize = 0;
    while i < supported_languages.len()
        invariant
            i <= supported_languages.len(),
            supported@.len() == i,
            forall|j: int| 0 <= j < i ==> (#[trigger] supported@[j])@ == supported_languages@[j]@,
        decreases supported_languages.len() - i,
    {
        supported.push(chars_of(supported_languages[i]));
        i += 1;
    }
    let ghost wanted = supported_languages.deep_view();
    let ghost all = user_languages.deep_view();
    proof {
        assert(texts(supported@) =~= wanted);
    }
    let mut common: Vec<String> = Vec::new();
    let mut k: usize = 0;
    proof {
        reveal(Seq::filter);
        assert(all.take(0) =~= Seq::<Seq<char>>::empty());
        assert(common.deep_view() =~= Seq::<Seq<char>>::empty());
    }
    while k < user_languages.len()
        invariant
            k <= user_languages.len(),
            all == user_languages.deep_view(),
            texts(supported@) == wanted,
            common.deep_view() == all.take(k as int).filter(is_among(wanted)),
        decreases user_languages.len() - k,
    {
        let name = user_languages[k].clone();
        let letters = chars_of(name.as_str());
        proof {
            let before = all.take(k as int);
            assert(all[k as int] == name@);
            assert(all.take(k + 1) =~= before.push(name@));
            before.lemma_filter_push(name@, is_among(wanted));
        }
        if occurs(&letters, &supported) {
            let ghost held = common.deep_view();
            common.push(name);
            assert(common.deep_view() =~= held.push(name@));
        }
        k += 1;
    }
    proof {
        assert(all.take(user_languages.len() as int) =~= all);
    }
    common
}

} // verus!
