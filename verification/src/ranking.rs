//! Putting tags in order of preference: the largest weight first, and tags
//! of one weight in the order in which they came.

use crate::binary64::{rank, rank_of};
use crate::language::{Language, Tag};
use vstd::prelude::*;

verus! {

/// The predicate that holds of the tags whose weight has the rank `r`.
pub open spec fn has_rank(r: int) -> spec_fn(Tag) -> bool {
    |tag: Tag| rank(tag.quality) == r
}

/// Whether no tag is followed by one of a larger weight.
pub open spec fn descending(tags: Seq<Tag>) -> bool {
    forall|i: int, j: int|
        0 <= i < j < tags.len() ==> rank(#[trigger] tags[i].quality) >= rank(
            #[trigger] tags[j].quality,
        )
}

/// Whether `ranking` holds the tags of `tags` in order of preference: the
/// weights never rise, and the tags of each weight are those of `tags`, in
/// the order that they have there.
pub open spec fn is_ranking(tags: Seq<Tag>, ranking: Seq<Tag>) -> bool {
    &&& descending(ranking)
    &&& forall|r: int| #[trigger] ranking.filter(has_rank(r)) == tags.filter(has_rank(r))
}

/// The tags in order of preference.
pub open spec fn ranked(tags: Seq<Tag>) -> Seq<Tag> {
    choose|ranking: Seq<Tag>| is_ranking(tags, ranking)
}

/// The tags that the languages hold, in order.
pub open spec fn tags_of(languages: Seq<Language>) -> Seq<Tag> {
    Seq::new(languages.len(), |i: int| languages[i]@)
}

/// A sequence of which no element meets `pred` has nothing left when
/// filtered.
pub proof fn lemma_filter_none(tags: Seq<Tag>, pred: spec_fn(Tag) -> bool)
    requires
        forall|i: int| 0 <= i < tags.len() ==> !pred(#[trigger] tags[i]),
    ensures
        tags.filter(pred) == Seq::<Tag>::empty(),
    decreases tags.len(),
{
    reveal(Seq::filter);
    if tags.len() > 0 {
        let front = tags.drop_last();
        assert forall|i: int| 0 <= i < front.len() implies !pred(#[trigger] front[i]) by {
            assert(front[i] == tags[i]);
        }
        lemma_filter_none(front, pred);
    }
}

/// What is left of a sequence when filtered is not empty where an element
/// meets `pred`, and each element left is one of the sequence.
pub proof fn lemma_filter_some(tags: Seq<Tag>, pred: spec_fn(Tag) -> bool)
    ensures
        (exists|i: int| 0 <= i < tags.len() && pred(#[trigger] tags[i])) <==> tags.filter(pred).len()
            > 0,
    decreases tags.len(),
{
    reveal(Seq::filter);
    if tags.len() > 0 {
        let front = tags.drop_last();
        lemma_filter_some(front, pred);
        if pred(tags.last()) {
            assert(pred(tags[tags.len() - 1]));
        } else if front.filter(pred).len() > 0 {
            let i = choose|i: int| 0 <= i < front.len() && pred(#[trigger] front[i]);
            assert(tags[i] == front[i]);
        } else {
            assert forall|i: int| 0 <= i < tags.len() implies !pred(#[trigger] tags[i]) by {
                if i < front.len() {
                    assert(front[i] == tags[i]);
                }
            }
        }
    }
}

/// Putting `x` into a ranking of `rest`, behind every tag of a larger
/// weight and before all others, gives a ranking of `x` followed by `rest`.
pub proof fn lemma_insert(rest: Seq<Tag>, ranking: Seq<Tag>, x: Tag, p: int)
    requires
        is_ranking(rest, ranking),
        0 <= p <= ranking.len(),
        forall|j: int| 0 <= j < p ==> rank(#[trigger] ranking[j].quality) > rank(x.quality),
        forall|j: int|
            p <= j < ranking.len() ==> rank(#[trigger] ranking[j].quality) <= rank(x.quality),
    ensures
        is_ranking(seq![x] + rest, ranking.insert(p, x)),
{
    let longer = ranking.insert(p, x);
    let head = ranking.take(p);
    let tail = ranking.skip(p);
    ranking.insert_ensures(p, x);
    assert(descending(longer)) by {
        assert forall|i: int, j: int| 0 <= i < j < longer.len() implies rank(
            #[trigger] longer[i].quality,
        ) >= rank(#[trigger] longer[j].quality) by {
            let a = if i < p { ranking[i] } else if i == p { x } else { ranking[i - 1] };
            let b = if j < p { ranking[j] } else if j == p { x } else { ranking[j - 1] };
            assert(longer[i] == a);
            assert(longer[j] == b);
        }
    }
    assert(longer =~= head + seq![x] + tail);
    assert(ranking =~= head + tail);
    assert forall|r: int| #[trigger]
        longer.filter(has_rank(r)) == (seq![x] + rest).filter(has_rank(r)) by {
        let h = has_rank(r);
        Seq::filter_distributes_over_add(head + seq![x], tail, h);
        Seq::filter_distributes_over_add(head, seq![x], h);
        Seq::filter_distributes_over_add(head, tail, h);
        Seq::filter_distributes_over_add(seq![x], rest, h);
        assert(ranking.filter(h) == rest.filter(h));
        if h(x) {
            assert forall|i: int| 0 <= i < head.len() implies !h(#[trigger] head[i]) by {
                assert(head[i] == ranking[i]);
            }
            lemma_filter_none(head, h);
            assert(tail.filter(h) == ranking.filter(h));
            assert(longer.filter(h) =~= seq![x].filter(h) + rest.filter(h));
        } else {
            assert forall|i: int| 0 <= i < seq![x].len() implies !h(#[trigger] seq![x][i]) by {}
            lemma_filter_none(seq![x], h);
            assert(longer.filter(h) =~= ranking.filter(h));
            assert((seq![x] + rest).filter(h) =~= rest.filter(h));
        }
    }
}

/// The place of `x` in the ranking: behind the tags of a larger weight.
proof fn lemma_place(ranking: Seq<Tag>, x: Tag) -> (p: int)
    requires
        descending(ranking),
    ensures
        0 <= p <= ranking.len(),
        forall|j: int| 0 <= j < p ==> rank(#[trigger] ranking[j].quality) > rank(x.quality),
        forall|j: int|
            p <= j < ranking.len() ==> rank(#[trigger] ranking[j].quality) <= rank(x.quality),
    decreases ranking.len(),
{
    if ranking.len() == 0 || rank(ranking.last().quality) > rank(x.quality) {
        if ranking.len() > 0 {
            assert forall|j: int| 0 <= j < ranking.len() implies rank(
                #[trigger] ranking[j].quality,
            ) > rank(x.quality) by {
                if j < ranking.len() - 1 {
                    assert(rank(ranking[j].quality) >= rank(ranking[ranking.len() - 1].quality));
                }
            }
        }
        ranking.len() as int
    } else {
        let front = ranking.drop_last();
        assert(descending(front)) by {
            assert forall|i: int, j: int| 0 <= i < j < front.len() implies rank(
                #[trigger] front[i].quality,
            ) >= rank(#[trigger] front[j].quality) by {
                assert(front[i] == ranking[i]);
                assert(front[j] == ranking[j]);
            }
        }
        let p = lemma_place(front, x);
        assert forall|j: int| 0 <= j < p implies rank(#[trigger] ranking[j].quality) > rank(
            x.quality,
        ) by {
            assert(front[j] == ranking[j]);
        }
        assert forall|j: int| p <= j < ranking.len() implies rank(#[trigger] ranking[j].quality)
            <= rank(x.quality) by {
            if j < front.len() {
                assert(front[j] == ranking[j]);
            }
        }
        p
    }
}

/// Every sequence of tags has a ranking, which holds each tag as often as
/// the sequence does.
pub proof fn lemma_ranking_exists(tags: Seq<Tag>) -> (ranking: Seq<Tag>)
    ensures
        is_ranking(tags, ranking),
        ranking.to_multiset() == tags.to_multiset(),
    decreases tags.len(),
{
    if tags.len() == 0 {
        tags
    } else {
        let x = tags[0];
        let rest = tags.drop_first();
        let ranking = lemma_ranking_exists(rest);
        let p = lemma_place(ranking, x);
        lemma_insert(rest, ranking, x, p);
        assert(tags =~= seq![x] + rest);
        assert(tags =~= rest.insert(0, x));
        vstd::seq_lib::to_multiset_insert(ranking, p, x);
        vstd::seq_lib::to_multiset_insert(rest, 0, x);
        ranking.insert(p, x)
    }
}

/// Two sequences in which the weights never rise, and which hold the same
/// tags of each weight in the same order, are one sequence.
pub proof fn lemma_same(a: Seq<Tag>, b: Seq<Tag>)
    requires
        descending(a),
        descending(b),
        forall|r: int| #[trigger] a.filter(has_rank(r)) == b.filter(has_rank(r)),
    ensures
        a == b,
    decreases a.len(),
{
    reveal(Seq::filter);
    if a.len() == 0 {
        if b.len() > 0 {
            let h = has_rank(rank(b[0].quality));
            assert(h(b[0]));
            lemma_filter_some(b, h);
            assert(a.filter(h) == b.filter(h));
        }
        assert(a =~= b);
    } else {
        let x = a.last();
        let r = rank(x.quality);
        let h = has_rank(r);
        assert(a.filter(h) == b.filter(h));
        assert(h(a[a.len() - 1]));
        lemma_filter_some(a, h);
        lemma_filter_some(b, h);
        assert(b.len() > 0);
        let y = b.last();
        let s = rank(y.quality);
        let g = has_rank(s);
        assert(a.filter(g) == b.filter(g));
        assert(g(b[b.len() - 1]));
        lemma_filter_some(a, g);
        lemma_filter_some(b, g);
        let i = choose|i: int| 0 <= i < a.len() && g(#[trigger] a[i]);
        let j = choose|j: int| 0 <= j < b.len() && h(#[trigger] b[j]);
        assert(rank(a[i].quality) >= rank(a[a.len() - 1].quality));
        assert(rank(b[j].quality) >= rank(b[b.len() - 1].quality));
        assert(r == s);
        let front_a = a.drop_last();
        let front_b = b.drop_last();
        assert(a.filter(h) == front_a.filter(h).push(x));
        assert(b.filter(h) == front_b.filter(h).push(y));
        assert(x == a.filter(h).last());
        assert(y == b.filter(h).last());
        assert(front_a.filter(h) =~= a.filter(h).drop_last());
        assert(front_b.filter(h) =~= b.filter(h).drop_last());
        assert forall|q: int| #[trigger]
            front_a.filter(has_rank(q)) == front_b.filter(has_rank(q)) by {
            assert(a.filter(has_rank(q)) == b.filter(has_rank(q)));
        }
        assert(descending(front_a)) by {
            assert forall|i: int, j: int| 0 <= i < j < front_a.len() implies rank(
                #[trigger] front_a[i].quality,
            ) >= rank(#[trigger] front_a[j].quality) by {
                assert(front_a[i] == a[i]);
                assert(front_a[j] == a[j]);
            }
        }
        assert(descending(front_b)) by {
            assert forall|i: int, j: int| 0 <= i < j < front_b.len() implies rank(
                #[trigger] front_b[i].quality,
            ) >= rank(#[trigger] front_b[j].quality) by {
                assert(front_b[i] == b[i]);
                assert(front_b[j] == b[j]);
            }
        }
        lemma_same(front_a, front_b);
        assert(a =~= front_a.push(x));
        assert(b =~= front_b.push(y));
    }
}

/// `ranked` is a ranking, and the only one. It holds each tag as often as
/// the sequence does, so it is as long.
pub proof fn lemma_ranked(tags: Seq<Tag>, ranking: Seq<Tag>)
    ensures
        is_ranking(tags, ranked(tags)),
        ranked(tags).to_multiset() == tags.to_multiset(),
        ranked(tags).len() == tags.len(),
        is_ranking(tags, ranking) ==> ranking == ranked(tags),
{
    let witness = lemma_ranking_exists(tags);
    lemma_unique(tags, witness, ranked(tags));
    tags.to_multiset_ensures();
    witness.to_multiset_ensures();
    if is_ranking(tags, ranking) {
        lemma_unique(tags, ranking, ranked(tags));
    }
}

/// A sequence of tags has one ranking only.
pub proof fn lemma_unique(tags: Seq<Tag>, a: Seq<Tag>, b: Seq<Tag>)
    requires
        is_ranking(tags, a),
        is_ranking(tags, b),
    ensures
        a == b,
{
    assert forall|r: int| #[trigger] a.filter(has_rank(r)) == b.filter(has_rank(r)) by {
        assert(a.filter(has_rank(r)) == tags.filter(has_rank(r)));
        assert(b.filter(has_rank(r)) == tags.filter(has_rank(r)));
    }
    lemma_same(a, b);
}

/// Puts the languages in order of preference.
pub fn sort_by_preference(languages: Vec<Language>) -> (sorted: Vec<Language>)
    ensures
        tags_of(sorted@) == ranked(tags_of(languages@)),
{
    let ghost all = tags_of(languages@);
    let mut rest = languages;
    let mut sorted: Vec<Language> = Vec::new();
    proof {
        reveal(Seq::filter);
        assert(all.skip(all.len() as int) =~= Seq::<Tag>::empty());
        assert(tags_of(sorted@) =~= Seq::<Tag>::empty());
        assert(all.take(all.len() as int) =~= all);
    }
    while rest.len() > 0
        invariant
            rest@.len() <= all.len(),
            tags_of(rest@) == all.take(rest@.len() as int),
            is_ranking(all.skip(rest@.len() as int), tags_of(sorted@)),
        decreases rest.len(),
    {
        let ghost before = rest@;
        let language = rest.pop().unwrap();
        let key = rank_of(language.quality);
        let mut p: usize = 0;
        while p < sorted.len() && rank_of(sorted[p].quality) > key
            invariant
                p <= sorted.len(),
                key == rank(language.quality),
                forall|j: int| 0 <= j < p ==> rank(#[trigger] sorted@[j].quality) > key,
            decreases sorted.len() - p,
        {
            p += 1;
        }
        proof {
            let ranking = tags_of(sorted@);
            let n = rest@.len() as int;
            let x = language@;
            assert(x == all[n]) by {
                assert(tags_of(before)[n] == before[n]@);
                assert(all.take(before.len() as int)[n] == all[n]);
            }
            assert forall|j: int| 0 <= j < p implies rank(#[trigger] ranking[j].quality) > rank(
                x.quality,
            ) by {
                assert(ranking[j] == sorted@[j]@);
            }
            assert forall|j: int| p <= j < ranking.len() implies rank(
                #[trigger] ranking[j].quality,
            ) <= rank(x.quality) by {
                assert(ranking[j] == sorted@[j]@);
                assert(ranking[p as int] == sorted@[p as int]@);
                if j > p {
                    assert(rank(ranking[p as int].quality) >= rank(ranking[j].quality));
                }
            }
            lemma_insert(all.skip(n + 1), ranking, x, p as int);
            assert(seq![x] + all.skip(n + 1) =~= all.skip(n));
            assert(tags_of(sorted@.insert(p as int, language)) =~= ranking.insert(p as int, x));
            assert(tags_of(rest@) =~= all.take(n));
        }
        sorted.insert(p, language);
    }
    proof {
        assert(all.skip(0) =~= all);
        lemma_ranked(all, tags_of(sorted@));
    }
    sorted
}

} // verus!
