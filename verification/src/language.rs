//! One entry of an Accept-Language header: a language name with the weight
//! that the header gives it.

use crate::binary64::{rank, rank_of, ONE};
use crate::number::{bits_of, number_of, parse_number};
use crate::text::{chars_of, find, first_index, slice_of, string_of};
use std::cmp::Ordering;
use vstd::prelude::*;

verus! {

/// A language name and its weight. The weight is a binary64 number, held by
/// its bit pattern.
#[derive(Debug)]
pub struct Language {
    pub name: String,
    pub quality: u64,
}

/// What a `Language` holds, with the name as a sequence of characters.
pub struct Tag {
    pub name: Seq<char>,
    pub quality: u64,
}

impl View for Language {
    type V = Tag;

    open spec fn view(&self) -> Tag {
        Tag { name: self.name@, quality: self.quality }
    }
}

/// The text behind the first two characters of a parameter, which are meant
/// to be `q=`.
pub open spec fn after_prefix(parameter: Seq<char>) -> Seq<char> {
    if parameter.len() >= 2 {
        parameter.skip(2)
    } else {
        Seq::<char>::empty()
    }
}

/// The weight that a parameter gives: the number written behind its first
/// two characters, and zero where no number is written there.
pub open spec fn quality_of(parameter: Seq<char>) -> u64 {
    match number_of(after_prefix(parameter)) {
        Some(number) => bits_of(number),
        None => 0,
    }
}

/// The tag that one segment of a header stands for. The name is what comes
/// before the first `;`, the parameter what comes behind it; a segment
/// without a `;` is all name and has the weight one.
pub open spec fn tag_of(segment: Seq<char>) -> Tag {
    let k = first_index(segment, ';');
    if 0 <= k < segment.len() {
        Tag { name: segment.take(k), quality: quality_of(segment.skip(k + 1)) }
    } else {
        Tag { name: segment, quality: ONE }
    }
}

/// Whether the tag `a` is preferred to the tag `b`.
pub open spec fn preferred(a: Tag, b: Tag) -> bool {
    rank(a.quality) > rank(b.quality)
}

/// How the tag `a` stands to the tag `b` in order of preference: `Less`
/// where `a` is preferred.
pub open spec fn order_of(a: Tag, b: Tag) -> Ordering {
    if preferred(a, b) {
        Ordering::Less
    } else if preferred(b, a) {
        Ordering::Greater
    } else {
        Ordering::Equal
    }
}

/// The weight of a segment without a parameter is the weight that the
/// parameter `q=1` gives.
pub proof fn lemma_default_quality(name: Seq<char>)
    requires
        !name.contains(';'),
    ensures
        tag_of(name).quality == quality_of(seq!['q', '=', '1']),
        tag_of(name).quality == ONE,
        tag_of(name).name == name,
{
    crate::text::lemma_first_index_bounds(name, ';');
    if first_index(name, ';') < name.len() {
        assert(name.contains(name[first_index(name, ';')]));
    }
    assert(after_prefix(seq!['q', '=', '1']) =~= seq!['1']);
    crate::number::lemma_numeral_one();
}

/// The weight that the parameter `parameter` gives.
pub fn quality_from(parameter: &Vec<char>) -> (quality: u64)
    ensures
        quality == quality_of(parameter@),
        number_of(after_prefix(parameter@)) is None ==> quality == 0,
{
    let rest = if parameter.len() >= 2 {
        slice_of(parameter, 2, parameter.len())
    } else {
        Vec::new()
    };
    match parse_number(&rest) {
        Some(bits) => bits,
        None => 0,
    }
}

/// The language that the segment `segment` stands for.
pub fn language_from(segment: &Vec<char>) -> (language: Language)
    ensures
        language@ == tag_of(segment@),
        !segment@.contains(';') ==> language.quality == ONE,
{
    let k = find(segment, ';');
    proof {
        if !segment@.contains(';') && k < segment.len() {
            crate::text::lemma_first_index_bounds(segment@, ';');
            assert(segment@[k as int] == ';');
        }
    }
    if k < segment.len() {
        let name = slice_of(segment, 0, k);
        let parameter = slice_of(segment, k + 1, segment.len());
        Language { name: string_of(&name), quality: quality_from(&parameter) }
    } else {
        Language { name: string_of(segment), quality: ONE }
    }
}

impl Language {
    /// The language that the header segment `tag` stands for.
    pub fn new(tag: &str) -> (language: Language)
        ensures
            language@ == tag_of(tag@),
            !tag@.contains(';') ==> language.quality == ONE,
    {
        let segment = chars_of(tag);
        language_from(&segment)
    }

    /// The weight that the parameter `raw_quality` gives: the number behind
    /// its first two characters, and zero where that is no number.
    pub fn quality_with_default(raw_quality: &str) -> (quality: u64)
        ensures
            quality == quality_of(raw_quality@),
            number_of(after_prefix(raw_quality@)) is None ==> quality == 0,
    {
        let parameter = chars_of(raw_quality);
        quality_from(&parameter)
    }

    /// Orders languages from the most preferred one down: `Less` where
    /// `self` has the larger weight, `Equal` where the weights are the same.
    pub fn cmp(&self, other: &Language) -> (order: Ordering)
        ensures
            order == order_of(self@, other@),
    {
        let a = rank_of(self.quality);
        let b = rank_of(other.quality);
        if a > b {
            Ordering::Less
        } else if a < b {
            Ordering::Greater
        } else {
            Ordering::Equal
        }
    }
}

/// Two languages are equal where their weights are: the names do not count.
impl PartialEq for Language {
    fn eq(&self, other: &Language) -> (r: bool) {
        rank_of(self.quality) == rank_of(other.quality)
    }
}

impl vstd::std_specs::cmp::PartialEqSpecImpl for Language {
    open spec fn obeys_eq_spec() -> bool {
        true
    }

    open spec fn eq_spec(&self, other: &Language) -> bool {
        rank(self.quality) == rank(other.quality)
    }
}

impl Eq for Language {

}

impl PartialOrd for Language {
    fn partial_cmp(&self, other: &Language) -> (r: Option<Ordering>) {
        Some(self.cmp(other))
    }
}

impl vstd::std_specs::cmp::PartialOrdSpecImpl for Language {
    open spec fn obeys_partial_cmp_spec() -> bool {
        true
    }

    open spec fn partial_cmp_spec(&self, other: &Language) -> Option<Ordering> {
        Some(order_of(self@, other@))
    }
}

} // verus!
