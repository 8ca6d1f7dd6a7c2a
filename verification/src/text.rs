//! Character sequences: the bridge between `str` and `Vec<char>`, removal of
//! spaces, and splitting at a separator.

use vstd::prelude::*;

verus! {

/// `String::push` appends the given character to the end of the string.
pub assume_specification[ String::push ](s: &mut String, c: char)
    ensures
        final(s)@ == old(s)@.push(c),
;

/// The predicate that holds of every character but the space.
pub open spec fn not_space() -> spec_fn(char) -> bool {
    |c: char| c != ' '
}

/// The text with every space character taken out.
pub open spec fn without_spaces(text: Seq<char>) -> Seq<char> {
    text.filter(not_space())
}

/// The index of the first occurrence of `c` in `text`, or the length of
/// `text` where `c` does not occur.
pub open spec fn first_index(text: Seq<char>, c: char) -> int
    decreases text.len(),
{
    if text.len() == 0 || text[0] == c {
        0
    } else {
        1 + first_index(text.drop_first(), c)
    }
}

/// The pieces into which the occurrences of `separator` cut `text`. There is
/// always one piece more than there are separators, so an empty text has one
/// empty piece.
pub open spec fn segments(text: Seq<char>, separator: char) -> Seq<Seq<char>>
    decreases text.len(),
{
    let k = first_index(text, separator);
    if 0 <= k < text.len() {
        seq![text.take(k)] + segments(text.skip(k + 1), separator)
    } else {
        seq![text]
    }
}

/// The character sequences that the vectors of `pieces` hold, in order.
pub open spec fn texts(pieces: Seq<Vec<char>>) -> Seq<Seq<char>> {
    Seq::new(pieces.len(), |i: int| pieces[i]@)
}

/// Appending a vector appends its characters to `texts`.
pub proof fn lemma_texts_push(pieces: Seq<Vec<char>>, piece: Vec<char>)
    ensures
        texts(pieces.push(piece)) == texts(pieces).push(piece@),
        texts(pieces.push(piece)) == texts(pieces) + seq![piece@],
{
    assert(texts(pieces.push(piece)) =~= texts(pieces).push(piece@));
    assert(texts(pieces).push(piece@) =~= texts(pieces) + seq![piece@]);
}

/// `first_index` is the one position that `c` occupies with no `c` before it.
pub proof fn lemma_first_index(text: Seq<char>, c: char, k: int)
    requires
        0 <= k <= text.len(),
        forall|j: int| 0 <= j < k ==> text[j] != c,
        k < text.len() ==> text[k] == c,
    ensures
        first_index(text, c) == k,
    decreases text.len(),
{
    if k > 0 {
        let rest = text.drop_first();
        assert forall|j: int| 0 <= j < k - 1 implies rest[j] != c by {
            assert(rest[j] == text[j + 1]);
        }
        lemma_first_index(rest, c, k - 1);
    }
}

/// `first_index` lies within the text or at its end, no `c` stands before it,
/// and where it lies within the text, `c` stands at it.
pub proof fn lemma_first_index_bounds(text: Seq<char>, c: char)
    ensures
        0 <= first_index(text, c) <= text.len(),
        forall|j: int| 0 <= j < first_index(text, c) ==> text[j] != c,
        first_index(text, c) < text.len() ==> text[first_index(text, c)] == c,
    decreases text.len(),
{
    if !(text.len() == 0 || text[0] == c) {
        let rest = text.drop_first();
        lemma_first_index_bounds(rest, c);
        assert forall|j: int| 0 <= j < first_index(text, c) implies text[j] != c by {
            if j > 0 {
                assert(rest[j - 1] == text[j]);
            }
        }
    }
}

/// The characters of `text`, in order.
pub fn chars_of(text: &str) -> (chars: Vec<char>)
    ensures
        chars@ == text@,
{
    let mut chars: Vec<char> = Vec::new();
    for c in it: text.chars()
        invariant
            chars@ == text@.take(it.index() as int),
            it.seq() == text@,
    {
        chars.push(c);
    }
    chars
}

/// The string that holds exactly the characters of `chars`.
pub fn string_of(chars: &Vec<char>) -> (text: String)
    ensures
        text@ == chars@,
{
    let mut text = String::new();
    let mut i: usize = 0;
    while i < chars.len()
        invariant
            i <= chars.len(),
            text@ == chars@.take(i as int),
        decreases chars.len() - i,
    {
        text.push(chars[i]);
        i += 1;
    }
    text
}

/// The index of the first `c` in `text`, or the length of `text`.
pub fn find(text: &Vec<char>, c: char) -> (k: usize)
    ensures
        k == first_index(text@, c),
        k <= text.len(),
{
    let mut i: usize = 0;
    while i < text.len() && text[i] != c
        invariant
            i <= text.len(),
            forall|j: int| 0 <= j < i ==> text@[j] != c,
        decreases text.len() - i,
    {
        i += 1;
    }
    proof {
        lemma_first_index(text@, c, i as int);
    }
    i
}

/// The characters of `text` from `from` up to `to`.
pub fn slice_of(text: &Vec<char>, from: usize, to: usize) -> (part: Vec<char>)
    requires
        from <= to <= text.len(),
    ensures
        part@ == text@.subrange(from as int, to as int),
{
    let mut part: Vec<char> = Vec::new();
    let mut i: usize = from;
    while i < to
        invariant
            from <= i <= to <= text.len(),
            part@ == text@.subrange(from as int, i as int),
        decreases to - i,
    {
        part.push(text[i]);
        i += 1;
    }
    part
}

/// Copies `text` without its space characters.
pub fn strip_spaces(text: &Vec<char>) -> (stripped: Vec<char>)
    ensures
        stripped@ == without_spaces(text@),
{
    let mut stripped: Vec<char> = Vec::new();
    let mut i: usize = 0;
    proof {
        reveal(Seq::filter);
    }
    while i < text.len()
        invariant
            i <= text.len(),
            stripped@ == without_spaces(text@.take(i as int)),
        decreases text.len() - i,
    {
        let c = text[i];
        proof {
            let before = text@.take(i as int);
            assert(text@.take(i + 1) == before.push(c));
            before.lemma_filter_push(c, not_space());
        }
        if c != ' ' {
            stripped.push(c);
        }
        i += 1;
    }
    assert(text@.take(text.len() as int) == text@);
    stripped
}

/// Cuts `text` at every occurrence of `separator`.
pub fn split(text: &Vec<char>, separator: char) -> (pieces: Vec<Vec<char>>)
    ensures
        texts(pieces@) == segments(text@, separator),
{
    let mut pieces: Vec<Vec<char>> = Vec::new();
    let mut piece: Vec<char> = Vec::new();
    let mut start: usize = 0;
    let mut i: usize = 0;
    assert(text@.skip(0) == text@);
    while i < text.len()
        invariant
            start <= i <= text.len(),
            piece@ == text@.subrange(start as int, i as int),
            forall|j: int| start <= j < i ==> text@[j] != separator,
            segments(text@, separator) == texts(pieces@) + segments(
                text@.skip(start as int),
                separator,
            ),
        decreases text.len() - i,
    {
        let c = text[i];
        if c == separator {
            proof {
                let rest = text@.skip(start as int);
                let k = i - start;
                assert forall|j: int| 0 <= j < k implies rest[j] != separator by {
                    assert(rest[j] == text@[start + j]);
                }
                lemma_first_index(rest, separator, k);
                assert(rest.take(k) == piece@);
                assert(rest.skip(k + 1) == text@.skip(i + 1));
            }
            proof {
                lemma_texts_push(pieces@, piece);
            }
            pieces.push(piece);
            piece = Vec::new();
            start = i + 1;
        } else {
            piece.push(c);
        }
        i += 1;
    }
    proof {
        let rest = text@.skip(start as int);
        assert forall|j: int| 0 <= j < rest.len() implies rest[j] != separator by {
            assert(rest[j] == text@[start + j]);
        }
        lemma_first_index(rest, separator, rest.len() as int);
        assert(rest == piece@);
    }
    proof {
        lemma_texts_push(pieces@, piece);
    }
    pieces.push(piece);
    pieces
}

} // verus!
