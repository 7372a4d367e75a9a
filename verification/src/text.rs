//! Text primitives shared by the parser and the key tracker: comparison,
//! lowercasing, whitespace trimming and splitting on a separator.
use vstd::prelude::*;

verus! {

/// The lowercase form of a text, as `str::to_lowercase` computes it.
pub uninterp spec fn lowercase_of(text: Seq<char>) -> Seq<char>;

/// Whether a character is whitespace, as `char::is_whitespace` decides it.
pub uninterp spec fn is_whitespace(c: char) -> bool;

/// Calls `str::to_lowercase`. The contract only names the result: the
/// lowercase form is a function of the text alone.
#[verifier::external_body]
pub(crate) fn lowercase(text: &str) -> (lower: String)
    ensures
        lower@ == lowercase_of(text@),
{
    text.to_lowercase()
}

/// Calls `char::is_whitespace`. The contract only names the result: the
/// answer is a function of the character alone.
#[verifier::external_body]
pub(crate) fn whitespace(c: char) -> (white: bool)
    ensures
        white == is_whitespace(c),
{
    c.is_whitespace()
}

/// Calls `==` of `str`, which holds exactly when both texts consist of the
/// same characters in the same order.
#[verifier::external_body]
pub(crate) fn text_eq(a: &str, b: &str) -> (same: bool)
    ensures
        same == (a@ == b@),
{
    a == b
}

/// The identifier under which a key is tracked: the lowercase form of the
/// name that the key event reports.
pub fn normalize_key(key: &str) -> (normal: String)
    ensures
        normal@ == lowercase_of(key@),
{
    lowercase(key)
}

/// A text without its leading and trailing whitespace.
pub open spec fn trimmed(text: Seq<char>) -> Seq<char>
    decreases text.len(),
{
    if text.len() > 0 && is_whitespace(text.first()) {
        trimmed(text.drop_first())
    } else if text.len() > 0 && is_whitespace(text.last()) {
        trimmed(text.drop_last())
    } else {
        text
    }
}

/// The pieces of a text between occurrences of `sep`, in order. A text
/// without `sep` is its own single piece; two adjacent separators, or one at
/// either end, give an empty piece.
pub open spec fn split(text: Seq<char>, sep: char) -> Seq<Seq<char>>
    decreases text.len(),
{
    if text.len() == 0 {
        seq![Seq::<char>::empty()]
    } else {
        let before = split(text.drop_last(), sep);
        if text.last() == sep {
            before.push(Seq::<char>::empty())
        } else {
            before.drop_last().push(before.last().push(text.last()))
        }
    }
}

/// The part of a text between two positions, trimmed, is the part between
/// the first and the last character in that range that is not whitespace.
proof fn lemma_trimmed_range(text: Seq<char>, from: int, to: int, a: int, b: int)
    requires
        0 <= from <= a <= b <= to <= text.len(),
        forall|k: int| from <= k < a ==> is_whitespace(text[k]),
        forall|k: int| b <= k < to ==> is_whitespace(text[k]),
        a < b ==> !is_whitespace(text[a]) && !is_whitespace(text[b - 1]),
        a == b ==> a == to,
    ensures
        trimmed(text.subrange(from, to)) == text.subrange(a, b),
    decreases to - from,
{
    let part = text.subrange(from, to);
    if from < a {
        assert(part.first() == text[from]);
        assert(part.drop_first() =~= text.subrange(from + 1, to));
        lemma_trimmed_range(text, from + 1, to, a, b);
    } else if b < to {
        assert(part.first() == text[from]);
        assert(part.last() == text[to - 1]);
        assert(part.drop_last() =~= text.subrange(from, to - 1));
        lemma_trimmed_range(text, from, to - 1, a, b);
    } else {
        if part.len() > 0 {
            assert(part.first() == text[a]);
            assert(part.last() == text[b - 1]);
        }
    }
}

/// Finds where the trimmed form of `chars[from..to]` lies within `chars`.
pub(crate) fn trim_bounds(chars: &Vec<char>, from: usize, to: usize) -> (bounds: (usize, usize))
    requires
        from <= to <= chars.len(),
    ensures
        from <= bounds.0 <= bounds.1 <= to,
        chars@.subrange(bounds.0 as int, bounds.1 as int) == trimmed(
            chars@.subrange(from as int, to as int),
        ),
{
    let mut a: usize = from;
    while a < to && whitespace(chars[a])
        invariant
            from <= a <= to <= chars.len(),
            forall|k: int| from <= k < a ==> is_whitespace(chars@[k]),
        decreases to - a,
    {
        a += 1;
    }
    let mut b: usize = to;
    while a < b && whitespace(chars[b - 1])
        invariant
            from <= a <= b <= to <= chars.len(),
            forall|k: int| b <= k < to ==> is_whitespace(chars@[k]),
            a < to ==> !is_whitespace(chars@[a as int]),
        decreases b - a,
    {
        b -= 1;
    }
    if a == b {
        // everything in the range is whitespace
        proof {
            lemma_trimmed_range(chars@, from as int, to as int, to as int, to as int);
            assert(chars@.subrange(a as int, a as int) =~= chars@.subrange(to as int, to as int));
        }
        (a, a)
    } else {
        proof {
            lemma_trimmed_range(chars@, from as int, to as int, a as int, b as int);
        }
        (a, b)
    }
}

/// The characters of a text, one by one.
pub(crate) fn chars_of(text: &str) -> (chars: Vec<char>)
    ensures
        chars@ == text@,
{
    let mut chars: Vec<char> = Vec::new();
    for c in it: text.chars()
        invariant
            it.seq() == text@,
            chars@ == text@.take(it.index() as int),
    {
        chars.push(c);
        assert(text@.take(it.index() + 1) =~= text@.take(it.index() as int).push(c));
    }
    assert(text@.take(text@.len() as int) =~= text@);
    chars
}

/// Whether `bounds` marks, piece by piece, where the first pieces of
/// `pieces` lie within `chars`.
pub open spec fn marks_pieces(
    bounds: Seq<(usize, usize)>,
    chars: Seq<char>,
    pieces: Seq<Seq<char>>,
) -> bool {
    &&& bounds.len() <= pieces.len()
    &&& forall|k: int|
        0 <= k < bounds.len() ==> {
            &&& (#[trigger] bounds[k]).0 <= bounds[k].1 <= chars.len()
            &&& chars.subrange(bounds[k].0 as int, bounds[k].1 as int) == pieces[k]
        }
}

/// Where the pieces of `split` lie: one pair of positions for each piece,
/// from its first character up to, and without, the separator that ends it.
pub(crate) fn split_bounds(chars: &Vec<char>, sep: char) -> (bounds: Vec<(usize, usize)>)
    ensures
        bounds.len() == split(chars@, sep).len(),
        marks_pieces(bounds@, chars@, split(chars@, sep)),
{
    let n = chars.len();
    let mut bounds: Vec<(usize, usize)> = Vec::new();
    let mut start: usize = 0;
    let mut i: usize = 0;
    assert(chars@.take(0) =~= Seq::<char>::empty());
    assert(chars@.subrange(0, 0) =~= Seq::<char>::empty());
    while i < n
        invariant
            n == chars.len(),
            start <= i <= n,
            bounds.len() + 1 == split(chars@.take(i as int), sep).len(),
            split(chars@.take(i as int), sep).last() == chars@.subrange(start as int, i as int),
            marks_pieces(bounds@, chars@, split(chars@.take(i as int), sep)),
        decreases n - i,
    {
        let ghost before = split(chars@.take(i as int), sep);
        let ghost marked = bounds@;
        assert(chars@.take(i + 1).drop_last() =~= chars@.take(i as int));
        assert(chars@.take(i + 1).last() == chars@[i as int]);
        if chars[i] == sep {
            bounds.push((start, i));
            start = i + 1;
            assert(chars@.subrange(start as int, start as int) =~= Seq::<char>::empty());
            let ghost after = before.push(Seq::<char>::empty());
            assert(split(chars@.take(i + 1), sep) == after);
            assert forall|k: int| 0 <= k < bounds.len() implies {
                &&& (#[trigger] bounds@[k]).0 <= bounds@[k].1 <= chars@.len()
                &&& chars@.subrange(bounds@[k].0 as int, bounds@[k].1 as int) == after[k]
            } by {
                if k < marked.len() {
                    assert(bounds@[k] == marked[k]);
                    assert(after[k] == before[k]);
                }
            }
        } else {
            assert(chars@.subrange(start as int, i + 1) =~= chars@.subrange(
                start as int,
                i as int,
            ).push(chars@[i as int]));
            let ghost after = before.drop_last().push(before.last().push(chars@[i as int]));
            assert(split(chars@.take(i + 1), sep) == after);
            assert forall|k: int| 0 <= k < bounds.len() implies {
                &&& (#[trigger] bounds@[k]).0 <= bounds@[k].1 <= chars@.len()
                &&& chars@.subrange(bounds@[k].0 as int, bounds@[k].1 as int) == after[k]
            } by {
                assert(bounds@[k] == marked[k]);
                assert(after[k] == before[k]);
            }
        }
        i += 1;
    }
    assert(chars@.take(n as int) =~= chars@);
    let ghost marked = bounds@;
    bounds.push((start, n));
    assert forall|k: int| 0 <= k < bounds.len() implies {
        &&& (#[trigger] bounds@[k]).0 <= bounds@[k].1 <= chars@.len()
        &&& chars@.subrange(bounds@[k].0 as int, bounds@[k].1 as int) == split(chars@, sep)[k]
    } by {
        if k < marked.len() {
            assert(bounds@[k] == marked[k]);
        }
    }
    bounds
}

} // verus!
