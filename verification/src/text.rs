//! Texts and their pieces.

use crate::order::same_text;
use vstd::prelude::*;

verus! {

/// What stands between the separators of a text.
pub open spec fn pieces(text: Seq<char>, separator: char) -> Seq<Seq<char>>
    decreases text.len(),
{
    if text.len() == 0 {
        seq![Seq::empty()]
    } else {
        let init = pieces(text.drop_last(), separator);
        if text.last() == separator {
            init.push(Seq::empty())
        } else {
            init.drop_last().push(init.last().push(text.last()))
        }
    }
}

/// The texts behind references to them.
pub open spec fn texts(borrowed: Seq<&str>) -> Seq<Seq<char>> {
    borrowed.map_values(|s: &str| s@)
}

/// The texts that strings hold.
pub open spec fn contents(strings: Seq<String>) -> Seq<Seq<char>> {
    strings.map_values(|s: String| s@)
}

/// A text starts with a separator just if its first piece is empty and not its only one.
pub proof fn lemma_leading_separator(text: Seq<char>, separator: char)
    ensures
        pieces(text, separator).len() > 0,
        (text.len() > 0 && text[0] == separator) == (pieces(text, separator).len() > 1 && pieces(
            text,
            separator,
        )[0].len() == 0),
    decreases text.len(),
{
    if text.len() > 0 {
        lemma_leading_separator(text.drop_last(), separator);
        lemma_only_piece(text.drop_last(), separator);
    }
}

/// A text that is its own only piece.
proof fn lemma_only_piece(text: Seq<char>, separator: char)
    ensures
        pieces(text, separator).len() > 0,
        pieces(text, separator).len() == 1 ==> pieces(text, separator)[0] == text,
    decreases text.len(),
{
    if text.len() > 0 {
        lemma_only_piece(text.drop_last(), separator);
        if pieces(text, separator).len() == 1 {
            assert(text =~= text.drop_last().push(text.last()));
        }
    }
}

/// Two texts with a separator between them have the pieces of both.
pub proof fn lemma_pieces_join(a: Seq<char>, b: Seq<char>, separator: char)
    ensures
        pieces(a.push(separator) + b, separator) == pieces(a, separator) + pieces(b, separator),
    decreases b.len(),
{
    let whole = a.push(separator) + b;
    if b.len() == 0 {
        assert(whole =~= a.push(separator));
        assert(whole.drop_last() =~= a);
        assert(pieces(whole, separator) =~= pieces(a, separator) + pieces(b, separator));
    } else {
        lemma_pieces_join(a, b.drop_last(), separator);
        lemma_only_piece(b.drop_last(), separator);
        assert(whole.drop_last() =~= a.push(separator) + b.drop_last());
        assert(whole.last() == b.last());
        assert(pieces(whole, separator) =~= pieces(a, separator) + pieces(b, separator));
    }
}

/// Cuts a text at each separator.
pub fn split(text: &str, separator: char) -> (result: Vec<&str>)
    ensures
        texts(result@) == pieces(text@, separator),
        result@.len() > 0,
{
    let len: usize = text.unicode_len();
    let mut result: Vec<&str> = Vec::new();
    let mut start: usize = 0;
    let mut at: usize = 0;
    assert(text@.take(0) =~= Seq::empty());
    assert(texts(result@).push(text@.subrange(0, 0)) =~= seq![Seq::empty()]);
    for c in it: text.chars()
        invariant
            it.seq() == text@,
            at == it.index(),
            start <= at <= len,
            len == text@.len(),
            texts(result@).push(text@.subrange(start as int, at as int)) == pieces(
                text@.take(at as int),
                separator,
            ),
    {
        let ghost done = text@.take(at as int);
        let ghost more = text@.take(at + 1);
        let ghost pending = text@.subrange(start as int, at as int);
        assert(more.drop_last() =~= done);
        assert(more.last() == c);
        if c == separator {
            let piece = text.substring_char(start, at);
            proof {
                assert(texts(result@.push(piece)) =~= texts(result@).push(pending));
                assert(text@.subrange(at + 1, at + 1) =~= Seq::empty());
            }
            result.push(piece);
            start = at + 1;
        } else {
            proof {
                assert(pieces(done, separator).drop_last() =~= texts(result@));
                assert(text@.subrange(start as int, at + 1) =~= pending.push(c));
            }
        }
        at = at + 1;
    }
    let piece = text.substring_char(start, len);
    proof {
        assert(text@.take(len as int) =~= text@);
        assert(texts(result@.push(piece)) =~= texts(result@).push(
            text@.subrange(start as int, len as int),
        ));
    }
    result.push(piece);
    result
}

/// Whether a text is among some strings.
pub fn contains_text(strings: &Vec<String>, text: &str) -> (found: bool)
    ensures
        found == contents(strings@).contains(text@),
{
    for i in 0..strings.len()
        invariant
            forall|j: int| 0 <= j < i ==> contents(strings@)[j] != text@,
    {
        assert(contents(strings@)[i as int] == strings@[i as int]@);
        if same_text(strings[i].as_str(), text) {
            return true;
        }
    }
    false
}

/// A text without separators is its only piece.
pub proof fn lemma_one_piece(text: Seq<char>, separator: char)
    requires
        !text.contains(separator),
    ensures
        pieces(text, separator) == seq![text],
    decreases text.len(),
{
    if text.len() > 0 {
        let front = text.drop_last();
        assert(!front.contains(separator)) by {
            if front.contains(separator) {
                let i = choose|i: int| 0 <= i < front.len() && front[i] == separator;
                assert(text[i] == separator);
            }
        }
        lemma_one_piece(front, separator);
        assert(text[text.len() - 1] != separator);
        assert(front.push(text.last()) =~= text);
        assert(pieces(text, separator) =~= seq![text]);
    } else {
        assert(text =~= Seq::empty());
    }
}

/// Texts are taken as they are, one for one.
pub proof fn lemma_texts_one_for_one(borrowed: Seq<&str>, strings: Seq<String>, i: int)
    ensures
        texts(borrowed).len() == borrowed.len(),
        contents(strings).len() == strings.len(),
        0 <= i < borrowed.len() ==> texts(borrowed)[i] == borrowed[i]@,
        0 <= i < strings.len() ==> contents(strings)[i] == strings[i]@,
{
}

} // verus!
