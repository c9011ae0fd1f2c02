//! Helpers that move between Rust strings and sequences of characters.

use vstd::prelude::*;
use vstd::utf8::{encode_utf8, valid_utf8};

verus! {

/// The pieces of `s` between occurrences of `sep`, in order.
///
/// There is always at least one piece; a separator at either end, or two
/// in a row, yields an empty piece.
pub open spec fn split_on(s: Seq<char>, sep: char) -> Seq<Seq<char>>
    decreases s.len(),
{
    if s.len() == 0 {
        seq![Seq::empty()]
    } else {
        let before = split_on(s.drop_last(), sep);
        if s.last() == sep {
            before.push(Seq::empty())
        } else {
            before.drop_last().push(before.last().push(s.last()))
        }
    }
}

/// The pieces joined back together with `sep` between neighbours.
pub open spec fn join_with(pieces: Seq<Seq<char>>, sep: char) -> Seq<char>
    decreases pieces.len(),
{
    if pieces.len() == 0 {
        Seq::empty()
    } else if pieces.len() == 1 {
        pieces[0]
    } else {
        join_with(pieces.drop_last(), sep).push(sep) + pieces.last()
    }
}

/// Splitting yields at least one piece, no piece holds the separator, and
/// joining the pieces gives the text back.
pub proof fn lemma_split_on_characterised(s: Seq<char>, sep: char)
    ensures
        split_on(s, sep).len() >= 1,
        forall|i: int|
            0 <= i < split_on(s, sep).len() ==> !(#[trigger] split_on(s, sep)[i]).contains(sep),
        join_with(split_on(s, sep), sep) == s,
    decreases s.len(),
{
    if s.len() > 0 {
        let shorter = s.drop_last();
        lemma_split_on_characterised(shorter, sep);
        let before = split_on(shorter, sep);
        let pieces = split_on(s, sep);
        if s.last() == sep {
            assert(pieces.drop_last() == before);
            assert(join_with(pieces, sep) == join_with(before, sep).push(sep)
                + Seq::<char>::empty());
            assert(join_with(pieces, sep) == s);
        } else {
            let grown = before.last().push(s.last());
            assert forall|i: int| 0 <= i < pieces.len() implies !(#[trigger] pieces[i]).contains(
                sep,
            ) by {
                if i < pieces.len() - 1 {
                    assert(pieces[i] == before[i]);
                } else {
                    assert(pieces[i] == grown);
                    assert(!before[before.len() - 1].contains(sep));
                }
            }
            if before.len() == 1 {
                assert(before[0] == shorter);
                assert(grown == s);
            } else {
                assert(pieces.drop_last() == before.drop_last());
                assert(join_with(before, sep) == join_with(before.drop_last(), sep).push(sep)
                    + before.last());
                assert(join_with(pieces, sep) == join_with(before.drop_last(), sep).push(sep)
                    + grown);
                assert(join_with(pieces, sep) == join_with(before, sep).push(s.last()));
                assert(shorter.push(s.last()) == s);
            }
        }
    }
}

/// Collects the characters of `s`, in order.
pub fn chars_of(s: &str) -> (out: Vec<char>)
    ensures
        out@ == s@,
{
    let mut out: Vec<char> = Vec::new();
    for c in it: s.chars()
        invariant
            out@ == it.seq().take(it.index()),
            it.seq() == s@,
    {
        out.push(c);
    }
    out
}

/// `String::push`: appends one character to the end of the string.
#[verifier::external_body]
pub(crate) fn push_char(s: &mut String, c: char)
    ensures
        final(s)@ == old(s)@.push(c),
{
    s.push(c)
}

/// `core::str::from_utf8`: succeeds exactly on valid UTF-8, and the string
/// it gives is made of the very bytes it was given.
#[verifier::external_body]
pub(crate) fn str_from_utf8(bytes: &[u8]) -> (r: Option<&str>)
    ensures
        r is Some <==> valid_utf8(bytes@),
        r matches Some(s) ==> encode_utf8(s@) == bytes@,
{
    core::str::from_utf8(bytes).ok()
}

/// Splits `s` at every occurrence of `sep`.
pub fn split(s: &str, sep: char) -> (pieces: Vec<String>)
    ensures
        pieces.deep_view() == split_on(s@, sep),
{
    let mut done: Vec<String> = Vec::new();
    let mut current = String::new();
    assert(done.deep_view().push(current@) == split_on(s@.take(0), sep));
    for c in it: s.chars()
        invariant
            it.seq() == s@,
            done.deep_view().push(current@) == split_on(s@.take(it.index()), sep),
    {
        let ghost upto = s@.take(it.index() + 1);
        let ghost before = split_on(s@.take(it.index()), sep);
        proof {
            assert(upto.drop_last() == s@.take(it.index()));
            assert(upto.last() == c);
            assert(before.drop_last() == done.deep_view());
            assert(before.last() == current@);
        }
        if c == sep {
            done.push(current);
            current = String::new();
            assert(done.deep_view() == before);
        } else {
            push_char(&mut current, c);
        }
    }
    proof {
        assert(s@.take(s@.len() as int) == s@);
    }
    let ghost old_done = done.deep_view();
    done.push(current);
    assert(done.deep_view() == old_done.push(current@));
    done
}

} // verus!
