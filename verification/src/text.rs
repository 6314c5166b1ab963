//! Strings and their characters: building a string character by character,
//! reversing, and parting a text into fields.

use vstd::prelude::*;

verus! {

/// Trusted, of the standard library: `String::push` appends the given
/// character to the end of the string and changes nothing else.
pub assume_specification[ String::push ](s: &mut String, c: char)
    ensures
        final(s)@ == old(s)@.push(c),
;

/// The characters of `chars` in opposite order, as a string.
pub fn reversed(chars: &Vec<char>) -> (r: String)
    ensures
        r@ == chars@.reverse(),
{
    let mut out = String::new();
    let mut i: usize = chars.len();
    while i > 0
        invariant
            i <= chars.len(),
            out@ == chars@.reverse().take(chars.len() - i),
        decreases i,
    {
        i -= 1;
        out.push(chars[i]);
        assert(chars@.reverse().take(chars.len() - i) =~= chars@.reverse().take(
            chars.len() - i - 1,
        ).push(chars@[i as int]));
    }
    assert(chars@.reverse().take(chars.len() as int) =~= chars@.reverse());
    out
}

/// The characters of a string, in order.
pub fn chars_of(text: &str) -> (r: Vec<char>)
    ensures
        r@ == text@,
{
    let mut out: Vec<char> = Vec::new();
    for c in it: text.chars()
        invariant
            it.seq() == text@,
            out@ == text@.take(it.index() as int),
    {
        out.push(c);
        assert(text@.take(it.index() + 1) =~= text@.take(it.index() as int).push(c));
    }
    assert(text@.take(text@.len() as int) =~= text@);
    out
}

/// The string made of the given characters, in order.
pub fn string_of(chars: &Vec<char>) -> (r: String)
    ensures
        r@ == chars@,
{
    let mut out = String::new();
    let mut i: usize = 0;
    while i < chars.len()
        invariant
            i <= chars.len(),
            out@ == chars@.take(i as int),
        decreases chars.len() - i,
    {
        out.push(chars[i]);
        assert(chars@.take(i + 1) =~= chars@.take(i as int).push(chars@[i as int]));
        i += 1;
    }
    assert(chars@.take(chars@.len() as int) =~= chars@);
    out
}

/// The fields of a text: the pieces that the separator parts, in order. A
/// text with `n` separators has `n + 1` fields, some of them perhaps empty;
/// the empty text has one empty field.
pub open spec fn fields(text: Seq<char>, sep: char) -> Seq<Seq<char>>
    decreases text.len(),
{
    if text.len() == 0 {
        seq![Seq::<char>::empty()]
    } else {
        let before = fields(text.drop_last(), sep);
        if text.last() == sep {
            before.push(Seq::<char>::empty())
        } else {
            before.drop_last().push(before.last().push(text.last()))
        }
    }
}

/// A text without the separator is one field.
pub proof fn lemma_fields_plain(text: Seq<char>, sep: char)
    requires
        !text.contains(sep),
    ensures
        fields(text, sep) == seq![text],
    decreases text.len(),
{
    if text.len() > 0 {
        let front = text.drop_last();
        assert forall|i: int| 0 <= i < front.len() implies front[i] != sep by {
            assert(text[i] == front[i]);
        }
        lemma_fields_plain(front, sep);
        assert(text[text.len() - 1] != sep);
        assert(front.push(text.last()) =~= text);
        assert(seq![front].drop_last().push(front.push(text.last())) =~= seq![text]);
    } else {
        assert(text =~= Seq::<char>::empty());
    }
}

/// What follows the last separator is the last field, and what stands before
/// that separator makes up the fields before it.
pub proof fn lemma_fields_join(head: Seq<char>, tail: Seq<char>, sep: char)
    requires
        !tail.contains(sep),
    ensures
        fields(head + seq![sep] + tail, sep) == fields(head, sep).push(tail),
    decreases tail.len(),
{
    let text = head + seq![sep] + tail;
    if tail.len() == 0 {
        assert(text.drop_last() =~= head);
        assert(tail =~= Seq::<char>::empty());
    } else {
        let shorter = tail.drop_last();
        assert forall|i: int| 0 <= i < shorter.len() implies shorter[i] != sep by {
            assert(tail[i] == shorter[i]);
        }
        lemma_fields_join(head, shorter, sep);
        assert(text.drop_last() =~= head + seq![sep] + shorter);
        assert(text.last() == tail.last());
        assert(tail[tail.len() - 1] != sep);
        assert(shorter.push(tail.last()) =~= tail);
        let before = fields(head, sep).push(shorter);
        assert(before.drop_last().push(before.last().push(tail.last())) =~= fields(head, sep).push(
            tail,
        ));
    }
}

/// Parts `text` at each `sep` into its fields.
pub fn split_fields(text: &Vec<char>, sep: char) -> (r: Vec<Vec<char>>)
    ensures
        r@.len() == fields(text@, sep).len(),
        forall|k: int| 0 <= k < r@.len() ==> (#[trigger] r@[k])@ == fields(text@, sep)[k],
{
    let mut done: Vec<Vec<char>> = Vec::new();
    let mut current: Vec<char> = Vec::new();
    let mut i: usize = 0;
    while i < text.len()
        invariant
            i <= text.len(),
            fields(text@.take(i as int), sep).len() == done@.len() + 1,
            forall|k: int|
                0 <= k < done@.len() ==> (#[trigger] done@[k])@ == fields(
                    text@.take(i as int),
                    sep,
                )[k],
            fields(text@.take(i as int), sep).last() == current@,
        decreases text.len() - i,
    {
        let c = text[i];
        assert(text@.take(i + 1).drop_last() =~= text@.take(i as int));
        assert(text@.take(i + 1).last() == c);
        if c == sep {
            done.push(current);
            current = Vec::new();
        } else {
            current.push(c);
        }
        i += 1;
    }
    assert(text@.take(text@.len() as int) =~= text@);
    done.push(current);
    done
}

} // verus!
