//! Pages: texts of a fixed length, how a text is made into one, and how one
//! is laid out in rows.

use crate::alphabet::BABEL_SET;
use crate::chance::{random_symbol, random_up_to};
use crate::radix::{pad_left, within};
use vstd::prelude::*;
use vstd::string::StringExecFns;
use vstd::string::StrSliceExecFns;

verus! {

/// Number of rows in a page.
pub const ROWS: usize = 40;

/// Number of columns in a page.
pub const COLUMNS: usize = 80;

/// Number of characters in a page.
pub const PAGE_LENGTH: usize = ROWS * COLUMNS;

/// `count` copies of `fill`.
pub open spec fn repeated(fill: char, count: nat) -> Seq<char> {
    Seq::new(count, |i: int| fill)
}

/// The page of a text: its first `PAGE_LENGTH` characters, or, where it has
/// fewer, the text followed by as many spaces as are missing.
pub open spec fn normalized(text: Seq<char>) -> Seq<char> {
    if text.len() >= PAGE_LENGTH {
        text.take(PAGE_LENGTH as int)
    } else {
        text + repeated(BABEL_SET@[0], (PAGE_LENGTH - text.len()) as nat)
    }
}

/// A page is its own page: normalizing twice is normalizing once.
pub proof fn lemma_normalized_idempotent(text: Seq<char>)
    ensures
        normalized(text).len() == PAGE_LENGTH,
        normalized(normalized(text)) == normalized(text),
{
    let page = normalized(text);
    assert(page.take(PAGE_LENGTH as int) =~= page);
}

/// Cuts or fills `text` to exactly one page. Never fails.
pub fn normalize(text: &str) -> (page: String)
    ensures
        page@ == normalized(text@),
        page@.len() == PAGE_LENGTH,
{
    let mut page = String::new();
    let mut count: usize = 0;
    for c in it: text.chars()
        invariant
            it.seq() == text@,
            count <= PAGE_LENGTH,
            count == if it.index() < PAGE_LENGTH { it.index() as int } else { PAGE_LENGTH as int },
            page@ == text@.take(count as int),
    {
        if count < PAGE_LENGTH {
            page.push(c);
            assert(text@.take(count + 1) =~= text@.take(count as int).push(c));
            count += 1;
        }
    }
    let fill = BABEL_SET[0];
    let ghost kept = page@;
    let ghost start = count;
    while count < PAGE_LENGTH
        invariant
            start <= count <= PAGE_LENGTH,
            fill == BABEL_SET@[0],
            page@ == kept + repeated(fill, (count - start) as nat),
        decreases PAGE_LENGTH - count,
    {
        page.push(fill);
        assert(kept + repeated(fill, (count + 1 - start) as nat) =~= (kept + repeated(
            fill,
            (count - start) as nat,
        )).push(fill));
        count += 1;
    }
    proof {
        if text@.len() >= PAGE_LENGTH {
            assert(page@ =~= text@.take(PAGE_LENGTH as int));
        } else {
            assert(kept =~= text@);
        }
    }
    page
}

/// Fills `text` at the front with `fill` until it is `width` characters
/// long; a text that long or longer is returned as it is.
pub fn left_pad(text: &str, width: usize, fill: char) -> (r: String)
    ensures
        r@ == pad_left(text@, width as nat, fill),
{
    let len = text.unicode_len();
    let mut out = String::new();
    let mut count: usize = len;
    while count < width
        invariant
            len <= count,
            len < width ==> count <= width,
            len >= width ==> count == len,
            out@ == repeated(fill, (count - len) as nat),
        decreases width - count,
    {
        out.push(fill);
        assert(repeated(fill, (count + 1 - len) as nat) =~= repeated(fill, (count - len) as nat).push(
            fill,
        ));
        count += 1;
    }
    out.append(text);
    proof {
        if len >= width {
            assert(out@ =~= text@);
        }
    }
    out
}

/// A page laid out in rows: its characters in order, with a line feed after
/// every `COLUMNS`-th.
pub open spec fn formatted(page: Seq<char>) -> Seq<char>
    decreases page.len(),
{
    if page.len() == 0 {
        Seq::<char>::empty()
    } else if page.len() % (COLUMNS as nat) == 0 {
        formatted(page.drop_last()).push(page.last()).push('\n')
    } else {
        formatted(page.drop_last()).push(page.last())
    }
}

/// Lays a page out in rows of `COLUMNS` characters, each full row ended by a
/// line feed.
pub fn format_page(page: &str) -> (r: String)
    ensures
        r@ == formatted(page@),
{
    let mut out = String::new();
    let mut col: usize = 0;
    for a in it: page.chars()
        invariant
            it.seq() == page@,
            col < COLUMNS,
            col == it.index() % (COLUMNS as int),
            out@ == formatted(page@.take(it.index() as int)),
    {
        let ghost i = it.index() as int;
        assert(page@.take(i + 1).drop_last() =~= page@.take(i));
        assert(page@.take(i + 1).last() == a);
        out.push(a);
        col += 1;
        if col == COLUMNS {
            out.push('\n');
            col = 0;
        }
    }
    assert(page@.take(page@.len() as int) =~= page@);
    out
}

/// `value` with the first `before` characters of `filler` in front of it and
/// the rest of `filler` behind it.
pub open spec fn surrounded(value: Seq<char>, before: int, filler: Seq<char>) -> Seq<char> {
    filler.take(before) + value + filler.skip(before)
}

/// Whether `page` is `value` with page symbols around it: `value` itself
/// when it takes `size` bytes of a page or more; else `value` surrounded by
/// as many page symbols as bytes are missing, at least one of them behind it.
pub open spec fn is_padding_of(value: Seq<char>, size: usize, page: Seq<char>) -> bool {
    if size >= PAGE_LENGTH {
        page == value
    } else {
        exists|before: int, filler: Seq<char>|
            {
                &&& 0 <= before < PAGE_LENGTH - size
                &&& filler.len() == PAGE_LENGTH - size
                &&& within(filler, BABEL_SET@)
                &&& page == #[trigger] surrounded(value, before, filler)
            }
    }
}

/// Puts the first `before` characters of `filler` in front of `value` and
/// the rest of them behind it.
pub fn surround(value: &str, before: usize, filler: &Vec<char>) -> (page: String)
    requires
        before <= filler.len(),
    ensures
        page@ == surrounded(value@, before as int, filler@),
{
    let mut page = String::new();
    let mut i: usize = 0;
    while i < before
        invariant
            i <= before <= filler.len(),
            page@ == filler@.take(i as int),
        decreases before - i,
    {
        page.push(filler[i]);
        assert(filler@.take(i + 1) =~= filler@.take(i as int).push(filler@[i as int]));
        i += 1;
    }
    page.append(value);
    while i < filler.len()
        invariant
            before <= i <= filler.len(),
            page@ == filler@.take(before as int) + value@ + filler@.subrange(before as int, i as int),
        decreases filler.len() - i,
    {
        page.push(filler[i]);
        assert(filler@.subrange(before as int, i + 1) =~= filler@.subrange(
            before as int,
            i as int,
        ).push(filler@[i as int]));
        assert(filler@.take(before as int) + value@ + filler@.subrange(before as int, i + 1)
            =~= (filler@.take(before as int) + value@ + filler@.subrange(
            before as int,
            i as int,
        )).push(filler@[i as int]));
        i += 1;
    }
    assert(filler@.subrange(before as int, filler@.len() as int) =~= filler@.skip(before as int));
    page
}

/// `count` page symbols, each drawn at random.
pub fn random_filler(count: usize) -> (filler: Vec<char>)
    ensures
        filler@.len() == count,
        within(filler@, BABEL_SET@),
{
    let mut filler: Vec<char> = Vec::new();
    while filler.len() < count
        invariant
            filler@.len() <= count,
            within(filler@, BABEL_SET@),
        decreases count - filler@.len(),
    {
        let ghost drawn = filler@;
        let symbol = random_symbol(BABEL_SET.as_slice()).unwrap();
        filler.push(symbol);
        assert forall|i: int| 0 <= i < filler@.len() implies BABEL_SET@.contains(
            #[trigger] filler@[i],
        ) by {
            if i < drawn.len() {
                assert(filler@[i] == drawn[i]);
            }
        }
    }
    filler
}

/// A text that takes less room than a page, set at a random place among
/// random page symbols that fill the page; a text that takes a page or more,
/// unchanged. Room is counted in bytes of UTF-8, one for each page symbol.
pub fn pad_rand(value: &str) -> (page: String)
    ensures
        is_padding_of(value@, value.len(), page@),
{
    if value.len() >= PAGE_LENGTH {
        return String::from_str(value);
    }
    let room = PAGE_LENGTH - value.len();
    let before = random_up_to((room - 1) as u32) as usize;
    let filler = random_filler(room);
    let page = surround(value, before, &filler);
    assert(page@ == surrounded(value@, before as int, filler@));
    page
}

} // verus!
