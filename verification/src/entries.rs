//! The list of entries as it is handed in: text in lines, one entry per line.

use crate::outcome::texts;
use vstd::prelude::*;
use vstd::utf8::{decode_utf8, encode_utf8, encode_utf8_decode_utf8, valid_utf8};

verus! {

/// The byte that ends a line.
pub const LINE_FEED: u8 = 10;

/// The byte that may stand in front of the line feed and then belongs to the
/// line's end.
pub const CARRIAGE_RETURN: u8 = 13;

/// How many bytes stand in front of the first line feed of `text`, or in the
/// whole of it where there is none.
pub open spec fn first_line_len(text: Seq<u8>) -> int
    decreases text.len(),
{
    if text.len() == 0 || text[0] == LINE_FEED {
        0
    } else {
        1 + first_line_len(text.drop_first())
    }
}

/// The first line of `text`, without the line feed that ends it and without a
/// carriage return in front of that line feed.
pub open spec fn first_line(text: Seq<u8>) -> Seq<u8> {
    let n = first_line_len(text);
    if 0 < n < text.len() && text[n - 1] == CARRIAGE_RETURN {
        text.take(n - 1)
    } else {
        text.take(n)
    }
}

/// What follows the first line of `text` and its line feed.
pub open spec fn after_first_line(text: Seq<u8>) -> Seq<u8> {
    let n = first_line_len(text);
    if n < text.len() {
        text.skip(n + 1)
    } else {
        Seq::empty()
    }
}

/// The lines of `text`. A line ends with a line feed, or with a carriage
/// return and a line feed, or with the text; a text that ends with a line feed
/// has no line behind it. Blank lines count.
pub open spec fn lines_of(text: Seq<u8>) -> Seq<Seq<u8>>
    decreases text.len(),
{
    if text.len() == 0 {
        Seq::empty()
    } else {
        proof {
            lemma_first_line_len(text);
        }
        seq![first_line(text)] + lines_of(after_first_line(text))
    }
}

/// Whether every line is UTF-8.
pub open spec fn all_utf8(lines: Seq<Seq<u8>>) -> bool {
    forall|i: int| 0 <= i < lines.len() ==> valid_utf8(#[trigger] lines[i])
}

/// The characters of each line.
pub open spec fn decoded(lines: Seq<Seq<u8>>) -> Seq<Seq<char>> {
    lines.map_values(|line: Seq<u8>| decode_utf8(line))
}

/// The error of `core::str::from_utf8`.
#[verifier::external_type_specification]
#[verifier::external_body]
pub struct ExUtf8Error(core::str::Utf8Error);

/// `core::str::from_utf8` succeeds exactly on bytes that are UTF-8, and the
/// string slice it then gives has those bytes.
pub assume_specification[ core::str::from_utf8 ](bytes: &[u8]) -> (text: Result<
    &str,
    core::str::Utf8Error,
>)
    ensures
        text is Ok <==> valid_utf8(bytes@),
        text matches Ok(s) ==> encode_utf8(s@) == bytes@,
;

/// The first line of a text does not reach beyond the text.
pub proof fn lemma_first_line_len(text: Seq<u8>)
    ensures
        0 <= first_line_len(text) <= text.len(),
        first_line_len(text) < text.len() ==> text[first_line_len(text)] == LINE_FEED,
        forall|i: int| 0 <= i < first_line_len(text) ==> #[trigger] text[i] != LINE_FEED,
    decreases text.len(),
{
    if text.len() > 0 && text[0] != LINE_FEED {
        let rest = text.drop_first();
        lemma_first_line_len(rest);
        assert forall|i: int| 0 <= i < first_line_len(text) implies #[trigger] text[i]
            != LINE_FEED by {
            if i > 0 {
                assert(text[i] == rest[i - 1]);
            }
        }
    }
}

/// Reads one entry from each line of `text`. There is no list where a line is
/// not UTF-8.
pub fn entries_from_text(text: &[u8]) -> (entries: Option<Vec<String>>)
    ensures
        entries is Some <==> all_utf8(lines_of(text@)),
        entries matches Some(list) ==> texts(list@) == decoded(lines_of(text@)),
{
    let n = text.len();
    let mut list: Vec<String> = Vec::new();
    let ghost mut done: Seq<Seq<u8>> = Seq::empty();
    let mut start: usize = 0;
    assert(text@.skip(0) =~= text@);
    while start < n
        invariant
            start <= n,
            n == text@.len(),
            lines_of(text@) == done + lines_of(text@.skip(start as int)),
            all_utf8(done),
            texts(list@) =~= decoded(done),
        decreases n - start,
    {
        let ghost rest = text@.skip(start as int);
        let mut end: usize = start;
        assert(rest.skip(0) =~= rest);
        while end < n && text[end] != LINE_FEED
            invariant
                start <= end <= n,
                n == text@.len(),
                rest == text@.skip(start as int),
                first_line_len(rest) == (end - start) + first_line_len(rest.skip(end - start)),
            decreases n - end,
        {
            assert(rest.skip(end - start)[0] == text@[end as int]);
            assert(rest.skip(end - start).drop_first() =~= rest.skip(end + 1 - start));
            end += 1;
        }
        proof {
            if end < n {
                assert(rest.skip(end - start)[0] == text@[end as int]);
            }
            assert(first_line_len(rest) == end - start);
        }
        let line_end = if end < n && end > start && text[end - 1] == CARRIAGE_RETURN {
            end - 1
        } else {
            end
        };
        let line = &text[start..line_end];
        proof {
            if end > start {
                assert(rest[end - start - 1] == text@[end - 1]);
            }
            assert(line@ =~= first_line(rest));
        }
        match core::str::from_utf8(line) {
            Ok(entry) => {
                let ghost before = list@;
                list.push(entry.to_owned());
                proof {
                    encode_utf8_decode_utf8(entry@);
                    assert(texts(list@) =~= texts(before).push(decode_utf8(line@)));
                    assert(decoded(done.push(line@)) =~= decoded(done).push(decode_utf8(line@)));
                    done = done.push(line@);
                }
            },
            Err(_) => {
                proof {
                    let lines = lines_of(text@);
                    assert(lines[done.len() as int] == line@);
                    assert(!valid_utf8(lines[done.len() as int]));
                }
                return None;
            },
        }
        proof {
            assert(after_first_line(rest) =~= if end < n {
                text@.skip(end + 1)
            } else {
                Seq::<u8>::empty()
            });
            assert(done + lines_of(after_first_line(rest)) =~= done.drop_last() + (seq![
                first_line(rest),
            ] + lines_of(after_first_line(rest))));
        }
        if end < n {
            start = end + 1;
        } else {
            start = n;
            assert(text@.skip(n as int) =~= Seq::<u8>::empty());
        }
    }
    proof {
        assert(lines_of(text@.skip(start as int)) =~= Seq::<Seq<u8>>::empty());
        assert(done + Seq::<Seq<u8>>::empty() =~= done);
    }
    Some(list)
}

} // verus!
