//! Text: strings as lists of characters, the lines of a text, and the
//! decoding of bytes into text.

use crate::path::{bytes_eq, lemma_views_push, views};
use vstd::prelude::*;
use vstd::string::{StringExecFns, StringSliceAdditionalSpecFns};
use vstd::utf8::{decode_utf8, encode_utf8, is_char_boundary, valid_utf8};

verus! {

/// `String::push` appends one character.
pub assume_specification[ String::push ](text: &mut String, ch: char)
    ensures
        final(text)@ == old(text)@.push(ch),
;

/// The characters of a text.
pub fn chars_of(text: &str) -> (chars: Vec<char>)
    ensures
        chars@ == text@,
{
    let mut chars: Vec<char> = Vec::new();
    for ch in it: text.chars()
        invariant
            it.seq() == text@,
            chars@ == it.seq().subrange(0, it.index() as int),
    {
        chars.push(ch);
    }
    assert(chars@ == text@.subrange(0, text@.len() as int));
    chars
}

/// The text made of the characters `chars[from..to]`.
pub fn text_of(chars: &Vec<char>, from: usize, to: usize) -> (text: String)
    requires
        from <= to <= chars.len(),
    ensures
        text@ == chars@.subrange(from as int, to as int),
{
    let mut text = String::new();
    let mut i: usize = from;
    while i < to
        invariant
            from <= i <= to <= chars.len(),
            text@ == chars@.subrange(from as int, i as int),
        decreases to - i,
    {
        text.push(chars[i]);
        assert(chars@.subrange(from as int, i + 1) == chars@.subrange(from as int, i as int).push(
            chars@[i as int],
        ));
        i += 1;
    }
    text
}

/// Calls `String::from_utf8`: the text that the bytes encode in UTF-8, or
/// `None` where they are no valid UTF-8.
#[verifier::external_body]
pub(crate) fn utf8_text(bytes: Vec<u8>) -> (text: Option<String>)
    ensures
        match text {
            Some(t) => valid_utf8(bytes@) && t@ == decode_utf8(bytes@),
            None => !valid_utf8(bytes@),
        },
{
    String::from_utf8(bytes).ok()
}

/// What the bytes say when read as Shift_JIS, a byte order mark at their
/// start taking precedence, with U+FFFD in place of what cannot be decoded.
pub uninterp spec fn shift_jis_decoded(bytes: Seq<u8>) -> Seq<char>;

/// Whether bytes are few enough for the buffers of their decoded text to be
/// sized: eight times their number, and a little more, is a size that memory
/// can have.
pub open spec fn decodable_len(len: nat) -> bool {
    len * 8 + 64 <= isize::MAX
}

/// Whether `len` bytes are few enough to be decoded.
pub fn can_decode(len: usize) -> (fits: bool)
    ensures
        fits == decodable_len(len as nat),
{
    len <= (isize::MAX as usize - 64) / 8
}

/// Calls `encoding_rs::SHIFT_JIS.decode` and keeps the text. The contract
/// only names the outcome: the same bytes give the same text. The call
/// panics where the size of a buffer overflows; it asks for up to three
/// times the input and a few bytes, twice at most, and such inputs are left
/// out.
#[verifier::external_body]
pub(crate) fn decode_shift_jis(bytes: &[u8]) -> (text: String)
    requires
        decodable_len(bytes@.len()),
    ensures
        text@ == shift_jis_decoded(bytes@),
{
    encoding_rs::SHIFT_JIS.decode(bytes).0.into_owned()
}

/// The position of the first `mark` in `items`, or their length where there is none.
pub open spec fn first_mark<T>(items: Seq<T>, mark: T) -> nat
    decreases items.len(),
{
    if items.len() == 0 {
        0
    } else if items[0] == mark {
        0
    } else {
        1 + first_mark(items.drop_first(), mark)
    }
}

/// A line without the carriage return that stood before its line feed.
pub open spec fn without_return<T>(line: Seq<T>, cr: T) -> Seq<T> {
    if line.len() > 0 && line.last() == cr {
        line.drop_last()
    } else {
        line
    }
}

/// The lines of `items`: the stretches between line feeds, each without the
/// line feed that ends it and without a carriage return before that line
/// feed. What follows the last line feed is a line if it is not empty.
pub open spec fn split_lines<T>(items: Seq<T>, lf: T, cr: T) -> Seq<Seq<T>>
    decreases items.len(),
{
    if items.len() == 0 {
        Seq::empty()
    } else {
        let end = first_mark(items, lf);
        if end >= items.len() {
            seq![items]
        } else {
            seq![without_return(items.subrange(0, end as int), cr)] + split_lines(
                items.subrange(end as int + 1, items.len() as int),
                lf,
                cr,
            )
        }
    }
}

/// [`first_mark`] is in range, marks nothing before it, and marks a `mark`
/// where it is inside the list.
pub proof fn lemma_first_mark<T>(items: Seq<T>, mark: T)
    ensures
        first_mark(items, mark) <= items.len(),
        forall|j: int| 0 <= j < first_mark(items, mark) ==> items[j] != mark,
        first_mark(items, mark) < items.len() ==> items[first_mark(items, mark) as int] == mark,
    decreases items.len(),
{
    if items.len() > 0 && items[0] != mark {
        let rest = items.drop_first();
        lemma_first_mark(rest, mark);
        assert forall|j: int| 0 <= j < first_mark(items, mark) implies items[j] != mark by {
            if j > 0 {
                assert(rest[j - 1] == items[j]);
            }
        }
    }
}

/// A position that holds the first `mark` is [`first_mark`].
pub proof fn lemma_first_mark_is<T>(items: Seq<T>, mark: T, at: int)
    requires
        0 <= at <= items.len(),
        forall|j: int| 0 <= j < at ==> items[j] != mark,
        at < items.len() ==> items[at] == mark,
    ensures
        first_mark(items, mark) == at,
{
    lemma_first_mark(items, mark);
}

/// The lines of the characters `chars`, as `str::lines` gives them.
pub open spec fn text_lines(chars: Seq<char>) -> Seq<Seq<char>> {
    split_lines(chars, '\n', '\r')
}

/// The lines of the bytes `bytes`, as reading line by line gives them.
pub open spec fn byte_lines(bytes: Seq<u8>) -> Seq<Seq<u8>> {
    split_lines(bytes, '\n' as u8, '\r' as u8)
}

/// The lines of a text: split at line feeds, a carriage return before a line
/// feed dropped with it.
pub fn lines_of(text: &str) -> (lines: Vec<String>)
    ensures
        views(lines@) == text_lines(text@),
{
    let chars = chars_of(text);
    let mut lines: Vec<String> = Vec::new();
    let mut start: usize = 0;
    let mut i: usize = 0;
    assert(chars@.subrange(0, chars@.len() as int) == chars@);
    while i < chars.len()
        invariant
            start <= i <= chars.len(),
            chars@ == text@,
            forall|j: int| start <= j < i ==> chars@[j] != '\n',
            views(lines@) + text_lines(chars@.subrange(start as int, chars@.len() as int))
                == text_lines(chars@),
        decreases chars.len() - i,
    {
        if chars[i] == '\n' {
            let ghost rest = chars@.subrange(start as int, chars@.len() as int);
            let end: usize = if i > start && chars[i - 1] == '\r' {
                i - 1
            } else {
                i
            };
            let line = text_of(&chars, start, end);
            proof {
                lemma_first_mark_is(rest, '\n', i - start);
                assert(rest.subrange(0, i - start) == chars@.subrange(start as int, i as int));
                assert(rest.subrange(i - start + 1, rest.len() as int) == chars@.subrange(
                    i + 1,
                    chars@.len() as int,
                ));
                assert(line@ == without_return(chars@.subrange(start as int, i as int), '\r'));
                lemma_views_push(lines@, line);
            }
            lines.push(line);
            start = i + 1;
        }
        i += 1;
    }
    if start < chars.len() {
        let ghost rest = chars@.subrange(start as int, chars@.len() as int);
        let line = text_of(&chars, start, chars.len());
        proof {
            lemma_first_mark_is(rest, '\n', rest.len() as int);
            lemma_views_push(lines@, line);
        }
        lines.push(line);
    }
    lines
}

/// The bytes `bytes[from..to]`.
fn bytes_between(bytes: &[u8], from: usize, to: usize) -> (part: Vec<u8>)
    requires
        from <= to <= bytes.len(),
    ensures
        part@ == bytes@.subrange(from as int, to as int),
{
    let mut part: Vec<u8> = Vec::new();
    let mut i: usize = from;
    while i < to
        invariant
            from <= i <= to <= bytes.len(),
            part@ == bytes@.subrange(from as int, i as int),
        decreases to - i,
    {
        part.push(bytes[i]);
        assert(bytes@.subrange(from as int, i + 1) == bytes@.subrange(from as int, i as int).push(
            bytes@[i as int],
        ));
        i += 1;
    }
    part
}

/// The lines of a file's bytes: split at line feeds, a carriage return
/// before a line feed dropped with it.
pub fn lines_of_bytes(bytes: &[u8]) -> (lines: Vec<Vec<u8>>)
    ensures
        views(lines@) == byte_lines(bytes@),
{
    let mut lines: Vec<Vec<u8>> = Vec::new();
    let mut start: usize = 0;
    let mut i: usize = 0;
    assert(bytes@.subrange(0, bytes@.len() as int) == bytes@);
    while i < bytes.len()
        invariant
            start <= i <= bytes.len(),
            forall|j: int| start <= j < i ==> bytes@[j] != '\n' as u8,
            views(lines@) + byte_lines(bytes@.subrange(start as int, bytes@.len() as int))
                == byte_lines(bytes@),
        decreases bytes.len() - i,
    {
        if bytes[i] == '\n' as u8 {
            let ghost rest = bytes@.subrange(start as int, bytes@.len() as int);
            let end: usize = if i > start && bytes[i - 1] == '\r' as u8 {
                i - 1
            } else {
                i
            };
            let line = bytes_between(bytes, start, end);
            proof {
                lemma_first_mark_is(rest, '\n' as u8, i - start);
                assert(rest.subrange(0, i - start) == bytes@.subrange(start as int, i as int));
                assert(rest.subrange(i - start + 1, rest.len() as int) == bytes@.subrange(
                    i + 1,
                    bytes@.len() as int,
                ));
                assert(line@ == without_return(
                    bytes@.subrange(start as int, i as int),
                    '\r' as u8,
                ));
                lemma_views_push(lines@, line);
            }
            lines.push(line);
            start = i + 1;
        }
        i += 1;
    }
    if start < bytes.len() {
        let ghost rest = bytes@.subrange(start as int, bytes@.len() as int);
        let line = bytes_between(bytes, start, bytes.len());
        proof {
            lemma_first_mark_is(rest, '\n' as u8, rest.len() as int);
            lemma_views_push(lines@, line);
        }
        lines.push(line);
    }
    lines
}

/// The texts of the lines before the first that is no valid UTF-8.
pub open spec fn decoded_while_valid(lines: Seq<Seq<u8>>) -> Seq<Seq<char>>
    decreases lines.len(),
{
    if lines.len() == 0 || !valid_utf8(lines[0]) {
        Seq::empty()
    } else {
        seq![decode_utf8(lines[0])] + decoded_while_valid(lines.drop_first())
    }
}

/// The lines that reading a file as UTF-8 text gives, up to the first line
/// that is no valid UTF-8.
pub open spec fn utf8_lines(bytes: Seq<u8>) -> Seq<Seq<char>> {
    decoded_while_valid(byte_lines(bytes))
}

/// The lines of a file read as UTF-8 text; reading stops before the first
/// line that is no valid UTF-8.
pub fn lines_of_utf8(bytes: &[u8]) -> (lines: Vec<String>)
    ensures
        views(lines@) == utf8_lines(bytes@),
{
    let mut raw = lines_of_bytes(bytes);
    let ghost all = views(raw@);
    let mut lines: Vec<String> = Vec::new();
    let total = raw.len();
    let mut i: usize = 0;
    assert(all.subrange(0, all.len() as int) == all);
    while i < total
        invariant
            i <= total == raw.len(),
            all.len() == total,
            all == byte_lines(bytes@),
            forall|j: int| i <= j < total ==> (#[trigger] raw@[j])@ == all[j],
            views(lines@) + decoded_while_valid(all.subrange(i as int, all.len() as int))
                == decoded_while_valid(all),
        decreases total - i,
    {
        let ghost rest = all.subrange(i as int, all.len() as int);
        let mut line: Vec<u8> = Vec::new();
        std::mem::swap(&mut line, &mut raw[i]);
        assert(line@ == all[i as int]);
        assert(rest[0] == all[i as int]);
        match utf8_text(line) {
            Some(text) => {
                proof {
                    assert(rest.drop_first() == all.subrange(i + 1, all.len() as int));
                    lemma_views_push(lines@, text);
                }
                lines.push(text);
            },
            None => {
                assert(decoded_while_valid(rest) == Seq::<Seq<char>>::empty());
                assert(views(lines@) + Seq::<Seq<char>>::empty() == views(lines@));
                return lines;
            },
        }
        i += 1;
    }
    assert(views(lines@) + Seq::<Seq<char>>::empty() == views(lines@));
    lines
}

/// The number of bytes that a text takes in UTF-8.
pub open spec fn utf8_len(text: Seq<char>) -> nat {
    encode_utf8(text).len()
}

/// Whether `cut` is where a text of `bytes` is cut to `limit` bytes: the
/// last character boundary at or before the limit, or the end of the text
/// where that comes first.
pub open spec fn is_cut_point(bytes: Seq<u8>, limit: nat, cut: int) -> bool {
    let most = if bytes.len() <= limit {
        bytes.len() as int
    } else {
        limit as int
    };
    &&& 0 <= cut <= most
    &&& is_char_boundary(bytes, cut)
    &&& forall|j: int| cut < j <= most ==> !is_char_boundary(bytes, j)
}

/// Where a text of `bytes` is cut to `limit` bytes.
pub open spec fn cut_point(bytes: Seq<u8>, limit: nat) -> int {
    choose|cut: int| is_cut_point(bytes, limit, cut)
}

/// A text cut to `limit` bytes: its characters up to the last character
/// boundary within that many bytes. A character that the limit falls into is
/// left out whole.
pub open spec fn truncated(text: Seq<char>, limit: nat) -> Seq<char> {
    let bytes = encode_utf8(text);
    decode_utf8(bytes.subrange(0, cut_point(bytes, limit)))
}

/// There is one place only where a text is cut.
pub proof fn lemma_cut_point_is(bytes: Seq<u8>, limit: nat, cut: int)
    requires
        is_cut_point(bytes, limit, cut),
    ensures
        cut_point(bytes, limit) == cut,
{
    let chosen = cut_point(bytes, limit);
    assert(is_cut_point(bytes, limit, chosen));
}

/// Where no position after `from` up to `most` is a character boundary, a
/// last boundary stands at or before `from`.
proof fn lemma_boundary_precedes(bytes: Seq<u8>, most: int, from: int)
    requires
        valid_utf8(bytes),
        0 <= from <= most <= bytes.len(),
        forall|j: int| from < j <= most ==> !is_char_boundary(bytes, j),
    ensures
        exists|cut: int|
            0 <= cut <= from && is_char_boundary(bytes, cut) && forall|j: int|
                cut < j <= most ==> !is_char_boundary(bytes, j),
    decreases from,
{
    if is_char_boundary(bytes, from) {
    } else {
        assert(is_char_boundary(bytes, 0));
        lemma_boundary_precedes(bytes, most, from - 1);
    }
}

/// Every valid text has a place where it is cut.
pub proof fn lemma_cut_point(bytes: Seq<u8>, limit: nat)
    requires
        valid_utf8(bytes),
    ensures
        is_cut_point(bytes, limit, cut_point(bytes, limit)),
{
    let most = if bytes.len() <= limit {
        bytes.len() as int
    } else {
        limit as int
    };
    lemma_boundary_precedes(bytes, most, most);
    let cut = choose|cut: int|
        0 <= cut <= most && is_char_boundary(bytes, cut) && forall|j: int|
            cut < j <= most ==> !is_char_boundary(bytes, j);
    assert(is_cut_point(bytes, limit, cut));
}

/// A text cut to `limit` bytes takes at most `limit` bytes, and is a part of
/// the text from its start, whole characters only. A text that takes no more
/// than the limit is left as it is.
pub proof fn lemma_truncated(text: Seq<char>, limit: nat)
    ensures
        utf8_len(truncated(text, limit)) <= limit,
        truncated(text, limit).is_prefix_of(text),
        utf8_len(text) <= limit ==> truncated(text, limit) == text,
{
    let bytes = encode_utf8(text);
    vstd::utf8::encode_utf8_valid_utf8(text);
    vstd::utf8::encode_utf8_decode_utf8(text);
    lemma_cut_point(bytes, limit);
    let cut = cut_point(bytes, limit);
    vstd::utf8::decode_utf8_split(bytes, cut);
    vstd::utf8::valid_utf8_split(bytes, cut);
    let head = decode_utf8(bytes.subrange(0, cut));
    let rest = decode_utf8(bytes.subrange(cut, bytes.len() as int));
    assert(text == head + rest);
    assert(head =~= text.subrange(0, head.len() as int));
    vstd::utf8::decode_utf8_encode_utf8(bytes.subrange(0, cut));
    assert(encode_utf8(head) == bytes.subrange(0, cut));
    if utf8_len(text) <= limit {
        vstd::utf8::is_char_boundary_start_end_of_seq(bytes);
        assert(cut == bytes.len());
        assert(bytes.subrange(0, cut) == bytes);
    }
}

/// The text cut to `limit` bytes, never in the middle of a character: a
/// character that the limit falls into is left out.
pub fn truncate_text(text: &str, limit: usize) -> (head: String)
    ensures
        head@ == truncated(text@, limit as nat),
        utf8_len(head@) <= limit,
        head@.is_prefix_of(text@),
{
    let ghost bytes = encode_utf8(text@);
    proof {
        vstd::utf8::encode_utf8_valid_utf8(text@);
        lemma_truncated(text@, limit as nat);
    }
    let len = text.as_bytes().len();
    assert(text.spec_bytes() == bytes);
    let most: usize = if len <= limit {
        len
    } else {
        limit
    };
    let mut cut: usize = most;
    while !text.is_char_boundary(cut)
        invariant
            cut <= most <= len,
            len == bytes.len(),
            bytes == text.spec_bytes(),
            valid_utf8(bytes),
            forall|j: int| cut < j <= most ==> !is_char_boundary(bytes, j),
        decreases cut,
    {
        assert(is_char_boundary(bytes, 0));
        cut -= 1;
    }
    proof {
        lemma_cut_point_is(bytes, limit as nat, cut as int);
    }
    let (head, _) = text.split_at(cut);
    let head = head.to_owned();
    proof {
        vstd::utf8::encode_utf8_decode_utf8(head@);
    }
    head
}

/// Whether two texts are the same.
pub fn str_eq(a: &str, b: &str) -> (same: bool)
    ensures
        same == (a@ == b@),
{
    proof {
        vstd::utf8::encode_utf8_decode_utf8(a@);
        vstd::utf8::encode_utf8_decode_utf8(b@);
    }
    bytes_eq(a.as_bytes(), b.as_bytes())
}

/// Whether `part` stands in `text` at position `at`.
pub open spec fn stands_at(text: Seq<char>, part: Seq<char>, at: int) -> bool {
    0 <= at && at + part.len() <= text.len() && text.subrange(at, at + part.len()) == part
}

/// Whether `part` stands in `chars` at position `at`.
fn matches_at(chars: &Vec<char>, part: &Vec<char>, at: usize) -> (found: bool)
    requires
        at <= chars.len(),
    ensures
        found == stands_at(chars@, part@, at as int),
{
    if chars.len() - at < part.len() {
        return false;
    }
    let mut k: usize = 0;
    while k < part.len()
        invariant
            k <= part.len(),
            at + part.len() <= chars.len(),
            forall|j: int| 0 <= j < k ==> chars@[at + j] == part@[j],
        decreases part.len() - k,
    {
        if chars[at + k] != part[k] {
            assert(chars@.subrange(at as int, at + part.len())[k as int] != part@[k as int]);
            return false;
        }
        k += 1;
    }
    assert(chars@.subrange(at as int, at + part.len()) =~= part@);
    true
}

/// Whether a text ends with `suffix`.
pub fn ends_with(text: &str, suffix: &str) -> (found: bool)
    ensures
        found == (suffix@.len() <= text@.len() && stands_at(
            text@,
            suffix@,
            text@.len() - suffix@.len(),
        )),
{
    let chars = chars_of(text);
    let part = chars_of(suffix);
    if chars.len() < part.len() {
        false
    } else {
        matches_at(&chars, &part, chars.len() - part.len())
    }
}

/// A text with `to` before each of its characters and after the last.
pub open spec fn interleaved(text: Seq<char>, to: Seq<char>) -> Seq<char>
    decreases text.len(),
{
    if text.len() == 0 {
        to
    } else {
        to + seq![text[0]] + interleaved(text.skip(1), to)
    }
}

/// A text with every `from` replaced by `to`, the occurrences taken from
/// left to right and never overlapping. An empty `from` occurs before every
/// character and after the last.
pub open spec fn replaced(text: Seq<char>, from: Seq<char>, to: Seq<char>) -> Seq<char>
    decreases text.len(),
{
    if from.len() == 0 {
        interleaved(text, to)
    } else if text.len() < from.len() {
        text
    } else if stands_at(text, from, 0) {
        to + replaced(text.skip(from.len() as int), from, to)
    } else {
        seq![text[0]] + replaced(text.skip(1), from, to)
    }
}

/// The text with every `from` replaced by `to`.
pub fn replace_all(text: &str, from: &str, to: &str) -> (out: String)
    ensures
        out@ == replaced(text@, from@, to@),
{
    let chars = chars_of(text);
    let part = chars_of(from);
    let mut out = String::new();
    let mut i: usize = 0;
    assert(chars@.skip(0) == chars@);
    if part.len() == 0 {
        while i < chars.len()
            invariant
                i <= chars.len(),
                out@ + interleaved(chars@.skip(i as int), to@) == interleaved(chars@, to@),
            decreases chars.len() - i,
        {
            let ghost rest = chars@.skip(i as int);
            proof {
                assert(rest.skip(1) == chars@.skip(i + 1));
                assert(out@ + (to@ + seq![rest[0]] + interleaved(rest.skip(1), to@)) == (out@
                    + to@).push(rest[0]) + interleaved(rest.skip(1), to@));
            }
            out.append(to);
            out.push(chars[i]);
            i += 1;
        }
        out.append(to);
        return out;
    }
    while i < chars.len()
        invariant
            i <= chars.len(),
            chars@ == text@,
            part@ == from@,
            part@.len() > 0,
            out@ + replaced(chars@.skip(i as int), from@, to@) == replaced(chars@, from@, to@),
        decreases chars.len() - i,
    {
        let ghost rest = chars@.skip(i as int);
        if matches_at(&chars, &part, i) {
            proof {
                assert(rest.subrange(0, part@.len() as int) == chars@.subrange(
                    i as int,
                    i + part@.len(),
                ));
                assert(rest.skip(part@.len() as int) == chars@.skip(i + part@.len()));
                assert(out@ + (to@ + replaced(rest.skip(part@.len() as int), from@, to@)) == (out@
                    + to@) + replaced(rest.skip(part@.len() as int), from@, to@));
            }
            out.append(to);
            i += part.len();
        } else {
            proof {
                assert(rest.skip(1) == chars@.skip(i + 1));
                if rest.len() >= part@.len() {
                    assert(rest.subrange(0, part@.len() as int) == chars@.subrange(
                        i as int,
                        i + part@.len(),
                    ));
                } else {
                    lemma_replaced_short(rest, from@, to@);
                    lemma_replaced_short(rest.skip(1), from@, to@);
                    assert(rest =~= seq![rest[0]] + rest.skip(1));
                }
                assert(out@ + (seq![rest[0]] + replaced(rest.skip(1), from@, to@)) == out@.push(
                    rest[0],
                ) + replaced(rest.skip(1), from@, to@));
            }
            out.push(chars[i]);
            i += 1;
        }
    }
    assert(out@ + Seq::<char>::empty() == out@);
    out
}

/// A text shorter than `from` holds no `from` to replace.
pub proof fn lemma_replaced_short(text: Seq<char>, from: Seq<char>, to: Seq<char>)
    requires
        text.len() < from.len(),
    ensures
        replaced(text, from, to) == text,
{
}

} // verus!
