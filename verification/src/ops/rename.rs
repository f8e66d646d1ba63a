//! Naming chart folders after the charts inside them.
//!
//! Each chart file names an artist and a title in its header. A folder is
//! proposed the name `[artist] title`, made of the shortest artist and the
//! shortest title among its charts, cleaned of what a file name cannot hold.

use crate::fsutil::{DirMove, MoveModel};
use crate::lists::{first_where, holds_where, lemma_first_where_is};
use crate::path::{lemma_views_push, views, PathModel, TreePath};
use crate::text::{
    can_decode, chars_of, decodable_len, decode_shift_jis, lemma_truncated, lines_of, lines_of_utf8,
    shift_jis_decoded, text_lines, text_of, truncate_text, truncated, utf8_len, utf8_lines,
};
use regex::Regex;
use vstd::prelude::*;
use vstd::string::{StringExecFns, StringSliceAdditionalSpecFns};
use vstd::utf8::encode_utf8;

verus! {

/// What a header line that names the artist starts with.
pub const ARTIST_KEY: &'static str = "#ARTIST ";

/// What a header line that names the title starts with.
pub const TITLE_KEY: &'static str = "#TITLE ";

/// Why a chart file gives no name.
#[derive(Debug, Clone, Copy, PartialEq, Eq, Structural)]
pub enum NameError {
    /// The artist or the title is not in the file, in either encoding.
    Missing,
    /// The artist or the title is there and empty.
    Blank,
}

/// The value of the first line that starts with `key`: the rest of that line.
pub open spec fn header_value(lines: Seq<Seq<char>>, key: Seq<char>) -> Option<Seq<char>> {
    let has_key = |line: Seq<char>| key.is_prefix_of(line);
    if holds_where(lines, has_key) {
        Some(lines[first_where(lines, has_key)].skip(key.len() as int))
    } else {
        None
    }
}

/// The artist and the title that header lines name.
pub open spec fn names_in(lines: Seq<Seq<char>>) -> (Option<Seq<char>>, Option<Seq<char>>) {
    (header_value(lines, ARTIST_KEY@), header_value(lines, TITLE_KEY@))
}

/// The view of an optional text.
pub open spec fn text_view(text: Option<String>) -> Option<Seq<char>> {
    match text {
        Some(t) => Some(t@),
        None => None,
    }
}

/// The rest of `line` after `key`, where the line starts with it.
fn strip_key(line: &Vec<char>, key: &Vec<char>) -> (value: Option<String>)
    ensures
        match value {
            Some(rest) => key@.is_prefix_of(line@) && rest@ == line@.skip(key@.len() as int),
            None => !key@.is_prefix_of(line@),
        },
{
    if line.len() < key.len() {
        return None;
    }
    let mut i: usize = 0;
    while i < key.len()
        invariant
            i <= key.len() <= line.len(),
            forall|j: int| 0 <= j < i ==> line@[j] == key@[j],
        decreases key.len() - i,
    {
        if line[i] != key[i] {
            assert(line@.subrange(0, key@.len() as int)[i as int] != key@[i as int]);
            return None;
        }
        i += 1;
    }
    assert(line@.subrange(0, key@.len() as int) =~= key@);
    Some(text_of(line, key.len(), line.len()))
}

/// The artist and the title that a chart's header lines name: for each, the
/// rest of the first line that starts with its key.
pub fn read_artist_and_title(lines: &Vec<String>) -> (names: (Option<String>, Option<String>))
    ensures
        (text_view(names.0), text_view(names.1)) == names_in(views(lines@)),
{
    let artist_key = chars_of(ARTIST_KEY);
    let title_key = chars_of(TITLE_KEY);
    let ghost all = views(lines@);
    let ghost is_artist = |line: Seq<char>| ARTIST_KEY@.is_prefix_of(line);
    let ghost is_title = |line: Seq<char>| TITLE_KEY@.is_prefix_of(line);
    let mut artist: Option<String> = None;
    let mut title: Option<String> = None;
    let mut i: usize = 0;
    while i < lines.len() && (artist.is_none() || title.is_none())
        invariant
            i <= lines.len(),
            all == views(lines@),
            artist_key@ == ARTIST_KEY@,
            title_key@ == TITLE_KEY@,
            is_artist == |line: Seq<char>| ARTIST_KEY@.is_prefix_of(line),
            is_title == |line: Seq<char>| TITLE_KEY@.is_prefix_of(line),
            artist is None ==> forall|j: int| 0 <= j < i ==> !is_artist(#[trigger] all[j]),
            title is None ==> forall|j: int| 0 <= j < i ==> !is_title(#[trigger] all[j]),
            artist is Some ==> text_view(artist) == header_value(all, ARTIST_KEY@),
            title is Some ==> text_view(title) == header_value(all, TITLE_KEY@),
        decreases lines.len() - i,
    {
        let line = chars_of(lines[i].as_str());
        assert(line@ == all[i as int]);
        if artist.is_none() {
            artist = strip_key(&line, &artist_key);
            proof {
                if artist is Some {
                    lemma_first_where_is(all, is_artist, i as int);
                }
            }
        }
        if title.is_none() {
            title = strip_key(&line, &title_key);
            proof {
                if title is Some {
                    lemma_first_where_is(all, is_title, i as int);
                }
            }
        }
        i += 1;
    }
    (artist, title)
}

/// A chart's names, checked: both must be there, and neither empty.
pub open spec fn checked_names(artist: Option<Seq<char>>, title: Option<Seq<char>>) -> Result<
    (Seq<char>, Seq<char>),
    NameError,
> {
    match (artist, title) {
        (Some(a), Some(t)) => if a.len() == 0 || t.len() == 0 {
            Err(NameError::Blank)
        } else {
            Ok((a, t))
        },
        _ => Err(NameError::Missing),
    }
}

/// The first of two optional values that is there.
pub open spec fn or_else(first: Option<Seq<char>>, second: Option<Seq<char>>) -> Option<Seq<char>> {
    match first {
        Some(_) => first,
        None => second,
    }
}

/// The names of a chart, given what its UTF-8 lines name and its text in the
/// legacy encoding: where the lines name both, those; else, for each name that
/// they lack, what the legacy text names.
pub open spec fn names_with(
    first: (Option<Seq<char>>, Option<Seq<char>>),
    decoded: Seq<char>,
) -> Result<(Seq<char>, Seq<char>), NameError> {
    if first.0 is Some && first.1 is Some {
        checked_names(first.0, first.1)
    } else {
        let second = names_in(text_lines(decoded));
        checked_names(or_else(first.0, second.0), or_else(first.1, second.1))
    }
}

/// The names of a chart file with the given bytes. A file too large for its
/// legacy text to be held is read as UTF-8 only.
pub open spec fn looked_up(content: Seq<u8>) -> Result<(Seq<char>, Seq<char>), NameError> {
    let first = names_in(utf8_lines(content));
    if decodable_len(content.len()) {
        names_with(first, shift_jis_decoded(content))
    } else {
        checked_names(first.0, first.1)
    }
}

/// The view of a chart's names.
pub open spec fn names_view(names: Result<(String, String), NameError>) -> Result<
    (Seq<char>, Seq<char>),
    NameError,
> {
    match names {
        Ok(pair) => Ok((pair.0@, pair.1@)),
        Err(e) => Err(e),
    }
}

/// Checks a chart's names: both must be there, and neither empty.
fn check_names(artist: Option<String>, title: Option<String>) -> (names: Result<
    (String, String),
    NameError,
>)
    ensures
        names_view(names) == checked_names(text_view(artist), text_view(title)),
{
    match (artist, title) {
        (Some(a), Some(t)) => {
            if a.as_str().unicode_len() == 0 || t.as_str().unicode_len() == 0 {
                Err(NameError::Blank)
            } else {
                Ok((a, t))
            }
        },
        _ => Err(NameError::Missing),
    }
}

/// The names of a chart, from what its UTF-8 lines name and from its text in
/// the legacy encoding. The legacy text is only looked at where the lines
/// lack a name.
pub fn names_with_fallback(first: (Option<String>, Option<String>), decoded: &str) -> (names:
    Result<(String, String), NameError>)
    ensures
        names_view(names) == names_with((text_view(first.0), text_view(first.1)), decoded@),
{
    let (artist1, title1) = first;
    if artist1.is_some() && title1.is_some() {
        check_names(artist1, title1)
    } else {
        let lines = lines_of(decoded);
        let (artist2, title2) = read_artist_and_title(&lines);
        let artist = match artist1 {
            Some(a) => Some(a),
            None => artist2,
        };
        let title = match title1 {
            Some(t) => Some(t),
            None => title2,
        };
        check_names(artist, title)
    }
}

/// The artist and title of a chart file. Its header is read as UTF-8 text,
/// line by line up to the first line that is none; where that leaves the
/// artist or the title open, the whole file is read again as Shift_JIS and the
/// open names are taken from there. An empty artist or title is an error.
pub fn lookup_name(content: &[u8]) -> (names: Result<(String, String), NameError>)
    ensures
        names_view(names) == looked_up(content@),
{
    let lines = lines_of_utf8(content);
    let first = read_artist_and_title(&lines);
    if (first.0.is_some() && first.1.is_some()) || !can_decode(content.len()) {
        check_names(first.0, first.1)
    } else {
        let decoded = decode_shift_jis(content);
        names_with_fallback(first, decoded.as_str())
    }
}

/// The names of the chart files with the given contents, file by file.
pub fn lookup_names(contents: &Vec<Vec<u8>>) -> (names: Vec<Result<(String, String), NameError>>)
    ensures
        names.len() == contents.len(),
        forall|i: int|
            0 <= i < names.len() ==> names_view(#[trigger] names@[i]) == looked_up(contents@[i]@),
{
    let mut names: Vec<Result<(String, String), NameError>> = Vec::new();
    let mut i: usize = 0;
    while i < contents.len()
        invariant
            i <= contents.len(),
            names.len() == i,
            forall|j: int|
                0 <= j < i ==> names_view(#[trigger] names@[j]) == looked_up(contents@[j]@),
        decreases contents.len() - i,
    {
        let found = lookup_name(contents[i].as_slice());
        names.push(found);
        i += 1;
    }
    names
}

/// Whether a character is taken out of a name because a file name cannot,
/// or should not, hold it.
pub open spec fn is_invalid_char(c: char) -> bool {
    c == '/' || c == '"' || c == '?' || c == '<' || c == '>' || c == '*' || c == ':' || c == '|'
        || c == '.'
}

/// A text without the characters that a file name cannot hold.
pub open spec fn without_invalid(text: Seq<char>) -> Seq<char> {
    text.filter(|c: char| !is_invalid_char(c))
}

/// A text made fit for a file name: without the characters that a file name
/// cannot hold, and cut to `limit` bytes at a character boundary.
pub open spec fn sanitized(text: Seq<char>, limit: nat) -> Seq<char> {
    truncated(without_invalid(text), limit)
}

/// A sanitized text holds none of the characters that a file name cannot
/// hold, takes at most `limit` bytes, and is made of whole characters of the
/// text, in their order from its start.
pub proof fn lemma_sanitized(text: Seq<char>, limit: nat)
    ensures
        forall|i: int|
            0 <= i < sanitized(text, limit).len() ==> !is_invalid_char(
                #[trigger] sanitized(text, limit)[i],
            ),
        utf8_len(sanitized(text, limit)) <= limit,
        sanitized(text, limit).is_prefix_of(without_invalid(text)),
{
    let valid = |c: char| !is_invalid_char(c);
    let kept = without_invalid(text);
    lemma_truncated(kept, limit);
    assert forall|i: int| 0 <= i < sanitized(text, limit).len() implies !is_invalid_char(
        #[trigger] sanitized(text, limit)[i],
    ) by {
        assert(sanitized(text, limit)[i] == kept[i]);
        text.lemma_filter_pred(valid, i);
    }
}

/// Whether a character is one that a file name cannot hold.
fn invalid_char(c: char) -> (invalid: bool)
    ensures
        invalid == is_invalid_char(c),
{
    c == '/' || c == '"' || c == '?' || c == '<' || c == '>' || c == '*' || c == ':' || c == '|'
        || c == '.'
}

/// Makes a text fit for a file name: takes out `/ " ? < > * : | .` and cuts
/// what is left to `n` bytes. The cut never falls inside a character: a
/// character that the limit falls into is left out, so that the result never
/// takes more than `n` bytes.
pub fn sanitize_str(s: &str, n: usize) -> (clean: String)
    ensures
        clean@ == sanitized(s@, n as nat),
        forall|i: int| 0 <= i < clean@.len() ==> !is_invalid_char(#[trigger] clean@[i]),
        utf8_len(clean@) <= n,
        clean@.is_prefix_of(without_invalid(s@)),
{
    let chars = chars_of(s);
    let ghost valid = |c: char| !is_invalid_char(c);
    let mut kept = String::new();
    let mut i: usize = 0;
    proof {
        reveal(Seq::filter);
        assert(chars@.subrange(0, 0).filter(valid) =~= kept@);
    }
    while i < chars.len()
        invariant
            i <= chars.len(),
            valid == |c: char| !is_invalid_char(c),
            kept@ == chars@.subrange(0, i as int).filter(valid),
        decreases chars.len() - i,
    {
        proof {
            reveal(Seq::filter);
            assert(chars@.subrange(0, i + 1).drop_last() == chars@.subrange(0, i as int));
        }
        if !invalid_char(chars[i]) {
            kept.push(chars[i]);
        }
        i += 1;
    }
    proof {
        assert(chars@.subrange(0, chars.len() as int) == chars@);
        lemma_sanitized(s@, n as nat);
    }
    truncate_text(kept.as_str(), n)
}

/// The pattern that finds a difficulty at the end of a title: the title
/// proper, as short as can be, then a part in square brackets with the
/// blanks around it.
pub const DIFFICULTY_PATTERN: &'static str = r"(?P<name>.+?)(?P<diff>\s*\[.*?\])\s*$";

/// The group of [`DIFFICULTY_PATTERN`] that holds the title proper.
pub const NAME_GROUP: &'static str = "name";

/// What the group named `group` holds in the leftmost match of the regular
/// expression `pattern` in `text`; `None` where the pattern is no regular
/// expression, where it matches nowhere, and where the group took no part in
/// the match.
pub uninterp spec fn regex_capture(pattern: Seq<char>, group: Seq<char>, text: Seq<char>) -> Option<
    Seq<char>,
>;

/// Compiles `pattern` with `regex::Regex::new`, searches `text` with
/// `Regex::captures` and reads the group with `Captures::name`. The contract
/// only names the outcome: the same three texts give the same result.
#[verifier::external_body]
fn capture_named(pattern: &str, group: &str, text: &str) -> (found: Option<String>)
    ensures
        text_view(found) == regex_capture(pattern@, group@, text@),
{
    match Regex::new(pattern) {
        Ok(re) => re.captures(text).and_then(|caps| caps.name(group)).map(
            |part| part.as_str().to_owned(),
        ),
        Err(_) => None,
    }
}

/// A title without the difficulty at its end, given what the search for it
/// captured: the captured title proper, or the whole title where nothing was
/// captured.
pub open spec fn stem_or(title: Seq<char>, captured: Option<Seq<char>>) -> Seq<char> {
    match captured {
        Some(stem) => stem,
        None => title,
    }
}

/// A title without the difficulty at its end.
pub open spec fn stem_of(title: Seq<char>) -> Seq<char> {
    stem_or(title, regex_capture(DIFFICULTY_PATTERN@, NAME_GROUP@, title))
}

/// The title proper, given what the search for a difficulty captured: the
/// captured part, or the whole title where nothing was captured.
pub fn stem_or_name(name: &str, captured: Option<String>) -> (stem: String)
    ensures
        stem@ == stem_or(name@, text_view(captured)),
{
    match captured {
        Some(stem) => stem,
        None => name.to_owned(),
    }
}

/// A title without the difficulty that may stand in square brackets at its
/// end, as in `Song Name [ANOTHER]`; a title without one is left as it is.
pub fn remove_difficulty(name: &str) -> (stem: String)
    ensures
        stem@ == stem_of(name@),
{
    let captured = capture_named(DIFFICULTY_PATTERN, NAME_GROUP, name);
    stem_or_name(name, captured)
}

/// Whether `at` is the position of the shortest text, the first of them
/// where several are as short.
pub open spec fn is_shortest_at(texts: Seq<Seq<char>>, at: int) -> bool {
    &&& 0 <= at < texts.len()
    &&& forall|j: int| 0 <= j < texts.len() ==> utf8_len(texts[at]) <= utf8_len(#[trigger] texts[j])
    &&& forall|j: int| 0 <= j < at ==> utf8_len(texts[at]) < utf8_len(#[trigger] texts[j])
}

/// The shortest of the texts, counted in bytes; the first of them where
/// several are as short.
pub open spec fn shortest(texts: Seq<Seq<char>>) -> Seq<char> {
    texts[choose|at: int| is_shortest_at(texts, at)]
}

/// The shortest text has one position only.
pub proof fn lemma_shortest_is(texts: Seq<Seq<char>>, at: int)
    requires
        is_shortest_at(texts, at),
    ensures
        shortest(texts) == texts[at],
{
    let chosen = choose|k: int| is_shortest_at(texts, k);
    assert(is_shortest_at(texts, chosen));
    if chosen < at {
        assert(utf8_len(texts[at]) < utf8_len(texts[chosen]));
    }
    if at < chosen {
        assert(utf8_len(texts[chosen]) < utf8_len(texts[at]));
    }
}

/// The position of the shortest of the texts.
fn shortest_position(texts: &Vec<String>) -> (at: usize)
    requires
        texts.len() > 0,
    ensures
        is_shortest_at(views(texts@), at as int),
{
    let ghost all = views(texts@);
    let mut at: usize = 0;
    let mut least: usize = texts[0].as_str().as_bytes().len();
    let mut i: usize = 1;
    while i < texts.len()
        invariant
            1 <= i <= texts.len(),
            all == views(texts@),
            at < i,
            least == utf8_len(all[at as int]),
            forall|j: int| 0 <= j < i ==> least <= utf8_len(#[trigger] all[j]),
            forall|j: int| 0 <= j < at ==> least < utf8_len(#[trigger] all[j]),
        decreases texts.len() - i,
    {
        let len = texts[i].as_str().as_bytes().len();
        assert(len == utf8_len(all[i as int]));
        if len < least {
            at = i;
            least = len;
        }
        i += 1;
    }
    at
}

/// The name of a folder whose charts give this artist and this title.
pub open spec fn folder_name(artist: Seq<char>, title: Seq<char>) -> Seq<char> {
    "["@ + sanitized(artist, MAX_ARTIST as nat) + "] "@ + sanitized(title, MAX_TITLE as nat)
}

/// How many bytes of an artist go into a folder name at most.
pub const MAX_ARTIST: usize = 50;

/// How many bytes of a title go into a folder name at most.
pub const MAX_TITLE: usize = 100;

/// The name proposed from the artists and the titles of a folder's charts,
/// where there is one of each.
pub open spec fn composed(artists: Seq<Seq<char>>, titles: Seq<Seq<char>>) -> Option<Seq<char>> {
    if artists.len() > 0 && titles.len() > 0 {
        Some(folder_name(shortest(artists), shortest(titles)))
    } else {
        None
    }
}

/// The folder name for the artists and titles found in a folder's charts:
/// `[artist] title`, of the shortest artist and the shortest title, each
/// sanitized, the artist to [`MAX_ARTIST`] bytes and the title to
/// [`MAX_TITLE`] at most. Without an artist or without a title there is no
/// name.
pub fn compose_name(artists: &Vec<String>, titles: &Vec<String>) -> (name: Option<String>)
    ensures
        text_view(name) == composed(views(artists@), views(titles@)),
{
    if artists.len() == 0 || titles.len() == 0 {
        return None;
    }
    let a = shortest_position(artists);
    let t = shortest_position(titles);
    proof {
        lemma_shortest_is(views(artists@), a as int);
        lemma_shortest_is(views(titles@), t as int);
    }
    let artist = sanitize_str(artists[a].as_str(), MAX_ARTIST);
    let title = sanitize_str(titles[t].as_str(), MAX_TITLE);
    let mut name = String::new();
    name.append("[");
    name.append(artist.as_str());
    name.append("] ");
    name.append(title.as_str());
    assert(name@ == folder_name(views(artists@)[a as int], views(titles@)[t as int]));
    Some(name)
}

/// The artists of the charts that gave their names, in order.
pub open spec fn artists_of(names: Seq<Result<(Seq<char>, Seq<char>), NameError>>) -> Seq<Seq<char>>
    decreases names.len(),
{
    if names.len() == 0 {
        Seq::empty()
    } else {
        match names.last() {
            Ok(pair) => artists_of(names.drop_last()).push(pair.0),
            Err(_) => artists_of(names.drop_last()),
        }
    }
}

/// The titles of the charts that gave their names, each without its
/// difficulty, in order.
pub open spec fn titles_of(names: Seq<Result<(Seq<char>, Seq<char>), NameError>>) -> Seq<Seq<char>>
    decreases names.len(),
{
    if names.len() == 0 {
        Seq::empty()
    } else {
        match names.last() {
            Ok(pair) => titles_of(names.drop_last()).push(stem_of(pair.1)),
            Err(_) => titles_of(names.drop_last()),
        }
    }
}

/// The names of the chart files with the given contents, file by file.
pub open spec fn all_looked_up(contents: Seq<Seq<u8>>) -> Seq<Result<(Seq<char>, Seq<char>), NameError>> {
    Seq::new(contents.len(), |i: int| looked_up(contents[i]))
}

/// The name proposed for a folder whose chart files have the given contents.
pub open spec fn proposed_name(contents: Seq<Seq<u8>>) -> Option<Seq<char>> {
    composed(artists_of(all_looked_up(contents)), titles_of(all_looked_up(contents)))
}

/// The name proposed for a folder, from the contents of the chart files
/// directly inside it: `[artist] title`, of the shortest artist and the
/// shortest title that its charts name, difficulties taken off the titles.
/// Charts that give no names are passed over; a folder without any chart that
/// names both has no proposal.
pub fn read_files_and_name(contents: &Vec<Vec<u8>>) -> (name: Option<String>)
    ensures
        text_view(name) == proposed_name(views(contents@)),
{
    let names = lookup_names(contents);
    let ghost all = all_looked_up(views(contents@));
    let mut artists: Vec<String> = Vec::new();
    let mut titles: Vec<String> = Vec::new();
    let mut i: usize = 0;
    assert(all.subrange(0, 0) =~= Seq::empty());
    while i < names.len()
        invariant
            i <= names.len(),
            names.len() == all.len(),
            forall|j: int| 0 <= j < names.len() ==> names_view(#[trigger] names@[j]) == all[j],
            views(artists@) == artists_of(all.subrange(0, i as int)),
            views(titles@) == titles_of(all.subrange(0, i as int)),
        decreases names.len() - i,
    {
        proof {
            assert(all.subrange(0, i + 1).drop_last() == all.subrange(0, i as int));
            assert(all.subrange(0, i + 1).last() == names_view(names@[i as int]));
        }
        match &names[i] {
            Ok(pair) => {
                let artist = pair.0.clone();
                let title = remove_difficulty(pair.1.as_str());
                proof {
                    lemma_views_push(artists@, artist);
                    lemma_views_push(titles@, title);
                }
                artists.push(artist);
                titles.push(title);
            },
            Err(_) => {},
        }
        i += 1;
    }
    assert(all.subrange(0, names.len() as int) == all);
    compose_name(&artists, &titles)
}




/// What a [`FolderCharts`] stands for.
pub struct FolderChartsModel {
    pub folder: PathModel,
    pub charts: Seq<Seq<u8>>,
}

/// A chart folder with the contents of the chart files directly inside it.
#[derive(Debug)]
pub struct FolderCharts {
    pub folder: TreePath,
    pub charts: Vec<Vec<u8>>,
}

impl View for FolderCharts {
    type V = FolderChartsModel;

    open spec fn view(&self) -> FolderChartsModel {
        FolderChartsModel { folder: self.folder@, charts: views(self.charts@) }
    }
}

/// Where a folder goes when it takes a name: beside itself, under that name.
pub open spec fn renamed(folder: PathModel, name: Option<Seq<char>>) -> Option<PathModel> {
    match (name, folder.parent()) {
        (Some(text), Some(up)) => Some(up.join(encode_utf8(text))),
        _ => None,
    }
}

/// The rename that a folder's charts call for: the folder goes beside
/// itself under its proposed name, unless it has that name already. A folder
/// without a proposal, or without a directory above it, is left alone.
pub open spec fn rename_of(folder: FolderChartsModel) -> Option<MoveModel> {
    match renamed(folder.folder, proposed_name(folder.charts)) {
        Some(dest) => if dest != folder.folder {
            Some(MoveModel { from: folder.folder, dest })
        } else {
            None
        },
        None => None,
    }
}

/// The renames that the folders call for, in the order of the folders.
pub open spec fn renames(folders: Seq<FolderChartsModel>) -> Seq<MoveModel>
    decreases folders.len(),
{
    if folders.len() == 0 {
        Seq::empty()
    } else {
        let before = renames(folders.drop_last());
        match rename_of(folders.last()) {
            Some(pair) => before.push(pair),
            None => before,
        }
    }
}

/// Where `folder` goes when it takes `name`, if it can.
pub fn rename_target(folder: &TreePath, name: &Option<String>) -> (dest: Option<TreePath>)
    ensures
        match dest {
            Some(to) => renamed(folder@, text_view(*name)) == Some(to@),
            None => renamed(folder@, text_view(*name)) is None,
        },
{
    match (name, folder.parent()) {
        (Some(text), Some(up)) => Some(up.join(text.as_str().as_bytes())),
        _ => None,
    }
}

/// The rename stage: for each chart folder, in order, the rename that its
/// charts call for. Whether a rename is carried out is decided when its turn
/// comes, by [`rename_action`].
pub fn rename_dirs(folders: &Vec<FolderCharts>) -> (pairs: Vec<DirMove>)
    ensures
        views(pairs@) == renames(views(folders@)),
{
    let ghost all = views(folders@);
    let mut pairs: Vec<DirMove> = Vec::new();
    let mut i: usize = 0;
    assert(views(pairs@) =~= renames(all.subrange(0, 0)));
    while i < folders.len()
        invariant
            i <= folders.len(),
            all == views(folders@),
            views(pairs@) == renames(all.subrange(0, i as int)),
        decreases folders.len() - i,
    {
        let folder = &folders[i];
        proof {
            assert(all.subrange(0, i + 1).drop_last() == all.subrange(0, i as int));
            assert(all.subrange(0, i + 1).last() == folder@);
        }
        let name = read_files_and_name(&folder.charts);
        match rename_target(&folder.folder, &name) {
            Some(dest) => {
                if !dest.same_as(&folder.folder) {
                    let pair = DirMove { from: folder.folder.duplicate(), dest };
                    proof {
                        lemma_views_push(pairs@, pair);
                    }
                    pairs.push(pair);
                }
            },
            None => {},
        }
        i += 1;
    }
    assert(all.subrange(0, folders.len() as int) == all);
    pairs
}

/// What is done about a rename when its turn comes.
#[derive(Debug, Clone, Copy, PartialEq, Eq, Structural)]
pub enum RenameAction {
    /// The folder is moved to its new name.
    Move,
    /// A dry run: the rename is reported and nothing is moved.
    DryRun,
    /// Something has the new name already: the rename is called off with a
    /// warning, and both stay as they are.
    Cancel,
}

/// What is done about a rename whose destination does or does not exist:
/// nothing is ever renamed onto something that is there.
pub fn rename_action(dest_exists: bool, dryrun: bool) -> (action: RenameAction)
    ensures
        action == if dest_exists {
            RenameAction::Cancel
        } else if dryrun {
            RenameAction::DryRun
        } else {
            RenameAction::Move
        },
{
    if dest_exists {
        RenameAction::Cancel
    } else if dryrun {
        RenameAction::DryRun
    } else {
        RenameAction::Move
    }
}

/// The folders after a pass in which every rename was carried out: each
/// under its proposed name, with the charts that it had.
pub open spec fn all_renamed(folders: Seq<FolderChartsModel>) -> Seq<FolderChartsModel> {
    Seq::new(
        folders.len(),
        |k: int|
            match rename_of(folders[k]) {
                Some(pair) => FolderChartsModel { folder: pair.dest, charts: folders[k].charts },
                None => folders[k],
            },
    )
}

/// After a pass in which every rename was carried out, a second pass over
/// the same folders with the same charts renames nothing.
pub proof fn lemma_second_pass_renames_nothing(folders: Seq<FolderChartsModel>)
    ensures
        renames(all_renamed(folders)).len() == 0,
    decreases folders.len(),
{
    let after = all_renamed(folders);
    if folders.len() > 0 {
        lemma_second_pass_renames_nothing(folders.drop_last());
        assert(after.drop_last() =~= all_renamed(folders.drop_last()));
        assert(after.last() == after[folders.len() - 1]);
        if rename_of(folders.last()) is Some {
            lemma_renamed_folder_stays(folders.last());
        }
    }
}

/// A folder that has taken its proposed name is proposed no other: with the
/// same charts inside, a second pass leaves it alone.
pub proof fn lemma_renamed_folder_stays(folder: FolderChartsModel)
    requires
        rename_of(folder) is Some,
    ensures
        rename_of(FolderChartsModel { folder: rename_of(folder)->0.dest, charts: folder.charts })
            is None,
{
    let dest = rename_of(folder)->0.dest;
    let up = folder.folder.parent()->0;
    let name = encode_utf8(proposed_name(folder.charts)->0);
    assert(up.parts.push(name).drop_last() == up.parts);
    assert(dest.parent() == Some(up));
}

} // verus!
