use vstd::prelude::*;
use vstd::string::{StrSliceExecFns, StringSliceAdditionalSpecFns};
use vstd::utf8::*;

use crate::read::Source;
use crate::text::{
    contains_str, decimal, decimal_string, is_substring, pad_left, pad_left_string, pad_right,
    pad_right_string,
};

verus! {

broadcast use vstd::string::group_string_axioms;

#[verifier::external_type_specification]
#[verifier::external_body]
pub struct ExRegex(regex::Regex);

/// The pattern a regex was compiled from.
pub uninterp spec fn regex_pattern(re: regex::Regex) -> Seq<char>;

/// Whether `pattern` is a regex that compiles.
pub uninterp spec fn pattern_compiles(pattern: Seq<char>) -> bool;

/// The byte range of the leftmost-first match of `pattern` in `haystack`.
pub uninterp spec fn first_match(pattern: Seq<char>, haystack: Seq<char>) -> Option<(int, int)>;

/// The byte ranges of the capture groups of the leftmost-first match of
/// `pattern` in `haystack`, group 0 being the whole match; `None` for a
/// group that took no part in it.
pub uninterp spec fn capture_groups(pattern: Seq<char>, haystack: Seq<char>) -> Option<
    Seq<Option<(int, int)>>,
>;

/// `s..e` is a range of `text`'s bytes that starts and ends at characters.
pub open spec fn is_text_range(text: Seq<char>, s: int, e: int) -> bool {
    &&& 0 <= s <= e <= encode_utf8(text).len()
    &&& is_char_boundary(encode_utf8(text), s)
    &&& is_char_boundary(encode_utf8(text), e)
}

/// Calls `regex::Regex::new`, which compiles `pattern` with the default
/// settings or fails; the regex it gives remembers `pattern`.
#[verifier::external_body]
fn regex_new(pattern: &str) -> (r: Option<regex::Regex>)
    ensures
        r is Some <==> pattern_compiles(pattern@),
        r matches Some(re) ==> regex_pattern(re) == pattern@,
{
    regex::Regex::new(pattern).ok()
}

/// A regex compiled from its pattern with the default settings. Only
/// `Pattern::new` makes one, so what it matches is fixed by its text.
pub struct Pattern {
    re: regex::Regex,
}

impl Pattern {
    /// The pattern this regex was compiled from.
    pub closed spec fn text(&self) -> Seq<char> {
        regex_pattern(self.re)
    }

    /// Compiles `pattern`; `None` where it is not a valid regex.
    pub fn new(pattern: &str) -> (r: Option<Pattern>)
        ensures
            r is Some <==> pattern_compiles(pattern@),
            r matches Some(p) ==> p.text() == pattern@,
    {
        match regex_new(pattern) {
            Some(re) => Some(Pattern { re }),
            None => None,
        }
    }
}

/// Calls `regex::Regex::find` on the regex of `p`; the offsets of a match
/// fall on character boundaries of the haystack, start before end.
#[verifier::external_body]
fn regex_find(p: &Pattern, haystack: &str) -> (r: Option<(usize, usize)>)
    ensures
        r is None <==> first_match(p.text(), haystack@) is None,
        r matches Some(m) ==> first_match(p.text(), haystack@) == Some(
            (m.0 as int, m.1 as int),
        ) && is_text_range(haystack@, m.0 as int, m.1 as int),
{
    p.re.find(haystack).map(|m| (m.start(), m.end()))
}

/// Calls `regex::Regex::captures` on the regex of `p` and lists the groups'
/// offsets, which fall on character boundaries of the haystack, start
/// before end.
#[verifier::external_body]
fn regex_captures(p: &Pattern, haystack: &str) -> (r: Option<Vec<Option<(usize, usize)>>>)
    ensures
        r is None <==> capture_groups(p.text(), haystack@) is None,
        r matches Some(v) ==> {
            let g = capture_groups(p.text(), haystack@)->0;
            &&& v@.len() == g.len()
            &&& forall|i: int|
                0 <= i < v@.len() ==> match #[trigger] v@[i] {
                    Some(m) => g[i] == Some((m.0 as int, m.1 as int)) && is_text_range(
                        haystack@,
                        m.0 as int,
                        m.1 as int,
                    ),
                    None => g[i] is None,
                }
        },
{
    p.re.captures(haystack).map(|c| c.iter().map(|m| m.map(|m| (m.start(), m.end()))).collect())
}

/// A match found in a line, cut into the text before it, the matched text
/// and the text after it, with its line number and column.
pub struct LineMatch {
    pub row: usize,
    pub column: usize,
    pub prefix: String,
    pub matched: String,
    pub suffix: String,
}

impl LineMatch {
    /// The line number as a report shows it: in decimal, right-aligned in
    /// six columns.
    pub fn row_label(&self) -> (r: String)
        ensures
            r@ == pad_left(decimal(self.row as nat), 6),
    {
        let digits = decimal_string(self.row);
        pad_left_string(digits.as_str(), 6)
    }

    /// The column as a report shows it: in decimal, left-aligned in three
    /// columns.
    pub fn column_label(&self) -> (r: String)
        ensures
            r@ == pad_right(decimal(self.column as nat), 3),
    {
        let digits = decimal_string(self.column);
        pad_right_string(digits.as_str(), 3)
    }
}

/// The text of `line` in the byte range `s..e`.
pub open spec fn text_between(line: Seq<char>, s: int, e: int) -> Seq<char> {
    decode_utf8(encode_utf8(line).subrange(s, e))
}

/// `m` cuts `line` at the byte offsets `s` and `e`.
pub open spec fn cuts(m: LineMatch, line: Seq<char>, s: int, e: int) -> bool {
    &&& m.prefix@ == text_between(line, 0, s)
    &&& m.matched@ == text_between(line, s, e)
    &&& m.suffix@ == text_between(line, e, encode_utf8(line).len() as int)
}

proof fn lemma_boundary_in_part(bytes: Seq<u8>, lo: int, hi: int, i: int)
    requires
        valid_utf8(bytes),
        0 <= lo <= i <= hi <= bytes.len(),
        is_char_boundary(bytes, lo),
        is_char_boundary(bytes, hi),
        is_char_boundary(bytes, i),
    ensures
        valid_utf8(bytes.subrange(lo, hi)),
        is_char_boundary(bytes.subrange(lo, hi), i - lo),
{
    let head = bytes.subrange(0, hi);
    valid_utf8_split(bytes, hi);
    assert(head.subrange(lo, hi) =~= bytes.subrange(lo, hi));
    if lo < hi {
        is_char_boundary_iff_not_is_continuation_byte(head, lo);
        is_char_boundary_iff_not_is_continuation_byte(bytes, lo);
    }
    is_char_boundary_start_end_of_seq(head);
    valid_utf8_split(head, lo);
    let part = bytes.subrange(lo, hi);
    is_char_boundary_start_end_of_seq(part);
    if lo < i < hi {
        is_char_boundary_iff_not_is_continuation_byte(bytes, i);
        is_char_boundary_iff_not_is_continuation_byte(part, i - lo);
    }
}

proof fn lemma_text_bytes(t: &str)
    ensures
        t@ == decode_utf8(t.spec_bytes()),
{
    encode_utf8_decode_utf8(t@);
}

/// Cuts `line` at the byte offsets `s` and `e`.
fn cut(line: &str, s: usize, e: usize) -> (r: (String, String, String))
    requires
        is_text_range(line@, s as int, e as int),
    ensures
        r.0@ == text_between(line@, 0, s as int),
        r.1@ == text_between(line@, s as int, e as int),
        r.2@ == text_between(line@, e as int, encode_utf8(line@).len() as int),
{
    let ghost bytes = line.spec_bytes();
    proof {
        encode_utf8_valid_utf8(line@);
    }
    let (prefix, rest) = line.split_at(s);
    proof {
        is_char_boundary_start_end_of_seq(bytes);
        lemma_boundary_in_part(bytes, s as int, bytes.len() as int, e as int);
        assert(rest.spec_bytes() =~= bytes.subrange(s as int, bytes.len() as int));
    }
    let (matched, suffix) = rest.split_at(e - s);
    proof {
        lemma_text_bytes(prefix);
        lemma_text_bytes(matched);
        lemma_text_bytes(suffix);
        assert(matched.spec_bytes() =~= bytes.subrange(s as int, e as int));
        assert(suffix.spec_bytes() =~= bytes.subrange(e as int, bytes.len() as int));
    }
    (prefix.to_owned(), matched.to_owned(), suffix.to_owned())
}

/// The text of `line` before byte offset `s` is no longer than `line`.
proof fn lemma_prefix_chars(line: Seq<char>, s: int)
    requires
        is_text_range(line, s, s),
    ensures
        text_between(line, 0, s).len() <= line.len(),
{
    let bytes = encode_utf8(line);
    encode_utf8_valid_utf8(line);
    is_char_boundary_start_end_of_seq(bytes);
    decode_utf8_split(bytes, s);
    encode_utf8_decode_utf8(line);
    assert(bytes.subrange(0, bytes.len() as int) =~= bytes);
    decode_utf8_split(bytes.subrange(0, bytes.len() as int), s);
    assert(bytes.subrange(0, bytes.len() as int).subrange(0, s) =~= bytes.subrange(0, s));
}

/// A line cut at two character boundaries: the three parts put back
/// together give the line, and each part holds the line's bytes of its
/// range, before, between and after the two offsets.
proof fn lemma_cut_parts(m: LineMatch, line: Seq<char>, s: int, e: int)
    requires
        is_text_range(line, s, e),
        cuts(m, line, s, e),
    ensures
        m.prefix@ + m.matched@ + m.suffix@ == line,
        encode_utf8(m.prefix@) == encode_utf8(line).subrange(0, s),
        encode_utf8(m.matched@) == encode_utf8(line).subrange(s, e),
        encode_utf8(m.suffix@) == encode_utf8(line).subrange(e, encode_utf8(line).len() as int),
{
    let bytes = encode_utf8(line);
    let n = bytes.len() as int;
    encode_utf8_valid_utf8(line);
    encode_utf8_decode_utf8(line);
    is_char_boundary_start_end_of_seq(bytes);
    valid_utf8_split(bytes, s);
    valid_utf8_split(bytes, e);
    decode_utf8_split(bytes, s);
    assert(bytes.subrange(0, n) =~= bytes);
    lemma_boundary_in_part(bytes, s, n, e);
    lemma_boundary_in_part(bytes, s, e, s);
    let tail = bytes.subrange(s, n);
    decode_utf8_split(tail, e - s);
    assert(tail.subrange(0, e - s) =~= bytes.subrange(s, e));
    assert(tail.subrange(e - s, tail.len() as int) =~= bytes.subrange(e, n));
    decode_utf8_encode_utf8(bytes.subrange(0, s));
    decode_utf8_encode_utf8(bytes.subrange(s, e));
    decode_utf8_encode_utf8(bytes.subrange(e, n));
    assert(m.prefix@ + m.matched@ + m.suffix@ =~= line);
}

/// Every match `default_execute` reports cuts its line around the match:
/// the parts put back together give the line, the prefix holds the line's
/// bytes before the match and the matched text the bytes of the match.
pub proof fn law_line_report_parts(pattern: Seq<char>, no: int, line: Seq<char>, m: LineMatch)
    requires
        line_report(pattern, no, line, m),
    ensures
        m.prefix@ + m.matched@ + m.suffix@ == line,
        first_match(pattern, line) matches Some((s, e)) && encode_utf8(m.prefix@) == encode_utf8(
            line,
        ).subrange(0, s) && encode_utf8(m.matched@) == encode_utf8(line).subrange(s, e),
{
    let r = first_match(pattern, line).unwrap();
    lemma_cut_parts(m, line, r.0, r.1);
}

/// The indices of the readable lines of `lines` that `pattern` matches, in order.
pub open spec fn matched_rows(pattern: Seq<char>, lines: Seq<Option<String>>) -> Seq<int>
    decreases lines.len(),
{
    if lines.len() == 0 {
        Seq::empty()
    } else {
        let prev = matched_rows(pattern, lines.drop_last());
        if lines.last() matches Some(l) && first_match(pattern, l@) is Some {
            prev.push(lines.len() - 1)
        } else {
            prev
        }
    }
}

/// How `default_execute` reports the match of `pattern` on line number `no`.
pub open spec fn line_report(pattern: Seq<char>, no: int, line: Seq<char>, m: LineMatch) -> bool {
    first_match(pattern, line) matches Some(r) && {
        &&& is_text_range(line, r.0, r.1)
        &&& m.row == no + 1
        &&& m.column == text_between(line, 0, r.0).len() + 1
        &&& cuts(m, line, r.0, r.1)
    }
}

/// The rows of `lines` that `regex` matches, counted: each readable line
/// with a match gives its number (from 1), the column where the match starts
/// (in characters, from 1) and the line cut around the match. Unreadable
/// lines (`None`) are skipped but keep their number.
pub fn default_execute(regex: &Pattern, lines: &Vec<Option<String>>) -> (r: (
    usize,
    Vec<LineMatch>,
))
    requires
        forall|i: int|
            0 <= i < lines@.len() ==> (#[trigger] lines@[i] matches Some(l) ==> l@.len()
                < usize::MAX),
    ensures
        r.0 == r.1@.len(),
        r.1@.len() == matched_rows(regex.text(), lines@).len(),
        forall|j: int|
            0 <= j < r.1@.len() ==> {
                let row = #[trigger] matched_rows(regex.text(), lines@)[j];
                &&& 0 <= row < lines@.len()
                &&& lines@[row] matches Some(l) && line_report(
                    regex.text(),
                    row,
                    l@,
                    r.1@[j],
                )
            },
{
    let ghost pattern = regex.text();
    let mut out: Vec<LineMatch> = Vec::new();
    let mut count: usize = 0;
    let mut no: usize = 0;
    assert(lines@.take(0) =~= Seq::<Option<String>>::empty());
    while no < lines.len()
        invariant
            no <= lines@.len(),
            pattern == regex.text(),
            count == out@.len(),
            count <= no,
            out@.len() == matched_rows(pattern, lines@.take(no as int)).len(),
            forall|i: int|
                0 <= i < lines@.len() ==> (#[trigger] lines@[i] matches Some(l) ==> l@.len()
                    < usize::MAX),
            forall|j: int|
                0 <= j < out@.len() ==> {
                    let row = #[trigger] matched_rows(pattern, lines@.take(no as int))[j];
                    &&& 0 <= row < no
                    &&& lines@[row] matches Some(l) && line_report(pattern, row, l@, out@[j])
                },
        decreases lines@.len() - no,
    {
        let ghost before = matched_rows(pattern, lines@.take(no as int));
        assert(lines@.take(no + 1).drop_last() =~= lines@.take(no as int));
        assert(lines@.take(no + 1).last() == lines@[no as int]);
        if let Some(line) = &lines[no] {
            if let Some((s, e)) = regex_find(regex, line.as_str()) {
                let (prefix, matched, suffix) = cut(line.as_str(), s, e);
                proof {
                    lemma_prefix_chars(line@, s as int);
                }
                let column = prefix.as_str().unicode_len() + 1;
                out.push(LineMatch { row: no + 1, column, prefix, matched, suffix });
                count = count + 1;
            }
        }
        no = no + 1;
    }
    assert(lines@.take(lines@.len() as int) =~= lines@);
    (count, out)
}

/// The byte ranges of the groups of `g` that took part in a match, in order.
pub open spec fn present_groups(g: Seq<Option<(int, int)>>) -> Seq<(int, int)>
    decreases g.len(),
{
    if g.len() == 0 {
        Seq::empty()
    } else {
        match g.last() {
            Some(r) => present_groups(g.drop_last()).push(r),
            None => present_groups(g.drop_last()),
        }
    }
}

/// The groups of the match of `pattern` in `line` that took part in it.
pub open spec fn line_hits(pattern: Seq<char>, line: Seq<char>) -> Seq<(int, int)> {
    match capture_groups(pattern, line) {
        Some(g) => present_groups(g),
        None => Seq::empty(),
    }
}

/// Every group that `search` reports over `lines`: the line's index and the
/// group's byte range, line by line and group by group.
pub open spec fn search_hits(pattern: Seq<char>, lines: Seq<String>) -> Seq<(int, (int, int))>
    decreases lines.len(),
{
    if lines.len() == 0 {
        Seq::empty()
    } else {
        let n = lines.len() - 1;
        search_hits(pattern, lines.drop_last()) + line_hits(pattern, lines.last()@).map_values(
            |r: (int, int)| (n, r),
        )
    }
}

/// `m` reports the group `h` of `lines`: its line number (from 1), its byte
/// offset as the column, and its line cut around it.
pub open spec fn hit_report(lines: Seq<String>, h: (int, (int, int)), m: LineMatch) -> bool {
    &&& 0 <= h.0 < lines.len()
    &&& is_text_range(lines[h.0]@, h.1.0, h.1.1)
    &&& m.row == h.0 + 1
    &&& m.column == h.1.0
    &&& cuts(m, lines[h.0]@, h.1.0, h.1.1)
}

/// Every group `search` reports cuts its line around the group: the parts
/// put back together give the line, the prefix holds the line's bytes
/// before the group's start (the column), and the matched text the bytes
/// of the group, so the suffix is what follows the group's end.
pub proof fn law_hit_report_parts(lines: Seq<String>, h: (int, (int, int)), m: LineMatch)
    requires
        hit_report(lines, h, m),
    ensures
        m.prefix@ + m.matched@ + m.suffix@ == lines[h.0]@,
        encode_utf8(m.prefix@) == encode_utf8(lines[h.0]@).subrange(0, h.1.0),
        encode_utf8(m.matched@) == encode_utf8(lines[h.0]@).subrange(h.1.0, h.1.1),
        encode_utf8(m.prefix@).len() == m.column,
{
    lemma_cut_parts(m, lines[h.0]@, h.1.0, h.1.1);
}

/// Searches every line of `source` for the regex `word`: each capture group
/// of a line's match that took part in it gives, line by line and group by
/// group, the line's number (from 1), the group's byte offset and the line
/// cut around the group.
pub fn search(source: Source, word: String) -> (r: (String, Vec<LineMatch>))
    requires
        pattern_compiles(word@),
        source.lines@.len() < usize::MAX,
    ensures
        r.0 == source.source,
        r.1@.len() == search_hits(word@, source.lines@).len(),
        forall|j: int|
            0 <= j < r.1@.len() ==> hit_report(
                source.lines@,
                #[trigger] search_hits(word@, source.lines@)[j],
                r.1@[j],
            ),
{
    let re = Pattern::new(word.as_str()).unwrap();
    let ghost pattern = word@;
    let ghost lines = source.lines@;
    let mut out: Vec<LineMatch> = Vec::new();
    let mut i: usize = 0;
    assert(lines.take(0) =~= Seq::<String>::empty());
    while i < source.lines.len()
        invariant
            i <= lines.len(),
            lines == source.lines@,
            lines.len() < usize::MAX,
            re.text() == pattern,
            out@.len() == search_hits(pattern, lines.take(i as int)).len(),
            forall|j: int|
                0 <= j < out@.len() ==> hit_report(
                    lines,
                    #[trigger] search_hits(pattern, lines.take(i as int))[j],
                    out@[j],
                ),
        decreases lines.len() - i,
    {
        let line = &source.lines[i];
        let ghost base = search_hits(pattern, lines.take(i as int));
        let ghost hits = line_hits(pattern, line@);
        let ghost tagged = hits.map_values(|r: (int, int)| (i as int, r));
        proof {
            assert(lines.take(i + 1).drop_last() =~= lines.take(i as int));
            assert(lines.take(i + 1).last() == lines[i as int]);
            assert(search_hits(pattern, lines.take(i + 1)) == base + tagged);
        }
        if let Some(groups) = regex_captures(&re, line.as_str()) {
            let ghost gs = capture_groups(pattern, line@)->0;
            let mut g: usize = 0;
            assert(gs.take(0) =~= Seq::<Option<(int, int)>>::empty());
            while g < groups.len()
                invariant
                    g <= groups@.len(),
                    i < lines.len(),
                    lines.len() < usize::MAX,
                    *line == lines[i as int],
                    gs.len() == groups@.len(),
                    capture_groups(pattern, line@) == Some(gs),
                    forall|k: int|
                        0 <= k < groups@.len() ==> match #[trigger] groups@[k] {
                            Some(m) => gs[k] == Some((m.0 as int, m.1 as int)) && is_text_range(
                                line@,
                                m.0 as int,
                                m.1 as int,
                            ),
                            None => gs[k] is None,
                        },
                    out@.len() == base.len() + present_groups(gs.take(g as int)).len(),
                    forall|j: int|
                        0 <= j < base.len() ==> hit_report(lines, #[trigger] base[j], out@[j]),
                    forall|j: int|
                        0 <= j < present_groups(gs.take(g as int)).len() ==> hit_report(
                            lines,
                            (i as int, #[trigger] present_groups(gs.take(g as int))[j]),
                            out@[base.len() + j],
                        ),
                decreases groups@.len() - g,
            {
                assert(gs.take(g + 1).drop_last() =~= gs.take(g as int));
                assert(gs.take(g + 1).last() == gs[g as int]);
                if let Some((s, e)) = groups[g] {
                    let (prefix, matched, suffix) = cut(line.as_str(), s, e);
                    out.push(LineMatch { row: i + 1, column: s, prefix, matched, suffix });
                }
                g = g + 1;
            }
            assert(gs.take(gs.len() as int) =~= gs);
        }
        proof {
            assert forall|j: int|
                0 <= j < out@.len() implies hit_report(
                lines,
                #[trigger] search_hits(pattern, lines.take(i + 1))[j],
                out@[j],
            ) by {
                if j >= base.len() {
                    assert(tagged[j - base.len()] == (i as int, hits[j - base.len()]));
                }
            }
        }
        i = i + 1;
    }
    assert(lines.take(lines.len() as int) =~= lines);
    (source.source, out)
}

/// `search` where `word` compiles as a regex; `None` where it does not.
pub fn try_search(source: Source, word: String) -> (r: Option<(String, Vec<LineMatch>)>)
    requires
        source.lines@.len() < usize::MAX,
    ensures
        r is None <==> !pattern_compiles(word@),
        r matches Some(res) ==> {
            &&& res.0 == source.source
            &&& res.1@.len() == search_hits(word@, source.lines@).len()
            &&& forall|j: int|
                0 <= j < res.1@.len() ==> hit_report(
                    source.lines@,
                    #[trigger] search_hits(word@, source.lines@)[j],
                    res.1@[j],
                )
        },
{
    match Pattern::new(word.as_str()) {
        None => None,
        Some(_) => Some(search(source, word)),
    }
}

/// The indices of the lines of `lines` that contain `word`, in order.
pub open spec fn containing_rows(word: Seq<char>, lines: Seq<String>) -> Seq<int>
    decreases lines.len(),
{
    if lines.len() == 0 {
        Seq::empty()
    } else {
        let prev = containing_rows(word, lines.drop_last());
        if is_substring(word, lines.last()@) {
            prev.push(lines.len() - 1)
        } else {
            prev
        }
    }
}

/// The lines of `lines` that contain `word`, each with its number (from 1).
pub fn grep_lines(word: &str, lines: &Vec<String>) -> (r: Vec<(usize, String)>)
    ensures
        r@.len() == containing_rows(word@, lines@).len(),
        forall|j: int|
            0 <= j < r@.len() ==> {
                let row = #[trigger] containing_rows(word@, lines@)[j];
                &&& 0 <= row < lines@.len()
                &&& r@[j].0 == row + 1
                &&& r@[j].1 == lines@[row]
            },
{
    let mut out: Vec<(usize, String)> = Vec::new();
    let mut no: usize = 0;
    assert(lines@.take(0) =~= Seq::<String>::empty());
    while no < lines.len()
        invariant
            no <= lines@.len(),
            out@.len() == containing_rows(word@, lines@.take(no as int)).len(),
            forall|j: int|
                0 <= j < out@.len() ==> {
                    let row = #[trigger] containing_rows(word@, lines@.take(no as int))[j];
                    &&& 0 <= row < no
                    &&& out@[j].0 == row + 1
                    &&& out@[j].1 == lines@[row]
                },
        decreases lines@.len() - no,
    {
        assert(lines@.take(no + 1).drop_last() =~= lines@.take(no as int));
        assert(lines@.take(no + 1).last() == lines@[no as int]);
        if contains_str(lines[no].as_str(), word) {
            out.push((no + 1, lines[no].clone()));
        }
        no = no + 1;
    }
    assert(lines@.take(lines@.len() as int) =~= lines@);
    out
}

} // verus!
