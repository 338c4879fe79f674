//! Deriving a reading for an article's title from the article record.
//!
//! A record yields at most one dictionary line: the reading, the fixed
//! classification fields, and the title as written.

use vstd::prelude::*;
use vstd::utf8::{decode_utf8, valid_utf8};
use crate::kana::{
    halfwidth, halfwidth_chars, is_hiragana_or_bar, is_kana, is_katakana_or_bar, reading_of,
    to_hiragana_chars,
};
use crate::pattern::{regex_compiles, regex_deleted, regex_deleted_first, Pattern};
use crate::seqs::{
    lemma_first_match, after_first, after_first_chars, append_chars, before_first, before_first_chars, contains,
    contains_chars, copy_chars, find_chars, first_match, replace_chars, replaced, split_chars,
    split_on, starts_with, starts_with_chars, views_of,
};
use crate::text::{chars_of, string_of, utf8_text};

verus! {

/// Headings of this many characters or more are left out: their candidates
/// would not fit the conversion window.
pub const MAX_HEADING_CHARS: usize = 26;

/// How many lines at the start of an article are searched for a reading.
pub const MAX_SCANNED_LINES: usize = 199;

/// Marks removed from a heading before it is tested for being all kana.
pub open spec fn marks_pattern() -> Seq<char> {
    "[!?=:・。]"@
}

/// A footnote reference in an article line.
pub open spec fn reference_pattern() -> Seq<char> {
    "&lt;ref.*?&lt;/ref&gt;"@
}

/// Spaces, quotes and brackets removed from an article line.
pub open spec fn quotes_pattern() -> Seq<char> {
    "[ '\"「」『』]"@
}

/// The title of a record: what stands between the first `<title>` and the
/// first `</title>`.
pub open spec fn title_field(record: Seq<char>) -> Option<Seq<char>> {
    match first_match(record, "</title>"@) {
        Some(i) => after_first(record.subrange(0, i), "<title>"@),
        None => None,
    }
}

/// The article text of a record: what follows its text element's opening tag.
pub open spec fn body_field(record: Seq<char>) -> Option<Seq<char>> {
    after_first(record, "xml:space=\"preserve\">"@)
}

/// The heading made from a title: halfwidth ASCII, cut before ` (`.
pub open spec fn heading_of(title: Seq<char>) -> Seq<char> {
    before_first(halfwidth(title), " ("@)
}

/// A heading that yields no entry: too long, a disambiguation or internal
/// page, or one holding a space or 、 (which are removed from, or cut, the
/// article text, so such a heading can never be found there).
pub open spec fn is_excluded_heading(h: Seq<char>) -> bool {
    ||| h.len() >= MAX_HEADING_CHARS
    ||| contains(h, "(曖昧さ回避)"@)
    ||| starts_with(h, "Wikipedia:"@)
    ||| starts_with(h, "ファイル:"@)
    ||| starts_with(h, "Portal:"@)
    ||| starts_with(h, "Help:"@)
    ||| starts_with(h, "Template:"@)
    ||| starts_with(h, "Category:"@)
    ||| starts_with(h, "プロジェクト:"@)
    ||| contains(h, " "@)
    ||| contains(h, "、"@)
}

/// The reading of a heading written in kana alone (its marks removed).
pub open spec fn title_reading(marked: Seq<char>) -> Option<Seq<char>> {
    if forall|i: int| 0 <= i < marked.len() ==> is_kana(#[trigger] marked[i]) {
        Some(reading_of(marked))
    } else {
        None
    }
}

/// The fields between reading and heading: the classification id twice,
/// then the cost.
pub open spec fn entry_fields(id: Seq<char>) -> Seq<char> {
    "\t"@ + id + "\t"@ + id + "\t6000\t"@
}

/// One dictionary line.
pub open spec fn entry_line(reading: Seq<char>, fields: Seq<char>, heading: Seq<char>) -> Seq<char> {
    reading + fields + heading + seq!['\n']
}

/// The article text without its leading templates, when it starts with one.
pub open spec fn article_text(body: Seq<char>) -> Seq<char> {
    if starts_with(body, "{{"@) {
        let joined = replaced(body, "}}\n{{"@, Seq::<char>::empty());
        match first_match(joined, "}}"@) {
            Some(i) => joined.subrange(i, joined.len() as int),
            None => joined,
        }
    } else {
        body
    }
}

/// The lines of the article text.
pub open spec fn article_lines(body: Seq<char>) -> Seq<Seq<char>> {
    split_on(article_text(body), "\n"@)
}

/// An article line made ready for the search: halfwidth ASCII, its first
/// footnote reference removed, and its spaces and quotes removed.
pub open spec fn cleaned_line(line: Seq<char>, references: Seq<char>, quotes: Seq<char>) -> Seq<char> {
    let s = halfwidth(line);
    let s = if contains(s, "&lt;ref"@) {
        regex_deleted_first(references, s)
    } else {
        s
    };
    regex_deleted(quotes, s)
}

/// What follows `heading(` in a cleaned line, cut at the first `)`, `[[`
/// and `、`; nothing when that is empty or the heading is not there.
pub open spec fn reading_candidate(cleaned: Seq<char>, heading: Seq<char>) -> Option<Seq<char>> {
    match after_first(cleaned, heading + "("@) {
        Some(rest) => {
            let y = before_first(before_first(before_first(rest, ")"@), "[["@), "、"@);
            if y.len() > 0 {
                Some(y)
            } else {
                None
            }
        },
        None => None,
    }
}

/// The heading with the escapes for `&` and `"` decoded.
pub open spec fn unescaped(heading: Seq<char>) -> Seq<char> {
    replaced(replaced(heading, "&amp;"@, "&"@), "&quot;"@, "\""@)
}

/// A candidate accepted as a reading: not starting with ー, not katakana
/// alone, and all hiragana once katakana is converted.
pub open spec fn accepted_reading(y: Seq<char>) -> Option<Seq<char>> {
    if y.len() > 0 && y[0] == 'ー' {
        None
    } else if forall|i: int| 0 <= i < y.len() ==> is_katakana_or_bar(#[trigger] y[i]) {
        None
    } else if forall|i: int| 0 <= i < y.len() ==> is_hiragana_or_bar(#[trigger] reading_of(y)[i]) {
        Some(reading_of(y))
    } else {
        None
    }
}

/// The entry found by searching the lines from index `k` on: the first
/// line with an accepted reading. Each line with a candidate decodes the
/// escapes in the heading, whether or not the candidate is accepted.
pub open spec fn scan_lines(
    lines: Seq<Seq<char>>,
    k: int,
    heading: Seq<char>,
    fields: Seq<char>,
    references: Seq<char>,
    quotes: Seq<char>,
) -> Option<Seq<char>>
    decreases lines.len() - k,
{
    if k < 0 || k >= lines.len() || k >= MAX_SCANNED_LINES {
        None
    } else {
        match reading_candidate(cleaned_line(lines[k], references, quotes), heading) {
            Some(y) => {
                let h = unescaped(heading);
                match accepted_reading(y) {
                    Some(r) => Some(entry_line(r, fields, h)),
                    None => scan_lines(lines, k + 1, h, fields, references, quotes),
                }
            },
            None => scan_lines(lines, k + 1, heading, fields, references, quotes),
        }
    }
}

/// The entry of a record given as text: from the heading alone when it is
/// written in kana, else from the first lines of the article.
pub open spec fn extraction(
    record: Seq<char>,
    fields: Seq<char>,
    marks: Seq<char>,
    references: Seq<char>,
    quotes: Seq<char>,
) -> Option<Seq<char>> {
    match (title_field(record), body_field(record)) {
        (Some(title), Some(body)) => {
            let h = heading_of(title);
            let h2 = regex_deleted(marks, h);
            if is_excluded_heading(h) || h2.len() <= 1 {
                None
            } else {
                match title_reading(h2) {
                    Some(r) => Some(entry_line(r, fields, h)),
                    None => scan_lines(article_lines(body), 0, h, fields, references, quotes),
                }
            }
        },
        _ => None,
    }
}

/// The entry of a record given as bytes; none for bytes that are not UTF-8.
pub open spec fn record_entry(record: Seq<u8>, fields: Seq<char>) -> Option<Seq<char>> {
    if valid_utf8(record) {
        extraction(decode_utf8(record), fields, marks_pattern(), reference_pattern(), quotes_pattern())
    } else {
        None
    }
}

/// The title of a record.
pub fn title_of(record: &[char]) -> (r: Option<Vec<char>>)
    ensures
        r is Some <==> title_field(record@) is Some,
        r matches Some(t) ==> title_field(record@) == Some(t@),
{
    let close = chars_of("</title>");
    let open = chars_of("<title>");
    proof {
        lemma_first_match(record@, close@);
    }
    match find_chars(record, close.as_slice()) {
        Some(i) => after_first_chars(&record[0..i], open.as_slice()),
        None => None,
    }
}

/// The heading made from a title.
pub fn heading(title: &[char]) -> (r: Vec<char>)
    ensures
        r@ == heading_of(title@),
{
    let half = halfwidth_chars(title);
    let cut = chars_of(" (");
    before_first_chars(half.as_slice(), cut.as_slice())
}

/// Whether a heading yields no entry.
pub fn is_excluded(h: &[char]) -> (r: bool)
    ensures
        r == is_excluded_heading(h@),
{
    h.len() >= MAX_HEADING_CHARS
        || contains_chars(h, chars_of("(曖昧さ回避)").as_slice())
        || starts_with_chars(h, chars_of("Wikipedia:").as_slice())
        || starts_with_chars(h, chars_of("ファイル:").as_slice())
        || starts_with_chars(h, chars_of("Portal:").as_slice())
        || starts_with_chars(h, chars_of("Help:").as_slice())
        || starts_with_chars(h, chars_of("Template:").as_slice())
        || starts_with_chars(h, chars_of("Category:").as_slice())
        || starts_with_chars(h, chars_of("プロジェクト:").as_slice())
        || contains_chars(h, chars_of(" ").as_slice())
        || contains_chars(h, chars_of("、").as_slice())
}

/// The reading of a heading, its marks removed, when it is written in kana alone.
pub fn title_reading_of(marked: &[char]) -> (r: Option<Vec<char>>)
    ensures
        r is Some <==> title_reading(marked@) is Some,
        r matches Some(t) ==> title_reading(marked@) == Some(t@),
{
    let n = marked.len();
    let mut i: usize = 0;
    while i < n
        invariant
            i <= n == marked@.len(),
            forall|j: int| 0 <= j < i ==> is_kana(#[trigger] marked@[j]),
        decreases n - i,
    {
        let c = marked[i];
        if !(('ぁ' <= c && c <= 'ゔ') || ('ァ' <= c && c <= 'ヴ') || c == 'ー') {
            return None;
        }
        i += 1;
    }
    Some(to_hiragana_chars(marked))
}

/// The classification fields of every entry, for the identifier `id`.
pub fn entry_fields_of(id: &str) -> (r: Vec<char>)
    ensures
        r@ == entry_fields(id@),
{
    let id = chars_of(id);
    let mut r = chars_of("\t");
    append_chars(&mut r, id.as_slice());
    append_chars(&mut r, chars_of("\t").as_slice());
    append_chars(&mut r, id.as_slice());
    append_chars(&mut r, chars_of("\t6000\t").as_slice());
    r
}

/// One dictionary line.
pub fn entry(reading: &[char], fields: &[char], heading: &[char]) -> (r: String)
    ensures
        r@ == entry_line(reading@, fields@, heading@),
{
    let mut v = copy_chars(reading, 0, reading.len());
    append_chars(&mut v, fields);
    append_chars(&mut v, heading);
    v.push('\n');
    string_of(v.as_slice())
}

/// The lines of an article, its leading templates dropped.
pub fn lines_of(body: &[char]) -> (r: Vec<Vec<char>>)
    ensures
        views_of(r@) == article_lines(body@),
{
    proof {
        reveal_strlit("}}\n{{");
        reveal_strlit("\n");
    }
    let text = if starts_with_chars(body, chars_of("{{").as_slice()) {
        let empty: Vec<char> = Vec::new();
        let joined = replace_chars(body, chars_of("}}\n{{").as_slice(), empty.as_slice());
        let close = chars_of("}}");
        proof {
            lemma_first_match(joined@, close@);
        }
        match find_chars(joined.as_slice(), close.as_slice()) {
            Some(i) => copy_chars(joined.as_slice(), i, joined.len()),
            None => joined,
        }
    } else {
        copy_chars(body, 0, body.len())
    };
    proof {
        assert(body@.subrange(0, body@.len() as int) =~= body@);
    }
    split_chars(text.as_slice(), chars_of("\n").as_slice())
}

/// The reading candidate in a cleaned line, for a heading.
pub fn reading_candidate_of(cleaned: &[char], heading: &[char]) -> (r: Option<Vec<char>>)
    ensures
        r is Some <==> reading_candidate(cleaned@, heading@) is Some,
        r matches Some(y) ==> reading_candidate(cleaned@, heading@) == Some(y@),
{
    let mut key = copy_chars(heading, 0, heading.len());
    append_chars(&mut key, chars_of("(").as_slice());
    proof {
        assert(heading@.subrange(0, heading@.len() as int) =~= heading@);
    }
    match after_first_chars(cleaned, key.as_slice()) {
        Some(rest) => {
            let y = before_first_chars(rest.as_slice(), chars_of(")").as_slice());
            let y = before_first_chars(y.as_slice(), chars_of("[[").as_slice());
            let y = before_first_chars(y.as_slice(), chars_of("、").as_slice());
            if y.len() > 0 {
                Some(y)
            } else {
                None
            }
        },
        None => None,
    }
}

/// The heading with the escapes for `&` and `"` decoded.
pub fn unescape(heading: &[char]) -> (r: Vec<char>)
    ensures
        r@ == unescaped(heading@),
{
    proof {
        reveal_strlit("&amp;");
        reveal_strlit("&quot;");
    }
    let h = replace_chars(heading, chars_of("&amp;").as_slice(), chars_of("&").as_slice());
    replace_chars(h.as_slice(), chars_of("&quot;").as_slice(), chars_of("\"").as_slice())
}

/// The reading made from a candidate, when it is accepted.
pub fn accept_reading(y: &[char]) -> (r: Option<Vec<char>>)
    ensures
        r is Some <==> accepted_reading(y@) is Some,
        r matches Some(t) ==> accepted_reading(y@) == Some(t@),
{
    let n = y.len();
    if n > 0 && y[0] == 'ー' {
        return None;
    }
    let mut i: usize = 0;
    let mut all_katakana = true;
    while i < n
        invariant
            i <= n == y@.len(),
            all_katakana == forall|j: int| 0 <= j < i ==> is_katakana_or_bar(#[trigger] y@[j]),
        decreases n - i,
    {
        let c = y[i];
        if !(('ァ' <= c && c <= 'ヴ') || c == 'ー') {
            all_katakana = false;
        }
        i += 1;
    }
    if all_katakana {
        return None;
    }
    let r = to_hiragana_chars(y);
    let mut i: usize = 0;
    while i < n
        invariant
            i <= n == y@.len() == r@.len(),
            r@ == reading_of(y@),
            forall|j: int| 0 <= j < i ==> is_hiragana_or_bar(#[trigger] r@[j]),
        decreases n - i,
    {
        let c = r[i];
        if !(('ぁ' <= c && c <= 'ゔ') || c == 'ー') {
            return None;
        }
        i += 1;
    }
    Some(r)
}

/// Derives dictionary entries from records.
pub struct Extractor {
    fields: Vec<char>,
    marks: Pattern,
    references: Pattern,
    quotes: Pattern,
}

impl Extractor {
    /// The classification fields put into every entry.
    pub closed spec fn fields(&self) -> Seq<char> {
        self.fields@
    }

    /// The patterns are those of `marks_pattern`, `reference_pattern` and `quotes_pattern`.
    pub closed spec fn wf(&self) -> bool {
        &&& self.marks@ == marks_pattern()
        &&& self.references@ == reference_pattern()
        &&& self.quotes@ == quotes_pattern()
    }

    /// An extractor whose entries carry the classification identifier `id`;
    /// `None` if a pattern does not compile.
    pub fn new(id: &str) -> (r: Option<Extractor>)
        ensures
            r is Some <==> regex_compiles(marks_pattern()) && regex_compiles(reference_pattern())
                && regex_compiles(quotes_pattern()),
            r matches Some(e) ==> e.wf() && e.fields() == entry_fields(id@),
    {
        let marks = Pattern::new("[!?=:・。]");
        let references = Pattern::new("&lt;ref.*?&lt;/ref&gt;");
        let quotes = Pattern::new("[ '\"「」『』]");
        match (marks, references, quotes) {
            (Some(marks), Some(references), Some(quotes)) => Some(
                Extractor { fields: entry_fields_of(id), marks, references, quotes },
            ),
            _ => None,
        }
    }

    /// An article line made ready for the search.
    pub fn clean_line(&self, line: &[char]) -> (r: Vec<char>)
        requires
            self.wf(),
        ensures
            r@ == cleaned_line(line@, reference_pattern(), quotes_pattern()),
    {
        let half = halfwidth_chars(line);
        let text = string_of(half.as_slice());
        let text = if contains_chars(half.as_slice(), chars_of("&lt;ref").as_slice()) {
            self.references.delete_first(text.as_str())
        } else {
            text
        };
        chars_of(self.quotes.delete_all(text.as_str()).as_str())
    }

    /// The entry found in the first lines of an article for a heading.
    pub fn scan(&self, lines: &Vec<Vec<char>>, heading: Vec<char>) -> (r: Option<String>)
        requires
            self.wf(),
        ensures
            r is Some <==> scan_lines(
                views_of(lines@),
                0,
                heading@,
                self.fields(),
                reference_pattern(),
                quotes_pattern(),
            ) is Some,
            r matches Some(s) ==> scan_lines(
                views_of(lines@),
                0,
                heading@,
                self.fields(),
                reference_pattern(),
                quotes_pattern(),
            ) == Some(s@),
    {
        let ghost lv = views_of(lines@);
        let ghost goal = scan_lines(lv, 0, heading@, self.fields(), reference_pattern(), quotes_pattern());
        let mut h = heading;
        let mut k: usize = 0;
        while k < lines.len() && k < MAX_SCANNED_LINES
            invariant
                self.wf(),
                lv == views_of(lines@),
                goal == scan_lines(lv, 0, heading@, self.fields(), reference_pattern(), quotes_pattern()),
                k <= lines@.len(),
                scan_lines(lv, k as int, h@, self.fields(), reference_pattern(), quotes_pattern()) == goal,
            decreases lines@.len() - k,
        {
            proof {
                assert(lv[k as int] == lines@[k as int]@);
            }
            let cleaned = self.clean_line(lines[k].as_slice());
            match reading_candidate_of(cleaned.as_slice(), h.as_slice()) {
                Some(y) => {
                    h = unescape(h.as_slice());
                    match accept_reading(y.as_slice()) {
                        Some(r) => {
                            return Some(entry(r.as_slice(), self.fields.as_slice(), h.as_slice()));
                        },
                        None => {},
                    }
                },
                None => {},
            }
            k += 1;
        }
        None
    }

    /// The entry of a record, if it yields one.
    pub fn extract(&self, record: &[u8]) -> (r: Option<String>)
        requires
            self.wf(),
        ensures
            r is Some <==> record_entry(record@, self.fields()) is Some,
            r matches Some(s) ==> record_entry(record@, self.fields()) == Some(s@),
    {
        let text = match utf8_text(record) {
            Some(t) => t,
            None => return None,
        };
        let rec = chars_of(text);
        let title = match title_of(rec.as_slice()) {
            Some(t) => t,
            None => return None,
        };
        let body = match after_first_chars(rec.as_slice(), chars_of("xml:space=\"preserve\">").as_slice()) {
            Some(b) => b,
            None => return None,
        };
        let h = heading(title.as_slice());
        if is_excluded(h.as_slice()) {
            return None;
        }
        let marked = chars_of(self.marks.delete_all(string_of(h.as_slice()).as_str()).as_str());
        if marked.len() <= 1 {
            return None;
        }
        match title_reading_of(marked.as_slice()) {
            Some(r) => Some(entry(r.as_slice(), self.fields.as_slice(), h.as_slice())),
            None => {
                let lines = lines_of(body.as_slice());
                self.scan(&lines, h)
            },
        }
    }
}

} // verus!
