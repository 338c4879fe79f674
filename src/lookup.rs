//! What a run needs before it starts: the classification identifier, the
//! number of workers, and the name of the marker for the dump's version.

use vstd::prelude::*;
use crate::pattern::{regex_compiles, regex_first_group, regex_is_match, Pattern};
use crate::sink::texts;
use crate::seqs::{after_first, after_first_chars, append_chars, before_first, before_first_chars};
use crate::text::{chars_of, string_of};

verus! {

/// Why the classification identifier could not be had.
#[derive(Debug, Clone, Copy, PartialEq, Eq, Structural)]
pub enum IdError {
    /// The pattern does not compile.
    InvalidPattern,
    /// No line of the table matches the pattern.
    NotFound,
}

/// The identifier in `table` that the first capture group of `exp` picks out.
pub fn get_id(table: &str, exp: &str) -> (r: Result<String, IdError>)
    ensures
        r == Err::<String, IdError>(IdError::InvalidPattern) <==> !regex_compiles(exp@),
        regex_compiles(exp@) && regex_first_group(exp@, table@) is Some ==> r is Ok,
        r matches Ok(id) ==> regex_first_group(exp@, table@) == Some(id@),
        r == Err::<String, IdError>(IdError::NotFound) ==> regex_first_group(exp@, table@) is None,
{
    match Pattern::new(exp) {
        Some(p) => match p.first_group(table) {
            Some(id) => Ok(id),
            None => Err(IdError::NotFound),
        },
        None => Err(IdError::InvalidPattern),
    }
}

/// The table line of proper nouns of the general kind.
pub open spec fn proper_noun_pattern() -> Seq<char> {
    "(\\d*) 名詞,固有名詞,一般,\\*,\\*,\\*,\\*"@
}

/// The identifier of general proper nouns in the part-of-speech table.
pub fn proper_noun_id(table: &str) -> (r: Result<String, IdError>)
    ensures
        r == Err::<String, IdError>(IdError::InvalidPattern) <==> !regex_compiles(proper_noun_pattern()),
        regex_compiles(proper_noun_pattern()) && regex_first_group(proper_noun_pattern(), table@) is Some
            ==> r is Ok,
        r matches Ok(id) ==> regex_first_group(proper_noun_pattern(), table@) == Some(id@),
        r == Err::<String, IdError>(IdError::NotFound) ==> regex_first_group(proper_noun_pattern(), table@) is None,
{
    get_id(table, "(\\d*) 名詞,固有名詞,一般,\\*,\\*,\\*,\\*")
}

/// The value of a string of ASCII decimal digits.
pub open spec fn decimal_value(s: Seq<char>) -> int
    decreases s.len(),
{
    if s.len() == 0 {
        0
    } else {
        decimal_value(s.drop_last()) * 10 + (s.last() as int - '0' as int)
    }
}

/// `s` is one or more ASCII decimal digits.
pub open spec fn is_decimal(s: Seq<char>) -> bool {
    s.len() > 0 && forall|i: int| 0 <= i < s.len() ==> '0' <= #[trigger] s[i] <= '9'
}

/// Reads a decimal number; `None` when `s` is not one or it does not fit.
pub fn parse_decimal(s: &[char]) -> (r: Option<usize>)
    ensures
        r matches Some(n) ==> is_decimal(s@) && n == decimal_value(s@),
        r is None ==> !is_decimal(s@) || decimal_value(s@) > usize::MAX,
{
    let len = s.len();
    if len == 0 {
        return None;
    }
    let mut n: usize = 0;
    let mut i: usize = 0;
    while i < len
        invariant
            i <= len == s@.len(),
            forall|j: int| 0 <= j < i ==> '0' <= #[trigger] s@[j] <= '9',
            n == decimal_value(s@.subrange(0, i as int)),
        decreases len - i,
    {
        let c = s[i];
        if !('0' <= c && c <= '9') {
            return None;
        }
        let d = (c as u32 - '0' as u32) as usize;
        proof {
            assert(s@.subrange(0, i + 1).drop_last() =~= s@.subrange(0, i as int));
        }
        if n > (usize::MAX - d) / 10 {
            proof {
                assert(n * 10 + d > usize::MAX) by (nonlinear_arith)
                    requires
                        n > (usize::MAX - d) / 10,
                        d <= 9,
                ;
                if is_decimal(s@) {
                    lemma_decimal_monotone(s@, i as int + 1);
                }
            }
            return None;
        }
        n = n * 10 + d;
        i += 1;
    }
    proof {
        assert(s@.subrange(0, len as int) =~= s@);
    }
    Some(n)
}

/// Digits further on never make a decimal number smaller.
proof fn lemma_decimal_monotone(s: Seq<char>, k: int)
    requires
        0 <= k <= s.len(),
        forall|i: int| 0 <= i < s.len() ==> '0' <= #[trigger] s[i] <= '9',
    ensures
        decimal_value(s.subrange(0, k)) <= decimal_value(s),
    decreases s.len() - k,
{
    if k < s.len() {
        lemma_decimal_monotone(s, k + 1);
        assert(s.subrange(0, k + 1).drop_last() =~= s.subrange(0, k));
        assert(decimal_value(s.subrange(0, k)) >= 0) by {
            lemma_decimal_nonneg(s.subrange(0, k));
        }
    } else {
        assert(s.subrange(0, k) =~= s);
    }
}

proof fn lemma_decimal_nonneg(s: Seq<char>)
    requires
        forall|i: int| 0 <= i < s.len() ==> '0' <= #[trigger] s[i] <= '9',
    ensures
        decimal_value(s) >= 0,
    decreases s.len(),
{
    if s.len() > 0 {
        lemma_decimal_nonneg(s.drop_last());
    }
}

/// The number of workers for a machine with the number of physical cores
/// written in `cores`: one less, leaving a core to the reader. `None` when
/// `cores` is not a decimal number of at least one that fits a `usize`.
pub fn workers_for_cores(cores: &[char]) -> (r: Option<usize>)
    ensures
        r is Some <==> is_decimal(cores@) && 1 <= decimal_value(cores@) <= usize::MAX,
        r matches Some(w) ==> w + 1 == decimal_value(cores@),
{
    match parse_decimal(cores) {
        Some(n) => if n >= 1 {
            Some(n - 1)
        } else {
            None
        },
        None => None,
    }
}

/// The line of the processor description that gives the number of cores.
pub open spec fn core_count_pattern() -> Seq<char> {
    "^cpu cores\\s*: (\\d*)"@
}

/// The number of workers for the machine that the processor description
/// `cpuinfo` describes; `None` when it gives no usable number of cores.
pub fn worker_count(cpuinfo: &str) -> (r: Option<usize>)
    ensures
        r matches Some(w) ==> regex_first_group(core_count_pattern(), cpuinfo@) matches Some(g)
            && is_decimal(g) && w + 1 == decimal_value(g),
        regex_first_group(core_count_pattern(), cpuinfo@) matches Some(g) && !(is_decimal(g)
            && 1 <= decimal_value(g) <= usize::MAX) ==> r is None,
        regex_first_group(core_count_pattern(), cpuinfo@) is None ==> r is None,
        regex_compiles(core_count_pattern()) && (regex_first_group(core_count_pattern(), cpuinfo@) matches Some(g)
            && is_decimal(g) && 1 <= decimal_value(g) <= usize::MAX) ==> r is Some,
{
    let p = match Pattern::new("^cpu cores\\s*: (\\d*)") {
        Some(p) => p,
        None => return None,
    };
    match p.first_group(cpuinfo) {
        Some(g) => workers_for_cores(chars_of(g.as_str()).as_slice()),
        None => None,
    }
}

/// What `str::trim_start` leaves of `s`.
pub uninterp spec fn trimmed_start(s: Seq<char>) -> Seq<char>;

/// Relies on `str::trim_start`: leading whitespace is removed, so the
/// result is what follows some prefix of `s`.
#[verifier::external_body]
fn trim_start_of(s: &str) -> (r: &str)
    ensures
        r@ == trimmed_start(s@),
        r@.len() <= s@.len(),
        r@ == s@.subrange(s@.len() - r@.len(), s@.len() as int),
{
    s.trim_start()
}

/// Why the dump's version could not be read from the index page.
#[derive(Debug, Clone, Copy, PartialEq, Eq, Structural)]
pub enum VersionError {
    /// The page has no link to the dump.
    IndexBroken,
    /// The link is not followed by a date and a space.
    DateStrange,
}

/// The link text of the dump on the index page.
pub open spec fn dump_link() -> Seq<char> {
    "jawiki-latest-pages-articles-multistream.xml.bz2</a>"@
}

/// The date at the start of `t`: what comes before its first space, when
/// it has one.
pub open spec fn leading_date(t: Seq<char>) -> Option<Seq<char>> {
    match after_first(t, " "@) {
        Some(_) => Some(before_first(t, " "@)),
        None => None,
    }
}

/// The date after the dump's link on the index page.
pub open spec fn dump_date(index: Seq<char>) -> Option<Seq<char>> {
    match after_first(index, dump_link()) {
        Some(rest) => leading_date(trimmed_start(rest)),
        None => None,
    }
}

/// The name of the marker of a dump version.
pub open spec fn marker_name(date: Seq<char>) -> Seq<char> {
    "jawiki-ut-"@ + date + ".txt"@
}

/// The marker name for the date that starts `t`, the text after the dump's
/// link with its leading whitespace removed.
pub fn marker_for_listing(t: &[char]) -> (r: Option<String>)
    ensures
        r is Some <==> leading_date(t@) is Some,
        r matches Some(name) ==> name@ == marker_name(leading_date(t@)->0),
{
    let space = chars_of(" ");
    if after_first_chars(t, space.as_slice()).is_none() {
        return None;
    }
    let date = before_first_chars(t, space.as_slice());
    let mut name = chars_of("jawiki-ut-");
    append_chars(&mut name, date.as_slice());
    append_chars(&mut name, chars_of(".txt").as_slice());
    Some(string_of(name.as_slice()))
}

/// The name of the marker for the dump that the index page lists.
pub fn marker_file_name(index: &str) -> (r: Result<String, VersionError>)
    ensures
        r is Ok <==> dump_date(index@) is Some,
        r matches Ok(name) ==> name@ == marker_name(dump_date(index@)->0),
        r == Err::<String, VersionError>(VersionError::IndexBroken) <==> after_first(index@, dump_link()) is None,
{
    let page = chars_of(index);
    let rest = match after_first_chars(page.as_slice(), chars_of("jawiki-latest-pages-articles-multistream.xml.bz2</a>").as_slice()) {
        Some(rest) => rest,
        None => return Err(VersionError::IndexBroken),
    };
    let rest = string_of(rest.as_slice());
    let t = chars_of(trim_start_of(rest.as_str()));
    match marker_for_listing(t.as_slice()) {
        Some(name) => Ok(name),
        None => Err(VersionError::DateStrange),
    }
}

/// Whether the marker of the dump's version exists after a run that
/// started with `marker_exists`: a run that generates writes it once it
/// has written the dictionary.
pub open spec fn marker_after(marker_exists: bool, generated: bool) -> bool {
    marker_exists || generated
}

/// What a run does, given whether the marker of the current dump exists.
pub open spec fn planned(marker_exists: bool) -> RunPlan {
    if marker_exists {
        RunPlan::AlreadyDone
    } else {
        RunPlan::Generate
    }
}

/// Once a run over a dump has finished, another run over the same dump does
/// nothing: whatever the first run found, the marker exists afterwards and
/// the second run is planned as already done.
pub proof fn lemma_second_run_does_nothing(marker_exists: bool)
    ensures
        planned(marker_after(marker_exists, planned(marker_exists) == RunPlan::Generate))
            == RunPlan::AlreadyDone,
{
}

/// What a run does, given whether the marker of the current dump exists.
#[derive(Debug, Clone, Copy, PartialEq, Eq, Structural)]
pub enum RunPlan {
    /// The dump was processed already: nothing is done.
    AlreadyDone,
    /// The dictionary is generated, and the marker written after it.
    Generate,
}

/// A run generates only when the marker of the dump's version is absent.
pub fn plan_run(marker_exists: bool) -> (r: RunPlan)
    ensures
        r == planned(marker_exists),
{
    if marker_exists {
        RunPlan::AlreadyDone
    } else {
        RunPlan::Generate
    }
}

/// The names among `names`, in order, that `pattern` matches.
pub open spec fn matching(pattern: Seq<char>, names: Seq<Seq<char>>) -> Seq<Seq<char>>
    decreases names.len(),
{
    if names.len() == 0 {
        Seq::empty()
    } else {
        let kept = matching(pattern, names.drop_last());
        if regex_is_match(pattern, names.last()) {
            kept.push(names.last())
        } else {
            kept
        }
    }
}

/// The names that the pattern `pattern` matches, in the order given;
/// `None` when the pattern does not compile.
pub fn matching_names(pattern: &str, names: &[String]) -> (r: Option<Vec<String>>)
    ensures
        r is Some <==> regex_compiles(pattern@),
        r matches Some(kept) ==> texts(kept@) == matching(pattern@, texts(names@)),
{
    let p = match Pattern::new(pattern) {
        Some(p) => p,
        None => return None,
    };
    let n = names.len();
    let mut kept: Vec<String> = Vec::new();
    let mut i: usize = 0;
    while i < n
        invariant
            i <= n == names@.len(),
            p@ == pattern@,
            texts(kept@) == matching(pattern@, texts(names@.subrange(0, i as int))),
        decreases n - i,
    {
        let ghost before = kept@;
        let name = &names[i];
        assert(texts(names@.subrange(0, i + 1)).drop_last() =~= texts(names@.subrange(0, i as int)));
        assert(texts(names@.subrange(0, i + 1)).last() == name@);
        if p.is_match(name.as_str()) {
            kept.push(name.clone());
            assert(texts(kept@) =~= texts(before).push(name@));
        }
        i += 1;
    }
    assert(names@.subrange(0, n as int) =~= names@);
    Some(kept)
}

} // verus!
