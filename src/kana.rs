//! Character conversions: katakana to hiragana, fullwidth ASCII to halfwidth.

use vstd::prelude::*;
use crate::text::{char_from, chars_of, string_of};

verus! {

/// A katakana that has a hiragana counterpart 0x60 code points below it.
pub open spec fn has_hiragana(c: char) -> bool {
    (0x30A1 <= c as u32 <= 0x30F6) || c as u32 == 0x30FD || c as u32 == 0x30FE
}

/// The hiragana for a katakana, any other character unchanged.
pub open spec fn hiragana_of(c: char) -> char {
    if has_hiragana(c) {
        ((c as u32) - 0x60) as char
    } else {
        c
    }
}

/// The character as it stands in a reading: hiragana for katakana, with the
/// old forms ゐ and ゑ replaced by い and え.
pub open spec fn reading_char(c: char) -> char {
    let h = hiragana_of(c);
    if h == 'ゐ' {
        'い'
    } else if h == 'ゑ' {
        'え'
    } else {
        h
    }
}

/// The reading form of every character of `s`.
pub open spec fn reading_of(s: Seq<char>) -> Seq<char> {
    s.map_values(|c: char| reading_char(c))
}

/// A fullwidth form of a printable ASCII character.
pub open spec fn is_fullwidth_ascii(c: char) -> bool {
    0xFF01 <= c as u32 <= 0xFF5E
}

/// The halfwidth form of a fullwidth ASCII character, any other character unchanged.
pub open spec fn halfwidth_of(c: char) -> char {
    if is_fullwidth_ascii(c) {
        ((c as u32) - 0xFEE0) as char
    } else {
        c
    }
}

/// Every fullwidth ASCII character of `s` made halfwidth.
pub open spec fn halfwidth(s: Seq<char>) -> Seq<char> {
    s.map_values(|c: char| halfwidth_of(c))
}

/// Hiragana from ぁ to ゔ, or the prolonged sound mark ー.
pub open spec fn is_hiragana_or_bar(c: char) -> bool {
    ('ぁ' <= c && c <= 'ゔ') || c == 'ー'
}

/// Katakana from ァ to ヴ, or the prolonged sound mark ー.
pub open spec fn is_katakana_or_bar(c: char) -> bool {
    ('ァ' <= c && c <= 'ヴ') || c == 'ー'
}

/// Hiragana from ぁ to ゔ, katakana from ァ to ヴ, or ー.
pub open spec fn is_kana(c: char) -> bool {
    ('ぁ' <= c && c <= 'ゔ') || ('ァ' <= c && c <= 'ヴ') || c == 'ー'
}

/// Converts a katakana to hiragana; `None` for any other character.
pub fn katakana_to_hiragana(c: char) -> (r: Option<char>)
    ensures
        r == (if has_hiragana(c) { Some(hiragana_of(c)) } else { None }),
{
    let n = c as u32;
    if (0x30A1 <= n && n <= 0x30F6) || n == 0x30FD || n == 0x30FE {
        char_from(n - 0x60)
    } else {
        None
    }
}

/// The reading form of one character.
pub fn reading_char_of(c: char) -> (r: char)
    ensures
        r == reading_char(c),
{
    let h = match katakana_to_hiragana(c) {
        Some(h) => h,
        None => c,
    };
    if h == 'ゐ' {
        'い'
    } else if h == 'ゑ' {
        'え'
    } else {
        h
    }
}

/// The reading form of every character of `s`.
pub fn to_hiragana_chars(s: &[char]) -> (r: Vec<char>)
    ensures
        r@ == reading_of(s@),
{
    let n = s.len();
    let mut r: Vec<char> = Vec::with_capacity(n);
    let mut i: usize = 0;
    while i < n
        invariant
            i <= n == s@.len(),
            r@ == reading_of(s@.subrange(0, i as int)),
        decreases n - i,
    {
        r.push(reading_char_of(s[i]));
        i += 1;
        assert(r@ =~= reading_of(s@.subrange(0, i as int)));
    }
    assert(s@.subrange(0, n as int) =~= s@);
    r
}

/// Converts katakana to hiragana, and ゐ, ゑ to い, え.
pub fn to_hiragana_replace_ie(s: &str) -> (r: String)
    ensures
        r@ == reading_of(s@),
{
    let v = chars_of(s);
    let h = to_hiragana_chars(v.as_slice());
    string_of(h.as_slice())
}

/// Converts a fullwidth ASCII character to halfwidth; `None` for any other character.
pub fn ascii_fullwidth_to_halfwidth(c: char) -> (r: Option<char>)
    ensures
        r == (if is_fullwidth_ascii(c) { Some(halfwidth_of(c)) } else { None }),
{
    let n = c as u32;
    if 0xFF01 <= n && n <= 0xFF5E {
        char_from(n - 0xFEE0)
    } else {
        None
    }
}

/// Every fullwidth ASCII character of `s` made halfwidth.
pub fn halfwidth_chars(s: &[char]) -> (r: Vec<char>)
    ensures
        r@ == halfwidth(s@),
{
    let n = s.len();
    let mut r: Vec<char> = Vec::with_capacity(n);
    let mut i: usize = 0;
    while i < n
        invariant
            i <= n == s@.len(),
            r@ == halfwidth(s@.subrange(0, i as int)),
        decreases n - i,
    {
        let c = s[i];
        let h = match ascii_fullwidth_to_halfwidth(c) {
            Some(h) => h,
            None => c,
        };
        r.push(h);
        i += 1;
        assert(r@ =~= halfwidth(s@.subrange(0, i as int)));
    }
    assert(s@.subrange(0, n as int) =~= s@);
    r
}

/// `s` with fullwidth ASCII made halfwidth; `None` when `s` holds no
/// fullwidth ASCII, so that nothing needs converting.
pub fn ascii_to_halfwidth(s: &str) -> (r: Option<String>)
    ensures
        r is None <==> forall|i: int| 0 <= i < s@.len() ==> !is_fullwidth_ascii(#[trigger] s@[i]),
        r matches Some(t) ==> t@ == halfwidth(s@),
{
    let v = chars_of(s);
    let n = v.len();
    let mut i: usize = 0;
    while i < n
        invariant
            i <= n == v@.len(),
            v@ == s@,
            forall|j: int| 0 <= j < i ==> !is_fullwidth_ascii(#[trigger] s@[j]),
        decreases n - i,
    {
        let c = v[i] as u32;
        if 0xFF01 <= c && c <= 0xFF5E {
            let h = halfwidth_chars(v.as_slice());
            return Some(string_of(h.as_slice()));
        }
        i += 1;
    }
    None
}

/// The hiragana for each halfwidth katakana from ｦ (U+FF66) to ﾝ (U+FF9D).
pub open spec fn half_kana_table() -> Seq<char> {
    seq![
        'を', 'ぁ', 'ぃ', 'ぅ', 'ぇ', 'ぉ', 'ゃ', 'ゅ', 'ょ', 'っ', 'ー',
        'あ', 'い', 'う', 'え', 'お', 'か', 'き', 'く', 'け', 'こ',
        'さ', 'し', 'す', 'せ', 'そ', 'た', 'ち', 'つ', 'て', 'と',
        'な', 'に', 'ぬ', 'ね', 'の', 'は', 'ひ', 'ふ', 'へ', 'ほ',
        'ま', 'み', 'む', 'め', 'も', 'や', 'ゆ', 'よ',
        'ら', 'り', 'る', 'れ', 'ろ', 'わ', 'ん',
    ]
}

/// A halfwidth katakana from ｦ to ﾝ.
pub open spec fn is_half_kana(c: char) -> bool {
    'ｦ' <= c && c <= 'ﾝ'
}

/// The hiragana for a halfwidth katakana.
pub open spec fn half_hiragana(c: char) -> char {
    half_kana_table()[(c as u32 - 'ｦ' as u32) as int]
}

/// The voiced form of a hiragana: the next code point, ゔ for う.
pub open spec fn voiced(h: char) -> char {
    if h == 'う' {
        'ゔ'
    } else {
        ((h as u32) + 1) as char
    }
}

/// The semi-voiced form of a hiragana: two code points on.
pub open spec fn semi_voiced(h: char) -> char {
    ((h as u32) + 2) as char
}

/// Halfwidth katakana made hiragana, a voicing mark joined to the kana
/// before it, and the halfwidth middle dot dropped.
pub open spec fn half_no_dot(s: Seq<char>) -> Seq<char>
    decreases s.len(),
{
    if s.len() == 0 {
        Seq::empty()
    } else if s[0] == '･' {
        half_no_dot(s.drop_first())
    } else if is_half_kana(s[0]) {
        if s.len() > 1 && s[1] == 'ﾞ' {
            seq![voiced(half_hiragana(s[0]))] + half_no_dot(s.subrange(2, s.len() as int))
        } else if s.len() > 1 && s[1] == 'ﾟ' {
            seq![semi_voiced(half_hiragana(s[0]))] + half_no_dot(s.subrange(2, s.len() as int))
        } else {
            seq![half_hiragana(s[0])] + half_no_dot(s.drop_first())
        }
    } else {
        seq![s[0]] + half_no_dot(s.drop_first())
    }
}

/// Converts a halfwidth katakana to hiragana.
fn half_to_hiragana(c: char) -> (r: char)
    requires
        is_half_kana(c),
    ensures
        r == half_hiragana(c),
        (r as u32) < 0x3100,
{
    let table: Vec<char> = vec![
        'を', 'ぁ', 'ぃ', 'ぅ', 'ぇ', 'ぉ', 'ゃ', 'ゅ', 'ょ', 'っ', 'ー',
        'あ', 'い', 'う', 'え', 'お', 'か', 'き', 'く', 'け', 'こ',
        'さ', 'し', 'す', 'せ', 'そ', 'た', 'ち', 'つ', 'て', 'と',
        'な', 'に', 'ぬ', 'ね', 'の', 'は', 'ひ', 'ふ', 'へ', 'ほ',
        'ま', 'み', 'む', 'め', 'も', 'や', 'ゆ', 'よ',
        'ら', 'り', 'る', 'れ', 'ろ', 'わ', 'ん',
    ];
    assert(table@ =~= half_kana_table());
    assert forall|k: int| 0 <= k < table@.len() implies (#[trigger] table@[k] as u32) < 0x3100 by {}
    let index = (c as u32 - 'ｦ' as u32) as usize;
    table[index]
}

/// Converts halfwidth katakana to hiragana, joining voicing marks and
/// dropping the halfwidth middle dot.
pub fn half_to_hiragana_no_dot(s: &str) -> (r: String)
    ensures
        r@ == half_no_dot(s@),
{
    let v = chars_of(s);
    let n = v.len();
    let mut out: Vec<char> = Vec::new();
    let mut i: usize = 0;
    assert(v@.subrange(0, n as int) =~= v@);
    while i < n
        invariant
            i <= n == v@.len(),
            v@ == s@,
            out@ + half_no_dot(v@.subrange(i as int, n as int)) == half_no_dot(s@),
        decreases n - i,
    {
        let ghost rest = v@.subrange(i as int, n as int);
        let ghost before = out@;
        let c = v[i];
        if c == '･' {
            assert(rest.drop_first() =~= v@.subrange(i + 1, n as int));
            i += 1;
        } else if 'ｦ' <= c && c <= 'ﾝ' {
            let h = half_to_hiragana(c);
            if i + 1 < n && v[i + 1] == 'ﾞ' {
                let x = if h == 'う' {
                    'ゔ'
                } else {
                    match char_from(h as u32 + 1) {
                        Some(x) => x,
                        None => h,
                    }
                };
                out.push(x);
                assert(rest.subrange(2, rest.len() as int) =~= v@.subrange(i + 2, n as int));
                assert(out@ + half_no_dot(v@.subrange(i + 2, n as int)) =~= before + half_no_dot(rest));
                i += 2;
            } else if i + 1 < n && v[i + 1] == 'ﾟ' {
                let x = match char_from(h as u32 + 2) {
                    Some(x) => x,
                    None => h,
                };
                out.push(x);
                assert(rest.subrange(2, rest.len() as int) =~= v@.subrange(i + 2, n as int));
                assert(out@ + half_no_dot(v@.subrange(i + 2, n as int)) =~= before + half_no_dot(rest));
                i += 2;
            } else {
                out.push(h);
                assert(rest.drop_first() =~= v@.subrange(i + 1, n as int));
                assert(out@ + half_no_dot(v@.subrange(i + 1, n as int)) =~= before + half_no_dot(rest));
                i += 1;
            }
        } else {
            out.push(c);
            assert(rest.drop_first() =~= v@.subrange(i + 1, n as int));
            assert(out@ + half_no_dot(v@.subrange(i + 1, n as int)) =~= before + half_no_dot(rest));
            i += 1;
        }
    }
    assert(v@.subrange(n as int, n as int) =~= Seq::<char>::empty());
    assert(out@ + Seq::<char>::empty() =~= out@);
    string_of(out.as_slice())
}

} // verus!
