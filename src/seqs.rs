//! Searching, splitting and replacing in sequences of bytes or characters.

use vstd::prelude::*;

verus! {

/// `p` occurs in `s` starting at index `i`.
pub open spec fn matches_at<A>(s: Seq<A>, p: Seq<A>, i: int) -> bool {
    0 <= i && i + p.len() <= s.len() && s.subrange(i, i + p.len()) == p
}

/// The first index at or after `i` where `p` occurs in `s`.
pub open spec fn first_match_from<A>(s: Seq<A>, p: Seq<A>, i: int) -> Option<int>
    decreases s.len() + 1 - i,
{
    if i < 0 || i + p.len() > s.len() {
        None
    } else if matches_at(s, p, i) {
        Some(i)
    } else {
        first_match_from(s, p, i + 1)
    }
}

/// The first index where `p` occurs in `s`.
pub open spec fn first_match<A>(s: Seq<A>, p: Seq<A>) -> Option<int> {
    first_match_from(s, p, 0)
}

/// `s` contains `p`.
pub open spec fn contains<A>(s: Seq<A>, p: Seq<A>) -> bool {
    first_match(s, p) is Some
}

/// `s` starts with `p`.
pub open spec fn starts_with<A>(s: Seq<A>, p: Seq<A>) -> bool {
    matches_at(s, p, 0)
}

/// Scanning from `i` finds exactly the first match at or after `i`.
pub proof fn lemma_first_match_from<A>(s: Seq<A>, p: Seq<A>, i: int, k: int)
    requires
        0 <= i <= k,
        forall|j: int| i <= j < k ==> !matches_at(s, p, j),
    ensures
        first_match_from(s, p, i) == first_match_from(s, p, k),
    decreases k - i,
{
    if i < k {
        lemma_first_match_from(s, p, i + 1, k);
    }
}

/// A match that `first_match_from` reports lies inside `s`, and none comes before it.
pub proof fn lemma_first_match_bounds<A>(s: Seq<A>, p: Seq<A>, i: int)
    requires
        0 <= i,
    ensures
        first_match_from(s, p, i) matches Some(k) ==> {
            &&& i <= k
            &&& matches_at(s, p, k)
            &&& forall|j: int| i <= j < k ==> !matches_at(s, p, j)
        },
        first_match_from(s, p, i) is None ==> forall|j: int| i <= j ==> !matches_at(s, p, j),
    decreases s.len() + 1 - i,
{
    if i + p.len() > s.len() {
    } else if matches_at(s, p, i) {
    } else {
        lemma_first_match_bounds(s, p, i + 1);
        assert forall|j: int| i <= j && matches_at(s, p, j) implies j >= i + 1 by {}
    }
}

/// The first match of `p` in `s`, characterised by its position and the absence of earlier ones.
pub proof fn lemma_first_match<A>(s: Seq<A>, p: Seq<A>)
    ensures
        first_match(s, p) matches Some(k) ==> {
            &&& matches_at(s, p, k)
            &&& forall|j: int| 0 <= j < k ==> !matches_at(s, p, j)
        },
        first_match(s, p) is None ==> forall|j: int| !matches_at(s, p, j),
{
    lemma_first_match_bounds(s, p, 0);
}


/// A match found by scanning `s` from `pos` is a match found by scanning what follows `pos`.
pub proof fn lemma_first_match_shift<A>(s: Seq<A>, p: Seq<A>, pos: int, k: int)
    requires
        0 <= pos <= s.len(),
        0 <= k,
    ensures
        first_match_from(s, p, pos + k) == (match first_match_from(s.subrange(pos, s.len() as int), p, k) {
            Some(x) => Some(x + pos),
            None => None::<int>,
        }),
    decreases s.len() + 1 - (pos + k),
{
    let t = s.subrange(pos, s.len() as int);
    if pos + k + p.len() <= s.len() {
        assert(t.subrange(k, k + p.len()) =~= s.subrange(pos + k, pos + k + p.len()));
        if !matches_at(s, p, pos + k) {
            lemma_first_match_shift(s, p, pos, k + 1);
        }
    }
}

/// The pieces of `s` between the occurrences of the delimiter `d`, scanned left to right.
pub open spec fn split_on<A>(s: Seq<A>, d: Seq<A>) -> Seq<Seq<A>>
    decreases s.len(),
{
    if d.len() == 0 {
        seq![s]
    } else {
        match first_match(s, d) {
            Some(i) => {
                proof {
                    lemma_first_match(s, d);
                }
                seq![s.subrange(0, i)] + split_on(s.subrange(i + d.len(), s.len() as int), d)
            },
            None => seq![s],
        }
    }
}

/// The part of `s` before the first occurrence of `d`, or all of `s`.
pub open spec fn before_first<A>(s: Seq<A>, d: Seq<A>) -> Seq<A> {
    match first_match(s, d) {
        Some(i) => s.subrange(0, i),
        None => s,
    }
}

/// The part of `s` after the first occurrence of `d`, if there is one.
pub open spec fn after_first<A>(s: Seq<A>, d: Seq<A>) -> Option<Seq<A>> {
    match first_match(s, d) {
        Some(i) => Some(s.subrange(i + d.len(), s.len() as int)),
        None => None,
    }
}

/// The views of a sequence of vectors.
pub open spec fn views_of<A>(v: Seq<Vec<A>>) -> Seq<Seq<A>> {
    v.map_values(|x: Vec<A>| x@)
}

/// `p` occurs in `s` at `i`, compared byte by byte.
fn bytes_match_at(s: &[u8], p: &[u8], i: usize) -> (r: bool)
    requires
        i + p@.len() <= s@.len(),
    ensures
        r == matches_at(s@, p@, i as int),
{
    let n = s.len();
    let mut j: usize = 0;
    while j < p.len()
        invariant
            n == s@.len(),
            j <= p@.len(),
            i + p@.len() <= s@.len(),
            forall|k: int| 0 <= k < j ==> s@[i + k] == p@[k],
        decreases p@.len() - j,
    {
        if s[i + j] != p[j] {
            assert(s@.subrange(i as int, i + p@.len())[j as int] != p@[j as int]);
            return false;
        }
        j += 1;
    }
    assert(s@.subrange(i as int, i + p@.len()) =~= p@);
    true
}

/// The first occurrence of `p` in `s` at or after `start`.
pub fn find_bytes_from(s: &[u8], p: &[u8], start: usize) -> (r: Option<usize>)
    ensures
        r is Some <==> first_match_from(s@, p@, start as int) is Some,
        r matches Some(k) ==> first_match_from(s@, p@, start as int) == Some(k as int),
{
    let n = s.len();
    if p.len() > n {
        return None;
    }
    if p.len() == 0 {
        if start <= n {
            assert(s@.subrange(start as int, start as int) =~= p@);
            return Some(start);
        }
        return None;
    }
    let mut i: usize = start;
    while i <= n - p.len()
        invariant
            start <= i,
            n == s@.len(),
            1 <= p@.len() <= s@.len(),
            forall|j: int| start <= j < i ==> !matches_at(s@, p@, j),
        decreases s@.len() + 1 - i,
    {
        if bytes_match_at(s, p, i) {
            proof {
                lemma_first_match_from(s@, p@, start as int, i as int);
            }
            return Some(i);
        }
        i += 1;
    }
    proof {
        lemma_first_match_from(s@, p@, start as int, i as int);
    }
    None
}

/// `p` occurs in `s` at `i`, compared character by character.
fn chars_match_at(s: &[char], p: &[char], i: usize) -> (r: bool)
    requires
        i + p@.len() <= s@.len(),
    ensures
        r == matches_at(s@, p@, i as int),
{
    let n = s.len();
    let mut j: usize = 0;
    while j < p.len()
        invariant
            n == s@.len(),
            j <= p@.len(),
            i + p@.len() <= s@.len(),
            forall|k: int| 0 <= k < j ==> s@[i + k] == p@[k],
        decreases p@.len() - j,
    {
        if s[i + j] != p[j] {
            assert(s@.subrange(i as int, i + p@.len())[j as int] != p@[j as int]);
            return false;
        }
        j += 1;
    }
    assert(s@.subrange(i as int, i + p@.len()) =~= p@);
    true
}

/// The first occurrence of `p` in `s` at or after `start`.
pub fn find_chars_from(s: &[char], p: &[char], start: usize) -> (r: Option<usize>)
    ensures
        r is Some <==> first_match_from(s@, p@, start as int) is Some,
        r matches Some(k) ==> first_match_from(s@, p@, start as int) == Some(k as int),
{
    let n = s.len();
    if p.len() > n {
        return None;
    }
    if p.len() == 0 {
        if start <= n {
            assert(s@.subrange(start as int, start as int) =~= p@);
            return Some(start);
        }
        return None;
    }
    let mut i: usize = start;
    while i <= n - p.len()
        invariant
            start <= i,
            n == s@.len(),
            1 <= p@.len() <= s@.len(),
            forall|j: int| start <= j < i ==> !matches_at(s@, p@, j),
        decreases s@.len() + 1 - i,
    {
        if chars_match_at(s, p, i) {
            proof {
                lemma_first_match_from(s@, p@, start as int, i as int);
            }
            return Some(i);
        }
        i += 1;
    }
    proof {
        lemma_first_match_from(s@, p@, start as int, i as int);
    }
    None
}

/// The first occurrence of `p` in `s`.
pub fn find_chars(s: &[char], p: &[char]) -> (r: Option<usize>)
    ensures
        r is Some <==> first_match(s@, p@) is Some,
        r matches Some(k) ==> first_match(s@, p@) == Some(k as int),
{
    find_chars_from(s, p, 0)
}

/// The bytes of `s` from `a` up to `b`.
pub fn copy_bytes(s: &[u8], a: usize, b: usize) -> (r: Vec<u8>)
    requires
        a <= b <= s@.len(),
    ensures
        r@ == s@.subrange(a as int, b as int),
{
    let mut r: Vec<u8> = Vec::with_capacity(b - a);
    let mut i: usize = a;
    while i < b
        invariant
            a <= i <= b <= s@.len(),
            r@ == s@.subrange(a as int, i as int),
        decreases b - i,
    {
        r.push(s[i]);
        i += 1;
        assert(r@ =~= s@.subrange(a as int, i as int));
    }
    r
}

/// The characters of `s` from `a` up to `b`.
pub fn copy_chars(s: &[char], a: usize, b: usize) -> (r: Vec<char>)
    requires
        a <= b <= s@.len(),
    ensures
        r@ == s@.subrange(a as int, b as int),
{
    let mut r: Vec<char> = Vec::with_capacity(b - a);
    let mut i: usize = a;
    while i < b
        invariant
            a <= i <= b <= s@.len(),
            r@ == s@.subrange(a as int, i as int),
        decreases b - i,
    {
        r.push(s[i]);
        i += 1;
        assert(r@ =~= s@.subrange(a as int, i as int));
    }
    r
}

/// Splits `s` at every occurrence of `d`.
pub fn split_chars(s: &[char], d: &[char]) -> (r: Vec<Vec<char>>)
    requires
        d@.len() > 0,
    ensures
        views_of(r@) == split_on(s@, d@),
{
    let n = s.len();
    let mut out: Vec<Vec<char>> = Vec::new();
    let mut pos: usize = 0;
    assert(s@.subrange(0, s@.len() as int) =~= s@);
    assert(views_of(out@) =~= Seq::<Seq<char>>::empty());
    loop
        invariant
            d@.len() > 0,
            n == s@.len(),
            pos <= s@.len(),
            views_of(out@) + split_on(s@.subrange(pos as int, s@.len() as int), d@) == split_on(s@, d@),
        decreases s@.len() - pos,
    {
        let ghost rest = s@.subrange(pos as int, s@.len() as int);
        proof {
            lemma_first_match_shift(s@, d@, pos as int, 0);
            assert(pos + 0 == pos);
        }
        match find_chars_from(s, d, pos) {
            Some(i) => {
                proof {
                    lemma_first_match_bounds(s@, d@, pos as int);
                    lemma_first_match(rest, d@);
                    assert(rest.subrange(0, i - pos) =~= s@.subrange(pos as int, i as int));
                    assert(rest.subrange(i - pos + d@.len(), rest.len() as int)
                        =~= s@.subrange(i + d@.len(), s@.len() as int));
                }
                let piece = copy_chars(s, pos, i);
                let ghost before = out@;
                out.push(piece);
                proof {
                    assert(views_of(out@) =~= views_of(before) + seq![s@.subrange(pos as int, i as int)]);
                }
                pos = i + d.len();
            },
            None => {
                let piece = copy_chars(s, pos, s.len());
                let ghost before = out@;
                out.push(piece);
                proof {
                    assert(views_of(out@) =~= views_of(before) + seq![rest]);
                }
                return out;
            },
        }
    }
}

/// Splits `s` at every occurrence of `d`.
pub fn split_bytes(s: &[u8], d: &[u8]) -> (r: Vec<Vec<u8>>)
    requires
        d@.len() > 0,
    ensures
        views_of(r@) == split_on(s@, d@),
{
    let n = s.len();
    let mut out: Vec<Vec<u8>> = Vec::new();
    let mut pos: usize = 0;
    assert(s@.subrange(0, s@.len() as int) =~= s@);
    assert(views_of(out@) =~= Seq::<Seq<u8>>::empty());
    loop
        invariant
            d@.len() > 0,
            n == s@.len(),
            pos <= s@.len(),
            views_of(out@) + split_on(s@.subrange(pos as int, s@.len() as int), d@) == split_on(s@, d@),
        decreases s@.len() - pos,
    {
        let ghost rest = s@.subrange(pos as int, s@.len() as int);
        proof {
            lemma_first_match_shift(s@, d@, pos as int, 0);
            assert(pos + 0 == pos);
        }
        match find_bytes_from(s, d, pos) {
            Some(i) => {
                proof {
                    lemma_first_match_bounds(s@, d@, pos as int);
                    lemma_first_match(rest, d@);
                    assert(rest.subrange(0, i - pos) =~= s@.subrange(pos as int, i as int));
                    assert(rest.subrange(i - pos + d@.len(), rest.len() as int)
                        =~= s@.subrange(i + d@.len(), s@.len() as int));
                }
                let piece = copy_bytes(s, pos, i);
                let ghost before = out@;
                out.push(piece);
                proof {
                    assert(views_of(out@) =~= views_of(before) + seq![s@.subrange(pos as int, i as int)]);
                }
                pos = i + d.len();
            },
            None => {
                let piece = copy_bytes(s, pos, s.len());
                let ghost before = out@;
                out.push(piece);
                proof {
                    assert(views_of(out@) =~= views_of(before) + seq![rest]);
                }
                return out;
            },
        }
    }
}

/// Text that has a first occurrence of `d` keeps it there whatever follows.
pub proof fn lemma_first_match_extend<A>(x: Seq<A>, y: Seq<A>, d: Seq<A>)
    requires
        first_match(x, d) is Some,
    ensures
        first_match(x + y, d) == first_match(x, d),
{
    lemma_first_match(x, d);
    let i = first_match(x, d)->0;
    assert forall|j: int| 0 <= j < i implies !matches_at(x + y, d, j) by {
        assert(!matches_at(x, d, j));
        assert((x + y).subrange(j, j + d.len()) =~= x.subrange(j, j + d.len()));
    }
    assert((x + y).subrange(i, i + d.len()) =~= x.subrange(i, i + d.len()));
    lemma_first_match_from(x + y, d, 0, i);
}

/// Splitting yields at least one piece.
pub proof fn lemma_split_nonempty<A>(s: Seq<A>, d: Seq<A>)
    ensures
        split_on(s, d).len() >= 1,
    decreases s.len(),
{
    if d.len() > 0 {
        if let Some(i) = first_match(s, d) {
            lemma_first_match(s, d);
            lemma_split_nonempty(s.subrange(i + d.len(), s.len() as int), d);
        }
    }
}

/// Splitting `x + y` gives the complete pieces of `x`, then the pieces of
/// the unfinished last piece of `x` continued by `y`.
pub proof fn lemma_split_concat<A>(x: Seq<A>, y: Seq<A>, d: Seq<A>)
    requires
        d.len() > 0,
    ensures
        split_on(x + y, d) == split_on(x, d).drop_last() + split_on(split_on(x, d).last() + y, d),
    decreases x.len(),
{
    lemma_split_nonempty(x, d);
    match first_match(x, d) {
        Some(i) => {
            lemma_first_match(x, d);
            lemma_first_match_extend(x, y, d);
            let rest = x.subrange(i + d.len(), x.len() as int);
            assert((x + y).subrange(0, i) =~= x.subrange(0, i));
            assert((x + y).subrange(i + d.len(), (x + y).len() as int) =~= rest + y);
            lemma_split_concat(rest, y, d);
            lemma_split_nonempty(rest, d);
            let head = seq![x.subrange(0, i)];
            assert(split_on(x, d) == head + split_on(rest, d));
            assert(split_on(x, d).drop_last() =~= head + split_on(rest, d).drop_last());
            assert(split_on(x, d).last() == split_on(rest, d).last());
            assert(split_on(x + y, d) == head + split_on(rest + y, d));
            assert(split_on(x + y, d) =~= split_on(x, d).drop_last() + split_on(split_on(x, d).last() + y, d));
        },
        None => {
            assert(split_on(x, d) == seq![x]);
            assert(split_on(x, d).drop_last() =~= Seq::<Seq<A>>::empty());
            assert(split_on(x, d).drop_last() + split_on(split_on(x, d).last() + y, d) =~= split_on(x + y, d));
        },
    }
}

/// `s` with every occurrence of `from`, scanned left to right, replaced by `to`.
pub open spec fn replaced<A>(s: Seq<A>, from: Seq<A>, to: Seq<A>) -> Seq<A>
    decreases s.len(),
{
    if from.len() == 0 {
        s
    } else {
        match first_match(s, from) {
            Some(i) => {
                proof {
                    lemma_first_match(s, from);
                }
                s.subrange(0, i) + to + replaced(s.subrange(i + from.len(), s.len() as int), from, to)
            },
            None => s,
        }
    }
}

/// Appends the characters of `src` to `dst`.
pub fn append_chars(dst: &mut Vec<char>, src: &[char])
    ensures
        final(dst)@ == old(dst)@ + src@,
{
    let n = src.len();
    let mut i: usize = 0;
    while i < n
        invariant
            i <= n == src@.len(),
            dst@ == old(dst)@ + src@.subrange(0, i as int),
        decreases n - i,
    {
        dst.push(src[i]);
        i += 1;
        assert(dst@ =~= old(dst)@ + src@.subrange(0, i as int));
    }
    assert(src@.subrange(0, n as int) =~= src@);
}

/// Appends the bytes of `src` to `dst`.
pub fn append_bytes(dst: &mut Vec<u8>, src: &[u8])
    ensures
        final(dst)@ == old(dst)@ + src@,
{
    let n = src.len();
    let mut i: usize = 0;
    while i < n
        invariant
            i <= n == src@.len(),
            dst@ == old(dst)@ + src@.subrange(0, i as int),
        decreases n - i,
    {
        dst.push(src[i]);
        i += 1;
        assert(dst@ =~= old(dst)@ + src@.subrange(0, i as int));
    }
    assert(src@.subrange(0, n as int) =~= src@);
}

/// `s` starts with `p`.
pub fn starts_with_chars(s: &[char], p: &[char]) -> (r: bool)
    ensures
        r == starts_with(s@, p@),
{
    if p.len() > s.len() {
        false
    } else {
        chars_match_at(s, p, 0)
    }
}

/// `s` contains `p`.
pub fn contains_chars(s: &[char], p: &[char]) -> (r: bool)
    ensures
        r == contains(s@, p@),
{
    find_chars(s, p).is_some()
}

/// The part of `s` before the first occurrence of `d`, or all of `s`.
pub fn before_first_chars(s: &[char], d: &[char]) -> (r: Vec<char>)
    ensures
        r@ == before_first(s@, d@),
{
    proof {
        lemma_first_match(s@, d@);
    }
    match find_chars(s, d) {
        Some(i) => copy_chars(s, 0, i),
        None => copy_chars(s, 0, s.len()),
    }
}

/// The part of `s` after the first occurrence of `d`, if there is one.
pub fn after_first_chars(s: &[char], d: &[char]) -> (r: Option<Vec<char>>)
    ensures
        r is Some <==> after_first(s@, d@) is Some,
        r matches Some(t) ==> after_first(s@, d@) == Some(t@),
{
    proof {
        lemma_first_match(s@, d@);
    }
    let n = s.len();
    match find_chars(s, d) {
        Some(i) => Some(copy_chars(s, i + d.len(), n)),
        None => None,
    }
}

/// Replaces every occurrence of `from` in `s` by `to`.
pub fn replace_chars(s: &[char], from: &[char], to: &[char]) -> (r: Vec<char>)
    requires
        from@.len() > 0,
    ensures
        r@ == replaced(s@, from@, to@),
{
    let n = s.len();
    let mut out: Vec<char> = Vec::new();
    let mut pos: usize = 0;
    assert(s@.subrange(0, s@.len() as int) =~= s@);
    loop
        invariant
            from@.len() > 0,
            n == s@.len(),
            pos <= s@.len(),
            out@ + replaced(s@.subrange(pos as int, s@.len() as int), from@, to@) == replaced(s@, from@, to@),
        decreases s@.len() - pos,
    {
        let ghost rest = s@.subrange(pos as int, s@.len() as int);
        proof {
            lemma_first_match_shift(s@, from@, pos as int, 0);
            assert(pos + 0 == pos);
        }
        match find_chars_from(s, from, pos) {
            Some(i) => {
                proof {
                    lemma_first_match_bounds(s@, from@, pos as int);
                    lemma_first_match(rest, from@);
                    assert(rest.subrange(0, i - pos) =~= s@.subrange(pos as int, i as int));
                    assert(rest.subrange(i - pos + from@.len(), rest.len() as int)
                        =~= s@.subrange(i + from@.len(), s@.len() as int));
                }
                let ghost before = out@;
                append_chars(&mut out, &s[pos..i]);
                append_chars(&mut out, to);
                proof {
                    assert(before + replaced(rest, from@, to@) =~= out@ + replaced(
                        s@.subrange(i + from@.len(), s@.len() as int),
                        from@,
                        to@,
                    ));
                }
                pos = i + from.len();
            },
            None => {
                append_chars(&mut out, &s[pos..n]);
                return out;
            },
        }
    }
}

/// The pieces each followed by the delimiter, one after another.
pub open spec fn terminated<A>(pieces: Seq<Seq<A>>, d: Seq<A>) -> Seq<A>
    decreases pieces.len(),
{
    if pieces.len() == 0 {
        Seq::empty()
    } else {
        pieces[0] + d + terminated(pieces.drop_first(), d)
    }
}

/// Putting the delimiter back after every piece but the last gives the text that was split.
pub proof fn lemma_split_rejoin<A>(s: Seq<A>, d: Seq<A>)
    ensures
        terminated(split_on(s, d).drop_last(), d) + split_on(s, d).last() == s,
    decreases s.len(),
{
    lemma_split_nonempty(s, d);
    if d.len() == 0 {
        assert(split_on(s, d).drop_last() =~= Seq::<Seq<A>>::empty());
        assert(Seq::<A>::empty() + s =~= s);
    } else {
        match first_match(s, d) {
            Some(i) => {
                lemma_first_match(s, d);
                let rest = s.subrange(i + d.len(), s.len() as int);
                lemma_split_rejoin(rest, d);
                lemma_split_nonempty(rest, d);
                let pieces = split_on(s, d).drop_last();
                assert(pieces =~= seq![s.subrange(0, i)] + split_on(rest, d).drop_last());
                assert(pieces.drop_first() =~= split_on(rest, d).drop_last());
                assert(s.subrange(i, i + d.len()) == d);
                assert(s =~= s.subrange(0, i) + d + rest);
                assert(terminated(pieces, d) + split_on(s, d).last() =~= s.subrange(0, i) + d + (
                terminated(split_on(rest, d).drop_last(), d) + split_on(rest, d).last()));
            },
            None => {
                assert(split_on(s, d).drop_last() =~= Seq::<Seq<A>>::empty());
                assert(Seq::<A>::empty() + s =~= s);
            },
        }
    }
}

} // verus!
