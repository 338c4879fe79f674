//! Collecting the entries of a run, and putting them in their final order.

use vstd::prelude::*;
use rayon::slice::ParallelSliceMut;

verus! {

/// `a` comes before `b` or equals it, comparing code points from the start.
pub open spec fn lex_le(a: Seq<char>, b: Seq<char>) -> bool
    decreases a.len(),
{
    if a.len() == 0 {
        true
    } else if b.len() == 0 {
        false
    } else if a[0] != b[0] {
        (a[0] as u32) < (b[0] as u32)
    } else {
        lex_le(a.drop_first(), b.drop_first())
    }
}

/// Two texts each coming before or equal to the other are equal.
pub proof fn lemma_lex_le_antisymmetric(a: Seq<char>, b: Seq<char>)
    requires
        lex_le(a, b),
        lex_le(b, a),
    ensures
        a == b,
    decreases a.len(),
{
    if a.len() > 0 && b.len() > 0 {
        lemma_lex_le_antisymmetric(a.drop_first(), b.drop_first());
        assert(a =~= seq![a[0]] + a.drop_first());
        assert(b =~= seq![b[0]] + b.drop_first());
    }
}

/// The order of texts is transitive.
pub proof fn lemma_lex_le_transitive(a: Seq<char>, b: Seq<char>, c: Seq<char>)
    requires
        lex_le(a, b),
        lex_le(b, c),
    ensures
        lex_le(a, c),
    decreases a.len(),
{
    if a.len() > 0 && b.len() > 0 && c.len() > 0 && a[0] == b[0] && b[0] == c[0] {
        lemma_lex_le_transitive(a.drop_first(), b.drop_first(), c.drop_first());
    }
}

/// The texts of a sequence of strings.
pub open spec fn texts(v: Seq<String>) -> Seq<Seq<char>> {
    v.map_values(|s: String| s@)
}

/// Each text comes strictly before the ones after it: sorted, no two equal.
pub open spec fn strictly_sorted(v: Seq<Seq<char>>) -> bool {
    forall|i: int, j: int| 0 <= i < j < v.len() ==> lex_le(v[i], v[j]) && v[i] != v[j]
}

/// Relies on rayon's `par_sort_unstable`: the strings are rearranged into
/// ascending order. `String` compares its UTF-8 bytes, and UTF-8 keeps the
/// order of code points.
#[verifier::external_body]
fn sort_lines(v: &mut Vec<String>)
    ensures
        texts(final(v)@).to_multiset() == texts(old(v)@).to_multiset(),
        final(v)@.len() == old(v)@.len(),
        forall|i: int, j: int|
            0 <= i < j < final(v)@.len() ==> lex_le(#[trigger] final(v)@[i]@, #[trigger] final(v)@[j]@),
{
    v.par_sort_unstable();
}

proof fn lemma_push_keeps_strict(o: Seq<Seq<char>>, x: Seq<char>)
    requires
        strictly_sorted(o),
        o.len() > 0 ==> lex_le(o.last(), x) && o.last() != x,
    ensures
        strictly_sorted(o.push(x)),
{
    let p = o.push(x);
    assert forall|a: int, b: int| 0 <= a < b < p.len() implies lex_le(p[a], p[b]) && p[a] != p[b] by {
        if b < o.len() {
            assert(p[a] == o[a] && p[b] == o[b]);
        } else {
            let last = o.len() - 1;
            assert(p[a] == o[a] && p[b] == x);
            assert(o.last() == o[last]);
            if a < last {
                assert(lex_le(o[a], o[last]) && o[a] != o[last]);
                lemma_lex_le_transitive(o[a], o[last], x);
                if o[a] == x {
                    lemma_lex_le_antisymmetric(o[last], x);
                }
            }
        }
    }
}

/// The distinct lines of `lines`, in ascending order.
pub fn sorted_unique(lines: Vec<String>) -> (r: Vec<String>)
    ensures
        strictly_sorted(texts(r@)),
        texts(r@).to_set() == texts(lines@).to_set(),
{
    let mut v = lines;
    sort_lines(&mut v);
    let ghost t = texts(v@);
    let n = v.len();
    let mut out: Vec<String> = Vec::new();
    let ghost mut src: Seq<int> = Seq::empty();
    let ghost mut dst: Seq<int> = Seq::empty();
    let mut i: usize = 0;
    while i < n
        invariant
            i <= n == v@.len() == t.len(),
            t == texts(v@),
            forall|a: int, b: int| 0 <= a < b < n ==> lex_le(#[trigger] v@[a]@, #[trigger] v@[b]@),
            strictly_sorted(texts(out@)),
            i > 0 ==> out@.len() > 0 && out@.last()@ == t[i - 1],
            i == 0 ==> out@.len() == 0,
            src.len() == out@.len(),
            forall|k: int| 0 <= k < out@.len() ==> 0 <= #[trigger] src[k] < i && out@[k]@ == t[src[k]],
            dst.len() == i,
            forall|j: int| 0 <= j < i ==> 0 <= #[trigger] dst[j] < out@.len() && out@[dst[j]]@ == t[j],
        decreases n - i,
    {
        let keep = out.len() == 0 || out[out.len() - 1] != v[i];
        if keep {
            let ghost before = out@;
            let line = v[i].clone();
            proof {
                if i > 0 {
                    assert(lex_le(v@[i - 1]@, v@[i as int]@));
                    assert(texts(before).last() == before.last()@);
                }
                lemma_push_keeps_strict(texts(before), t[i as int]);
            }
            out.push(line);
            proof {
                assert(texts(out@) =~= texts(before).push(t[i as int]));
                src = src.push(i as int);
                dst = dst.push(out@.len() - 1);
            }
        } else {
            proof {
                dst = dst.push(out@.len() - 1);
            }
        }
        i += 1;
    }
    proof {
        assert(texts(out@).to_set() =~= t.to_set()) by {
            assert forall|s: Seq<char>| texts(out@).to_set().contains(s) implies t.to_set().contains(s) by {
                let k = choose|k: int| 0 <= k < texts(out@).len() && texts(out@)[k] == s;
                assert(t[src[k]] == s);
            }
            assert forall|s: Seq<char>| t.to_set().contains(s) implies texts(out@).to_set().contains(s) by {
                let j = choose|j: int| 0 <= j < t.len() && t[j] == s;
                assert(texts(out@)[dst[j]] == s);
            }
        }
        texts(v@).to_multiset_ensures();
        texts(lines@).to_multiset_ensures();
        assert(t.to_set() =~= texts(lines@).to_set()) by {
            assert forall|s: Seq<char>| t.to_set().contains(s) <==> texts(lines@).to_set().contains(s) by {
                assert(t.to_multiset().count(s) == texts(lines@).to_multiset().count(s));
            }
        }
    }
    out
}

/// The entries of one run, gathered as the workers produce them.
pub struct ResultSink {
    lines: Vec<String>,
}

impl ResultSink {
    /// The entries gathered so far, in the order they came.
    pub closed spec fn entries(&self) -> Seq<Seq<char>> {
        texts(self.lines@)
    }

    /// An empty sink, with room for the million-odd entries of a full run.
    pub fn new() -> (r: Self)
        ensures
            r.entries() == Seq::<Seq<char>>::empty(),
    {
        let lines: Vec<String> = Vec::with_capacity(1024 * 1024 + 16 * 1024);
        let r = ResultSink { lines };
        assert(r.entries() =~= Seq::<Seq<char>>::empty());
        r
    }

    /// Adds one entry.
    pub fn push(&mut self, line: String)
        ensures
            final(self).entries() == old(self).entries().push(line@),
    {
        self.lines.push(line);
        assert(texts(self.lines@) =~= texts(old(self).lines@).push(line@));
    }

    /// The number of entries gathered.
    pub fn len(&self) -> (r: usize)
        ensures
            r == self.entries().len(),
    {
        self.lines.len()
    }

    /// The distinct entries, in ascending order.
    pub fn into_sorted_unique(self) -> (r: Vec<String>)
        ensures
            strictly_sorted(texts(r@)),
            texts(r@).to_set() == self.entries().to_set(),
    {
        sorted_unique(self.lines)
    }
}

} // verus!
