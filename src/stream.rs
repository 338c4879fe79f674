//! Cutting decompressed blocks at character boundaries and splitting them
//! into records, with the unfinished tail carried into the next block.

use vstd::prelude::*;
use vstd::utf8::*;
use crate::seqs::{append_bytes, first_match, lemma_first_match, lemma_split_concat, lemma_split_rejoin, terminated, lemma_split_nonempty, split_bytes, split_on, views_of};

verus! {

/// The index of the last byte before `n` that does not continue a
/// multi-byte character, or -1 when there is none.
pub open spec fn last_lead_before(t: Seq<u8>, n: int) -> int
    decreases n,
{
    if n <= 0 {
        -1
    } else if !is_continuation_byte(t[n - 1]) {
        n - 1
    } else {
        last_lead_before(t, n - 1)
    }
}

/// Where a block of text is cut: after the end when the last byte that
/// starts a character is a single-byte character, else just before that
/// byte (0 when no byte starts a character at all).
pub open spec fn cut_point(t: Seq<u8>) -> int {
    let j = last_lead_before(t, t.len() as int);
    if j < 0 {
        0
    } else if t[j] < 0x80 {
        t.len() as int
    } else {
        j
    }
}

/// The number of bytes a character takes that starts with `b` (0 when `b`
/// cannot start a multi-byte character).
pub open spec fn lead_width(b: u8) -> int {
    if is_leading_byte_width_2(b) {
        2
    } else if is_leading_byte_width_3(b) {
        3
    } else if is_leading_byte_width_4(b) {
        4
    } else {
        0
    }
}

/// The bytes after the cut point of `t` do not make up one whole character.
pub open spec fn ends_mid_char(t: Seq<u8>) -> bool {
    let c = cut_point(t);
    c < t.len() && lead_width(t[c]) != t.len() - c
}

proof fn lemma_last_lead(t: Seq<u8>, n: int)
    requires
        0 <= n <= t.len(),
    ensures
        -1 <= last_lead_before(t, n) < n,
        last_lead_before(t, n) >= 0 ==> !is_continuation_byte(t[last_lead_before(t, n)]),
        forall|k: int| last_lead_before(t, n) < k < n ==> is_continuation_byte(t[k]),
    decreases n,
{
    if n > 0 && is_continuation_byte(t[n - 1]) {
        lemma_last_lead(t, n - 1);
    }
}

/// The cut point of a block of text.
pub fn trim_to_boundary(t: &[u8]) -> (c: usize)
    ensures
        c == cut_point(t@),
        c <= t@.len(),
{
    let n = t.len();
    let mut i: usize = n;
    while i > 0 && 0x80 <= t[i - 1] && t[i - 1] <= 0xbf
        invariant
            i <= n == t@.len(),
            last_lead_before(t@, i as int) == last_lead_before(t@, n as int),
        decreases i,
    {
        i -= 1;
    }
    proof {
        lemma_last_lead(t@, n as int);
    }
    if i == 0 {
        0
    } else if t[i - 1] < 0x80 {
        n
    } else {
        i - 1
    }
}

proof fn lemma_valid_starts_with_lead(u: Seq<u8>)
    requires
        valid_utf8(u),
        u.len() > 0,
    ensures
        !is_continuation_byte(u[0]),
{
}

/// In well-formed text a single-byte character ends a character: the text
/// up to it and the text after it are well-formed.
proof fn lemma_split_after_ascii(full: Seq<u8>, j: int)
    requires
        valid_utf8(full),
        0 <= j < full.len(),
        full[j] < 0x80,
    ensures
        valid_utf8(full.subrange(0, j + 1)),
        valid_utf8(full.subrange(j + 1, full.len() as int)),
{
    is_char_boundary_iff_not_is_continuation_byte(full, j);
    valid_utf8_split(full, j);
    let u = full.subrange(j, full.len() as int);
    assert(u[0] == full[j]);
    assert(pop_first_scalar(u) =~= full.subrange(j + 1, full.len() as int));
    if j + 1 < full.len() {
        lemma_valid_starts_with_lead(full.subrange(j + 1, full.len() as int));
        assert(full.subrange(j + 1, full.len() as int)[0] == full[j + 1]);
        is_char_boundary_iff_not_is_continuation_byte(full, j + 1);
        valid_utf8_split(full, j + 1);
    } else {
        assert(full.subrange(0, j + 1) =~= full);
    }
}

/// Cutting any prefix of well-formed text where `cut_point` says never
/// splits a character: the part kept is well-formed on its own, and it and
/// the bytes held back give the prefix back unchanged.
pub proof fn lemma_trim_keeps_whole_chars(full: Seq<u8>, n: int)
    requires
        valid_utf8(full),
        0 <= n <= full.len(),
    ensures
        ({
            let t = full.subrange(0, n);
            let c = cut_point(t);
            &&& 0 <= c <= n
            &&& valid_utf8(t.subrange(0, c))
            &&& t.subrange(0, c) + t.subrange(c, n) == t
        }),
{
    let t = full.subrange(0, n);
    let c = cut_point(t);
    lemma_last_lead(t, n);
    let j = last_lead_before(t, n);
    assert(t.subrange(0, c) + t.subrange(c, n) =~= t);
    if j < 0 {
        assert(t.subrange(0, c) =~= Seq::<u8>::empty());
    } else if t[j] < 0x80 {
        lemma_split_after_ascii(full, j);
        if j + 1 < n {
            lemma_valid_starts_with_lead(full.subrange(j + 1, full.len() as int));
            assert(full.subrange(j + 1, full.len() as int)[0] == t[j + 1]);
        }
        assert(t.subrange(0, c) =~= full.subrange(0, n));
    } else {
        is_char_boundary_iff_not_is_continuation_byte(full, j);
        valid_utf8_split(full, j);
        assert(t.subrange(0, c) =~= full.subrange(0, j));
    }
}

/// For well-formed text, the bytes held back at a cut are the start of
/// one character: never more than four.
pub proof fn lemma_held_back_at_most_four(full: Seq<u8>, n: int)
    requires
        valid_utf8(full),
        0 <= n <= full.len(),
    ensures
        0 <= n - cut_point(full.subrange(0, n)) <= 4,
{
    let t = full.subrange(0, n);
    lemma_last_lead(t, n);
    let j = last_lead_before(t, n);
    if j < 0 {
        if n > 0 {
            lemma_valid_starts_with_lead(full);
            assert(t[0] == full[0]);
        }
    } else if t[j] >= 0x80 {
        is_char_boundary_iff_not_is_continuation_byte(full, j);
        valid_utf8_split(full, j);
        let u = full.subrange(j, full.len() as int);
        assert(u[0] == full[j]);
        let w = length_of_first_scalar(u);
        assert(1 <= w <= 4);
        if j + w < n {
            let rest = pop_first_scalar(u);
            assert(rest =~= full.subrange(j + w, full.len() as int));
            lemma_valid_starts_with_lead(rest);
            assert(rest[0] == t[j + w]);
        }
    }
}

/// The bytes that end a record in the dump: two spaces and `</page>`.
pub open spec fn page_end() -> Seq<u8> {
    seq![0x20u8, 0x20, 0x3c, 0x2f, 0x70, 0x61, 0x67, 0x65, 0x3e]
}

/// The complete records found when `block` follows the carried bytes `carry`.
pub open spec fn feed_records(carry: Seq<u8>, block: Seq<u8>, d: Seq<u8>) -> Seq<Seq<u8>> {
    let t = carry + block;
    split_on(t.subrange(0, cut_point(t)), d).drop_last()
}

/// What is carried to the next block: the unfinished last record, followed
/// by the bytes held back at the cut.
pub open spec fn feed_carry(carry: Seq<u8>, block: Seq<u8>, d: Seq<u8>) -> Seq<u8> {
    let t = carry + block;
    let c = cut_point(t);
    split_on(t.subrange(0, c), d).last() + t.subrange(c, t.len() as int)
}

/// The records produced by feeding `blocks` in order after `carry`, then
/// finishing the stream.
pub open spec fn stream_records(carry: Seq<u8>, blocks: Seq<Seq<u8>>, d: Seq<u8>) -> Seq<Seq<u8>>
    decreases blocks.len(),
{
    if blocks.len() == 0 {
        split_on(carry, d)
    } else {
        feed_records(carry, blocks[0], d) + stream_records(
            feed_carry(carry, blocks[0], d),
            blocks.drop_first(),
            d,
        )
    }
}

/// What is carried after feeding `blocks` in order after `carry`.
pub open spec fn carry_after(carry: Seq<u8>, blocks: Seq<Seq<u8>>, d: Seq<u8>) -> Seq<u8>
    decreases blocks.len(),
{
    if blocks.len() == 0 {
        carry
    } else {
        carry_after(feed_carry(carry, blocks[0], d), blocks.drop_first(), d)
    }
}

proof fn lemma_stream_from(carry: Seq<u8>, blocks: Seq<Seq<u8>>, d: Seq<u8>)
    requires
        d.len() > 0,
    ensures
        stream_records(carry, blocks, d) == split_on(carry + blocks.flatten(), d),
    decreases blocks.len(),
{
    if blocks.len() == 0 {
        assert(carry + blocks.flatten() =~= carry);
    } else {
        let t = carry + blocks[0];
        let c = cut_point(t);
        lemma_last_lead(t, t.len() as int);
        let x = t.subrange(0, c);
        let z = t.subrange(c, t.len() as int);
        let rest = blocks.drop_first().flatten();
        assert(blocks.flatten() == blocks[0] + rest);
        assert(carry + blocks.flatten() =~= x + (z + rest));
        lemma_split_concat(x, z + rest, d);
        assert(split_on(x, d).last() + (z + rest) =~= feed_carry(carry, blocks[0], d) + rest);
        lemma_stream_from(feed_carry(carry, blocks[0], d), blocks.drop_first(), d);
    }
}

/// However the input is cut into blocks, feeding the blocks in order and
/// then finishing gives exactly the records, in the same order, that one
/// pass of splitting the whole input gives.
pub proof fn lemma_block_size_invariant(blocks: Seq<Seq<u8>>, d: Seq<u8>)
    requires
        d.len() > 0,
    ensures
        stream_records(seq![], blocks, d) == split_on(blocks.flatten(), d),
        stream_records(seq![], blocks, d).to_multiset() == split_on(blocks.flatten(), d).to_multiset(),
{
    lemma_stream_from(seq![], blocks, d);
    assert(Seq::<u8>::empty() + blocks.flatten() =~= blocks.flatten());
}

/// Nothing is lost or altered by a step: the records it hands out, each
/// followed by the delimiter, and then what it carries on, give back the
/// carried bytes followed by the block.
pub proof fn lemma_feed_round_trip(carry: Seq<u8>, block: Seq<u8>, d: Seq<u8>)
    ensures
        terminated(feed_records(carry, block, d), d) + feed_carry(carry, block, d) == carry + block,
{
    let t = carry + block;
    let c = cut_point(t);
    lemma_last_lead(t, t.len() as int);
    let x = t.subrange(0, c);
    lemma_split_rejoin(x, d);
    assert(t =~= x + t.subrange(c, t.len() as int));
    assert(terminated(feed_records(carry, block, d), d) + feed_carry(carry, block, d) =~= (terminated(
        split_on(x, d).drop_last(),
        d,
    ) + split_on(x, d).last()) + t.subrange(c, t.len() as int));
}

/// Splitting well-formed text at a delimiter made of single-byte
/// characters gives well-formed records.
pub proof fn lemma_records_well_formed(s: Seq<u8>, d: Seq<u8>)
    requires
        valid_utf8(s),
        d.len() > 0,
        forall|k: int| 0 <= k < d.len() ==> d[k] < 0x80,
    ensures
        forall|k: int| 0 <= k < split_on(s, d).len() ==> valid_utf8(#[trigger] split_on(s, d)[k]),
    decreases s.len(),
{
    match first_match(s, d) {
        Some(i) => {
            lemma_first_match(s, d);
            assert(s.subrange(i, i + d.len()) == d);
            assert(s[i] == d[0]);
            is_char_boundary_iff_not_is_continuation_byte(s, i);
            valid_utf8_split(s, i);
            let e = i + d.len() - 1;
            assert(s[e] == d[d.len() - 1]);
            lemma_split_after_ascii(s, e);
            let rest = s.subrange(i + d.len(), s.len() as int);
            lemma_records_well_formed(rest, d);
            let pieces = split_on(s, d);
            assert(pieces == seq![s.subrange(0, i)] + split_on(rest, d));
            assert forall|k: int| 0 <= k < pieces.len() implies valid_utf8(#[trigger] pieces[k]) by {
                if k > 0 {
                    assert(pieces[k] == split_on(rest, d)[k - 1]);
                }
            }
        },
        None => {
            assert(split_on(s, d) == seq![s]);
        },
    }
}

/// However well-formed input is cut into blocks, every record that the
/// stream hands out is well-formed: no character is cut in two.
pub proof fn lemma_stream_records_well_formed(blocks: Seq<Seq<u8>>)
    requires
        valid_utf8(blocks.flatten()),
    ensures
        forall|k: int|
            0 <= k < stream_records(seq![], blocks, page_end()).len() ==> valid_utf8(
                #[trigger] stream_records(seq![], blocks, page_end())[k],
            ),
{
    lemma_block_size_invariant(blocks, page_end());
    lemma_records_well_formed(blocks.flatten(), page_end());
}

/// A stream finished while a character was still incomplete.
#[derive(Debug, Clone, Copy, PartialEq, Eq, Structural)]
pub enum StreamError {
    TruncatedCharacter,
}

/// Splits a stream of blocks into records: each block is cut at a character
/// boundary, the complete records are handed out, and the unfinished one
/// waits for the next block.
pub struct RecordSplitter {
    carry: Vec<u8>,
    delimiter: Vec<u8>,
}

impl RecordSplitter {
    /// The bytes waiting for the next block.
    pub closed spec fn carried(&self) -> Seq<u8> {
        self.carry@
    }

    /// The bytes that end a record.
    pub closed spec fn delimiter(&self) -> Seq<u8> {
        self.delimiter@
    }

    /// The delimiter is not empty.
    pub closed spec fn wf(&self) -> bool {
        self.delimiter@.len() > 0
    }

    /// A splitter for the dump's pages, with nothing carried yet.
    pub fn new() -> (r: Self)
        ensures
            r.wf(),
            r.carried() == Seq::<u8>::empty(),
            r.delimiter() == page_end(),
    {
        let delimiter: Vec<u8> = vec![0x20u8, 0x20, 0x3c, 0x2f, 0x70, 0x61, 0x67, 0x65, 0x3e];
        assert(delimiter@ =~= page_end());
        RecordSplitter { carry: Vec::new(), delimiter }
    }

    /// Takes the next block of the stream and returns the records that it completes.
    pub fn feed(&mut self, block: &[u8]) -> (records: Vec<Vec<u8>>)
        requires
            old(self).wf(),
        ensures
            final(self).wf(),
            final(self).delimiter() == old(self).delimiter(),
            views_of(records@) == feed_records(old(self).carried(), block@, old(self).delimiter()),
            final(self).carried() == feed_carry(old(self).carried(), block@, old(self).delimiter()),
    {
        let mut text: Vec<u8> = Vec::new();
        std::mem::swap(&mut text, &mut self.carry);
        append_bytes(&mut text, block);
        let t = text.as_slice();
        let n = t.len();
        let c = trim_to_boundary(t);
        let kept = &t[0..c];
        let mut records = split_bytes(kept, self.delimiter.as_slice());
        proof {
            lemma_split_nonempty(kept@, self.delimiter@);
        }
        let ghost pieces = records@;
        match records.pop() {
            Some(mut last) => {
                append_bytes(&mut last, &t[c..n]);
                self.carry = last;
                proof {
                    assert(views_of(records@) =~= views_of(pieces).drop_last());
                }
            },
            None => {},
        }
        records
    }

    /// Ends the stream: everything carried is split into records, the last
    /// one included, unless the stream stopped inside a character.
    pub fn finish(self) -> (r: Result<Vec<Vec<u8>>, StreamError>)
        requires
            self.wf(),
        ensures
            r is Err <==> ends_mid_char(self.carried()),
            r matches Ok(records) ==> views_of(records@) == split_on(self.carried(), self.delimiter()),
    {
        let t = self.carry.as_slice();
        let n = t.len();
        let c = trim_to_boundary(t);
        if c < n {
            let b = t[c];
            let width: usize = if 0xc0 <= b && b <= 0xdf {
                2
            } else if 0xe0 <= b && b <= 0xef {
                3
            } else if 0xf0 <= b && b <= 0xf7 {
                4
            } else {
                0
            };
            if width != n - c {
                return Err(StreamError::TruncatedCharacter);
            }
        }
        Ok(split_bytes(t, self.delimiter.as_slice()))
    }
}

/// Splits a dump held in memory as a sequence of blocks into its records,
/// feeding the blocks in order and then finishing. The records are those of
/// splitting the blocks' concatenation in one pass, however it was cut.
pub fn records_of_blocks(blocks: &Vec<Vec<u8>>) -> (r: Result<Vec<Vec<u8>>, StreamError>)
    ensures
        r is Err <==> ends_mid_char(carry_after(Seq::<u8>::empty(), views_of(blocks@), page_end())),
        r matches Ok(records) ==> views_of(records@) == stream_records(Seq::<u8>::empty(), views_of(blocks@), page_end()),
        r matches Ok(records) ==> views_of(records@) == split_on(views_of(blocks@).flatten(), page_end()),
{
    let ghost all = views_of(blocks@);
    let mut splitter = RecordSplitter::new();
    let mut out: Vec<Vec<u8>> = Vec::new();
    let n = blocks.len();
    let mut i: usize = 0;
    assert(all.subrange(0, n as int) =~= all);
    while i < n
        invariant
            i <= n == blocks@.len() == all.len(),
            all == views_of(blocks@),
            splitter.wf(),
            splitter.delimiter() == page_end(),
            views_of(out@) + stream_records(splitter.carried(), all.subrange(i as int, n as int), page_end())
                == stream_records(Seq::<u8>::empty(), all, page_end()),
            carry_after(splitter.carried(), all.subrange(i as int, n as int), page_end())
                == carry_after(Seq::<u8>::empty(), all, page_end()),
        decreases n - i,
    {
        let ghost rest = all.subrange(i as int, n as int);
        let ghost before = out@;
        let ghost carry = splitter.carried();
        assert(rest[0] == blocks@[i as int]@);
        assert(rest.drop_first() =~= all.subrange(i + 1, n as int));
        let mut recs = splitter.feed(blocks[i].as_slice());
        let ghost got = recs@;
        out.append(&mut recs);
        proof {
            assert(views_of(out@) =~= views_of(before) + views_of(got));
        }
        i += 1;
    }
    proof {
        lemma_block_size_invariant(all, page_end());
        assert(all.subrange(n as int, n as int) =~= Seq::<Seq<u8>>::empty());
    }
    let mut last = splitter.finish()?;
    let ghost before = out@;
    let ghost got = last@;
    out.append(&mut last);
    proof {
        assert(views_of(out@) =~= views_of(before) + views_of(got));
    }
    Ok(out)
}

} // verus!
