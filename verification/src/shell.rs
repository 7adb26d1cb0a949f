//! Completion output builder: a sorted set of candidate words, a
//! default-fallback flag, and serialisation as a bash-evaluable snippet.

use vstd::prelude::*;
use vstd::string::*;
use crate::optparse::word_views;

verus! {

/// Strict lexicographic order on character sequences, by code point.
pub open spec fn seq_lt(a: Seq<char>, b: Seq<char>) -> bool
    decreases a.len(),
{
    if b.len() == 0 {
        false
    } else if a.len() == 0 {
        true
    } else if a[0] != b[0] {
        (a[0] as int) < (b[0] as int)
    } else {
        seq_lt(a.drop_first(), b.drop_first())
    }
}

pub proof fn lemma_seq_lt_irreflexive(a: Seq<char>)
    ensures
        !seq_lt(a, a),
    decreases a.len(),
{
    if a.len() > 0 {
        lemma_seq_lt_irreflexive(a.drop_first());
    }
}

pub proof fn lemma_seq_lt_asymmetric(a: Seq<char>, b: Seq<char>)
    requires
        seq_lt(a, b),
    ensures
        !seq_lt(b, a),
    decreases a.len(),
{
    if a.len() > 0 && b.len() > 0 && a[0] == b[0] {
        lemma_seq_lt_asymmetric(a.drop_first(), b.drop_first());
    }
}

pub proof fn lemma_seq_lt_total(a: Seq<char>, b: Seq<char>)
    ensures
        seq_lt(a, b) || seq_lt(b, a) || a == b,
    decreases a.len(),
{
    if a.len() == 0 && b.len() == 0 {
        assert(a =~= b);
    } else if a.len() > 0 && b.len() > 0 && a[0] == b[0] {
        lemma_seq_lt_total(a.drop_first(), b.drop_first());
        if a.drop_first() == b.drop_first() {
            assert(a.drop_first().len() == a.len() - 1);
            assert(b.drop_first().len() == b.len() - 1);
            assert(a.len() == b.len());
            assert forall|i: int| 0 <= i < a.len() implies a[i] == b[i] by {
                if i > 0 {
                    assert(a[i] == a.drop_first()[i - 1]);
                    assert(b[i] == b.drop_first()[i - 1]);
                }
            }
            assert(a =~= b);
        }
    } else if a.len() == 0 {
        assert(seq_lt(a, b));
    } else if b.len() == 0 {
        assert(seq_lt(b, a));
    } else {
        assert((a[0] as int) != (b[0] as int));
    }
}

pub proof fn lemma_seq_lt_transitive(a: Seq<char>, b: Seq<char>, c: Seq<char>)
    requires
        seq_lt(a, b),
        seq_lt(b, c),
    ensures
        seq_lt(a, c),
    decreases a.len(),
{
    if a.len() > 0 && b.len() > 0 && c.len() > 0 && a[0] == b[0] && b[0] == c[0] {
        lemma_seq_lt_transitive(a.drop_first(), b.drop_first(), c.drop_first());
    }
}

/// The words stand in strictly increasing lexicographic order; in
/// particular no word repeats.
pub open spec fn sorted_strict(ws: Seq<Seq<char>>) -> bool {
    forall|i: int, j: int| 0 <= i < j < ws.len() ==> seq_lt(ws[i], ws[j])
}

/// Insertion of a word into a lexicographically sorted word list; a word
/// already present is dropped, so insertion is idempotent.
pub open spec fn insert_sorted(ws: Seq<Seq<char>>, w: Seq<char>) -> Seq<Seq<char>>
    decreases ws.len(),
{
    if ws.len() == 0 {
        seq![w]
    } else if w == ws[0] {
        ws
    } else if seq_lt(w, ws[0]) {
        seq![w] + ws
    } else {
        seq![ws[0]] + insert_sorted(ws.drop_first(), w)
    }
}

/// Every word of the inserted list is either the new word or one of the old
/// words, so a strict lower bound on both bounds the whole result.
proof fn lemma_insert_sorted_lower_bound(ws: Seq<Seq<char>>, w: Seq<char>, lo: Seq<char>)
    requires
        seq_lt(lo, w),
        forall|k: int| 0 <= k < ws.len() ==> seq_lt(lo, ws[k]),
    ensures
        forall|m: int| 0 <= m < insert_sorted(ws, w).len() ==> seq_lt(lo, insert_sorted(ws, w)[m]),
    decreases ws.len(),
{
    if ws.len() == 0 {
    } else if w == ws[0] {
    } else if seq_lt(w, ws[0]) {
    } else {
        assert(forall|k: int| 0 <= k < ws.drop_first().len() ==> seq_lt(lo, ws.drop_first()[k]));
        lemma_insert_sorted_lower_bound(ws.drop_first(), w, lo);
    }
    assert forall|m: int| 0 <= m < insert_sorted(ws, w).len() implies seq_lt(
        lo,
        insert_sorted(ws, w)[m],
    ) by {
        if ws.len() == 0 {
        } else if w == ws[0] {
        } else if seq_lt(w, ws[0]) {
            if m > 0 {
                assert(insert_sorted(ws, w)[m] == ws[m - 1]);
            }
        } else {
            if m > 0 {
                assert(insert_sorted(ws, w)[m] == insert_sorted(ws.drop_first(), w)[m - 1]);
            }
        }
    }
}

pub proof fn lemma_insert_sorted_preserves(ws: Seq<Seq<char>>, w: Seq<char>)
    requires
        sorted_strict(ws),
    ensures
        sorted_strict(insert_sorted(ws, w)),
    decreases ws.len(),
{
    if ws.len() == 0 {
    } else if w == ws[0] {
    } else if seq_lt(w, ws[0]) {
        let r = seq![w] + ws;
        assert forall|i: int, j: int| 0 <= i < j < r.len() implies seq_lt(r[i], r[j]) by {
            if i == 0 {
                if j > 1 {
                    lemma_seq_lt_transitive(w, ws[0], ws[j - 1]);
                }
            }
        }
    } else {
        lemma_seq_lt_total(w, ws[0]);
        lemma_seq_lt_irreflexive(ws[0]);
        assert(seq_lt(ws[0], w));
        let tail = ws.drop_first();
        assert(sorted_strict(tail));
        lemma_insert_sorted_preserves(tail, w);
        assert(forall|k: int| 0 <= k < tail.len() ==> seq_lt(ws[0], tail[k]));
        lemma_insert_sorted_lower_bound(tail, w, ws[0]);
        let r = seq![ws[0]] + insert_sorted(tail, w);
        assert forall|i: int, j: int| 0 <= i < j < r.len() implies seq_lt(r[i], r[j]) by {
            if i == 0 {
                assert(r[j] == insert_sorted(tail, w)[j - 1]);
            } else {
                assert(r[i] == insert_sorted(tail, w)[i - 1]);
                assert(r[j] == insert_sorted(tail, w)[j - 1]);
            }
        }
    }
}

/// The inserted word is among the candidates afterwards.
pub proof fn lemma_insert_sorted_contains(ws: Seq<Seq<char>>, w: Seq<char>)
    ensures
        insert_sorted(ws, w).contains(w),
    decreases ws.len(),
{
    if ws.len() == 0 {
        assert(insert_sorted(ws, w)[0] == w);
    } else if w == ws[0] {
        assert(ws[0] == w);
    } else if seq_lt(w, ws[0]) {
        assert((seq![w] + ws)[0] == w);
    } else {
        lemma_insert_sorted_contains(ws.drop_first(), w);
        let k = choose|k: int|
            0 <= k < insert_sorted(ws.drop_first(), w).len() && insert_sorted(
                ws.drop_first(),
                w,
            )[k] == w;
        assert(insert_sorted(ws, w)[k + 1] == w);
    }
}

/// Adding a word that is already among the candidates changes nothing, and
/// a strictly sorted candidate list never lists a word twice: however often
/// a word is added, it appears exactly once.
pub proof fn lemma_insert_sorted_idempotent(ws: Seq<Seq<char>>, w: Seq<char>)
    ensures
        insert_sorted(insert_sorted(ws, w), w) == insert_sorted(ws, w),
    decreases ws.len(),
{
    lemma_seq_lt_irreflexive(w);
    if ws.len() == 0 {
        assert(insert_sorted(seq![w], w) == seq![w]);
    } else if w == ws[0] {
    } else if seq_lt(w, ws[0]) {
        assert((seq![w] + ws)[0] == w);
    } else {
        lemma_seq_lt_total(w, ws[0]);
        assert(seq_lt(ws[0], w));
        lemma_seq_lt_asymmetric(ws[0], w);
        lemma_insert_sorted_idempotent(ws.drop_first(), w);
        let r = seq![ws[0]] + insert_sorted(ws.drop_first(), w);
        assert(insert_sorted(ws, w) == r);
        assert(r[0] == ws[0]);
        assert(r.drop_first() =~= insert_sorted(ws.drop_first(), w));
        assert(insert_sorted(r, w) == seq![ws[0]] + insert_sorted(r.drop_first(), w));
        assert(insert_sorted(r, w) =~= r);
    }
}

/// In a strictly sorted word list no word appears at two indices.
pub proof fn lemma_sorted_strict_distinct(ws: Seq<Seq<char>>)
    requires
        sorted_strict(ws),
    ensures
        forall|i: int, j: int| 0 <= i < ws.len() && 0 <= j < ws.len() && i != j ==> ws[i] != ws[j],
{
    assert forall|i: int, j: int|
        0 <= i < ws.len() && 0 <= j < ws.len() && i != j implies ws[i] != ws[j] by {
        if i < j {
            lemma_seq_lt_irreflexive(ws[i]);
        } else {
            lemma_seq_lt_irreflexive(ws[j]);
        }
    }
}

/// Splitting an insertion at an index below which every word is strictly
/// smaller than the new one.
proof fn lemma_insert_sorted_split(ws: Seq<Seq<char>>, w: Seq<char>, idx: int)
    requires
        0 <= idx <= ws.len(),
        forall|m: int| 0 <= m < idx ==> seq_lt(ws[m], w),
    ensures
        insert_sorted(ws, w) == ws.take(idx) + insert_sorted(ws.skip(idx), w),
    decreases idx,
{
    if idx == 0 {
        assert(ws.skip(0) =~= ws);
        assert(ws.take(0) + insert_sorted(ws, w) =~= insert_sorted(ws, w));
    } else {
        assert(seq_lt(ws[0], w));
        lemma_seq_lt_asymmetric(ws[0], w);
        lemma_seq_lt_irreflexive(ws[0]);
        assert(w != ws[0]);
        let tail = ws.drop_first();
        assert(forall|m: int| 0 <= m < idx - 1 ==> seq_lt(tail[m], w));
        lemma_insert_sorted_split(tail, w, idx - 1);
        assert(tail.skip(idx - 1) =~= ws.skip(idx));
        assert(seq![ws[0]] + (tail.take(idx - 1) + insert_sorted(ws.skip(idx), w)) =~= ws.take(
            idx,
        ) + insert_sorted(ws.skip(idx), w));
    }
}

/// Accumulator for completion candidates: a lexicographically sorted set of
/// distinct words, and a flag asking the shell for its default completion
/// when the set stays empty.
pub struct Output {
    use_defaults: bool,
    words: Vec<String>,
}

impl Output {
    /// The candidate words, in the order they will be emitted.
    pub closed spec fn words_view(self) -> Seq<Seq<char>> {
        word_views(self.words@)
    }

    /// Whether an empty candidate set falls back to the shell's default
    /// completion.
    pub closed spec fn defaults_flag(self) -> bool {
        self.use_defaults
    }

    /// The candidate words stand strictly sorted; constructors establish
    /// this and every operation preserves it.
    pub open spec fn wf(self) -> bool {
        sorted_strict(self.words_view())
    }

    /// A fresh builder: no candidates, no default fallback.
    pub fn new() -> (r: Output)
        ensures
            r.wf(),
            r.words_view() == Seq::<Seq<char>>::empty(),
            !r.defaults_flag(),
    {
        let r = Output { use_defaults: false, words: Vec::new() };
        proof {
            assert(r.words_view() =~= Seq::<Seq<char>>::empty());
        }
        r
    }

    /// Add a candidate word; a duplicate collapses silently.
    pub fn add_word(&mut self, word: &str)
        requires
            old(self).wf(),
        ensures
            final(self).wf(),
            final(self).words_view() == insert_sorted(old(self).words_view(), word@),
            final(self).defaults_flag() == old(self).defaults_flag(),
    {
        let ghost ws = self.words_view();
        let mut idx: usize = 0;
        loop
            invariant_except_break
                idx <= self.words@.len(),
                ws == self.words_view(),
                forall|m: int| 0 <= m < idx ==> seq_lt(ws[m], word@),
            ensures
                idx <= self.words@.len(),
                ws == self.words_view(),
                forall|m: int| 0 <= m < idx ==> seq_lt(ws[m], word@),
                idx < self.words@.len() ==> !seq_lt(ws[idx as int], word@),
            decreases self.words@.len() - idx,
        {
            if idx >= self.words.len() {
                break;
            }
            if !str_lt(self.words[idx].as_str(), word) {
                break;
            }
            idx += 1;
        }
        proof {
            lemma_insert_sorted_split(ws, word@, idx as int);
        }
        if idx < self.words.len() && str_eq(self.words[idx].as_str(), word) {
            proof {
                assert(ws.skip(idx as int)[0] == word@);
                assert(insert_sorted(ws.skip(idx as int), word@) == ws.skip(idx as int));
                assert(ws.take(idx as int) + ws.skip(idx as int) =~= ws);
                assert(self.words_view() == insert_sorted(ws, word@));
            }
            return ;
        }
        proof {
            if idx < ws.len() {
                lemma_seq_lt_total(word@, ws[idx as int]);
                assert(seq_lt(word@, ws[idx as int]));
                lemma_seq_lt_irreflexive(word@);
                assert(insert_sorted(ws.skip(idx as int), word@) == seq![word@] + ws.skip(
                    idx as int,
                ));
            } else {
                assert(ws.skip(idx as int) =~= Seq::<Seq<char>>::empty());
                assert(insert_sorted(ws.skip(idx as int), word@) =~= seq![word@] + ws.skip(
                    idx as int,
                ));
            }
        }
        self.words.insert(idx, word.to_owned());
        proof {
            assert(self.words_view() =~= ws.take(idx as int) + (seq![word@] + ws.skip(idx as int)));
            assert(self.words_view() == insert_sorted(ws, word@));
            lemma_insert_sorted_preserves(ws, word@);
        }
    }

    /// Whether, with no candidates gathered, the shell should fall back to
    /// its default (filesystem) completion rather than receive nothing.
    pub fn use_defaults(&mut self, use_defaults: bool)
        ensures
            final(self).defaults_flag() == use_defaults,
            final(self).words_view() == old(self).words_view(),
            final(self).wf() == old(self).wf(),
    {
        self.use_defaults = use_defaults;
    }
}

/// Strict lexicographic comparison of two words.
pub fn str_lt(a: &str, b: &str) -> (r: bool)
    ensures
        r == seq_lt(a@, b@),
{
    let alen = a.unicode_len();
    let blen = b.unicode_len();
    let mut i: usize = 0;
    proof {
        assert(a@.skip(0) =~= a@);
        assert(b@.skip(0) =~= b@);
    }
    loop
        invariant_except_break
            alen == a@.len(),
            blen == b@.len(),
            i <= alen,
            i <= blen,
            seq_lt(a@, b@) == seq_lt(a@.skip(i as int), b@.skip(i as int)),
        ensures
            seq_lt(a@, b@) == seq_lt(a@.skip(i as int), b@.skip(i as int)),
            i <= alen && i <= blen,
            alen == a@.len() && blen == b@.len(),
            i >= blen || i >= alen || a@[i as int] != b@[i as int],
        decreases alen - i,
    {
        if i >= blen || i >= alen {
            break;
        }
        let ca = a.get_char(i);
        let cb = b.get_char(i);
        if ca != cb {
            break;
        }
        proof {
            lemma_seq_lt_skip_step(a@, b@, i as int);
        }
        i += 1;
    }
    let ghost sa = a@.skip(i as int);
    let ghost sb = b@.skip(i as int);
    if i >= blen {
        proof {
            assert(sb.len() == 0);
        }
        false
    } else if i >= alen {
        proof {
            assert(sa.len() == 0 && sb.len() > 0);
        }
        true
    } else {
        let ca = a.get_char(i);
        let cb = b.get_char(i);
        proof {
            assert(sa[0] == a@[i as int] && sb[0] == b@[i as int]);
            assert(sa[0] != sb[0]);
        }
        (ca as u32) < (cb as u32)
    }
}

proof fn lemma_seq_lt_skip_step(a: Seq<char>, b: Seq<char>, i: int)
    requires
        0 <= i < a.len(),
        i < b.len(),
        a[i] == b[i],
    ensures
        seq_lt(a.skip(i), b.skip(i)) == seq_lt(a.skip(i + 1), b.skip(i + 1)),
{
    assert(a.skip(i).drop_first() =~= a.skip(i + 1));
    assert(b.skip(i).drop_first() =~= b.skip(i + 1));
    assert(a.skip(i)[0] == a[i]);
    assert(b.skip(i)[0] == b[i]);
}

/// Equality of two words, character by character.
pub fn str_eq(a: &str, b: &str) -> (r: bool)
    ensures
        r == (a@ == b@),
{
    let alen = a.unicode_len();
    let blen = b.unicode_len();
    if alen != blen {
        return false;
    }
    let mut i: usize = 0;
    while i < alen
        invariant
            alen == a@.len(),
            blen == b@.len(),
            alen == blen,
            i <= alen,
            forall|m: int| 0 <= m < i ==> a@[m] == b@[m],
        decreases alen - i,
    {
        if a.get_char(i) != b.get_char(i) {
            assert(a@[i as int] != b@[i as int]);
            return false;
        }
        i += 1;
    }
    proof {
        assert(a@ =~= b@);
    }
    true
}

/// Whether `s` begins with `p`: a byte-for-byte (here character-for-
/// character) prefix test, case-sensitive.
pub open spec fn is_prefix(p: Seq<char>, s: Seq<char>) -> bool {
    p.len() <= s.len() && s.subrange(0, p.len() as int) == p
}

/// Whether `s` starts with the prefix `p`.
pub fn str_starts_with(s: &str, p: &str) -> (r: bool)
    ensures
        r == is_prefix(p@, s@),
{
    let slen = s.unicode_len();
    let plen = p.unicode_len();
    if plen > slen {
        return false;
    }
    let mut i: usize = 0;
    while i < plen
        invariant
            slen == s@.len(),
            plen == p@.len(),
            plen <= slen,
            i <= plen,
            forall|m: int| 0 <= m < i ==> s@[m] == p@[m],
        decreases plen - i,
    {
        if s.get_char(i) != p.get_char(i) {
            assert(s@.subrange(0, p@.len() as int)[i as int] != p@[i as int]);
            return false;
        }
        i += 1;
    }
    proof {
        assert(s@.subrange(0, p@.len() as int) =~= p@);
    }
    true
}

/// The single-quote-safe encoding of one character: a plain character
/// stands for itself, while an embedded single quote closes the quote,
/// inserts a double-quoted single quote, and reopens the quote.
pub open spec fn quote_escape(c: char) -> Seq<char> {
    if c == '\'' {
        "'\"'\"'"@
    } else {
        seq![c]
    }
}

/// The body of a single-quoted shell word, character by character.
pub open spec fn escape_seq(s: Seq<char>) -> Seq<char>
    decreases s.len(),
{
    if s.len() == 0 {
        Seq::<char>::empty()
    } else {
        quote_escape(s[0]) + escape_seq(s.drop_first())
    }
}

/// A whole word as the shell will read it back: wrapped in single quotes,
/// with embedded single quotes escaped.
pub open spec fn escaped_word(s: Seq<char>) -> Seq<char> {
    "'"@ + escape_seq(s) + "'"@
}

proof fn lemma_escape_seq_push(s: Seq<char>, c: char)
    ensures
        escape_seq(s.push(c)) == escape_seq(s) + quote_escape(c),
    decreases s.len(),
{
    if s.len() == 0 {
        assert(s.push(c)[0] == c);
        assert(s.push(c).drop_first() =~= Seq::<char>::empty());
        assert(escape_seq(Seq::<char>::empty()) == Seq::<char>::empty());
        assert(escape_seq(s.push(c)) == quote_escape(c) + Seq::<char>::empty());
        assert(quote_escape(c) + Seq::<char>::empty() =~= quote_escape(c));
        assert(Seq::<char>::empty() + quote_escape(c) =~= quote_escape(c));
    } else {
        assert(s.push(c)[0] == s[0]);
        assert(s.push(c).drop_first() =~= s.drop_first().push(c));
        lemma_escape_seq_push(s.drop_first(), c);
        assert(escape_seq(s.push(c)) == quote_escape(s[0]) + (escape_seq(s.drop_first())
            + quote_escape(c)));
        assert(quote_escape(s[0]) + (escape_seq(s.drop_first()) + quote_escape(c)) =~= (quote_escape(
            s[0],
        ) + escape_seq(s.drop_first())) + quote_escape(c));
    }
}

/// Emit a word as a single-quoted shell literal; an embedded single quote
/// becomes the four-character sequence that closes the quote, inserts a
/// literal quote via double quoting, and reopens the quote.
pub fn escape_string(s: &str) -> (r: String)
    ensures
        r@ == escaped_word(s@),
{
    let mut r = String::from_str("'");
    let n = s.unicode_len();
    let mut i: usize = 0;
    proof {
        assert(s@.take(0) =~= Seq::<char>::empty());
    }
    while i < n
        invariant
            n == s@.len(),
            i <= n,
            r@ == "'"@ + escape_seq(s@.take(i as int)),
        decreases n - i,
    {
        let c = s.get_char(i);
        if c == '\'' {
            r.append("'\"'\"'");
        } else {
            r.append(s.substring_char(i, i + 1));
            proof {
                assert(s@.subrange(i as int, i as int + 1) =~= seq![s@[i as int]]);
            }
        }
        proof {
            lemma_escape_seq_push(s@.take(i as int), s@[i as int]);
            assert(s@.take(i as int + 1) =~= s@.take(i as int).push(s@[i as int]));
        }
        i += 1;
    }
    r.append("'");
    proof {
        assert(s@.take(n as int) =~= s@);
    }
    r
}

/// The line-by-line body of an explicit candidate block: each candidate
/// that `cur` is a prefix of, indented, escaped, one per line, in the
/// order of `ws`.
pub open spec fn candidate_lines(ws: Seq<Seq<char>>, cur: Seq<char>) -> Seq<char>
    decreases ws.len(),
{
    if ws.len() == 0 {
        Seq::<char>::empty()
    } else {
        (if is_prefix(cur, ws[0]) {
            "\t"@ + escaped_word(ws[0]) + "\n"@
        } else {
            Seq::<char>::empty()
        }) + candidate_lines(ws.drop_first(), cur)
    }
}

proof fn lemma_candidate_lines_push(ws: Seq<Seq<char>>, w: Seq<char>, cur: Seq<char>)
    ensures
        candidate_lines(ws.push(w), cur) == candidate_lines(ws, cur) + (if is_prefix(cur, w) {
            "\t"@ + escaped_word(w) + "\n"@
        } else {
            Seq::<char>::empty()
        }),
    decreases ws.len(),
{
    if ws.len() == 0 {
        assert(ws.push(w)[0] == w);
        assert(ws.push(w).drop_first() =~= Seq::<Seq<char>>::empty());
        assert(candidate_lines(Seq::<Seq<char>>::empty(), cur) == Seq::<char>::empty());
        let enc = if is_prefix(cur, w) {
            "\t"@ + escaped_word(w) + "\n"@
        } else {
            Seq::<char>::empty()
        };
        assert(candidate_lines(ws.push(w), cur) == enc + Seq::<char>::empty());
        assert(enc + Seq::<char>::empty() =~= enc);
        assert(Seq::<char>::empty() + enc =~= enc);
    } else {
        assert(ws.push(w)[0] == ws[0]);
        assert(ws.push(w).drop_first() =~= ws.drop_first().push(w));
        lemma_candidate_lines_push(ws.drop_first(), w, cur);
        let head = if is_prefix(cur, ws[0]) {
            "\t"@ + escaped_word(ws[0]) + "\n"@
        } else {
            Seq::<char>::empty()
        };
        let enc = if is_prefix(cur, w) {
            "\t"@ + escaped_word(w) + "\n"@
        } else {
            Seq::<char>::empty()
        };
        assert(candidate_lines(ws.push(w), cur) == head + (candidate_lines(ws.drop_first(), cur)
            + enc));
        assert(head + (candidate_lines(ws.drop_first(), cur) + enc) =~= (head + candidate_lines(
            ws.drop_first(),
            cur,
        )) + enc);
    }
}

/// The default-fallback line: the shell is asked to complete `cur` with
/// its built-in default (filesystem) completion.  As in the snippet shown,
/// `cur` is embedded between fixed single quotes without further escaping.
pub open spec fn default_line(cur: Seq<char>) -> Seq<char> {
    "COMPREPLY=( $(compgen -o default -- '"@ + cur + "') )\n"@
}

/// What `emit_eval` prints for a candidate list `ws`, fallback flag
/// `use_defaults` and current word `cur`: nothing for an empty list without
/// fallback; the default-fallback line for an empty list with fallback;
/// otherwise the explicit candidate block, holding the candidates that
/// `cur` is a prefix of.
pub open spec fn eval_output(ws: Seq<Seq<char>>, use_defaults: bool, cur: Seq<char>) -> Seq<char> {
    if ws.len() == 0 {
        if use_defaults {
            default_line(cur)
        } else {
            Seq::<char>::empty()
        }
    } else {
        "COMPREPLY=(\n"@ + candidate_lines(ws, cur) + ")\n\n"@
    }
}

impl Output {
    /// The default-fallback line for the current word `cur`, used directly
    /// when the invoked command has no registered completion strategy.
    pub fn emit_default(cur: &str) -> (r: String)
        ensures
            r@ == default_line(cur@),
    {
        let mut r = String::from_str("COMPREPLY=( $(compgen -o default -- '");
        r.append(cur);
        r.append("') )\n");
        r
    }

    /// Serialise the gathered candidates as a bash snippet for the current
    /// word `cur`: an empty candidate set yields nothing, or the
    /// default-fallback line when the fallback flag is set; otherwise the
    /// candidates that `cur` prefixes are listed one per line, escaped, in
    /// the builder's (lexicographic) order.
    pub fn emit_eval(&self, cur: &str) -> (r: String)
        ensures
            r@ == eval_output(self.words_view(), self.defaults_flag(), cur@),
    {
        if self.words.len() == 0 {
            if self.use_defaults {
                return Self::emit_default(cur);
            }
            return String::new();
        }
        let ghost ws = self.words_view();
        let mut r = String::from_str("COMPREPLY=(\n");
        let mut i: usize = 0;
        proof {
            assert(ws.take(0) =~= Seq::<Seq<char>>::empty());
        }
        while i < self.words.len()
            invariant
                ws == self.words_view(),
                i <= self.words@.len(),
                r@ == "COMPREPLY=(\n"@ + candidate_lines(ws.take(i as int), cur@),
            decreases self.words@.len() - i,
        {
            let w = &self.words[i];
            proof {
                assert(w@ == ws[i as int]);
            }
            if str_starts_with(w.as_str(), cur) {
                r.append("\t");
                let e = escape_string(w.as_str());
                r.append(e.as_str());
                r.append("\n");
            }
            proof {
                lemma_candidate_lines_push(ws.take(i as int), ws[i as int], cur@);
                assert(ws.take(i as int + 1) =~= ws.take(i as int).push(ws[i as int]));
            }
            i += 1;
        }
        r.append(")\n\n");
        proof {
            assert(ws.take(self.words@.len() as int) =~= ws);
        }
        r
    }
}

} // verus!
