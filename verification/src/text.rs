//! Mathematical model of the text operations: splitting a sequence of
//! characters on whitespace or on a separator character, trimming, joining
//! with spaces, and repetition.
//!
//! Every function here is defined as a fold over the final character of the
//! sequence, so that an executable loop scanning a string left to right can
//! maintain the invariant that its state matches the spec of the prefix
//! processed so far.

use vstd::prelude::*;

verus! {

/// The whitespace characters recognised by the splitting and trimming
/// functions: the ASCII whitespace set.
pub open spec fn is_space(c: char) -> bool {
    c == ' ' || c == '\t' || c == '\n' || c == '\r' || c == '\u{000B}' || c == '\u{000C}'
}

/// The whitespace-separated tokens of `s`, in order.
///
/// Appending a whitespace character leaves the tokens unchanged; appending a
/// non-whitespace character either extends the last token (when the previous
/// character was part of it) or starts a new one.
pub open spec fn split_whitespace_of(s: Seq<char>) -> Seq<Seq<char>>
    decreases s.len(),
{
    if s.len() == 0 {
        Seq::empty()
    } else {
        let rest = split_whitespace_of(s.drop_last());
        let c = s.last();
        if is_space(c) {
            rest
        } else if s.len() >= 2 && !is_space(s[s.len() - 2]) {
            rest.update(rest.len() - 1, rest.last().push(c))
        } else {
            rest.push(seq![c])
        }
    }
}

/// A whitespace-free, non-empty run of characters: what splitting on
/// whitespace produces and joining with spaces consumes.
pub open spec fn is_token(t: Seq<char>) -> bool {
    &&& t.len() > 0
    &&& forall|i: int| 0 <= i < t.len() ==> !is_space(t[i])
}

/// Every element of `ts` is a token.
pub open spec fn all_tokens(ts: Seq<Seq<char>>) -> bool {
    forall|i: int| 0 <= i < ts.len() ==> is_token(#[trigger] ts[i])
}

/// The elements of `ts` joined with a single space between neighbours.
pub open spec fn joined_with_spaces(ts: Seq<Seq<char>>) -> Seq<char>
    decreases ts.len(),
{
    if ts.len() == 0 {
        Seq::empty()
    } else if ts.len() == 1 {
        ts[0]
    } else {
        joined_with_spaces(ts.drop_last()) + seq![' '] + ts.last()
    }
}

/// The segments of `s` delimited by `sep`: always one more segment than
/// there are separators, so the result is never empty.
pub open spec fn split_on(s: Seq<char>, sep: char) -> Seq<Seq<char>>
    decreases s.len(),
{
    if s.len() == 0 {
        seq![Seq::<char>::empty()]
    } else {
        let rest = split_on(s.drop_last(), sep);
        if s.last() == sep {
            rest.push(Seq::empty())
        } else {
            rest.update(rest.len() - 1, rest.last().push(s.last()))
        }
    }
}

/// The segments of `s` with `sep` read as a terminator: as `split_on`, but
/// an empty sequence has no segments, and a final terminator closes the last
/// segment instead of opening an empty one.
pub open spec fn split_terminator_of(s: Seq<char>, sep: char) -> Seq<Seq<char>> {
    if s.len() == 0 {
        Seq::empty()
    } else if s.last() == sep {
        split_on(s.drop_last(), sep)
    } else {
        split_on(s, sep)
    }
}

/// `s` without its leading whitespace.
pub open spec fn trimmed_start(s: Seq<char>) -> Seq<char>
    decreases s.len(),
{
    if s.len() > 0 && is_space(s[0]) {
        trimmed_start(s.drop_first())
    } else {
        s
    }
}

/// `s` without its trailing whitespace.
pub open spec fn trimmed_end(s: Seq<char>) -> Seq<char>
    decreases s.len(),
{
    if s.len() > 0 && is_space(s.last()) {
        trimmed_end(s.drop_last())
    } else {
        s
    }
}

/// `s` without its leading and trailing whitespace.
pub open spec fn trimmed(s: Seq<char>) -> Seq<char> {
    trimmed_start(trimmed_end(s))
}

/// The concatenation of the trimmed elements of `lines`, with nothing
/// between them.
pub open spec fn concat_trimmed(lines: Seq<Seq<char>>) -> Seq<char>
    decreases lines.len(),
{
    if lines.len() == 0 {
        Seq::empty()
    } else {
        concat_trimmed(lines.drop_last()) + trimmed(lines.last())
    }
}

/// The normal form of an embedded resource: each line trimmed, and the
/// lines concatenated with no separator, so line breaks collapse away.
pub open spec fn normalized(s: Seq<char>) -> Seq<char> {
    concat_trimmed(split_on(s, '\n'))
}

/// `s` repeated `n` times with nothing between the copies.
pub open spec fn repeated(s: Seq<char>, n: nat) -> Seq<char>
    decreases n,
{
    if n == 0 {
        Seq::empty()
    } else {
        repeated(s, (n - 1) as nat) + s
    }
}

/// How many times `c` occurs in `s`.
pub open spec fn occurrences(s: Seq<char>, c: char) -> nat
    decreases s.len(),
{
    if s.len() == 0 {
        0
    } else {
        occurrences(s.drop_last(), c) + if s.last() == c { 1nat } else { 0nat }
    }
}

/// The first `n` elements of an endless cyclic walk over `ts`.
pub open spec fn cycled(ts: Seq<Seq<char>>, n: nat) -> Seq<Seq<char>> {
    Seq::new(n, |i: int| ts[i % (ts.len() as int)])
}

/// Splitting on a separator always yields at least one segment.
pub proof fn lemma_split_on_nonempty(s: Seq<char>, sep: char)
    ensures
        split_on(s, sep).len() >= 1,
    decreases s.len(),
{
    if s.len() > 0 {
        lemma_split_on_nonempty(s.drop_last(), sep);
    }
}

/// When `s` does not end with the separator, the last segment of the split
/// is non-empty and ends with the last character of `s`.
pub proof fn lemma_split_on_last_open(s: Seq<char>, sep: char)
    requires
        s.len() > 0,
        s.last() != sep,
    ensures
        split_on(s, sep).last().len() > 0,
        split_on(s, sep).last().last() == s.last(),
    decreases s.len(),
{
    lemma_split_on_nonempty(s.drop_last(), sep);
}

/// Trimming the end of a sequence that ends in a non-space leaves it as is.
pub proof fn lemma_trimmed_end_nonspace(s: Seq<char>)
    requires
        s.len() > 0,
        !is_space(s.last()),
    ensures
        trimmed_end(s) == s,
{
}

/// Trimming the start keeps the final character when it is not a space.
pub proof fn lemma_trimmed_start_keeps_last(s: Seq<char>)
    requires
        s.len() > 0,
        !is_space(s.last()),
    ensures
        trimmed_start(s).len() > 0,
        trimmed_start(s).last() == s.last(),
    decreases s.len(),
{
    if is_space(s[0]) {
        assert(s.drop_first().last() == s.last());
        lemma_trimmed_start_keeps_last(s.drop_first());
    }
}

/// Trimming keeps the final character when it is not a space.
pub proof fn lemma_trimmed_keeps_last(s: Seq<char>)
    requires
        s.len() > 0,
        !is_space(s.last()),
    ensures
        trimmed(s).len() > 0,
        trimmed(s).last() == s.last(),
{
    lemma_trimmed_end_nonspace(s);
    lemma_trimmed_start_keeps_last(s);
}

/// A trailing space does not change the whitespace split.
pub proof fn lemma_split_ws_trailing_space(x: Seq<char>)
    ensures
        split_whitespace_of(x + seq![' ']) == split_whitespace_of(x),
{
    assert((x + seq![' ']).drop_last() =~= x);
    assert((x + seq![' ']).last() == ' ');
}

/// A character cannot occur more often than the sequence is long.
pub proof fn lemma_occurrences_le_len(s: Seq<char>, c: char)
    ensures
        occurrences(s, c) <= s.len(),
    decreases s.len(),
{
    if s.len() > 0 {
        lemma_occurrences_le_len(s.drop_last(), c);
    }
}

/// Splitting on a separator yields one more segment than there are
/// occurrences of the separator.
pub proof fn lemma_split_on_count(s: Seq<char>, sep: char)
    ensures
        split_on(s, sep).len() == 1 + occurrences(s, sep),
    decreases s.len(),
{
    if s.len() > 0 {
        lemma_split_on_count(s.drop_last(), sep);
    }
}

/// The length of a repetition is the repeated length.
pub proof fn lemma_repeated_len(s: Seq<char>, n: nat)
    ensures
        repeated(s, n).len() == n * s.len(),
    decreases n,
{
    if n == 0 {
        assert(repeated(s, n).len() == 0);
        assert(n * s.len() == 0) by (nonlinear_arith)
            requires n == 0;
    } else {
        lemma_repeated_len(s, (n - 1) as nat);
        assert(repeated(s, n) == repeated(s, (n - 1) as nat) + s);
        assert(((n - 1) as nat) * s.len() + s.len() == n * s.len()) by (nonlinear_arith)
            requires n > 0;
    }
}

/// A non-trivial repetition of a non-empty sequence ends as the sequence
/// does.
pub proof fn lemma_repeated_last(s: Seq<char>, n: nat)
    requires
        n > 0,
        s.len() > 0,
    ensures
        repeated(s, n).len() > 0,
        repeated(s, n).last() == s.last(),
{
}

/// Trimming the end removes exactly the whitespace suffix: when everything
/// from `b` on is whitespace and the character before `b` is not, the
/// result is the prefix up to `b`.
pub proof fn lemma_trimmed_end_range(s: Seq<char>, b: int)
    requires
        0 <= b <= s.len(),
        forall|i: int| b <= i < s.len() ==> is_space(s[i]),
        b == 0 || !is_space(s[b - 1]),
    ensures
        trimmed_end(s) == s.take(b),
    decreases s.len(),
{
    if s.len() == 0 {
        assert(s.take(b) =~= s);
    } else if b == s.len() {
        assert(s.take(b) =~= s);
    } else {
        lemma_trimmed_end_range(s.drop_last(), b);
        assert(s.drop_last().take(b) =~= s.take(b));
    }
}

/// Trimming the start removes exactly the whitespace prefix: when
/// everything before `a` is whitespace and the character at `a` is not, the
/// result is the suffix from `a` on.
pub proof fn lemma_trimmed_start_range(s: Seq<char>, a: int)
    requires
        0 <= a <= s.len(),
        forall|i: int| 0 <= i < a ==> is_space(s[i]),
        a == s.len() || !is_space(s[a]),
    ensures
        trimmed_start(s) == s.skip(a),
    decreases s.len(),
{
    if a == 0 {
        assert(s.skip(0) =~= s);
    } else {
        lemma_trimmed_start_range(s.drop_first(), a - 1);
        assert(s.drop_first().skip(a - 1) =~= s.skip(a));
    }
}

/// When `s` ends with a non-space, the whitespace split ends with a
/// non-empty token whose last character is the last character of `s`.
pub proof fn lemma_split_ws_last_open(s: Seq<char>)
    requires
        s.len() > 0,
        !is_space(s.last()),
    ensures
        split_whitespace_of(s).len() > 0,
        split_whitespace_of(s).last().len() > 0,
        split_whitespace_of(s).last().last() == s.last(),
    decreases s.len(),
{
    if s.len() >= 2 && !is_space(s[s.len() - 2]) {
        assert(s.drop_last().last() == s[s.len() - 2]);
        lemma_split_ws_last_open(s.drop_last());
    }
}

/// Every element of a whitespace split is a non-empty, whitespace-free
/// token.
pub proof fn lemma_split_ws_all_tokens(s: Seq<char>)
    ensures
        all_tokens(split_whitespace_of(s)),
    decreases s.len(),
{
    if s.len() > 0 {
        lemma_split_ws_all_tokens(s.drop_last());
        let rest = split_whitespace_of(s.drop_last());
        let c = s.last();
        let result = split_whitespace_of(s);
        if is_space(c) {
        } else if s.len() >= 2 && !is_space(s[s.len() - 2]) {
            assert(s.drop_last().last() == s[s.len() - 2]);
            lemma_split_ws_last_open(s.drop_last());
            let tok = rest.last().push(c);
            assert(is_token(tok)) by {
                assert(forall|i: int|
                    0 <= i < tok.len() - 1 ==> tok[i] == rest.last()[i]);
            }
            assert(forall|i: int| 0 <= i < result.len() ==> is_token(#[trigger] result[i])) by {
                assert(forall|i: int|
                    0 <= i < result.len() - 1 ==> result[i] == rest[i]);
            }
        } else {
            assert(is_token(seq![c]));
            assert(forall|i: int| 0 <= i < result.len() ==> is_token(#[trigger] result[i])) by {
                assert(forall|i: int|
                    0 <= i < result.len() - 1 ==> result[i] == rest[i]);
            }
        }
    }
}

/// A join of tokens whose last token is non-empty ends with that token's
/// last character.
pub proof fn lemma_joined_last(ts: Seq<Seq<char>>)
    requires
        ts.len() > 0,
        ts.last().len() > 0,
    ensures
        joined_with_spaces(ts).len() > 0,
        joined_with_spaces(ts).last() == ts.last().last(),
{
    if ts.len() == 1 {
        assert(joined_with_spaces(ts) == ts[0]);
    } else {
        assert((joined_with_spaces(ts.drop_last()) + seq![' '] + ts.last()).last()
            == ts.last().last());
    }
}

/// A single token splits to the one-element sequence holding it.
pub proof fn lemma_split_ws_single_token(w: Seq<char>)
    requires
        is_token(w),
    ensures
        split_whitespace_of(w) == seq![w],
    decreases w.len(),
{
    if w.len() == 1 {
        assert(w.drop_last().len() == 0);
        assert(split_whitespace_of(w.drop_last()) == Seq::<Seq<char>>::empty());
        assert(seq![w.last()] =~= w);
        assert(split_whitespace_of(w) =~~= seq![w]);
    } else {
        assert(is_token(w.drop_last())) by {
            assert(forall|i: int|
                0 <= i < w.len() - 1 ==> w.drop_last()[i] == w[i]);
        }
        lemma_split_ws_single_token(w.drop_last());
        assert(w.drop_last().last() == w[w.len() - 2]);
        assert(!is_space(w[w.len() - 2]));
        assert(w.drop_last().push(w.last()) =~= w);
        assert(split_whitespace_of(w) =~~= seq![w]);
    }
}

/// Appending a space and then a token to any sequence appends exactly that
/// token to its whitespace split.
pub proof fn lemma_split_ws_append_token(x: Seq<char>, w: Seq<char>)
    requires
        is_token(w),
    ensures
        split_whitespace_of(x + seq![' '] + w) == split_whitespace_of(x).push(w),
    decreases w.len(),
{
    let s = x + seq![' '] + w;
    if w.len() == 1 {
        assert(s.drop_last() =~= x + seq![' ']);
        lemma_split_ws_trailing_space(x);
        assert(s.last() == w[0]);
        assert(s[s.len() - 2] == ' ');
        assert(seq![s.last()] =~= w);
        assert(split_whitespace_of(s) =~~= split_whitespace_of(x).push(w));
    } else {
        assert(is_token(w.drop_last())) by {
            assert(forall|i: int|
                0 <= i < w.len() - 1 ==> w.drop_last()[i] == w[i]);
        }
        lemma_split_ws_append_token(x, w.drop_last());
        assert(s.drop_last() =~= x + seq![' '] + w.drop_last());
        assert(s.last() == w.last());
        assert(s[s.len() - 2] == w[w.len() - 2]);
        let rest = split_whitespace_of(x).push(w.drop_last());
        assert(rest.last() == w.drop_last());
        assert(rest.last().push(s.last()) =~= w);
        assert(rest.update(rest.len() - 1, w) =~~= split_whitespace_of(x).push(w));
        assert(split_whitespace_of(s) =~~= split_whitespace_of(x).push(w));
    }
}

/// Splitting the space-joined form of a sequence of tokens yields the
/// tokens back: joining and splitting are inverse on token sequences.
pub proof fn lemma_split_join_roundtrip(ts: Seq<Seq<char>>)
    requires
        all_tokens(ts),
    ensures
        split_whitespace_of(joined_with_spaces(ts)) == ts,
    decreases ts.len(),
{
    if ts.len() == 0 {
        assert(split_whitespace_of(joined_with_spaces(ts)) =~~= ts);
    } else if ts.len() == 1 {
        lemma_split_ws_single_token(ts[0]);
        assert(seq![ts[0]] =~~= ts);
    } else {
        assert(all_tokens(ts.drop_last())) by {
            assert(forall|i: int|
                0 <= i < ts.len() - 1 ==> ts.drop_last()[i] == ts[i]);
        }
        lemma_split_join_roundtrip(ts.drop_last());
        lemma_split_ws_append_token(joined_with_spaces(ts.drop_last()), ts.last());
        assert(ts.drop_last().push(ts.last()) =~~= ts);
    }
}

/// Splitting on a separator distributes over concatenation at a separator.
pub proof fn lemma_split_on_append(x: Seq<char>, y: Seq<char>, sep: char)
    ensures
        split_on(x + seq![sep] + y, sep) == split_on(x, sep) + split_on(y, sep),
    decreases y.len(),
{
    let s = x + seq![sep] + y;
    if y.len() == 0 {
        assert(s.drop_last() =~= x);
        assert(s.last() == sep);
        assert(split_on(x, sep).push(Seq::<char>::empty())
            =~~= split_on(x, sep) + split_on(y, sep));
    } else {
        lemma_split_on_append(x, y.drop_last(), sep);
        assert(s.drop_last() =~= x + seq![sep] + y.drop_last());
        assert(s.last() == y.last());
        let a = split_on(x, sep);
        let b = split_on(y.drop_last(), sep);
        lemma_split_on_nonempty(y.drop_last(), sep);
        if y.last() == sep {
            assert((a + b).push(Seq::<char>::empty())
                =~~= a + b.push(Seq::<char>::empty()));
            assert(split_on(s, sep) =~~= a + split_on(y, sep));
        } else {
            assert((a + b).last() == b.last());
            assert((a + b).update((a + b).len() - 1, b.last().push(y.last()))
                =~~= a + b.update(b.len() - 1, b.last().push(y.last())));
            assert(split_on(s, sep) =~~= a + split_on(y, sep));
        }
    }
}

/// Repeating a sequence that ends with the terminator multiplies the number
/// of terminator-delimited segments by the repetition count.
pub proof fn lemma_split_terminator_repeated(p: Seq<char>, sep: char, n: nat)
    requires
        p.len() > 0,
        p.last() == sep,
    ensures
        split_terminator_of(repeated(p, n), sep).len()
            == n * split_terminator_of(p, sep).len(),
    decreases n,
{
    let c = split_terminator_of(p, sep).len();
    if n == 0 {
        assert(n * c == 0) by (nonlinear_arith)
            requires n == 0;
    } else if n == 1 {
        assert(repeated(p, 0) == Seq::<char>::empty());
        assert(repeated(p, 1) =~= p);
        assert(1 * c == c) by (nonlinear_arith);
    } else {
        lemma_split_terminator_repeated(p, sep, (n - 1) as nat);
        let r = repeated(p, (n - 1) as nat);
        lemma_repeated_last(p, (n - 1) as nat);
        assert(repeated(p, n) == r + p);
        assert((r + p).last() == sep);
        assert((r + p).drop_last() =~= r.drop_last() + seq![sep] + p.drop_last());
        lemma_split_on_append(r.drop_last(), p.drop_last(), sep);
        assert(split_terminator_of(r, sep) == split_on(r.drop_last(), sep));
        assert(split_terminator_of(repeated(p, n), sep).len()
            == ((n - 1) as nat) * c + c);
        assert(((n - 1) as nat) * c + c == n * c) by (nonlinear_arith)
            requires n > 0;
    }
}

} // verus!
