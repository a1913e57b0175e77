//! The lorem-ipsum generator: the embedded passage, its loader, and the
//! `Lorem` accessors that slice it by characters, words, or paragraphs.

use vstd::prelude::*;

use crate::text::all_tokens;
use crate::text::concat_trimmed;
use crate::text::cycled;
use crate::text::is_space;
use crate::text::is_token;
use crate::text::joined_with_spaces;
use crate::text::lemma_joined_last;
use crate::text::lemma_occurrences_le_len;
use crate::text::lemma_repeated_len;
use crate::text::lemma_split_join_roundtrip;
use crate::text::lemma_split_on_count;
use crate::text::lemma_split_on_last_open;
use crate::text::lemma_split_on_nonempty;
use crate::text::lemma_split_ws_all_tokens;
use crate::text::lemma_split_ws_last_open;
use crate::text::lemma_trimmed_end_range;
use crate::text::lemma_trimmed_keeps_last;
use crate::text::lemma_trimmed_start_range;
use crate::text::normalized;
use crate::text::occurrences;
use crate::text::repeated;
use crate::text::split_on;
use crate::text::split_terminator_of;
use crate::text::split_whitespace_of;
use crate::text::trimmed;

verus! {

/// The embedded resource: the canonical lorem-ipsum passage, wrapped over
/// six lines. The line breaks are cosmetic; loading collapses them away.
pub open spec fn raw_view() -> Seq<char> {
    "Lorem ipsum dolor sit amet, consectetur adipiscing elit, sed do eiusmod tempor\nincididunt ut labore et dolore magna aliqua. Ut enim ad minim veniam, quis\nnostrud exercitation ullamco laboris nisi ut aliquip ex ea commodo consequat.\nDuis aute irure dolor in reprehenderit in voluptate velit esse cillum dolore eu\nfugiat nulla pariatur. Excepteur sint occaecat cupidatat non proident, sunt in\nculpa qui officia deserunt mollit anim id est laborum."@
}

/// The embedded resource as an executable string slice.
fn raw_text() -> (s: &'static str)
    ensures
        s@ == raw_view(),
{
    "Lorem ipsum dolor sit amet, consectetur adipiscing elit, sed do eiusmod tempor\nincididunt ut labore et dolore magna aliqua. Ut enim ad minim veniam, quis\nnostrud exercitation ullamco laboris nisi ut aliquip ex ea commodo consequat.\nDuis aute irure dolor in reprehenderit in voluptate velit esse cillum dolore eu\nfugiat nulla pariatur. Excepteur sint occaecat cupidatat non proident, sunt in\nculpa qui officia deserunt mollit anim id est laborum."
}

/// The source text: the embedded resource with each line trimmed and the
/// lines concatenated, so that its formatting collapses away.
pub open spec fn source_text() -> Seq<char> {
    normalized(raw_view())
}

/// The whitespace-separated words of the source text, in order.
pub open spec fn source_words() -> Seq<Seq<char>> {
    split_whitespace_of(source_text())
}

/// The base paragraph: the words of the source text joined by single
/// spaces.
pub open spec fn paragraph_text() -> Seq<char> {
    joined_with_spaces(source_words())
}

/// The embedded passage is well formed: it is non-empty, it ends with the
/// sentence terminator, and it holds at least one word, so the counts the
/// accessors divide by are never zero.
pub proof fn lemma_source_shape()
    ensures
        source_text().len() > 0,
        source_text().last() == '.',
        source_words().len() > 0,
        all_tokens(source_words()),
        source_words().last().len() > 0,
        source_words().last().last() == '.',
        paragraph_text().len() > 0,
        paragraph_text().last() == '.',
{
    reveal_strlit("Lorem ipsum dolor sit amet, consectetur adipiscing elit, sed do eiusmod tempor\nincididunt ut labore et dolore magna aliqua. Ut enim ad minim veniam, quis\nnostrud exercitation ullamco laboris nisi ut aliquip ex ea commodo consequat.\nDuis aute irure dolor in reprehenderit in voluptate velit esse cillum dolore eu\nfugiat nulla pariatur. Excepteur sint occaecat cupidatat non proident, sunt in\nculpa qui officia deserunt mollit anim id est laborum.");
    let raw = raw_view();
    assert(raw.len() == 445);
    assert(raw.last() == '.');
    let lines = split_on(raw, '\n');
    lemma_split_on_nonempty(raw, '\n');
    lemma_split_on_last_open(raw, '\n');
    lemma_trimmed_keeps_last(lines.last());
    assert(concat_trimmed(lines)
        == concat_trimmed(lines.drop_last()) + trimmed(lines.last()));
    assert(source_text().last() == '.');
    assert(!is_space('.'));
    lemma_split_ws_last_open(source_text());
    lemma_split_ws_all_tokens(source_text());
    lemma_joined_last(source_words());
}

/// The ways loading can fail.
///
/// With the resource embedded in the crate neither failure can occur, and
/// the loader's contract promises success; the type remains so that callers
/// of the loading functions see where a failure would surface.
#[derive(Clone, Copy, Debug, PartialEq, Eq)]
pub enum LoremError {
    /// The embedded resource could not be read or decoded.
    ResourceLoad,
    /// The loaded resource holds no characters, no words, or no sentence
    /// terminator, leaving the wrap-around arithmetic ill-defined.
    Precondition,
}

/// Decides `is_space` executably.
fn is_space_exec(c: char) -> (b: bool)
    ensures
        b == is_space(c),
{
    c == ' ' || c == '\t' || c == '\n' || c == '\r' || c == '\u{000B}' || c == '\u{000C}'
}

/// Removes leading and trailing whitespace from a string slice.
fn trimmed_exec(s: &str) -> (r: String)
    ensures
        r@ == trimmed(s@),
{
    let n: usize = s.unicode_len();
    let mut b: usize = n;
    while b > 0 && is_space_exec(s.get_char(b - 1))
        invariant
            b <= n,
            n == s@.len(),
            forall|i: int| b <= i < n ==> is_space(s@[i]),
        decreases b,
    {
        b = b - 1;
    }
    let mut a: usize = 0;
    while a < b && is_space_exec(s.get_char(a))
        invariant
            a <= b <= n,
            n == s@.len(),
            forall|i: int| 0 <= i < a ==> is_space(s@[i]),
        decreases b - a,
    {
        a = a + 1;
    }
    let sub = s.substring_char(a, b);
    proof {
        lemma_trimmed_end_range(s@, b as int);
        lemma_trimmed_start_range(s@.take(b as int), a as int);
        assert(s@.take(b as int).skip(a as int) =~= s@.subrange(a as int, b as int));
    }
    String::from_str(sub)
}

/// Loads the source text: each line of the embedded resource is trimmed
/// and the lines are concatenated, so the resource's formatting is
/// cosmetic only. Loading always succeeds and always yields the same text.
pub fn read_lorem() -> (r: Result<String, LoremError>)
    ensures
        r matches Ok(s) && s@ == source_text(),
{
    let raw: &str = raw_text();
    let n: usize = raw.unicode_len();
    let mut out: String = String::new();
    let mut cur: String = String::new();
    let ghost mut done: Seq<Seq<char>> = Seq::empty();
    let mut i: usize = 0;
    proof {
        assert(raw@.take(0) =~= Seq::<char>::empty());
        assert(split_on(raw@.take(0), '\n')
            =~~= Seq::<Seq<char>>::empty().push(Seq::<char>::empty()));
    }
    while i < n
        invariant
            i <= n,
            n == raw@.len(),
            raw@ == raw_view(),
            split_on(raw@.take(i as int), '\n') == done.push(cur@),
            out@ == concat_trimmed(done),
        decreases n - i,
    {
        let c: char = raw.get_char(i);
        proof {
            assert(raw@.take(i + 1).drop_last() =~= raw@.take(i as int));
            assert(raw@.take(i + 1).last() == raw@[i as int]);
        }
        if c == '\n' {
            let t = trimmed_exec(cur.as_str());
            out.append(t.as_str());
            proof {
                assert(split_on(raw@.take(i + 1), '\n')
                    =~~= done.push(cur@).push(Seq::<char>::empty()));
                let done2 = done.push(cur@);
                assert(done2.drop_last() =~= done);
                assert(concat_trimmed(done2) == concat_trimmed(done) + trimmed(cur@));
                done = done2;
            }
            cur = String::new();
        } else {
            proof {
                let opened = done.push(cur@);
                assert(opened.last() == cur@);
                assert(split_on(raw@.take(i + 1), '\n')
                    =~~= done.push(cur@.push(raw@[i as int])));
                assert(cur@ + raw@.subrange(i as int, i + 1)
                    =~= cur@.push(raw@[i as int]));
            }
            cur.append(raw.substring_char(i, i + 1));
        }
        i = i + 1;
    }
    let t = trimmed_exec(cur.as_str());
    out.append(t.as_str());
    proof {
        assert(raw@.take(n as int) =~= raw@);
        let done2 = done.push(cur@);
        assert(done2.drop_last() =~= done);
        assert(concat_trimmed(done2) == concat_trimmed(done) + trimmed(cur@));
    }
    Ok(out)
}

/// Splits a string slice into its whitespace-separated tokens.
fn split_whitespace_exec(s: &str) -> (tokens: Vec<String>)
    ensures
        tokens@.map_values(|t: String| t@) == split_whitespace_of(s@),
{
    let n: usize = s.unicode_len();
    let mut tokens: Vec<String> = Vec::new();
    let mut i: usize = 0;
    proof {
        assert(s@.take(0) =~= Seq::<char>::empty());
        assert(tokens@.map_values(|t: String| t@) =~~= split_whitespace_of(s@.take(0)));
    }
    while i < n
        invariant
            i <= n,
            n == s@.len(),
            tokens@.map_values(|t: String| t@) == split_whitespace_of(s@.take(i as int)),
        decreases n - i,
    {
        let c: char = s.get_char(i);
        proof {
            assert(s@.take(i + 1).drop_last() =~= s@.take(i as int));
            assert(s@.take(i + 1).last() == s@[i as int]);
        }
        let ghost prev = tokens@.map_values(|t: String| t@);
        if !is_space_exec(c) {
            if i > 0 && !is_space_exec(s.get_char(i - 1)) {
                proof {
                    assert(s@.take(i as int).last() == s@[i - 1]);
                    lemma_split_ws_last_open(s@.take(i as int));
                }
                let mut last_tok: String = tokens.pop().unwrap();
                last_tok.append(s.substring_char(i, i + 1));
                tokens.push(last_tok);
                proof {
                    assert(s@.take(i + 1)[i as int - 1] == s@[i - 1]);
                    assert(last_tok@ =~= prev.last().push(s@[i as int]));
                    assert(tokens@.map_values(|t: String| t@)
                        =~~= prev.update(prev.len() - 1, prev.last().push(s@[i as int])));
                }
            } else {
                let t: String = String::from_str(s.substring_char(i, i + 1));
                tokens.push(t);
                proof {
                    assert(t@ =~= seq![s@[i as int]]);
                    assert(tokens@.map_values(|t2: String| t2@)
                        =~~= prev.push(seq![s@[i as int]]));
                }
            }
        }
        i = i + 1;
    }
    proof {
        assert(s@.take(n as int) =~= s@);
    }
    tokens
}

/// Loads the source text and hands back its whitespace-separated words in
/// order. The call always succeeds.
pub fn run() -> (r: Result<Vec<String>, LoremError>)
    ensures
        r matches Ok(words) && words@.map_values(|w: String| w@) == source_words(),
{
    let text: String = match read_lorem() {
        Ok(t) => t,
        Err(e) => {
            return Err(e);
        },
    };
    let words: Vec<String> = split_whitespace_exec(text.as_str());
    Ok(words)
}

/// A lightweight value object holding one copy of the base paragraph,
/// from which the accessors slice characters, words, and paragraphs.
#[derive(Clone, Debug)]
pub struct Lorem {
    /// The base lorem ipsum paragraph: the words of the source text joined
    /// by single spaces.
    pub paragraph: String,
}

impl Default for Lorem {
    /// Equivalent to [`Lorem::new`].
    fn default() -> (d: Self)
        ensures
            d.paragraph@ == paragraph_text(),
    {
        Self::new()
    }
}

impl Lorem {
    /// Builds the base paragraph: the words of the source text joined by
    /// single spaces.
    fn create_new() -> (r: String)
        ensures
            r@ == paragraph_text(),
    {
        let words: Vec<String> = run().expect("Failed to get lorem ipsum words");
        let ghost ws = source_words();
        let mut buf: String = String::new();
        let mut k: usize = 0;
        proof {
            assert(ws.take(0) =~= Seq::<Seq<char>>::empty());
        }
        while k < words.len()
            invariant
                k <= words.len(),
                words@.map_values(|w: String| w@) == ws,
                ws == source_words(),
                buf@ == joined_with_spaces(ws.take(k as int)),
            decreases words.len() - k,
        {
            proof {
                assert(ws.take(k + 1).drop_last() =~= ws.take(k as int));
                assert(ws.take(k + 1).last() == ws[k as int]);
            }
            if k > 0 {
                proof {
                    reveal_strlit(" ");
                    assert(" "@ =~= seq![' ']);
                }
                buf.append(" ");
            }
            buf.append(words[k].as_str());
            k = k + 1;
        }
        proof {
            assert(ws.take(words@.len() as int) =~= ws);
        }
        buf
    }

    /// Creates a new [`Lorem`] holding the base paragraph.
    pub fn new() -> (l: Self)
        ensures
            l.paragraph@ == paragraph_text(),
    {
        Self {
            paragraph: Self::create_new(),
        }
    }

    /// True iff the held paragraph has no characters. Under normal
    /// operation the paragraph is never empty, so this is always false.
    pub fn is_empty(&self) -> (e: bool)
        ensures
            e == (self.paragraph@.len() == 0),
    {
        self.paragraph.as_str().unicode_len() == 0
    }

    /// The number of characters in the base paragraph.
    pub fn count_chars() -> (c: usize)
        ensures
            c == paragraph_text().len(),
    {
        Self::new().paragraph.as_str().unicode_len()
    }

    /// The number of whitespace-separated words in the base paragraph.
    pub fn count_words() -> (c: usize)
        ensures
            c == source_words().len(),
    {
        let l: Lorem = Self::new();
        let tokens: Vec<String> = split_whitespace_exec(l.paragraph.as_str());
        proof {
            lemma_source_shape();
            lemma_split_join_roundtrip(source_words());
        }
        tokens.len()
    }

    /// The number of terminator-delimited sentences in the base paragraph.
    pub fn count_paras() -> (c: usize)
        ensures
            c == split_terminator_of(paragraph_text(), '.').len(),
    {
        let l: Lorem = Self::new();
        let p: &str = l.paragraph.as_str();
        let n: usize = p.unicode_len();
        let mut dots: usize = 0;
        let mut i: usize = 0;
        proof {
            assert(p@.take(0) =~= Seq::<char>::empty());
        }
        while i < n
            invariant
                i <= n,
                n == p@.len(),
                dots <= i,
                dots == occurrences(p@.take(i as int), '.'),
            decreases n - i,
        {
            proof {
                assert(p@.take(i + 1).drop_last() =~= p@.take(i as int));
                assert(p@.take(i + 1).last() == p@[i as int]);
            }
            if p.get_char(i) == '.' {
                dots = dots + 1;
            }
            i = i + 1;
        }
        proof {
            assert(p@.take(n as int) =~= p@);
        }
        if n == 0 {
            0
        } else if p.get_char(n - 1) == '.' {
            proof {
                lemma_split_on_count(p@.drop_last(), '.');
            }
            dots
        } else {
            proof {
                lemma_split_on_count(p@, '.');
                lemma_occurrences_le_len(p@.drop_last(), '.');
            }
            dots + 1
        }
    }

    /// Returns characters of the base paragraph by the wrap policy: for a
    /// request of at most the paragraph's length, its first `count`
    /// characters; for a larger request, the paragraph once plus one
    /// further full copy for each unit of `count` modulo the length. The
    /// result of a wrapping request is therefore longer than `count`: the
    /// contract states the wrap policy itself, not a strict
    /// `count`-character guarantee, and callers must not assume the result
    /// length equals `count` once it wraps.
    pub fn chars(count: usize) -> (r: String)
        ensures
            count <= paragraph_text().len() ==> r@ == paragraph_text().take(count as int),
            count > paragraph_text().len() ==> r@ == repeated(
                paragraph_text(),
                (1 + (count as int) % (paragraph_text().len() as int)) as nat,
            ),
    {
        let count_max: usize = Self::count_chars();
        proof {
            lemma_source_shape();
        }
        if count <= count_max {
            let l: Lorem = Self::new();
            let sub: &str = l.paragraph.as_str().substring_char(0, count);
            let r: String = String::from_str(sub);
            proof {
                assert(l.paragraph@.subrange(0, count as int)
                    =~= paragraph_text().take(count as int));
            }
            r
        } else {
            let l: Lorem = Self::new();
            let copies: usize = 1 + count % count_max;
            let mut out: String = String::new();
            let mut j: usize = 0;
            proof {
                assert(repeated(paragraph_text(), 0) == Seq::<char>::empty());
            }
            while j < copies
                invariant
                    j <= copies,
                    l.paragraph@ == paragraph_text(),
                    out@ == repeated(paragraph_text(), j as nat),
                decreases copies - j,
            {
                out.append(l.paragraph.as_str());
                j = j + 1;
                proof {
                    assert(repeated(paragraph_text(), j as nat)
                        == repeated(paragraph_text(), (j - 1) as nat) + paragraph_text());
                }
            }
            out
        }
    }

    /// The base paragraph repeated `count` times with nothing between the
    /// copies.
    pub fn paragraphs(count: usize) -> (r: String)
        ensures
            r@ == repeated(paragraph_text(), count as nat),
            r@.len() == count * paragraph_text().len(),
    {
        proof {
            lemma_repeated_len(paragraph_text(), count as nat);
        }
        let l: Lorem = Self::new();
        let mut out: String = String::new();
        let mut j: usize = 0;
        proof {
            assert(repeated(paragraph_text(), 0) == Seq::<char>::empty());
        }
        while j < count
            invariant
                j <= count,
                l.paragraph@ == paragraph_text(),
                out@ == repeated(paragraph_text(), j as nat),
            decreases count - j,
        {
            out.append(l.paragraph.as_str());
            j = j + 1;
            proof {
                assert(repeated(paragraph_text(), j as nat)
                    == repeated(paragraph_text(), (j - 1) as nat) + paragraph_text());
            }
        }
        out
    }

    /// Exactly `count` words, the word at output position `i` being word
    /// `i` modulo the word count of the source, joined by single spaces:
    /// requests beyond the source's word count wrap around to its start.
    pub fn words(count: usize) -> (r: String)
        ensures
            r@ == joined_with_spaces(cycled(source_words(), count as nat)),
            split_whitespace_of(r@) == cycled(source_words(), count as nat),
    {
        proof {
            lemma_source_shape();
        }
        let l: Lorem = Self::new();
        let source: Vec<String> = split_whitespace_exec(l.paragraph.as_str());
        proof {
            lemma_split_join_roundtrip(source_words());
        }
        let len_words: usize = source.len();
        let ghost cyc = cycled(source_words(), count as nat);
        let mut buf: String = String::new();
        let mut k: usize = 0;
        proof {
            assert(cyc.take(0) =~= Seq::<Seq<char>>::empty());
        }
        while k < count
            invariant
                k <= count,
                source@.map_values(|w: String| w@) == source_words(),
                len_words == source@.len(),
                len_words == source_words().len(),
                len_words > 0,
                cyc == cycled(source_words(), count as nat),
                buf@ == joined_with_spaces(cyc.take(k as int)),
            decreases count - k,
        {
            proof {
                assert(cyc.take(k + 1).drop_last() =~= cyc.take(k as int));
                assert(cyc.take(k + 1).last() == cyc[k as int]);
            }
            if k > 0 {
                proof {
                    reveal_strlit(" ");
                    assert(" "@ =~= seq![' ']);
                }
                buf.append(" ");
            }
            let idx: usize = k % len_words;
            buf.append(source[idx].as_str());
            k = k + 1;
        }
        proof {
            assert(cyc.take(count as int) =~= cyc);
            assert(all_tokens(cyc)) by {
                assert(forall|i: int| 0 <= i < cyc.len() ==> is_token(#[trigger] cyc[i])) by {
                    assert(forall|i: int| 0 <= i < cyc.len()
                        ==> #[trigger] cyc[i]
                            == source_words()[i % (source_words().len() as int)]);
                }
            }
            lemma_split_join_roundtrip(cyc);
        }
        buf
    }
}

} // verus!
