//! Properties of the generator that hold for every request, stated once
//! over the same spec functions the accessors' contracts use.

use vstd::prelude::*;

use crate::lorem::lemma_source_shape;
use crate::lorem::paragraph_text;
use crate::lorem::source_text;
use crate::lorem::source_words;
use crate::text::cycled;
use crate::text::lemma_split_terminator_repeated;
use crate::text::repeated;
use crate::text::split_terminator_of;

verus! {

/// A word request is filled exactly: for every `n`, the cyclic word
/// selection that `Lorem::words` both returns and splits back into holds
/// exactly `n` tokens.
pub proof fn lemma_words_token_count(n: nat)
    ensures
        cycled(source_words(), n).len() == n,
{
}

/// Repetition multiplies sentences: for every `n`, the text that
/// `Lorem::paragraphs` returns for a request of `n` splits into exactly
/// `n` times the sentence count of the base paragraph.
pub proof fn lemma_paragraphs_segment_count(n: nat)
    ensures
        split_terminator_of(repeated(paragraph_text(), n), '.').len()
            == n * split_terminator_of(paragraph_text(), '.').len(),
{
    lemma_source_shape();
    lemma_split_terminator_repeated(paragraph_text(), '.', n);
}

/// Loading is idempotent: any two texts that `read_lorem` hands back are
/// identical, since each equals the one source text.
pub proof fn lemma_load_idempotent(first: Seq<char>, second: Seq<char>)
    requires
        first == source_text(),
        second == source_text(),
    ensures
        first == second,
{
}

} // verus!
