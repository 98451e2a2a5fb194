//! General properties of a lookup, stated over the model and proved
//! once for all dictionaries and terms.

use vstd::prelude::*;

use crate::model::{
    block_lines, body_start, collect_words, dedup_adj, first_match_from, is_marker,
    lemma_block_words, lemma_dedup_adj_sorted, lemma_first_match_props, lemma_scan_to_props,
    lemma_sort_desc_sorted, line_words, match_at, newline_term, next_line, no_adjacent_dups,
    scan_to, sort_desc, sorted_desc, spec_find_synonyms, synonyms_at, words_of,
};

verus! {

/// A term absent from the dictionary has an empty synonym list: if a
/// newline followed by `term` occurs nowhere in `text`, the lookup
/// returns no words (and so the longest synonym is absent as well).
pub proof fn lemma_absent_term(text: Seq<char>, term: Seq<char>)
    requires
        forall|i: int| !match_at(text, newline_term(term), i),
    ensures
        spec_find_synonyms(text, term) == Seq::<Seq<char>>::empty(),
{
    lemma_first_match_props(text, newline_term(term), 0);
}

/// An entry with a single body line yields exactly that line's words,
/// sorted longest first with adjacent duplicates removed.
pub proof fn lemma_single_line_entry(text: Seq<char>, term: Seq<char>, pos: int)
    requires
        first_match_from(text, newline_term(term), 0) == Some(pos),
        ({
            let b = body_start(text, pos);
            &&& 0 <= b < text.len()
            &&& is_marker(text[b])
            &&& !(next_line(text, b) < text.len() && is_marker(text[next_line(text, b)]))
        }),
    ensures
        ({
            let b = body_start(text, pos);
            let line = text.subrange(b, scan_to(text, b, '\n'));
            spec_find_synonyms(text, term) == dedup_adj(sort_desc(line_words(line)))
        }),
{
    let b = body_start(text, pos);
    let e = scan_to(text, b, '\n');
    lemma_scan_to_props(text, b, '\n');
    assert(collect_words(text, next_line(text, b)) =~= Seq::<Seq<char>>::empty());
    assert(collect_words(text, b) =~= line_words(text.subrange(b, e)));
}

/// An entry spanning several body lines merges all their words, in
/// order, before sorting: the collected words of the block are the
/// concatenation of each line's words.
pub proof fn lemma_entry_merges_lines(text: Seq<char>, term: Seq<char>, pos: int)
    requires
        first_match_from(text, newline_term(term), 0) == Some(pos),
    ensures
        spec_find_synonyms(text, term) == dedup_adj(
            sort_desc(words_of(block_lines(text, body_start(text, pos)))),
        ),
{
    lemma_block_words(text, body_start(text, pos));
}

/// Looking a term up twice in the same text gives the same ordered
/// result: the outcome is a function of the text and the term alone.
pub proof fn lemma_lookup_deterministic(
    text: Seq<char>,
    term: Seq<char>,
    r1: Seq<Seq<char>>,
    r2: Seq<Seq<char>>,
)
    requires
        r1 == spec_find_synonyms(text, term),
        r2 == spec_find_synonyms(text, term),
    ensures
        r1 == r2,
{
}

/// Whatever the dictionary holds, the result is sorted by descending
/// character length and no two neighbouring words are equal.
pub proof fn lemma_result_shape(text: Seq<char>, term: Seq<char>)
    ensures
        sorted_desc(spec_find_synonyms(text, term)),
        no_adjacent_dups(spec_find_synonyms(text, term)),
{
    let fm = first_match_from(text, newline_term(term), 0);
    if fm is Some {
        let pos = fm->0;
        let raw = collect_words(text, body_start(text, pos));
        lemma_sort_desc_sorted(raw);
        lemma_dedup_adj_sorted(sort_desc(raw));
        assert(spec_find_synonyms(text, term) == synonyms_at(text, pos));
    }
}

} // verus!
