//! Mathematical model of the thesaurus file format and of a lookup.
//!
//! The dictionary text is a sequence of characters.  An entry starts at a
//! newline followed by the headword; the header line is followed by body
//! lines whose first character is `-` or `(`.  Each body line is split on
//! `|`; the first field is a sense marker and is discarded, the remaining
//! fields are the synonym words.  The words of all body lines, in order,
//! are sorted by descending character length (stable) and then adjacent
//! duplicates are removed.

use vstd::prelude::*;

verus! {

/// Index of the first occurrence of `c` in `text` at or after `p`,
/// or `text.len()` if there is none.
pub open spec fn scan_to(text: Seq<char>, p: int, c: char) -> int
    decreases text.len() - p,
{
    if p < 0 || p >= text.len() {
        text.len() as int
    } else if text[p] == c {
        p
    } else {
        scan_to(text, p + 1, c)
    }
}

/// The pattern that locates an entry for `term`: a newline directly
/// followed by the headword.
pub open spec fn newline_term(term: Seq<char>) -> Seq<char> {
    seq!['\n'] + term
}

/// `pat` occurs in `text` starting at position `i`.
pub open spec fn match_at(text: Seq<char>, pat: Seq<char>, i: int) -> bool {
    &&& 0 <= i
    &&& i + pat.len() <= text.len()
    &&& text.subrange(i, i + pat.len()) == pat
}

/// Position of the first occurrence of `pat` in `text` at or after `p`,
/// or `None` if there is none.
pub open spec fn first_match_from(text: Seq<char>, pat: Seq<char>, p: int) -> Option<int>
    decreases text.len() + 1 - p,
{
    if p < 0 || p + pat.len() > text.len() {
        None
    } else if match_at(text, pat, p) {
        Some(p)
    } else {
        first_match_from(text, pat, p + 1)
    }
}

/// The fields of `s`, split on the separator `sep`.  There is always at
/// least one field; a separator at the end produces a trailing empty field.
pub open spec fn split_on(s: Seq<char>, sep: char) -> Seq<Seq<char>>
    decreases s.len(),
{
    let e = scan_to(s, 0, sep);
    if 0 <= e && e < s.len() {
        seq![s.subrange(0, e)] + split_on(s.subrange(e + 1, s.len() as int), sep)
    } else {
        seq![s]
    }
}

/// The synonym words of one body line: its `|`-separated fields with the
/// leading sense marker discarded.
pub open spec fn line_words(line: Seq<char>) -> Seq<Seq<char>> {
    split_on(line, '|').drop_first()
}

/// A character that opens a body line.
pub open spec fn is_marker(c: char) -> bool {
    c == '-' || c == '('
}

/// Start of the line after the one beginning at `p`, or `text.len()` if
/// the line at `p` is the last.
pub open spec fn next_line(text: Seq<char>, p: int) -> int {
    let e = scan_to(text, p, '\n');
    if e < text.len() {
        e + 1
    } else {
        text.len() as int
    }
}

/// The words of all consecutive body lines starting at `p`, in order.
/// Collection stops at the first line that does not open with a marker
/// (an empty line among them ends the block as well).
pub open spec fn collect_words(text: Seq<char>, p: int) -> Seq<Seq<char>>
    decreases text.len() - p,
{
    if 0 <= p && p < text.len() && is_marker(text[p]) {
        let e = scan_to(text, p, '\n');
        if p <= e && e <= text.len() {
            line_words(text.subrange(p, e)) + collect_words(text, next_line(text, p))
        } else {
            Seq::empty()
        }
    } else {
        Seq::empty()
    }
}

/// The consecutive body lines starting at `p`, as whole lines.
pub open spec fn block_lines(text: Seq<char>, p: int) -> Seq<Seq<char>>
    decreases text.len() - p,
{
    if 0 <= p && p < text.len() && is_marker(text[p]) {
        let e = scan_to(text, p, '\n');
        if p <= e && e <= text.len() {
            seq![text.subrange(p, e)] + block_lines(text, next_line(text, p))
        } else {
            Seq::empty()
        }
    } else {
        Seq::empty()
    }
}

/// The words of a sequence of body lines, merged in order.
pub open spec fn words_of(lines: Seq<Seq<char>>) -> Seq<Seq<char>>
    decreases lines.len(),
{
    if lines.len() == 0 {
        Seq::empty()
    } else {
        line_words(lines[0]) + words_of(lines.drop_first())
    }
}

/// Insert `w` into `s` (already sorted by descending length) directly
/// before the first element no longer than `w`, so that among words of
/// equal length the newly inserted one comes first.
pub open spec fn insert_desc(w: Seq<char>, s: Seq<Seq<char>>) -> Seq<Seq<char>>
    decreases s.len(),
{
    if s.len() == 0 {
        seq![w]
    } else if s[0].len() > w.len() {
        seq![s[0]] + insert_desc(w, s.drop_first())
    } else {
        seq![w] + s
    }
}

/// Stable sort by descending character length: each element is inserted
/// before those of equal length that followed it, so the original order
/// of equal-length words is preserved.
pub open spec fn sort_desc(s: Seq<Seq<char>>) -> Seq<Seq<char>>
    decreases s.len(),
{
    if s.len() == 0 {
        Seq::empty()
    } else {
        insert_desc(s[0], sort_desc(s.drop_first()))
    }
}

/// Remove adjacent duplicates, keeping one element of each run of equal
/// neighbours.
pub open spec fn dedup_adj(s: Seq<Seq<char>>) -> Seq<Seq<char>>
    decreases s.len(),
{
    if s.len() <= 1 {
        s
    } else if s[0] == s[1] {
        dedup_adj(s.drop_first())
    } else {
        seq![s[0]] + dedup_adj(s.drop_first())
    }
}

/// Start of the body block of the entry whose leading newline is at
/// `pos`: the line after the header line that begins at `pos + 1`.
pub open spec fn body_start(text: Seq<char>, pos: int) -> int {
    next_line(text, pos + 1)
}

/// The synonym list of the entry whose leading newline is at `pos`:
/// the words of its body block, sorted longest first, with adjacent
/// duplicates removed.
pub open spec fn synonyms_at(text: Seq<char>, pos: int) -> Seq<Seq<char>> {
    dedup_adj(sort_desc(collect_words(text, body_start(text, pos))))
}

/// The result of a lookup of `term` in `text`: the synonym list of the
/// first entry whose headword line matches, or empty if there is none.
pub open spec fn spec_find_synonyms(text: Seq<char>, term: Seq<char>) -> Seq<Seq<char>> {
    match first_match_from(text, newline_term(term), 0) {
        Some(pos) => synonyms_at(text, pos),
        None => Seq::empty(),
    }
}

/// `scan_to` lands between `p` and the end, sees no `c` on the way, and
/// stops on a `c` unless it reached the end.
pub proof fn lemma_scan_to_props(text: Seq<char>, p: int, c: char)
    requires
        0 <= p <= text.len(),
    ensures
        p <= scan_to(text, p, c) <= text.len(),
        forall|k: int| p <= k < scan_to(text, p, c) ==> text[k] != c,
        scan_to(text, p, c) < text.len() ==> text[scan_to(text, p, c)] == c,
    decreases text.len() - p,
{
    if p < text.len() && text[p] != c {
        lemma_scan_to_props(text, p + 1, c);
    }
}

/// Any position with the properties of `lemma_scan_to_props` is `scan_to`.
pub proof fn lemma_scan_to_unique(text: Seq<char>, p: int, c: char, r: int)
    requires
        0 <= p <= r <= text.len(),
        forall|k: int| p <= k < r ==> text[k] != c,
        r < text.len() ==> text[r] == c,
    ensures
        scan_to(text, p, c) == r,
    decreases r - p,
{
    if p < r {
        assert(text[p] != c);
        lemma_scan_to_unique(text, p + 1, c, r);
    }
}

/// Scanning the suffix that starts at `p` finds the same occurrence as
/// scanning the whole text from `p`.
pub proof fn lemma_scan_to_suffix(text: Seq<char>, p: int, c: char)
    requires
        0 <= p <= text.len(),
    ensures
        scan_to(text.subrange(p, text.len() as int), 0, c) == scan_to(text, p, c) - p,
{
    let r = scan_to(text, p, c);
    lemma_scan_to_props(text, p, c);
    let s = text.subrange(p, text.len() as int);
    assert(forall|k: int| 0 <= k < r - p ==> s[k] == text[p + k]);
    lemma_scan_to_unique(s, 0, c, r - p);
}

/// `first_match_from` returns the position of the first match at or
/// after `p`, and `None` exactly when there is none.
pub proof fn lemma_first_match_props(text: Seq<char>, pat: Seq<char>, p: int)
    requires
        0 <= p,
    ensures
        match first_match_from(text, pat, p) {
            Some(i) => {
                &&& p <= i
                &&& match_at(text, pat, i)
                &&& forall|j: int| p <= j < i ==> !match_at(text, pat, j)
            },
            None => forall|j: int| j >= p ==> !match_at(text, pat, j),
        },
    decreases text.len() + 1 - p,
{
    if p + pat.len() > text.len() {
        assert forall|j: int| j >= p implies !match_at(text, pat, j) by {
            assert(j + pat.len() > text.len());
        }
    } else if !match_at(text, pat, p) {
        lemma_first_match_props(text, pat, p + 1);
    }
}

/// Sorted by descending character length.
pub open spec fn sorted_desc(s: Seq<Seq<char>>) -> bool {
    forall|i: int, j: int| 0 <= i <= j < s.len() ==> s[i].len() >= s[j].len()
}

/// No two neighbouring elements are equal.
pub open spec fn no_adjacent_dups(s: Seq<Seq<char>>) -> bool {
    forall|i: int| 0 <= i < s.len() - 1 ==> #[trigger] s[i] != s[i + 1]
}

/// `insert_desc` keeps a descending-length sequence sorted, adds one
/// element, and introduces no word longer than the bound `b`.
pub proof fn lemma_insert_desc_sorted_bound(w: Seq<char>, s: Seq<Seq<char>>, b: nat)
    requires
        sorted_desc(s),
        w.len() <= b,
        forall|k: int| 0 <= k < s.len() ==> (#[trigger] s[k]).len() <= b,
    ensures
        insert_desc(w, s).len() == s.len() + 1,
        sorted_desc(insert_desc(w, s)),
        forall|k: int| 0 <= k < insert_desc(w, s).len() ==> (#[trigger] insert_desc(w, s)[k]).len()
            <= b,
    decreases s.len(),
{
    let r = insert_desc(w, s);
    if s.len() == 0 {
        assert(r =~= seq![w]);
    } else if s[0].len() > w.len() {
        assert(sorted_desc(s.drop_first())) by {
            assert(forall|i: int, j: int|
                0 <= i <= j < s.drop_first().len() ==> s.drop_first()[i] == s[i + 1]
                    && s.drop_first()[j] == s[j + 1]);
        }
        assert(forall|k: int| 0 <= k < s.drop_first().len() ==> (#[trigger] s.drop_first()[k]).len()
            <= s[0].len());
        lemma_insert_desc_sorted_bound(w, s.drop_first(), s[0].len());
        let ins = insert_desc(w, s.drop_first());
        assert(forall|k: int| 0 <= k < r.len() ==> #[trigger] r[k] == if k == 0 {
            s[0]
        } else {
            ins[k - 1]
        });
    } else {
        assert(r =~= seq![w] + s);
    }
}

/// `insert_desc` places `w` at the first position whose element is no
/// longer than `w`.
pub proof fn lemma_insert_desc_at(w: Seq<char>, s: Seq<Seq<char>>, idx: int)
    requires
        0 <= idx <= s.len(),
        forall|k: int| 0 <= k < idx ==> (#[trigger] s[k]).len() > w.len(),
        idx < s.len() ==> s[idx].len() <= w.len(),
    ensures
        insert_desc(w, s) == s.insert(idx, w),
    decreases s.len(),
{
    if idx == 0 {
        if s.len() == 0 {
            assert(insert_desc(w, s) =~= s.insert(0, w));
        } else {
            assert(seq![w] + s =~= s.insert(0, w));
        }
    } else {
        assert(forall|k: int| 0 <= k < idx - 1 ==> (#[trigger] s.drop_first()[k]).len()
            > w.len()) by {
            assert(forall|k: int| 0 <= k < idx - 1 ==> s.drop_first()[k] == s[k + 1]);
        }
        lemma_insert_desc_at(w, s.drop_first(), idx - 1);
        assert(seq![s[0]] + s.drop_first().insert(idx - 1, w) =~= s.insert(idx, w));
    }
}

/// `sort_desc` keeps every word and orders them by descending length.
pub proof fn lemma_sort_desc_sorted(s: Seq<Seq<char>>)
    ensures
        sort_desc(s).len() == s.len(),
        sorted_desc(sort_desc(s)),
    decreases s.len(),
{
    if s.len() > 0 {
        lemma_sort_desc_sorted(s.drop_first());
        let srt = sort_desc(s.drop_first());
        let b: nat = if srt.len() == 0 || s[0].len() > srt[0].len() {
            s[0].len()
        } else {
            srt[0].len()
        };
        assert(forall|k: int| 0 <= k < srt.len() ==> (#[trigger] srt[k]).len() <= b);
        lemma_insert_desc_sorted_bound(s[0], srt, b);
    }
}

/// `dedup_adj` keeps the first and the last element of a non-empty
/// sequence (up to the equality that lets it drop a neighbour).
pub proof fn lemma_dedup_adj_ends(s: Seq<Seq<char>>)
    requires
        s.len() > 0,
    ensures
        dedup_adj(s).len() > 0,
        dedup_adj(s)[0] == s[0],
        dedup_adj(s).last() == s.last(),
    decreases s.len(),
{
    if s.len() >= 2 {
        lemma_dedup_adj_ends(s.drop_first());
    }
}

/// On a sequence sorted by descending length, `dedup_adj` preserves the
/// order and leaves no equal neighbours.
pub proof fn lemma_dedup_adj_sorted(s: Seq<Seq<char>>)
    requires
        sorted_desc(s),
    ensures
        sorted_desc(dedup_adj(s)),
        no_adjacent_dups(dedup_adj(s)),
    decreases s.len(),
{
    if s.len() >= 2 {
        assert(sorted_desc(s.drop_first())) by {
            assert(forall|i: int, j: int|
                0 <= i <= j < s.drop_first().len() ==> s.drop_first()[i] == s[i + 1]
                    && s.drop_first()[j] == s[j + 1]);
        }
        lemma_dedup_adj_sorted(s.drop_first());
        if s[0] != s[1] {
            lemma_dedup_adj_ends(s.drop_first());
            let d = dedup_adj(s.drop_first());
            let r = dedup_adj(s);
            assert(forall|k: int| 0 <= k < r.len() ==> #[trigger] r[k] == if k == 0 {
                s[0]
            } else {
                d[k - 1]
            });
            assert forall|i: int, j: int| 0 <= i <= j < r.len() implies r[i].len() >= r[j].len()
                by {
                if i == 0 && j > 0 {
                    assert(d[j - 1].len() <= d[0].len());
                    assert(d[0] == s[1]);
                }
            }
            assert forall|i: int| 0 <= i < r.len() - 1 implies #[trigger] r[i] != r[i + 1] by {
                if i == 0 {
                    assert(r[1] == d[0]);
                    assert(d[0] == s[1]);
                }
            }
        }
    }
}

/// Appending one element to the input of `dedup_adj` either changes
/// nothing (the new element equals the old last one) or appends it.
pub proof fn lemma_dedup_adj_push(s: Seq<Seq<char>>, e: Seq<char>)
    ensures
        dedup_adj(s.push(e)) == if s.len() > 0 && s.last() == e {
            dedup_adj(s)
        } else {
            dedup_adj(s).push(e)
        },
    decreases s.len(),
{
    let t = s.push(e);
    if s.len() == 0 {
        assert(t =~= seq![e]);
        assert(dedup_adj(s).push(e) =~= seq![e]);
    } else if s.len() == 1 {
        assert(t.drop_first() =~= seq![e]);
        if s[0] == e {
            assert(dedup_adj(s) =~= seq![e]);
        } else {
            assert(seq![t[0]] + dedup_adj(t.drop_first()) =~= dedup_adj(s).push(e));
        }
    } else {
        assert(t.drop_first() =~= s.drop_first().push(e));
        lemma_dedup_adj_push(s.drop_first(), e);
        assert(s.drop_first().last() == s.last());
        if s[0] != s[1] {
            if !(s.last() == e) {
                assert(seq![s[0]] + dedup_adj(s.drop_first()).push(e) =~= (seq![s[0]] + dedup_adj(
                    s.drop_first(),
                )).push(e));
            }
        }
    }
}

/// The words collected from a body block are the words of its lines,
/// merged in order: line structure commutes with word extraction.
pub proof fn lemma_block_words(text: Seq<char>, p: int)
    ensures
        collect_words(text, p) == words_of(block_lines(text, p)),
    decreases text.len() - p,
{
    if 0 <= p && p < text.len() && is_marker(text[p]) {
        let e = scan_to(text, p, '\n');
        if p <= e && e <= text.len() {
            lemma_block_words(text, next_line(text, p));
            let bl = block_lines(text, p);
            assert(bl.drop_first() =~= block_lines(text, next_line(text, p)));
            assert(bl[0] == text.subrange(p, e));
        }
    }
}

} // verus!
