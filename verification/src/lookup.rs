//! Verified lookup over the dictionary text.
//!
//! The caller hands in the full text of the dictionary; every function
//! here is a pure computation over it, specified against the model in
//! [`crate::model`].

use vstd::prelude::*;
use vstd::string::StrSliceExecFns;

use crate::model::{
    body_start, collect_words, dedup_adj, first_match_from, insert_desc, is_marker,
    lemma_dedup_adj_ends, lemma_dedup_adj_push, lemma_dedup_adj_sorted, lemma_first_match_props,
    lemma_insert_desc_at, lemma_scan_to_suffix, lemma_sort_desc_sorted, line_words, match_at,
    newline_term, next_line, no_adjacent_dups, scan_to, sort_desc, sorted_desc,
    spec_find_synonyms, split_on, synonyms_at,
};

verus! {

/// Index of the first occurrence of `c` in `s` at or after `start`, or
/// the length of `s` if there is none.
fn scan_char(s: &str, start: usize, c: char) -> (r: usize)
    requires
        start as int <= s@.len(),
    ensures
        r == scan_to(s@, start as int, c),
        start <= r,
        r as int <= s@.len(),
{
    let len: usize = s.unicode_len();
    let mut i: usize = start;
    while i < len && s.get_char(i) != c
        invariant
            start <= i <= len,
            len == s@.len(),
            scan_to(s@, start as int, c) == scan_to(s@, i as int, c),
        decreases len - i,
    {
        i = i + 1;
    }
    i
}

/// Whether a newline followed by `term` occurs in `contents` at `i`.
fn match_at_exec(contents: &str, term: &str, i: usize) -> (b: bool)
    requires
        i + 1 + term@.len() <= contents@.len(),
    ensures
        b == match_at(contents@, newline_term(term@), i as int),
{
    let ghost pat = newline_term(term@);
    let clen: usize = contents.unicode_len();
    let tlen: usize = term.unicode_len();
    if !(contents.get_char(i) == '\n') {
        proof {
            assert(!match_at(contents@, pat, i as int)) by {
                if match_at(contents@, pat, i as int) {
                    assert(contents@.subrange(i as int, i + pat.len())[0] == pat[0]);
                }
            }
        }
        return false;
    }
    let mut k: usize = 0;
    while k < tlen
        invariant
            pat == newline_term(term@),
            k <= tlen,
            tlen == term@.len(),
            i + 1 + tlen <= clen,
            clen == contents@.len(),
            contents@[i as int] == '\n',
            forall|j: int| 0 <= j < k ==> contents@[i + 1 + j] == term@[j],
        decreases tlen - k,
    {
        if !(contents.get_char(i + 1 + k) == term.get_char(k)) {
            proof {
                assert(!match_at(contents@, pat, i as int)) by {
                    if match_at(contents@, pat, i as int) {
                        assert(contents@.subrange(i as int, i + pat.len())[k + 1] == pat[k + 1]);
                    }
                }
            }
            return false;
        }
        k = k + 1;
    }
    proof {
        assert(contents@.subrange(i as int, i + pat.len()) =~= pat) by {
            assert(forall|m: int|
                1 <= m < pat.len() ==> #[trigger] pat[m] == term@[m - 1] && contents@.subrange(
                    i as int,
                    i + pat.len(),
                )[m] == contents@[i + m]);
        }
    }
    true
}

/// Position of the first occurrence of a newline followed by `term`, or
/// `None` if the pattern does not occur.
fn find_entry(contents: &str, term: &str) -> (r: Option<usize>)
    ensures
        match r {
            Some(i) => first_match_from(contents@, newline_term(term@), 0) == Some(i as int),
            None => first_match_from(contents@, newline_term(term@), 0) is None,
        },
{
    let ghost pat = newline_term(term@);
    let clen: usize = contents.unicode_len();
    let tlen: usize = term.unicode_len();
    if tlen >= clen {
        proof {
            assert(pat.len() == 1 + term@.len());
        }
        return None;
    }
    let plen: usize = tlen + 1;
    let mut i: usize = 0;
    while i <= clen - plen
        invariant
            pat == newline_term(term@),
            plen == pat.len(),
            plen == tlen + 1,
            plen <= clen,
            clen == contents@.len(),
            tlen == term@.len(),
            i as int <= clen - plen + 1,
            first_match_from(contents@, pat, 0) == first_match_from(contents@, pat, i as int),
        decreases clen - i,
    {
        proof {
            assert(i + 1 + term@.len() <= contents@.len());
        }
        if match_at_exec(contents, term, i) {
            proof {
                assert(first_match_from(contents@, pat, i as int) == Some(i as int));
            }
            return Some(i);
        }
        proof {
            assert(first_match_from(contents@, pat, i as int) == first_match_from(
                contents@,
                pat,
                i + 1,
            ));
        }
        i = i + 1;
    }
    proof {
        assert(i + pat.len() > contents@.len());
    }
    None
}

/// The synonym words of one body line: its `|`-separated fields with
/// the leading sense marker dropped, in order.
fn line_words_exec(line: &str) -> (words: Vec<String>)
    ensures
        words.deep_view() == line_words(line@),
{
    let len: usize = line.unicode_len();
    let f: usize = scan_char(line, 0, '|');
    let mut words: Vec<String> = Vec::new();
    if f >= len {
        proof {
            assert(split_on(line@, '|') =~= seq![line@]);
            assert(words.deep_view() =~= line_words(line@));
        }
        return words;
    }
    let mut cur: usize = f + 1;
    proof {
        assert(line_words(line@) =~= split_on(line@.subrange(cur as int, len as int), '|'));
    }
    loop
        invariant_except_break
            1 <= cur <= len,
            len == line@.len(),
            line_words(line@) == words.deep_view() + split_on(
                line@.subrange(cur as int, len as int),
                '|',
            ),
        ensures
            words.deep_view() == line_words(line@),
        decreases len - cur,
    {
        let g: usize = scan_char(line, cur, '|');
        let piece: &str = line.substring_char(cur, g);
        let ghost pre = words.deep_view();
        words.push(piece.to_owned());
        proof {
            assert(words.deep_view() =~= pre.push(piece@));
            let suf = line@.subrange(cur as int, len as int);
            lemma_scan_to_suffix(line@, cur as int, '|');
            assert(scan_to(suf, 0, '|') == g - cur);
            if g < len {
                assert(suf.subrange(0, g - cur) =~= piece@);
                assert(suf.subrange(g - cur + 1, suf.len() as int) =~= line@.subrange(
                    g + 1,
                    len as int,
                ));
                assert(line_words(line@) =~= words.deep_view() + split_on(
                    line@.subrange(g + 1, len as int),
                    '|',
                ));
            } else {
                assert(split_on(suf, '|') =~= seq![suf]);
                assert(suf =~= piece@);
                assert(line_words(line@) =~= words.deep_view());
            }
        }
        if g >= len {
            break;
        }
        cur = g + 1;
    }
    words
}

/// Insert `w` into `v`, sorted by descending character length, directly
/// before the first word no longer than `w`.
fn insert_sorted(v: Vec<String>, w: String) -> (r: Vec<String>)
    ensures
        r.deep_view() == insert_desc(w@, v.deep_view()),
{
    let wlen: usize = w.as_str().unicode_len();
    let mut idx: usize = 0;
    while idx < v.len() && v[idx].as_str().unicode_len() > wlen
        invariant
            idx <= v.len(),
            wlen == w@.len(),
            forall|k: int| 0 <= k < idx ==> (#[trigger] v.deep_view()[k]).len() > w@.len(),
        decreases v.len() - idx,
    {
        proof {
            assert(v.deep_view()[idx as int] == v@[idx as int]@);
        }
        idx = idx + 1;
    }
    proof {
        if idx < v.len() {
            assert(v.deep_view()[idx as int] == v@[idx as int]@);
        }
        lemma_insert_desc_at(w@, v.deep_view(), idx as int);
    }
    let ghost pre = v.deep_view();
    let mut v = v;
    v.insert(idx, w);
    proof {
        assert(v.deep_view() =~= pre.insert(idx as int, w@));
    }
    v
}

/// Sort `v` by descending character length; words of equal length keep
/// their relative order.
fn sort_longest_first(v: Vec<String>) -> (r: Vec<String>)
    ensures
        r.deep_view() == sort_desc(v.deep_view()),
{
    let ghost dv = v.deep_view();
    let mut r: Vec<String> = Vec::new();
    let mut i: usize = v.len();
    proof {
        assert(dv.subrange(i as int, dv.len() as int) =~= Seq::<Seq<char>>::empty());
        assert(r.deep_view() =~= Seq::<Seq<char>>::empty());
    }
    while i > 0
        invariant
            i <= v.len(),
            dv == v.deep_view(),
            dv.len() == v@.len(),
            r.deep_view() == sort_desc(dv.subrange(i as int, dv.len() as int)),
        decreases i,
    {
        i = i - 1;
        let w: String = v[i].clone();
        proof {
            assert(w@ == dv[i as int]);
        }
        r = insert_sorted(r, w);
        proof {
            let tail = dv.subrange(i as int, dv.len() as int);
            assert(tail.drop_first() =~= dv.subrange(i + 1, dv.len() as int));
            assert(tail[0] == dv[i as int]);
        }
    }
    proof {
        assert(dv.subrange(0, dv.len() as int) =~= dv);
    }
    r
}

/// Remove adjacent duplicates from `v`, keeping the first of each run
/// of equal neighbours.
fn dedup_adjacent(v: Vec<String>) -> (r: Vec<String>)
    ensures
        r.deep_view() == dedup_adj(v.deep_view()),
{
    let ghost dv = v.deep_view();
    let mut out: Vec<String> = Vec::new();
    let mut i: usize = 0;
    proof {
        assert(dv.subrange(0, 0) =~= Seq::<Seq<char>>::empty());
        assert(out.deep_view() =~= Seq::<Seq<char>>::empty());
    }
    while i < v.len()
        invariant
            i <= v.len(),
            dv == v.deep_view(),
            dv.len() == v@.len(),
            out.deep_view() == dedup_adj(dv.subrange(0, i as int)),
        decreases v.len() - i,
    {
        let ghost prefix = dv.subrange(0, i as int);
        proof {
            assert(dv.subrange(0, i + 1) =~= prefix.push(dv[i as int]));
            lemma_dedup_adj_push(prefix, dv[i as int]);
            if i > 0 {
                lemma_dedup_adj_ends(prefix);
            }
            assert(dv[i as int] == v@[i as int]@);
        }
        let keep: bool = if out.len() == 0 {
            true
        } else {
            proof {
                assert(out.deep_view().last() == out@[out@.len() - 1]@);
            }
            !(out[out.len() - 1] == v[i])
        };
        if keep {
            let ghost pre = out.deep_view();
            out.push(v[i].clone());
            proof {
                assert(out.deep_view() =~= pre.push(dv[i as int]));
            }
        }
        i = i + 1;
    }
    proof {
        assert(dv.subrange(0, dv.len() as int) =~= dv);
    }
    out
}

/// The synonym list of the entry whose leading newline is at
/// `position`: the words of its body block, sorted longest first,
/// with adjacent duplicates removed.
pub fn read_synonyms(contents: &str, position: usize) -> (r: Vec<String>)
    requires
        position < contents@.len(),
    ensures
        r.deep_view() == synonyms_at(contents@, position as int),
        sorted_desc(r.deep_view()),
        no_adjacent_dups(r.deep_view()),
{
    let len: usize = contents.unicode_len();
    let h: usize = scan_char(contents, position + 1, '\n');
    let mut p: usize = if h < len {
        h + 1
    } else {
        len
    };
    let ghost body0: int = p as int;
    proof {
        assert(body0 == body_start(contents@, position as int));
    }
    let mut words: Vec<String> = Vec::new();
    proof {
        assert(words.deep_view() =~= Seq::<Seq<char>>::empty());
        assert(collect_words(contents@, body0) =~= words.deep_view() + collect_words(
            contents@,
            body0,
        ));
    }
    loop
        invariant_except_break
            p <= len,
            len == contents@.len(),
            collect_words(contents@, body0) == words.deep_view() + collect_words(
                contents@,
                p as int,
            ),
        ensures
            words.deep_view() == collect_words(contents@, body0),
        decreases len - p,
    {
        if p >= len {
            proof {
                assert(collect_words(contents@, p as int) =~= Seq::<Seq<char>>::empty());
                assert(collect_words(contents@, body0) =~= words.deep_view());
            }
            break;
        }
        let c: char = contents.get_char(p);
        if !(c == '-' || c == '(') {
            proof {
                assert(!is_marker(contents@[p as int]));
                assert(collect_words(contents@, p as int) =~= Seq::<Seq<char>>::empty());
                assert(collect_words(contents@, body0) =~= words.deep_view());
            }
            break;
        }
        let e: usize = scan_char(contents, p, '\n');
        let line: &str = contents.substring_char(p, e);
        let mut tail: Vec<String> = line_words_exec(line);
        let ghost pre = words.deep_view();
        let ghost tail_words = tail.deep_view();
        proof {
            assert(line@ == contents@.subrange(p as int, e as int));
            assert(collect_words(contents@, p as int) == line_words(line@) + collect_words(
                contents@,
                next_line(contents@, p as int),
            ));
        }
        words.append(&mut tail);
        proof {
            assert(words.deep_view() =~= pre + tail_words);
        }
        let next: usize = if e < len {
            e + 1
        } else {
            len
        };
        proof {
            assert(next as int == next_line(contents@, p as int));
            assert(collect_words(contents@, body0) =~= words.deep_view() + collect_words(
                contents@,
                next as int,
            ));
        }
        p = next;
    }
    let ghost raw = words.deep_view();
    let sorted: Vec<String> = sort_longest_first(words);
    let deduped: Vec<String> = dedup_adjacent(sorted);
    proof {
        lemma_sort_desc_sorted(raw);
        lemma_dedup_adj_sorted(sort_desc(raw));
    }
    deduped
}

/// The synonym list of `term`: the words of the body block of the first
/// entry whose headword line matches, sorted longest first with
/// adjacent duplicates removed, or empty if no entry matches.
pub fn find_synonyms(contents: &str, term: &str) -> (r: Vec<String>)
    ensures
        r.deep_view() == spec_find_synonyms(contents@, term@),
        sorted_desc(r.deep_view()),
        no_adjacent_dups(r.deep_view()),
{
    match find_entry(contents, term) {
        Some(pos) => {
            proof {
                lemma_first_match_props(contents@, newline_term(term@), 0);
                assert(pos + newline_term(term@).len() <= contents@.len());
                assert(newline_term(term@).len() >= 1);
            }
            read_synonyms(contents, pos)
        },
        None => {
            let r: Vec<String> = Vec::new();
            proof {
                assert(r.deep_view() =~= Seq::<Seq<char>>::empty());
            }
            r
        },
    }
}

/// The longest synonym of `term`: the first word of its synonym list,
/// or `None` if the list is empty.
pub fn longest_synonym(contents: &str, term: &str) -> (r: Option<String>)
    ensures
        ({
            let syns = spec_find_synonyms(contents@, term@);
            match r {
                Some(w) => {
                    &&& syns.len() > 0
                    &&& w@ == syns[0]
                    &&& forall|k: int| 0 <= k < syns.len() ==> (#[trigger] syns[k]).len()
                        <= w@.len()
                },
                None => syns.len() == 0,
            }
        }),
{
    let synonyms: Vec<String> = find_synonyms(contents, term);
    if synonyms.len() == 0 {
        None
    } else {
        proof {
            assert(synonyms.deep_view()[0] == synonyms@[0]@);
        }
        Some(synonyms[0].clone())
    }
}

} // verus!
