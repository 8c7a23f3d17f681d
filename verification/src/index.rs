//! The local search index: tokens, per-field term counts, scoring, snippets
//! and highlighting of hits.
use vstd::prelude::*;
use crate::slug::{lower_all, slug_scan, slug_of};
use crate::sessions::SessionDetails;
use crate::text::{
    is_alnum, lowercase_of, is_ascii_char, is_ascii_upper, ascii_lower, ascii_lower_all, chars_of, is_alphanumeric, lowercase_chars, string_of, string_views,
    views, lemma_string_views_push, push_str, strictly_sorted, insert_sorted_unique, occurs_at,
    matches_at, lemma_views_push, occurrences, utf8_width, byte_len, width, prefix_bytes,
    lemma_byte_len_step, lemma_byte_len_increasing, lemma_byte_len_le, is_boundary, boundary_index,
    lemma_boundary_index, index_at_byte, join, join_strings, trim_char, trim_start_char, trim_end_char,
    lemma_trim_start_char_skip, lemma_trim_end_char_take, seq_lt, lemma_occurrences_bound, slice_chars, trim_ws, trim_ws_bounds, push_all,
};

verus! {

/// Scanning for tokens: the finished tokens and the token in progress.
pub open spec fn token_scan(s: Seq<char>) -> (Seq<Seq<char>>, Seq<char>)
    decreases s.len(),
{
    if s.len() == 0 {
        (seq![], seq![])
    } else {
        let p = token_scan(s.drop_last());
        let c = s.last();
        if is_alnum(c) {
            (p.0, p.1.push(c))
        } else if p.1.len() > 0 {
            (p.0.push(p.1), seq![])
        } else {
            p
        }
    }
}

/// The tokens of a text: the maximal runs of alphanumeric chars in its
/// lowercased chars.
pub open spec fn tokens_of(text: Seq<char>) -> Seq<Seq<char>> {
    let p = token_scan(lower_all(text));
    if p.1.len() > 0 {
        p.0.push(p.1)
    } else {
        p.0
    }
}

/// Every token is non-empty and made of alphanumeric chars.
pub open spec fn proper_tokens(t: Seq<Seq<char>>) -> bool {
    forall|i: int|
        0 <= i < t.len() ==> (#[trigger] t[i]).len() > 0 && forall|j: int|
            0 <= j < t[i].len() ==> is_alnum(#[trigger] t[i][j])
}

/// The `-` a slug scan starts with: there when the text starts with a char
/// that is not alphanumeric.
pub open spec fn scan_lead(s: Seq<char>) -> Seq<char> {
    if s.len() > 0 && !is_alnum(s[0]) {
        seq!['-']
    } else {
        Seq::<char>::empty()
    }
}

/// The tokens of already lowercased chars.
pub open spec fn scan_tokens(s: Seq<char>) -> Seq<Seq<char>> {
    let p = token_scan(s);
    if p.1.len() > 0 {
        p.0.push(p.1)
    } else {
        p.0
    }
}

proof fn lemma_join_push(items: Seq<Seq<char>>, t: Seq<char>, sep: Seq<char>)
    ensures
        join(items.push(t), sep) == (if items.len() == 0 {
            t
        } else {
            join(items, sep) + sep + t
        }),
{
    assert(items.push(t).drop_last() =~= items);
    assert(items.push(t).last() == t);
    if items.len() == 0 {
        assert(items.push(t)[0] == t);
    }
}

proof fn lemma_join_ends(items: Seq<Seq<char>>, sep: Seq<char>)
    requires
        items.len() > 0,
        forall|i: int| 0 <= i < items.len() ==> (#[trigger] items[i]).len() > 0,
    ensures
        join(items, sep).len() > 0,
        join(items, sep)[0] == items[0][0],
        join(items, sep).last() == items.last().last(),
    decreases items.len(),
{
    if items.len() > 1 {
        let d = items.drop_last();
        assert forall|i: int| 0 <= i < d.len() implies (#[trigger] d[i]).len() > 0 by {
            assert(d[i] == items[i]);
        }
        lemma_join_ends(d, sep);
        let j = join(d, sep);
        assert((j + sep + items.last())[0] == j[0]);
        assert(d[0] == items[0]);
    }
}

proof fn lemma_scan_agree(s: Seq<char>)
    ensures
        token_scan(s).1.len() > 0 ==> !slug_scan(s).1,
        forall|k: int| 0 <= k < token_scan(s).1.len() ==> is_alnum(#[trigger] token_scan(s).1[k]),
        scan_tokens(s).len() == 0 ==> slug_scan(s).0 == (if s.len() > 0 {
            seq!['-']
        } else {
            Seq::<char>::empty()
        }) && slug_scan(s).1 == (s.len() > 0),
        scan_tokens(s).len() > 0 ==> slug_scan(s).0 == scan_lead(s) + join(scan_tokens(s), seq!['-'])
            + (if slug_scan(s).1 {
            seq!['-']
        } else {
            Seq::<char>::empty()
        }),
        scan_tokens(s).len() > 0 && token_scan(s).1.len() == 0 ==> slug_scan(s).1,
        scan_tokens(s).len() == 0 ==> forall|k: int| 0 <= k < s.len() ==> !is_alnum(#[trigger] s[k]),
        proper_tokens(token_scan(s).0),
    decreases s.len(),
{
    if s.len() > 0 {
        let prev = s.drop_last();
        lemma_scan_agree(prev);
        let c = s.last();
        let toks = token_scan(prev).0;
        let cur = token_scan(prev).1;
        let sc = slug_scan(prev).0;
        let dash = slug_scan(prev).1;
        let sep = seq!['-'];
        if prev.len() > 0 {
            assert(s[0] == prev[0]);
        } else {
            assert(s[0] == c);
        }
        if is_alnum(c) {
            assert forall|k: int| 0 <= k < token_scan(s).1.len() implies is_alnum(
                #[trigger] token_scan(s).1[k],
            ) by {
                if k < cur.len() {
                    assert(token_scan(s).1[k] == cur[k]);
                }
            }
            if cur.len() > 0 {
                lemma_join_push(toks, cur, sep);
                lemma_join_push(toks, cur.push(c), sep);
                if toks.len() == 0 {
                    assert(slug_scan(s).0 =~= scan_lead(s) + join(scan_tokens(s), sep));
                } else {
                    assert(slug_scan(s).0 =~= scan_lead(s) + join(scan_tokens(s), sep));
                }
            } else {
                lemma_join_push(toks, seq![c], sep);
                assert(cur.push(c) =~= seq![c]);
                assert(scan_tokens(s) == toks.push(seq![c]));
                if toks.len() == 0 {
                    assert(slug_scan(s).0 =~= scan_lead(s) + join(scan_tokens(s), sep));
                } else {
                    assert(slug_scan(s).0 =~= scan_lead(s) + join(scan_tokens(s), sep));
                }
            }
        } else if !dash {
            if cur.len() > 0 {
                assert(scan_tokens(s) == scan_tokens(prev));
                assert(slug_scan(s).0 =~= scan_lead(s) + join(scan_tokens(s), sep) + sep);
                assert forall|i: int| 0 <= i < token_scan(s).0.len() implies (#[trigger] token_scan(s).0[i]).len() > 0
                    && forall|j: int| 0 <= j < token_scan(s).0[i].len() ==> is_alnum(#[trigger] token_scan(s).0[i][j]) by {
                    if i < toks.len() {
                        assert(token_scan(s).0[i] == toks[i]);
                    }
                }
            } else {
                assert(scan_tokens(prev).len() == 0);
                assert(sc.len() == 0);
                assert(prev.len() == 0);
                assert(slug_scan(s).0 =~= seq!['-']);
            }
        } else {
            assert(cur.len() == 0);
        }
        if scan_tokens(s).len() == 0 {
            assert(!is_alnum(c));
            assert forall|k: int| 0 <= k < s.len() implies !is_alnum(#[trigger] s[k]) by {
                if k < prev.len() {
                    assert(s[k] == prev[k]);
                }
            }
        }
    }
}

/// A title's slug is its search tokens joined with `-`, or `untitled` when
/// it has none.
pub proof fn lemma_slug_joins_tokens(title: Seq<char>)
    ensures
        slug_of(title) == (if tokens_of(title).len() == 0 {
            "untitled"@
        } else {
            join(tokens_of(title), seq!['-'])
        }),
{
    let s = lower_all(title);
    lemma_scan_agree(s);
    let sc = slug_scan(s).0;
    let all = scan_tokens(s);
    assert(all == tokens_of(title));
    if all.len() == 0 {
        if sc.len() > 0 {
            assert(sc[0] == '-');
            assert(sc.drop_first().len() == 0);
            assert(trim_start_char(sc.drop_first(), '-') == sc.drop_first());
        }
        assert(trim_start_char(sc, '-').len() == 0);
        assert(trim_char(sc, '-').len() == 0);
    } else {
        let sep = seq!['-'];
        assert forall|i: int| 0 <= i < all.len() implies (#[trigger] all[i]).len() > 0 by {
            if i < token_scan(s).0.len() {
                assert(all[i] == token_scan(s).0[i]);
            }
        }
        lemma_join_ends(all, sep);
        let j = join(all, sep);
        let lead = scan_lead(s);
        let trail = if slug_scan(s).1 {
            sep
        } else {
            Seq::<char>::empty()
        };
        let first = all[0];
        let last = all.last();
        if token_scan(s).0.len() > 0 {
            assert(all[0] == token_scan(s).0[0]);
            assert(is_alnum(first[0]));
        } else {
            assert(all[0] == token_scan(s).1);
            assert(is_alnum(token_scan(s).1[0]));
        }
        if token_scan(s).1.len() > 0 {
            assert(last == token_scan(s).1);
            assert(is_alnum(last[last.len() - 1]));
        } else {
            assert(last == token_scan(s).0[all.len() - 1]);
            assert(is_alnum(last[last.len() - 1]));
        }
        assert(!is_alnum('-'));
        assert(j[0] != '-');
        assert(j.last() != '-');
        assert(sc == lead + j + trail);
        lemma_trim_start_char_skip(sc, '-', lead.len() as int);
        assert(sc.skip(lead.len() as int) =~= j + trail);
        assert((j + trail)[0] == j[0]);
        assert(trim_start_char(j + trail, '-') == j + trail);
        lemma_trim_end_char_take(j + trail, '-', j.len() as int);
        assert((j + trail).take(j.len() as int) =~= j);
        assert(trim_end_char(j, '-') == j);
    }
}

pub fn tokenize_chars(text: &Vec<char>) -> (tokens: Vec<Vec<char>>)
    ensures
        views(tokens@) == tokens_of(text@),
        proper_tokens(views(tokens@)),
{
    let mut tokens: Vec<Vec<char>> = Vec::new();
    let mut current: Vec<char> = Vec::new();
    let mut i: usize = 0;
    while i < text.len()
        invariant
            i <= text.len(),
            (views(tokens@), current@) == token_scan(lower_all(text@.take(i as int))),
            proper_tokens(views(tokens@)),
            forall|j: int| 0 <= j < current@.len() ==> is_alnum(#[trigger] current@[j]),
        decreases text.len() - i,
    {
        let lc = lowercase_chars(text[i]);
        let ghost before = lower_all(text@.take(i as int));
        let mut j: usize = 0;
        while j < lc.len()
            invariant
                j <= lc.len(),
                (views(tokens@), current@) == token_scan(before + lc@.take(j as int)),
                proper_tokens(views(tokens@)),
                forall|k: int|
                    0 <= k < current@.len() ==> is_alnum(#[trigger] current@[k]),
            decreases lc.len() - j,
        {
            let ch = lc[j];
            proof {
                assert((before + lc@.take(j + 1)).drop_last() == before + lc@.take(j as int));
                assert((before + lc@.take(j + 1)).last() == ch);
            }
            if is_alphanumeric(ch) {
                current.push(ch);
            } else if current.len() > 0 {
                let done = current;
                current = Vec::new();
                tokens.push(done);
                proof {
                    assert(views(tokens@) == token_scan(before + lc@.take(j as int)).0.push(
                        token_scan(before + lc@.take(j as int)).1,
                    ));
                }
            }
            j += 1;
        }
        proof {
            assert(text@.take(i + 1).drop_last() == text@.take(i as int));
            assert(text@.take(i + 1).last() == text@[i as int]);
            assert(lc@.take(lc@.len() as int) == lc@);
        }
        i += 1;
    }
    proof {
        assert(text@.take(text@.len() as int) == text@);
    }
    if current.len() > 0 {
        tokens.push(current);
        proof {
            assert(views(tokens@) =~= tokens_of(text@));
        }
    }
    tokens
}

/// Splits a text into lowercase alphanumeric tokens.
pub fn tokenize(text: &str) -> (tokens: Vec<String>)
    ensures
        string_views(tokens@) == tokens_of(text@),
{
    let cs = chars_of(text);
    let toks = tokenize_chars(&cs);
    let mut out: Vec<String> = Vec::new();
    let mut i: usize = 0;
    while i < toks.len()
        invariant
            i <= toks.len(),
            string_views(out@) == views(toks@).take(i as int),
        decreases toks.len() - i,
    {
        let t = string_of(&toks[i]);
        let ghost prev = out@;
        out.push(t);
        proof {
            lemma_string_views_push(prev, t);
            assert(views(toks@).take(i + 1) =~= views(toks@).take(i as int).push(toks@[i as int]@));
        }
        i += 1;
    }
    proof {
        assert(views(toks@).take(toks@.len() as int) =~= views(toks@));
    }
    out
}


/// How often a term occurs in a text or in a set of fields.
pub struct TermCount {
    pub term: String,
    pub count: usize,
}

/// The count that a map of term counts gives `t` (`get(t).unwrap_or(0)`):
/// that of the first entry for `t`, or 0.
pub open spec fn lookup(cs: Seq<TermCount>, t: Seq<char>) -> nat
    decreases cs.len(),
{
    if cs.len() == 0 {
        0
    } else if cs[0].term@ == t {
        cs[0].count as nat
    } else {
        lookup(cs.drop_first(), t)
    }
}

/// No term has two entries.
pub open spec fn unique_terms(cs: Seq<TermCount>) -> bool {
    forall|i: int, j: int| 0 <= i < j < cs.len() ==> cs[i].term@ != cs[j].term@
}

/// `cs` is the map of term counts of `toks`: one entry per distinct token,
/// each with its number of occurrences, and nothing else.
pub open spec fn counts_of(cs: Seq<TermCount>, toks: Seq<Seq<char>>) -> bool {
    &&& unique_terms(cs)
    &&& forall|i: int| 0 <= i < cs.len() ==> (#[trigger] cs[i]).count > 0
    &&& forall|t: Seq<char>| #[trigger] lookup(cs, t) == occurrences(toks, t)
}

pub proof fn lemma_lookup_entry(cs: Seq<TermCount>, i: int)
    requires
        unique_terms(cs),
        0 <= i < cs.len(),
    ensures
        lookup(cs, cs[i].term@) == cs[i].count,
    decreases cs.len(),
{
    if i > 0 {
        assert(cs[0].term@ != cs[i].term@);
        assert(cs.drop_first()[i - 1] == cs[i]);
        lemma_lookup_entry(cs.drop_first(), i - 1);
    }
}

pub proof fn lemma_lookup_absent(cs: Seq<TermCount>, t: Seq<char>)
    requires
        forall|i: int| 0 <= i < cs.len() ==> cs[i].term@ != t,
    ensures
        lookup(cs, t) == 0,
    decreases cs.len(),
{
    if cs.len() > 0 {
        assert forall|i: int| 0 <= i < cs.drop_first().len() implies cs.drop_first()[i].term@ != t by {
            assert(cs.drop_first()[i] == cs[i + 1]);
        }
        lemma_lookup_absent(cs.drop_first(), t);
    }
}

/// Counts the tokens: one entry per distinct token, in the order of first
/// occurrence.
pub fn count_tokens(toks: &Vec<String>) -> (cs: Vec<TermCount>)
    ensures
        counts_of(cs@, string_views(toks@)),
{
    let ghost tv = string_views(toks@);
    let mut cs: Vec<TermCount> = Vec::new();
    let mut k: usize = 0;
    while k < toks.len()
        invariant
            k <= toks.len(),
            tv == string_views(toks@),
            counts_of(cs@, tv.take(k as int)),
        decreases toks.len() - k,
    {
        let ghost before = tv.take(k as int);
        let ghost x = toks@[k as int]@;
        proof {
            assert(tv.take(k + 1).drop_last() == before);
            assert(tv.take(k + 1).last() == x);
        }
        let mut idx: usize = 0;
        while idx < cs.len() && !(cs[idx].term == toks[k])
            invariant
                k < toks.len(),
                x == toks@[k as int]@,
                idx <= cs.len(),
                forall|j: int| 0 <= j < idx ==> cs@[j].term@ != x,
            decreases cs.len() - idx,
        {
            idx += 1;
        }
        let ghost old_cs = cs@;
        if idx < cs.len() {
            proof {
                lemma_lookup_entry(cs@, idx as int);
                lemma_occurrences_bound(before, x);
            }
            let e = TermCount { term: cs[idx].term.clone(), count: cs[idx].count + 1 };
            cs.set(idx, e);
            proof {
                assert forall|t: Seq<char>| #[trigger] lookup(cs@, t) == occurrences(tv.take(k + 1), t) by {
                    if t == x {
                        lemma_lookup_entry(cs@, idx as int);
                    } else if exists|i: int| 0 <= i < cs@.len() && cs@[i].term@ == t {
                        let i = choose|i: int| 0 <= i < cs@.len() && cs@[i].term@ == t;
                        lemma_lookup_entry(cs@, i);
                        lemma_lookup_entry(old_cs, i);
                    } else {
                        assert forall|i: int| 0 <= i < old_cs.len() implies old_cs[i].term@ != t by {
                            assert(old_cs[i].term == cs@[i].term);
                        }
                        lemma_lookup_absent(cs@, t);
                        lemma_lookup_absent(old_cs, t);
                    }
                }
            }
        } else {
            let e = TermCount { term: toks[k].clone(), count: 1 };
            cs.push(e);
            proof {
                lemma_lookup_absent(old_cs, x);
                assert forall|t: Seq<char>| #[trigger] lookup(cs@, t) == occurrences(tv.take(k + 1), t) by {
                    if t == x {
                        lemma_lookup_entry(cs@, idx as int);
                    } else if exists|i: int| 0 <= i < old_cs.len() && old_cs[i].term@ == t {
                        let i = choose|i: int| 0 <= i < old_cs.len() && old_cs[i].term@ == t;
                        lemma_lookup_entry(cs@, i);
                        lemma_lookup_entry(old_cs, i);
                    } else {
                        lemma_lookup_absent(cs@, t);
                        lemma_lookup_absent(old_cs, t);
                    }
                }
            }
        }
        k += 1;
    }
    proof {
        assert(tv.take(k as int) == tv);
    }
    cs
}

/// The term counts of a text.
pub fn count_terms(text: &str) -> (cs: Vec<TermCount>)
    ensures
        counts_of(cs@, tokens_of(text@)),
{
    let toks = tokenize(text);
    count_tokens(&toks)
}

/// The tokens of several texts, one after the other.
pub open spec fn tokens_of_all(items: Seq<Seq<char>>) -> Seq<Seq<char>>
    decreases items.len(),
{
    if items.len() == 0 {
        seq![]
    } else {
        tokens_of_all(items.drop_last()) + tokens_of(items.last())
    }
}

/// The term counts of several texts taken together (file names of a kind).
pub fn count_many(items: &Vec<String>) -> (cs: Vec<TermCount>)
    ensures
        counts_of(cs@, tokens_of_all(string_views(items@))),
{
    let ghost iv = string_views(items@);
    let mut all: Vec<String> = Vec::new();
    let mut i: usize = 0;
    while i < items.len()
        invariant
            i <= items.len(),
            iv == string_views(items@),
            string_views(all@) == tokens_of_all(iv.take(i as int)),
        decreases items.len() - i,
    {
        let toks = tokenize(items[i].as_str());
        let mut j: usize = 0;
        let ghost base = all@;
        while j < toks.len()
            invariant
                j <= toks.len(),
                string_views(all@) == string_views(base) + string_views(toks@).take(j as int),
            decreases toks.len() - j,
        {
            let t = toks[j].clone();
            let ghost prev = all@;
            all.push(t);
            proof {
                lemma_string_views_push(prev, t);
                assert(string_views(toks@).take(j + 1) =~= string_views(toks@).take(j as int).push(
                    toks@[j as int]@,
                ));
            }
            j += 1;
        }
        proof {
            assert(string_views(toks@).take(toks@.len() as int) == string_views(toks@));
            assert(iv.take(i + 1).drop_last() == iv.take(i as int));
            assert(iv.take(i + 1).last() == items@[i as int]@);
        }
        i += 1;
    }
    proof {
        assert(iv.take(i as int) == iv);
    }
    count_tokens(&all)
}


/// The term counts of one field of a session (title, notes, screenshots, ...).
pub struct FieldCounts {
    pub field: String,
    pub counts: Vec<TermCount>,
}

/// How much a match in a field weighs: 5 in the title, 3 in the notes and in
/// the transcripts, 1 elsewhere.
pub open spec fn weight(field: Seq<char>) -> nat {
    if field == "标题"@ {
        5
    } else if field == "笔记"@ || field == "转写"@ {
        3
    } else {
        1
    }
}

/// The score one query term gets from the fields.
pub open spec fn term_score(fs: Seq<FieldCounts>, t: Seq<char>) -> nat
    decreases fs.len(),
{
    if fs.len() == 0 {
        0
    } else {
        term_score(fs.drop_last(), t) + lookup(fs.last().counts@, t) * weight(fs.last().field@)
    }
}

/// The score of a document for the query terms (a term given twice counts
/// twice).
pub open spec fn doc_score(fs: Seq<FieldCounts>, terms: Seq<Seq<char>>) -> nat
    decreases terms.len(),
{
    if terms.len() == 0 {
        0
    } else {
        doc_score(fs, terms.drop_last()) + term_score(fs, terms.last())
    }
}

/// The reason text for a term found in a field: `{field}: {term}`.
pub open spec fn reason_text(field: Seq<char>, t: Seq<char>) -> Seq<char> {
    field + ": "@ + t
}

/// `r` is the reason for query term `i` found in field `j`.
pub open spec fn reason_at(
    fs: Seq<FieldCounts>,
    terms: Seq<Seq<char>>,
    i: int,
    j: int,
    r: Seq<char>,
) -> bool {
    &&& 0 <= i < terms.len()
    &&& 0 <= j < fs.len()
    &&& lookup(fs[j].counts@, terms[i]) > 0
    &&& r == reason_text(fs[j].field@, terms[i])
}

/// `r` is the reason for some query term found in some field.
pub open spec fn is_reason(fs: Seq<FieldCounts>, terms: Seq<Seq<char>>, r: Seq<char>) -> bool {
    exists|i: int, j: int| #[trigger] reason_at(fs, terms, i, j, r)
}

pub proof fn lemma_term_score_prefix(fs: Seq<FieldCounts>, t: Seq<char>, j: int)
    requires
        0 <= j <= fs.len(),
    ensures
        term_score(fs.take(j), t) <= term_score(fs, t),
    decreases fs.len() - j,
{
    if j < fs.len() {
        lemma_term_score_prefix(fs.drop_last(), t, j);
        assert(fs.drop_last().take(j) == fs.take(j));
    } else {
        assert(fs.take(j) == fs);
    }
}

pub proof fn lemma_doc_score_prefix(fs: Seq<FieldCounts>, terms: Seq<Seq<char>>, i: int)
    requires
        0 <= i <= terms.len(),
    ensures
        doc_score(fs, terms.take(i)) <= doc_score(fs, terms),
    decreases terms.len() - i,
{
    if i < terms.len() {
        lemma_doc_score_prefix(fs, terms.drop_last(), i);
        assert(terms.drop_last().take(i) == terms.take(i));
    } else {
        assert(terms.take(i) == terms);
    }
}

/// The count a map of term counts gives `t`.
pub fn lookup_count(cs: &Vec<TermCount>, t: &String) -> (n: usize)
    ensures
        n == lookup(cs@, t@),
{
    let mut k: usize = 0;
    proof {
        assert(cs@.skip(0) == cs@);
    }
    while k < cs.len()
        invariant
            k <= cs.len(),
            lookup(cs@, t@) == lookup(cs@.skip(k as int), t@),
        decreases cs.len() - k,
    {
        if cs[k].term == *t {
            return cs[k].count;
        }
        proof {
            assert(cs@.skip(k as int).drop_first() == cs@.skip(k + 1));
        }
        k += 1;
    }
    0
}

fn field_weight(field: &String) -> (w: u8)
    ensures
        w == weight(field@),
{
    let title = String::from_str("标题");
    let notes = String::from_str("笔记");
    let transcript = String::from_str("转写");
    if *field == title {
        5
    } else if *field == notes || *field == transcript {
        3
    } else {
        1
    }
}

/// `{field}: {term}` as chars.
fn reason_chars(field: &String, t: &String) -> (r: Vec<char>)
    ensures
        r@ == reason_text(field@, t@),
{
    let mut r = chars_of(field.as_str());
    push_str(&mut r, ": ");
    push_str(&mut r, t.as_str());
    r
}

/// Scores a document against the query terms: the weighted sum of the counts
/// of every term in every field, and the sorted distinct reasons.
/// `None` when the score does not fit a `usize` (where the sum overflows).
pub fn score_document(fields: &Vec<FieldCounts>, terms: &Vec<String>) -> (r: Option<(usize, Vec<String>)>)
    ensures
        r is None <==> doc_score(fields@, string_views(terms@)) > usize::MAX,
        r matches Some(p) ==> p.0 == doc_score(fields@, string_views(terms@)),
        r matches Some(p) ==> strictly_sorted(string_views(p.1@)),
        r matches Some(p) ==> forall|x: Seq<char>|
            string_views(p.1@).contains(x) <==> is_reason(fields@, string_views(terms@), x),
{
    let ghost fs = fields@;
    let ghost tv = string_views(terms@);
    let mut score: usize = 0;
    let mut reasons: Vec<Vec<char>> = Vec::new();
    let mut i: usize = 0;
    while i < terms.len()
        invariant
            i <= terms.len(),
            fs == fields@,
            tv == string_views(terms@),
            score == doc_score(fs, tv.take(i as int)),
            strictly_sorted(views(reasons@)),
            forall|x: Seq<char>|
                views(reasons@).to_set().contains(x) <==> exists|a: int, b: int|
                    #[trigger] reason_at(fs, tv, a, b, x) && a < i,
        decreases terms.len() - i,
    {
        let ghost base = score;
        let mut j: usize = 0;
        proof {
            lemma_doc_score_prefix(fs, tv, i + 1);
            assert(tv.take(i + 1).drop_last() == tv.take(i as int));
            assert(tv.take(i + 1).last() == tv[i as int]);
            assert(fs.take(0) =~= Seq::<FieldCounts>::empty());
        }
        while j < fields.len()
            invariant
                i < terms.len(),
                j <= fields.len(),
                fs == fields@,
                tv == string_views(terms@),
                base == doc_score(fs, tv.take(i as int)),
                base + term_score(fs, tv[i as int]) <= doc_score(fs, tv),
                score == base + term_score(fs.take(j as int), tv[i as int]),
                strictly_sorted(views(reasons@)),
                forall|x: Seq<char>|
                    views(reasons@).to_set().contains(x) <==> exists|a: int, b: int|
                        #[trigger] reason_at(fs, tv, a, b, x) && (a < i || (a == i && b < j)),
            decreases fields.len() - j,
        {
            let n = lookup_count(&fields[j].counts, &terms[i]);
            proof {
                lemma_term_score_prefix(fs, tv[i as int], j + 1);
                assert(fs.take(j + 1).drop_last() == fs.take(j as int));
                assert(fs.take(j + 1).last() == fs[j as int]);
                assert(tv[i as int] == terms@[i as int]@);
            }
            if n > 0 {
                let w = field_weight(&fields[j].field);
                proof {
                    let t = tv[i as int];
                    assert(term_score(fs.take(j + 1), t) == term_score(fs.take(j as int), t)
                        + lookup(fs[j as int].counts@, t) * weight(fs[j as int].field@));
                    assert(lookup(fs[j as int].counts@, t) == n);
                    assert(weight(fs[j as int].field@) == w);
                    assert(n * weight(fs[j as int].field@) == n * (w as nat));
                }
                let inc = match n.checked_mul(w as usize) {
                    Some(v) => v,
                    None => {
                        return None;
                    },
                };
                score = match score.checked_add(inc) {
                    Some(v) => v,
                    None => {
                        return None;
                    },
                };
                let rc = reason_chars(&fields[j].field, &terms[i]);
                let ghost prev = views(reasons@).to_set();
                insert_sorted_unique(&mut reasons, rc);
                proof {
                    assert(reason_at(fs, tv, i as int, j as int, rc@));
                    assert forall|x: Seq<char>|
                        views(reasons@).to_set().contains(x) implies exists|a: int, b: int|
                            #[trigger] reason_at(fs, tv, a, b, x) && (a < i || (a == i && b < j
                                + 1)) by {
                        if x != rc@ {
                            assert(prev.contains(x));
                        }
                    }
                    assert forall|x: Seq<char>|
                        (exists|a: int, b: int|
                            #[trigger] reason_at(fs, tv, a, b, x) && (a < i || (a == i && b < j
                                + 1))) implies views(reasons@).to_set().contains(x) by {
                        let (a, b) = choose|a: int, b: int|
                            #[trigger] reason_at(fs, tv, a, b, x) && (a < i || (a == i && b < j
                                + 1));
                        if a == i && b == j {
                            assert(x == rc@);
                        } else {
                            assert(prev.contains(x));
                        }
                    }
                }
            } else {
                proof {
                    let t = tv[i as int];
                    assert(lookup(fs[j as int].counts@, t) == 0);
                    assert(term_score(fs.take(j + 1), t) == term_score(fs.take(j as int), t)
                        + lookup(fs[j as int].counts@, t) * weight(fs[j as int].field@));
                    assert forall|x: Seq<char>|
                        (exists|a: int, b: int|
                            #[trigger] reason_at(fs, tv, a, b, x) && (a < i || (a == i && b < j
                                + 1))) implies views(reasons@).to_set().contains(x) by {
                        let (a, b) = choose|a: int, b: int|
                            #[trigger] reason_at(fs, tv, a, b, x) && (a < i || (a == i && b < j
                                + 1));
                        if a == i && b == j {
                            assert(false);
                        }
                    }
                }
            }
            j += 1;
        }
        proof {
            assert(fs.take(fs.len() as int) == fs);
        }
        i += 1;
    }
    proof {
        assert(tv.take(tv.len() as int) == tv);
    }
    let mut out: Vec<String> = Vec::new();
    let mut k: usize = 0;
    while k < reasons.len()
        invariant
            k <= reasons.len(),
            string_views(out@) == views(reasons@).take(k as int),
        decreases reasons.len() - k,
    {
        let t = string_of(&reasons[k]);
        let ghost prev = out@;
        out.push(t);
        proof {
            lemma_string_views_push(prev, t);
            assert(views(reasons@).take(k + 1) =~= views(reasons@).take(k as int).push(reasons@[k as int]@));
        }
        k += 1;
    }
    proof {
        assert(views(reasons@).take(reasons@.len() as int) == views(reasons@));
        assert forall|x: Seq<char>|
            string_views(out@).contains(x) <==> is_reason(fs, tv, x) by {
            assert(views(reasons@).to_set().contains(x) <==> views(reasons@).contains(x));
        }
    }
    Some((score, out))
}


/// What `str::to_lowercase` gives for a text that is not all ASCII (a
/// function of the text alone, fixed by the Unicode tables that std ships).
pub uninterp spec fn str_lowercase(s: Seq<char>) -> Seq<char>;

/// Every char of `s` is ASCII.
pub open spec fn all_ascii(s: Seq<char>) -> bool {
    forall|i: int| 0 <= i < s.len() ==> is_ascii_char(#[trigger] s[i])
}

/// What `str::to_lowercase` gives: for an ASCII text each char lowercased
/// the ASCII way, else the Unicode lowercase mapping of the text.
pub open spec fn lowercase_str(s: Seq<char>) -> Seq<char> {
    if all_ascii(s) {
        ascii_lower_all(s)
    } else {
        str_lowercase(s)
    }
}

/// Calls `str::to_lowercase`.
/// Claimed of std: the result depends on the text alone, and an ASCII text
/// is lowercased char by char (upper-case ASCII letters move down by 32,
/// every other char stays).
#[verifier::external_body]
pub(crate) fn lowercase_text(s: &str) -> (r: String)
    ensures
        r@ == lowercase_str(s@),
        !all_ascii(s@) ==> r@ == str_lowercase(s@),
{
    s.to_lowercase()
}

/// The first position at or after `i` where `t` occurs in `s` (`str::find`
/// counted in chars; an empty `t` occurs at once).
pub open spec fn find_from(s: Seq<char>, t: Seq<char>, i: int) -> Option<int>
    decreases s.len() - i,
{
    if i < 0 || i + t.len() > s.len() {
        None
    } else if occurs_at(s, t, i) {
        Some(i)
    } else if i >= s.len() {
        None
    } else {
        find_from(s, t, i + 1)
    }
}

pub fn find_chars(s: &Vec<char>, t: &Vec<char>) -> (r: Option<usize>)
    ensures
        r matches Some(i) ==> find_from(s@, t@, 0) == Some(i as int),
        r is None ==> find_from(s@, t@, 0) is None,
{
    if t.len() > s.len() {
        return None;
    }
    let mut i: usize = 0;
    loop
        invariant
            t.len() <= s.len(),
            i <= s.len() - t.len(),
            find_from(s@, t@, 0) == find_from(s@, t@, i as int),
        decreases s.len() - t.len() - i,
    {
        if matches_at(s, t, i) {
            return Some(i);
        }
        if i == s.len() - t.len() {
            proof {
                if i < s.len() {
                    assert(find_from(s@, t@, i + 1) is None);
                }
            }
            return None;
        }
        i += 1;
    }
}

/// The earliest hit of the query terms in a lowercased text: its position and
/// the index of the term, the first term winning a tie (`min_by_key`).
pub open spec fn best_hit(lower: Seq<char>, terms: Seq<Seq<char>>) -> Option<(int, int)>
    decreases terms.len(),
{
    if terms.len() == 0 {
        None
    } else {
        let prev = best_hit(lower, terms.drop_last());
        match find_from(lower, terms.last(), 0) {
            None => prev,
            Some(p) => match prev {
                None => Some((p, terms.len() - 1)),
                Some(q) => if p < q.0 {
                    Some((p, terms.len() - 1))
                } else {
                    prev
                },
            },
        }
    }
}

pub proof fn lemma_find_from_bounds(s: Seq<char>, t: Seq<char>, i: int)
    ensures
        find_from(s, t, i) matches Some(p) ==> i <= p && p + t.len() <= s.len() && occurs_at(s, t, p),
    decreases s.len() - i,
{
    if !(i < 0 || i + t.len() > s.len()) && !occurs_at(s, t, i) && i < s.len() {
        lemma_find_from_bounds(s, t, i + 1);
    }
}

pub proof fn lemma_best_hit_bounds(lower: Seq<char>, terms: Seq<Seq<char>>)
    ensures
        best_hit(lower, terms) matches Some(h) ==> 0 <= h.0 < lower.len() + 1 && 0 <= h.1
            < terms.len() && h.0 + terms[h.1].len() <= lower.len(),
    decreases terms.len(),
{
    if terms.len() > 0 {
        lemma_best_hit_bounds(lower, terms.drop_last());
        lemma_find_from_bounds(lower, terms.last(), 0);
    }
}

fn chars_of_all(v: &Vec<String>) -> (r: Vec<Vec<char>>)
    ensures
        views(r@) == string_views(v@),
{
    let mut r: Vec<Vec<char>> = Vec::new();
    let mut i: usize = 0;
    while i < v.len()
        invariant
            i <= v.len(),
            views(r@) == string_views(v@).take(i as int),
        decreases v.len() - i,
    {
        let c = chars_of(v[i].as_str());
        let ghost prev = r@;
        r.push(c);
        proof {
            lemma_views_push(prev, c);
            assert(string_views(v@).take(i + 1) =~= string_views(v@).take(i as int).push(v@[i as int]@));
        }
        i += 1;
    }
    proof {
        assert(string_views(v@).take(v@.len() as int) == string_views(v@));
    }
    r
}

fn best_hit_of(lower: &Vec<char>, terms: &Vec<Vec<char>>) -> (r: Option<(usize, usize)>)
    ensures
        r matches Some(h) ==> best_hit(lower@, views(terms@)) == Some((h.0 as int, h.1 as int)),
        r is None ==> best_hit(lower@, views(terms@)) is None,
{
    let ghost tv = views(terms@);
    let mut best: Option<(usize, usize)> = None;
    let mut i: usize = 0;
    while i < terms.len()
        invariant
            i <= terms.len(),
            tv == views(terms@),
            best matches Some(h) ==> best_hit(lower@, tv.take(i as int)) == Some((h.0 as int, h.1 as int)),
            best is None ==> best_hit(lower@, tv.take(i as int)) is None,
        decreases terms.len() - i,
    {
        proof {
            assert(tv.take(i + 1).drop_last() == tv.take(i as int));
            assert(tv.take(i + 1).last() == terms@[i as int]@);
        }
        match find_chars(lower, &terms[i]) {
            None => {},
            Some(p) => {
                match best {
                    None => {
                        best = Some((p, i));
                    },
                    Some(q) => {
                        if p < q.0 {
                            best = Some((p, i));
                        }
                    },
                }
            },
        }
        i += 1;
    }
    proof {
        assert(tv.take(tv.len() as int) == tv);
    }
    best
}

/// The byte where a snippet starts: 41 chars before the hit in the lowercased
/// text, or 0 (`char_indices().rev().nth(40)`).
pub open spec fn snippet_start(lower: Seq<char>, p: int) -> nat {
    if p >= 41 {
        byte_len(lower.take(p - 41))
    } else {
        0
    }
}

/// The byte where a snippet ends: 120 chars after the hit in the lowercased
/// text, or the end of the text.
pub open spec fn snippet_end(text: Seq<char>, lower: Seq<char>, p: int) -> nat {
    if p + 120 < lower.len() {
        byte_len(lower.take(p + 120))
    } else {
        byte_len(text)
    }
}

/// The byte range the lowercased text gives can be cut out of the text itself
/// (else slicing the text panics).
pub open spec fn snippet_fits_text(text: Seq<char>, terms: Seq<Seq<char>>) -> bool {
    let lower = lowercase_str(text);
    match best_hit(lower, terms) {
        None => true,
        Some(h) => {
            let sb = snippet_start(lower, h.0);
            let eb = snippet_end(text, lower, h.0);
            sb <= eb && is_boundary(text, sb) && is_boundary(text, eb)
        },
    }
}

/// The snippet shown for a hit: the first 160 chars when no term occurs;
/// else the text around the earliest hit, trimmed, with `...` where it was
/// cut.
pub open spec fn snippet_text(text: Seq<char>, terms: Seq<Seq<char>>) -> Seq<char> {
    let lower = lowercase_str(text);
    match best_hit(lower, terms) {
        None => if text.len() <= 160 {
            text
        } else {
            text.take(160)
        },
        Some(h) => {
            let sb = snippet_start(lower, h.0);
            let eb = snippet_end(text, lower, h.0);
            let a = boundary_index(text, sb);
            let b = boundary_index(text, eb);
            (if sb > 0 {
                "..."@
            } else {
                Seq::<char>::empty()
            }) + trim_ws(text.subrange(a, b)) + (if eb < byte_len(text) {
                "..."@
            } else {
                Seq::<char>::empty()
            })
        },
    }
}

proof fn lemma_ascii_byte_len(s: Seq<char>)
    requires
        all_ascii(s),
    ensures
        byte_len(s) == s.len(),
    decreases s.len(),
{
    if s.len() > 0 {
        let d = s.drop_last();
        assert(all_ascii(d)) by {
            assert forall|i: int| 0 <= i < d.len() implies is_ascii_char(#[trigger] d[i]) by {
                assert(d[i] == s[i]);
            }
        }
        lemma_ascii_byte_len(d);
        assert(is_ascii_char(s[s.len() - 1]));
    }
}

proof fn lemma_ascii_prefix(s: Seq<char>, k: int)
    requires
        all_ascii(s),
        0 <= k <= s.len(),
    ensures
        byte_len(s.take(k)) == k,
{
    assert(all_ascii(s.take(k))) by {
        assert forall|i: int| 0 <= i < k implies is_ascii_char(#[trigger] s.take(k)[i]) by {
            assert(s.take(k)[i] == s[i]);
        }
    }
    lemma_ascii_byte_len(s.take(k));
}

/// An ASCII text always has its snippet: the byte range around the first
/// hit falls on char boundaries, so no search fails on it.
pub proof fn lemma_ascii_snippet_fits(text: Seq<char>, terms: Seq<Seq<char>>)
    requires
        all_ascii(text),
    ensures
        snippet_fits_text(text, terms),
{
    let lower = lowercase_str(text);
    assert(lower == ascii_lower_all(text));
    assert(all_ascii(lower)) by {
        assert forall|i: int| 0 <= i < lower.len() implies is_ascii_char(#[trigger] lower[i]) by {
            let c = text[i];
            assert(lower[i] == ascii_lower(c));
            assert(is_ascii_char(c));
            if is_ascii_upper(c) {
                assert((((c as u32) + 32) as char) as u32 == (c as u32) + 32);
            }
        }
    }
    lemma_best_hit_bounds(lower, terms);
    match best_hit(lower, terms) {
        None => {},
        Some(h) => {
            let p = h.0;
            let sb = snippet_start(lower, p);
            let eb = snippet_end(text, lower, p);
            if p >= 41 {
                lemma_ascii_prefix(lower, p - 41);
                lemma_ascii_prefix(text, p - 41);
            } else {
                lemma_ascii_prefix(text, 0);
            }
            if p + 120 < lower.len() {
                lemma_ascii_prefix(lower, p + 120);
                lemma_ascii_prefix(text, p + 120);
            } else {
                lemma_ascii_byte_len(text);
                lemma_ascii_prefix(text, text.len() as int);
            }
            assert(is_boundary(text, sb));
            assert(is_boundary(text, eb));
        },
    }
}

/// Whether the snippet of `text` for `terms` can be cut out of it.
pub fn snippet_fits(text: &str, terms: &Vec<String>) -> (b: bool)
    ensures
        b == snippet_fits_text(text@, string_views(terms@)),
{
    let tc = chars_of(text);
    let low = lowercase_text(text);
    let lower = chars_of(low.as_str());
    let tv = chars_of_all(terms);
    match best_hit_of(&lower, &tv) {
        None => true,
        Some((p, _)) => {
            proof {
                lemma_best_hit_bounds(lower@, views(tv@));
            }
            let sb: u128 = if p >= 41 {
                prefix_bytes(&lower, p - 41)
            } else {
                0
            };
            let eb: u128 = if lower.len() - p > 120 {
                prefix_bytes(&lower, p + 120)
            } else {
                prefix_bytes(&tc, tc.len())
            };
            proof {
                assert(tc@.take(tc@.len() as int) == tc@);
            }
            sb <= eb && index_at_byte(&tc, sb).is_some() && index_at_byte(&tc, eb).is_some()
        },
    }
}

/// Cuts the snippet of a hit out of a text.
pub fn make_snippet(text: &str, terms: &Vec<String>) -> (r: String)
    requires
        snippet_fits_text(text@, string_views(terms@)),
    ensures
        r@ == snippet_text(text@, string_views(terms@)),
{
    let tc = chars_of(text);
    let low = lowercase_text(text);
    let lower = chars_of(low.as_str());
    let tv = chars_of_all(terms);
    match best_hit_of(&lower, &tv) {
        None => {
            if tc.len() <= 160 {
                string_of(&tc)
            } else {
                let cut = slice_chars(&tc, 0, 160);
                string_of(&cut)
            }
        },
        Some((p, _)) => {
            proof {
                lemma_best_hit_bounds(lower@, views(tv@));
            }
            let sb: u128 = if p >= 41 {
                prefix_bytes(&lower, p - 41)
            } else {
                0
            };
            let eb: u128 = if lower.len() - p > 120 {
                prefix_bytes(&lower, p + 120)
            } else {
                prefix_bytes(&tc, tc.len())
            };
            let total = prefix_bytes(&tc, tc.len());
            proof {
                assert(tc@.take(tc@.len() as int) == tc@);
            }
            let a = match index_at_byte(&tc, sb) {
                Some(a) => a,
                None => {
                    proof {
                        assert(false);
                    }
                    0
                },
            };
            let b = match index_at_byte(&tc, eb) {
                Some(b) => b,
                None => {
                    proof {
                        assert(false);
                    }
                    0
                },
            };
            proof {
                lemma_boundary_index(tc@, sb as nat, a as int);
                lemma_boundary_index(tc@, eb as nat, b as int);
                if b < a {
                    lemma_byte_len_increasing(tc@, b as int, a as int);
                }
            }
            let mut out: Vec<char> = Vec::new();
            if sb > 0 {
                push_str(&mut out, "...");
            }
            let (x, y) = trim_ws_bounds(&tc, a, b);
            let mid = slice_chars(&tc, x, y);
            push_all(&mut out, &mid);
            if eb < total {
                push_str(&mut out, "...");
            }
            string_of(&out)
        },
    }
}

/// The query term whose hit comes first in the lowercased text, or nothing.
pub open spec fn match_text_of(text: Seq<char>, terms: Seq<Seq<char>>) -> Seq<char> {
    match best_hit(lowercase_str(text), terms) {
        Some(h) => terms[h.1],
        None => Seq::<char>::empty(),
    }
}

/// The hit that a snippet is cut around and whose term is the match text is
/// the earliest one: its term occurs first at its position, no term of the
/// query occurs anywhere before it, and of the terms that occur first at
/// the same position it is the first in the query. There is no hit exactly
/// when no term occurs.
pub proof fn lemma_best_hit_is_earliest(lower: Seq<char>, terms: Seq<Seq<char>>)
    ensures
        best_hit(lower, terms) is None <==> forall|j: int|
            0 <= j < terms.len() ==> find_from(lower, #[trigger] terms[j], 0) is None,
        best_hit(lower, terms) matches Some(h) ==> {
            &&& 0 <= h.1 < terms.len()
            &&& find_from(lower, terms[h.1], 0) == Some(h.0)
            &&& forall|j: int|
                0 <= j < terms.len() ==> (find_from(lower, #[trigger] terms[j], 0) matches Some(q) ==> (h.0 < q
                    || (h.0 == q && h.1 <= j)))
        },
    decreases terms.len(),
{
    if terms.len() > 0 {
        let d = terms.drop_last();
        lemma_best_hit_is_earliest(lower, d);
        assert forall|j: int| 0 <= j < d.len() implies d[j] == terms[j] by {}
        let last = terms.len() - 1;
        assert(terms.last() == terms[last]);
        if best_hit(lower, terms) is None {
            assert forall|j: int| 0 <= j < terms.len() implies find_from(lower, #[trigger] terms[j], 0) is None by {
                if j < last {
                    assert(d[j] == terms[j]);
                }
            }
        }
        if forall|j: int| 0 <= j < terms.len() ==> find_from(lower, #[trigger] terms[j], 0) is None {
            assert(find_from(lower, terms[last], 0) is None);
            assert forall|j: int| 0 <= j < d.len() implies find_from(lower, #[trigger] d[j], 0) is None by {
                assert(d[j] == terms[j]);
            }
        }
        match best_hit(lower, terms) {
            None => {},
            Some(h) => {
                assert forall|j: int|
                    0 <= j < terms.len() implies (find_from(lower, #[trigger] terms[j], 0) matches Some(q) ==> (h.0
                        < q || (h.0 == q && h.1 <= j))) by {
                    if j < last {
                        assert(d[j] == terms[j]);
                    }
                }
            },
        }
    }
}

/// The match text is the query term whose first occurrence in the
/// lowercased text comes earliest (the first such term in the query on a
/// tie), or nothing when no term occurs.
pub proof fn lemma_match_text_is_earliest(text: Seq<char>, terms: Seq<Seq<char>>)
    ensures
        (forall|j: int| 0 <= j < terms.len() ==> find_from(lowercase_str(text), #[trigger] terms[j], 0) is None)
            ==> match_text_of(text, terms) == Seq::<char>::empty(),
        (exists|j: int| 0 <= j < terms.len() && find_from(lowercase_str(text), #[trigger] terms[j], 0) is Some)
            ==> exists|k: int|
            0 <= k < terms.len() && match_text_of(text, terms) == terms[k] && (find_from(
                lowercase_str(text),
                #[trigger] terms[k],
                0,
            ) matches Some(p) && forall|j: int|
                0 <= j < terms.len() ==> (find_from(lowercase_str(text), #[trigger] terms[j], 0) matches Some(
                    q,
                ) ==> (p < q || (p == q && k <= j)))),
{
    lemma_best_hit_is_earliest(lowercase_str(text), terms);
    match best_hit(lowercase_str(text), terms) {
        None => {},
        Some(h) => {
            assert(find_from(lowercase_str(text), terms[h.1], 0) == Some(h.0));
        },
    }
}

/// The query term that occurs earliest in the text.
pub fn first_match_text(text: &str, terms: &Vec<String>) -> (r: String)
    ensures
        r@ == match_text_of(text@, string_views(terms@)),
{
    let low = lowercase_text(text);
    let lower = chars_of(low.as_str());
    let tv = chars_of_all(terms);
    match best_hit_of(&lower, &tv) {
        None => String::new(),
        Some((_, k)) => {
            proof {
                lemma_best_hit_bounds(lower@, views(tv@));
            }
            terms[k].clone()
        },
    }
}

/// The term `t` occurs at `i` in `s` whatever the case: the chars there
/// lowercase (`char::to_lowercase`) as the chars of `t` do.
pub open spec fn ci_occurs_at(s: Seq<char>, t: Seq<char>, i: int) -> bool {
    &&& 0 <= i
    &&& i + t.len() <= s.len()
    &&& forall|p: int| i <= p < i + t.len() ==> #[trigger] lowercase_of(s[p]) == lowercase_of(t[p - i])
}

/// `s` with `r` put before every char and at its end (`str::replace` with an
/// empty pattern).
pub open spec fn insert_everywhere(s: Seq<char>, r: Seq<char>) -> Seq<char>
    decreases s.len(),
{
    if s.len() == 0 {
        r
    } else {
        r + seq![s[0]] + insert_everywhere(s.drop_first(), r)
    }
}

/// A stretch of text wrapped in a `<mark>` element.
pub open spec fn marked(m: Seq<char>) -> Seq<char> {
    "<mark>"@ + m + "</mark>"@
}

/// One term marked in a text (`str::replace(term, "<mark>{term}</mark>")`,
/// matching whatever the case): from the left, each occurrence of `t` that
/// does not overlap an earlier one is wrapped, as the text has it, in a
/// `<mark>` element. An empty term puts an empty element before every char
/// and at the end.
pub open spec fn mark_term(s: Seq<char>, t: Seq<char>) -> Seq<char>
    decreases s.len(),
{
    if t.len() == 0 {
        insert_everywhere(s, marked(Seq::<char>::empty()))
    } else if s.len() < t.len() {
        s
    } else if ci_occurs_at(s, t, 0) {
        marked(s.take(t.len() as int)) + mark_term(s.skip(t.len() as int), t)
    } else {
        seq![s[0]] + mark_term(s.drop_first(), t)
    }
}

/// The snippet with each query term marked in turn; a later term is looked
/// for in the text the earlier ones left.
pub open spec fn highlight_text(s: Seq<char>, terms: Seq<Seq<char>>) -> Seq<char>
    decreases terms.len(),
{
    if terms.len() == 0 {
        s
    } else {
        mark_term(highlight_text(s, terms.drop_last()), terms.last())
    }
}

/// The text with every `<mark>` and `</mark>` taken out, read from the left.
pub open spec fn strip_marks(x: Seq<char>) -> Seq<char>
    decreases x.len(),
{
    if x.len() == 0 {
        x
    } else if x.len() >= 6 && x.take(6) == "<mark>"@ {
        strip_marks(x.skip(6))
    } else if x.len() >= 7 && x.take(7) == "</mark>"@ {
        strip_marks(x.skip(7))
    } else {
        seq![x[0]] + strip_marks(x.drop_first())
    }
}

/// The lowercase form of each char of a text.
fn lowercase_each(s: &Vec<char>) -> (low: Vec<Vec<char>>)
    ensures
        low.len() == s.len(),
        forall|p: int| 0 <= p < s.len() ==> #[trigger] low@[p]@ == lowercase_of(s@[p]),
{
    let mut low: Vec<Vec<char>> = Vec::new();
    let mut p: usize = 0;
    while p < s.len()
        invariant
            p <= s.len(),
            low.len() == p,
            forall|q: int| 0 <= q < p ==> #[trigger] low@[q]@ == lowercase_of(s@[q]),
        decreases s.len() - p,
    {
        low.push(lowercase_chars(s[p]));
        p += 1;
    }
    low
}

fn same_chars(a: &Vec<char>, b: &Vec<char>) -> (r: bool)
    ensures
        r == (a@ == b@),
{
    if a.len() != b.len() {
        return false;
    }
    let mut k: usize = 0;
    while k < a.len()
        invariant
            a.len() == b.len(),
            k <= a.len(),
            forall|q: int| 0 <= q < k ==> a@[q] == b@[q],
        decreases a.len() - k,
    {
        if a[k] != b[k] {
            return false;
        }
        k += 1;
    }
    proof {
        assert(a@ =~= b@);
    }
    true
}

/// Whether `t` occurs at `i` in the text whatever the case.
fn ci_matches_at(
    s: &Vec<char>,
    low: &Vec<Vec<char>>,
    t: &Vec<char>,
    lt: &Vec<Vec<char>>,
    i: usize,
) -> (b: bool)
    requires
        low.len() == s.len(),
        forall|p: int| 0 <= p < s.len() ==> #[trigger] low@[p]@ == lowercase_of(s@[p]),
        lt.len() == t.len(),
        forall|p: int| 0 <= p < t.len() ==> #[trigger] lt@[p]@ == lowercase_of(t@[p]),
    ensures
        b == ci_occurs_at(s@, t@, i as int),
{
    if i > s.len() || t.len() > s.len() - i {
        return false;
    }
    let mut k: usize = 0;
    while k < t.len()
        invariant
            i + t.len() <= s.len(),
            k <= t.len(),
            low.len() == s.len(),
            forall|p: int| 0 <= p < s.len() ==> #[trigger] low@[p]@ == lowercase_of(s@[p]),
            lt.len() == t.len(),
            forall|p: int| 0 <= p < t.len() ==> #[trigger] lt@[p]@ == lowercase_of(t@[p]),
            forall|p: int| i <= p < i + k ==> #[trigger] lowercase_of(s@[p]) == lowercase_of(t@[p - i]),
        decreases t.len() - k,
    {
        proof {
            assert(low@[i + k]@ == lowercase_of(s@[i + k]));
            assert(lt@[k as int]@ == lowercase_of(t@[k as int]));
        }
        if !same_chars(&low[i + k], &lt[k]) {
            proof {
                let p = i + k;
                assert(p - i == k);
            }
            return false;
        }
        proof {
            assert forall|p: int| i <= p < i + k + 1 implies #[trigger] lowercase_of(s@[p]) == lowercase_of(t@[p - i]) by {
                if p == i + k {
                    assert(p - i == k);
                }
            }
        }
        k += 1;
    }
    true
}

proof fn lemma_ci_skip(s: Seq<char>, t: Seq<char>, i: int)
    requires
        0 <= i <= s.len(),
    ensures
        ci_occurs_at(s.skip(i), t, 0) == ci_occurs_at(s, t, i),
{
    let r = s.skip(i);
    if ci_occurs_at(s, t, i) {
        assert forall|p: int| 0 <= p < t.len() implies #[trigger] lowercase_of(r[p]) == lowercase_of(t[p - 0]) by {
            assert(r[p] == s[p + i]);
            assert(lowercase_of(s[p + i]) == lowercase_of(t[p + i - i]));
        }
    }
    if ci_occurs_at(r, t, 0) {
        assert forall|p: int| i <= p < i + t.len() implies #[trigger] lowercase_of(s[p]) == lowercase_of(t[p - i]) by {
            assert(r[p - i] == s[p]);
            assert(lowercase_of(r[p - i]) == lowercase_of(t[p - i - 0]));
        }
    }
}

/// Marks one term in a text.
fn mark_term_chars(s: &Vec<char>, t: &Vec<char>) -> (out: Vec<char>)
    ensures
        out@ == mark_term(s@, t@),
{
    let mut out: Vec<char> = Vec::new();
    let mut i: usize = 0;
    proof {
        assert(s@.skip(0) == s@);
    }
    if t.len() == 0 {
        let mut m: Vec<char> = Vec::new();
        push_str(&mut m, "<mark>");
        push_str(&mut m, "</mark>");
        proof {
            assert(m@ =~= marked(Seq::<char>::empty()));
        }
        while i < s.len()
            invariant
                t@.len() == 0,
                i <= s.len(),
                m@ == marked(Seq::<char>::empty()),
                out@ + insert_everywhere(s@.skip(i as int), m@) == mark_term(s@, t@),
            decreases s.len() - i,
        {
            proof {
                let rest = s@.skip(i as int);
                assert(rest.drop_first() == s@.skip(i + 1));
                assert(rest[0] == s@[i as int]);
                assert(out@ + insert_everywhere(rest, m@) == out@ + m@ + seq![s@[i as int]]
                    + insert_everywhere(s@.skip(i + 1), m@));
            }
            push_all(&mut out, &m);
            out.push(s[i]);
            i += 1;
        }
        proof {
            assert(s@.skip(i as int).len() == 0);
        }
        push_all(&mut out, &m);
        return out;
    }
    let low = lowercase_each(s);
    let lt = lowercase_each(t);
    while i < s.len()
        invariant
            t@.len() > 0,
            i <= s.len(),
            low.len() == s.len(),
            forall|p: int| 0 <= p < s.len() ==> #[trigger] low@[p]@ == lowercase_of(s@[p]),
            lt.len() == t.len(),
            forall|p: int| 0 <= p < t.len() ==> #[trigger] lt@[p]@ == lowercase_of(t@[p]),
            out@ + mark_term(s@.skip(i as int), t@) == mark_term(s@, t@),
        decreases s.len() - i,
    {
        let ghost rest = s@.skip(i as int);
        proof {
            lemma_ci_skip(s@, t@, i as int);
        }
        if ci_matches_at(s, &low, t, &lt, i) {
            let ghost before = out@;
            push_str(&mut out, "<mark>");
            let mut k: usize = 0;
            while k < t.len()
                invariant
                    i + t.len() <= s.len(),
                    k <= t.len(),
                    out@ == before + "<mark>"@ + s@.subrange(i as int, i + k),
                decreases t.len() - k,
            {
                out.push(s[i + k]);
                proof {
                    assert(s@.subrange(i as int, i + k + 1) =~= s@.subrange(i as int, i + k).push(s@[i + k]));
                }
                k += 1;
            }
            push_str(&mut out, "</mark>");
            proof {
                assert(rest.take(t@.len() as int) =~= s@.subrange(i as int, i + t@.len()));
                assert(rest.skip(t@.len() as int) =~= s@.skip(i + t@.len()));
                assert(out@ =~= before + marked(rest.take(t@.len() as int)));
                assert(before + mark_term(rest, t@) =~= out@ + mark_term(s@.skip(i + t@.len()), t@));
            }
            i += t.len();
        } else {
            proof {
                assert(rest.drop_first() =~= s@.skip(i + 1));
                assert(rest[0] == s@[i as int]);
                if rest.len() < t@.len() {
                    assert(mark_term(s@.skip(i + 1), t@) == s@.skip(i + 1));
                    assert(rest =~= seq![rest[0]] + rest.drop_first());
                }
                assert(out@ + mark_term(rest, t@) =~= out@.push(s@[i as int]) + mark_term(s@.skip(i + 1), t@));
            }
            out.push(s[i]);
            i += 1;
        }
    }
    proof {
        assert(s@.skip(i as int).len() == 0);
        assert(out@ + Seq::<char>::empty() =~= out@);
    }
    out
}

/// Highlights the query terms in a snippet: each term in turn, every
/// occurrence of it, whatever its case, put inside a `<mark>` element.
pub fn highlight_snippet(snippet: &str, terms: &Vec<String>) -> (r: String)
    ensures
        r@ == highlight_text(snippet@, string_views(terms@)),
{
    let ghost tv = string_views(terms@);
    let mut cur = chars_of(snippet);
    let mut i: usize = 0;
    while i < terms.len()
        invariant
            i <= terms.len(),
            tv == string_views(terms@),
            cur@ == highlight_text(snippet@, tv.take(i as int)),
        decreases terms.len() - i,
    {
        let t = chars_of(terms[i].as_str());
        proof {
            assert(tv.take(i + 1).drop_last() == tv.take(i as int));
            assert(tv.take(i + 1).last() == terms@[i as int]@);
        }
        cur = mark_term_chars(&cur, &t);
        i += 1;
    }
    proof {
        assert(tv.take(tv.len() as int) == tv);
    }
    string_of(&cur)
}

/// A term that can never match inside or across a `<mark>` or `</mark>`:
/// not empty, none of its chars lowercases as `<`, `>` or `/` does, and it
/// does not occur in `mark` whatever the case.
pub open spec fn mark_safe(t: Seq<char>) -> bool {
    &&& t.len() > 0
    &&& forall|k: int|
        0 <= k < t.len() ==> #[trigger] lowercase_of(t[k]) != seq!['<'] && lowercase_of(t[k]) != seq!['>']
            && lowercase_of(t[k]) != seq!['/']
    &&& forall|j: int| !ci_occurs_at("mark"@, t, j)
}

proof fn lemma_strip_open(y: Seq<char>)
    ensures
        strip_marks("<mark>"@ + y) == strip_marks(y),
{
    reveal_strlit("<mark>");
    let x = "<mark>"@ + y;
    assert(x.take(6) =~= "<mark>"@);
    assert(x.skip(6) =~= y);
}

proof fn lemma_strip_close(y: Seq<char>)
    ensures
        strip_marks("</mark>"@ + y) == strip_marks(y),
{
    reveal_strlit("<mark>");
    reveal_strlit("</mark>");
    let x = "</mark>"@ + y;
    assert(x[1] == '/');
    assert(x.take(6) != "<mark>"@) by {
        assert(x.take(6)[1] != "<mark>"@[1]);
    }
    assert(x.take(7) =~= "</mark>"@);
    assert(x.skip(7) =~= y);
}

proof fn lemma_strip_keep(x: Seq<char>)
    requires
        x.len() > 0,
        !(x.len() >= 6 && x.take(6) == "<mark>"@),
        !(x.len() >= 7 && x.take(7) == "</mark>"@),
    ensures
        strip_marks(x) == seq![x[0]] + strip_marks(x.drop_first()),
{
}

proof fn lemma_strip_prefix(m: Seq<char>, y: Seq<char>)
    requires
        forall|k: int| 0 <= k < m.len() ==> m[k] != '<',
    ensures
        strip_marks(m + y) == m + strip_marks(y),
    decreases m.len(),
{
    reveal_strlit("<mark>");
    reveal_strlit("</mark>");
    if m.len() > 0 {
        let x = m + y;
        assert(x[0] == m[0]);
        if x.len() >= 6 {
            assert(x.take(6)[0] != "<mark>"@[0]);
        }
        if x.len() >= 7 {
            assert(x.take(7)[0] != "</mark>"@[0]);
        }
        lemma_strip_keep(x);
        let d = m.drop_first();
        assert forall|k: int| 0 <= k < d.len() implies d[k] != '<' by {
            assert(d[k] == m[k + 1]);
        }
        lemma_strip_prefix(d, y);
        assert(x.drop_first() =~= d + y);
        assert(seq![m[0]] + (d + strip_marks(y)) =~= m + strip_marks(y));
    }
}

/// A marked stretch holds no `<`.
proof fn lemma_match_has_no_lt(x: Seq<char>, t: Seq<char>)
    requires
        mark_safe(t),
        ci_occurs_at(x, t, 0),
    ensures
        forall|k: int| 0 <= k < t.len() ==> x.take(t.len() as int)[k] != '<',
{
    assert forall|k: int| 0 <= k < t.len() implies x.take(t.len() as int)[k] != '<' by {
        assert(lowercase_of(x[k]) == lowercase_of(t[k - 0]));
        assert(lowercase_of('<') == seq!['<']);
        assert(lowercase_of(t[k]) != seq!['<']);
    }
}

/// A tag, or the rest of one, passes through the marking of a safe term
/// unchanged.
proof fn lemma_tag_passes(tag: Seq<char>, j: int, y: Seq<char>, t: Seq<char>)
    requires
        tag == "<mark>"@ || tag == "</mark>"@,
        0 <= j <= tag.len(),
        mark_safe(t),
    ensures
        mark_term(tag.skip(j) + y, t) == tag.skip(j) + mark_term(y, t),
    decreases tag.len() - j,
{
    reveal_strlit("<mark>");
    reveal_strlit("</mark>");
    reveal_strlit("mark");
    let u = tag.skip(j);
    let x = u + y;
    if j == tag.len() {
        assert(x =~= y);
        assert(u + mark_term(y, t) =~= mark_term(y, t));
    } else if x.len() < t.len() {
        assert(y.len() < t.len());
        assert(x =~= u + y);
    } else {
        let off: int = if tag == "<mark>"@ {
            1
        } else {
            2
        };
        assert(tag.len() == off + 5);
        assert(tag.subrange(off, off + 4) =~= "mark"@);
        assert(tag[tag.len() - 1] == '>');
        assert(lowercase_of('<') == seq!['<']);
        assert(lowercase_of('>') == seq!['>']);
        assert(lowercase_of('/') == seq!['/']);
        if ci_occurs_at(x, t, 0) {
            if j < off {
                assert(x[0] == tag[j]);
                assert(tag[j] == '<' || tag[j] == '/');
                assert(lowercase_of(x[0]) == lowercase_of(t[0 - 0]));
                assert(lowercase_of(t[0]) != seq!['<'] && lowercase_of(t[0]) != seq!['/']);
            } else if j + t.len() > off + 4 {
                let p0 = off + 4 - j;
                assert(0 <= p0 < t.len());
                assert(x[p0] == tag[off + 4]);
                assert(lowercase_of(x[p0]) == lowercase_of(t[p0 - 0]));
                assert(lowercase_of(t[p0]) != seq!['>']);
            } else {
                let st = j - off;
                assert forall|p: int| st <= p < st + t.len() implies #[trigger] lowercase_of("mark"@[p])
                    == lowercase_of(t[p - st]) by {
                    let q = p - st;
                    assert(x[q] == tag[j + q]);
                    assert(tag[j + q] == "mark"@[p]);
                    assert(lowercase_of(x[q]) == lowercase_of(t[q - 0]));
                }
                assert(ci_occurs_at("mark"@, t, st));
            }
        }
        assert(x[0] == u[0]);
        assert(x.drop_first() =~= tag.skip(j + 1) + y);
        lemma_tag_passes(tag, j + 1, y, t);
        assert(seq![u[0]] + (tag.skip(j + 1) + mark_term(y, t)) =~= u + mark_term(y, t));
    }
}

/// A stretch at the start of the marked text that holds no `<` is the same
/// stretch of the text.
proof fn lemma_mark_window(y: Seq<char>, t: Seq<char>, n: int)
    requires
        mark_safe(t),
        0 <= n <= mark_term(y, t).len(),
        forall|k: int| 0 <= k < n ==> mark_term(y, t)[k] != '<',
    ensures
        n <= y.len(),
        mark_term(y, t).take(n) == y.take(n),
    decreases y.len(),
{
    reveal_strlit("<mark>");
    let o = mark_term(y, t);
    if n == 0 {
        assert(o.take(0) =~= y.take(0));
    } else if y.len() < t.len() {
    } else if ci_occurs_at(y, t, 0) {
        assert(o[0] == '<');
    } else {
        let d = y.drop_first();
        let od = mark_term(d, t);
        assert(o =~= seq![y[0]] + od);
        assert forall|k: int| 0 <= k < n - 1 implies od[k] != '<' by {
            assert(od[k] == o[k + 1]);
        }
        lemma_mark_window(d, t, n - 1);
        assert(o.take(n) =~= seq![y[0]] + od.take(n - 1));
        assert(y.take(n) =~= seq![y[0]] + d.take(n - 1));
    }
}

/// Marking a safe term adds only `<mark>` and `</mark>` elements: taking
/// them out gives what taking them out of the text gives.
proof fn lemma_mark_term_strips(x: Seq<char>, t: Seq<char>)
    requires
        mark_safe(t),
    ensures
        strip_marks(mark_term(x, t)) == strip_marks(x),
    decreases x.len(),
{
    reveal_strlit("<mark>");
    reveal_strlit("</mark>");
    let open = "<mark>"@;
    let close = "</mark>"@;
    if x.len() == 0 {
    } else if x.len() >= 6 && x.take(6) == open {
        assert(x =~= open.skip(0) + x.skip(6));
        lemma_tag_passes(open, 0, x.skip(6), t);
        lemma_mark_term_strips(x.skip(6), t);
        lemma_strip_open(mark_term(x.skip(6), t));
        assert(open.skip(0) =~= open);
    } else if x.len() >= 7 && x.take(7) == close {
        assert(x =~= close.skip(0) + x.skip(7));
        lemma_tag_passes(close, 0, x.skip(7), t);
        lemma_mark_term_strips(x.skip(7), t);
        lemma_strip_close(mark_term(x.skip(7), t));
        assert(close.skip(0) =~= close);
    } else if x.len() < t.len() {
    } else if ci_occurs_at(x, t, 0) {
        let n = t.len() as int;
        let m = x.take(n);
        let rest = x.skip(n);
        lemma_match_has_no_lt(x, t);
        lemma_mark_term_strips(rest, t);
        let mt = mark_term(rest, t);
        assert(mark_term(x, t) =~= open + (m + (close + mt)));
        lemma_strip_open(m + (close + mt));
        lemma_strip_prefix(m, close + mt);
        lemma_strip_close(mt);
        assert(x =~= m + rest);
        lemma_strip_prefix(m, rest);
    } else {
        let d = x.drop_first();
        let od = mark_term(d, t);
        let o = mark_term(x, t);
        assert(o =~= seq![x[0]] + od);
        assert(o[0] == x[0]);
        if o.len() >= 6 && o.take(6) == open {
            assert forall|k: int| 0 <= k < 5 implies od[k] != '<' by {
                assert(od[k] == o[k + 1]);
                assert(o[k + 1] == open[k + 1]);
            }
            lemma_mark_window(d, t, 5);
            assert(x.take(6) =~= seq![x[0]] + d.take(5));
            assert(open =~= seq![o[0]] + od.take(5));
        }
        if o.len() >= 7 && o.take(7) == close {
            assert forall|k: int| 0 <= k < 6 implies od[k] != '<' by {
                assert(od[k] == o[k + 1]);
                assert(o[k + 1] == close[k + 1]);
            }
            lemma_mark_window(d, t, 6);
            assert(x.take(7) =~= seq![x[0]] + d.take(6));
            assert(close =~= seq![o[0]] + od.take(6));
        }
        lemma_strip_keep(o);
        assert(o.drop_first() =~= od);
        lemma_mark_term_strips(d, t);
    }
}

/// Taking the `<mark>` and `</mark>` elements out of a highlighted snippet
/// gives what taking them out of the snippet gives, when no term can match
/// inside or across such an element.
pub proof fn lemma_highlight_strips(s: Seq<char>, terms: Seq<Seq<char>>)
    requires
        forall|j: int| 0 <= j < terms.len() ==> mark_safe(#[trigger] terms[j]),
    ensures
        strip_marks(highlight_text(s, terms)) == strip_marks(s),
    decreases terms.len(),
{
    if terms.len() > 0 {
        let d = terms.drop_last();
        assert forall|j: int| 0 <= j < d.len() implies mark_safe(#[trigger] d[j]) by {
            assert(d[j] == terms[j]);
        }
        lemma_highlight_strips(s, d);
        lemma_mark_term_strips(highlight_text(s, d), terms.last());
    }
}

/// The snippet holds no `<mark>` and no `</mark>` of its own.
pub open spec fn no_mark_tags(s: Seq<char>) -> bool {
    forall|k: int| !occurs_at(s, "<mark>"@, k) && !occurs_at(s, "</mark>"@, k)
}

proof fn lemma_strip_plain(s: Seq<char>)
    requires
        no_mark_tags(s),
    ensures
        strip_marks(s) == s,
    decreases s.len(),
{
    reveal_strlit("<mark>");
    reveal_strlit("</mark>");
    if s.len() > 0 {
        if s.len() >= 6 && s.take(6) == "<mark>"@ {
            assert(s.subrange(0, 6) =~= s.take(6));
            assert(occurs_at(s, "<mark>"@, 0));
        }
        if s.len() >= 7 && s.take(7) == "</mark>"@ {
            assert(s.subrange(0, 7) =~= s.take(7));
            assert(occurs_at(s, "</mark>"@, 0));
        }
        let d = s.drop_first();
        assert forall|k: int| !occurs_at(d, "<mark>"@, k) && !occurs_at(d, "</mark>"@, k) by {
            if occurs_at(d, "<mark>"@, k) {
                assert(s.subrange(k + 1, k + 7) =~= d.subrange(k, k + 6));
                assert(occurs_at(s, "<mark>"@, k + 1));
            }
            if occurs_at(d, "</mark>"@, k) {
                assert(s.subrange(k + 1, k + 8) =~= d.subrange(k, k + 7));
                assert(occurs_at(s, "</mark>"@, k + 1));
            }
        }
        lemma_strip_plain(d);
        assert(seq![s[0]] + d =~= s);
    }
}

/// Taking the `<mark>` and `</mark>` elements out of a highlighted snippet
/// gives back the snippet, for a snippet that holds no such element of its
/// own and terms that cannot match inside or across one.
pub proof fn lemma_highlight_strips_back(s: Seq<char>, terms: Seq<Seq<char>>)
    requires
        no_mark_tags(s),
        forall|j: int| 0 <= j < terms.len() ==> mark_safe(#[trigger] terms[j]),
    ensures
        strip_marks(highlight_text(s, terms)) == s,
{
    lemma_highlight_strips(s, terms);
    lemma_strip_plain(s);
}

/// One session as the search index stores it.
pub struct IndexedSession {
    pub slug: String,
    pub title: String,
    pub updated_at: u64,
    pub searchable_text: String,
    pub fields: Vec<FieldCounts>,
}

/// A session that matched a query, before its details are read.
pub struct RankedDocument {
    pub slug: String,
    pub score: usize,
    pub reasons: Vec<String>,
    pub snippet: String,
    pub highlighted_snippet: String,
    pub match_text: String,
    pub updated_at: u64,
}

/// What a search comes to.
pub enum SearchOutcome {
    /// The query holds no term: every session is listed with score 0.
    AllSessions,
    /// The matching sessions, best score first, ties in index order.
    Ranked(Vec<RankedDocument>),
    /// A score does not fit a `usize` (the sum overflows).
    ScoreOverflow,
    /// A snippet's byte range does not fall on char boundaries of the text
    /// (slicing the text panics).
    SnippetOutOfBounds,
}

pub open spec fn doc_overflows(d: IndexedSession, terms: Seq<Seq<char>>) -> bool {
    doc_score(d.fields@, terms) > usize::MAX
}

/// The document matches: its score is above 0 (and fits).
pub open spec fn doc_hits(d: IndexedSession, terms: Seq<Seq<char>>) -> bool {
    !doc_overflows(d, terms) && doc_score(d.fields@, terms) > 0
}

pub open spec fn doc_snippet_fails(d: IndexedSession, terms: Seq<Seq<char>>) -> bool {
    doc_hits(d, terms) && !snippet_fits_text(d.searchable_text@, terms)
}

pub open spec fn doc_fails(d: IndexedSession, terms: Seq<Seq<char>>) -> bool {
    doc_overflows(d, terms) || doc_snippet_fails(d, terms)
}

/// Document `k` is the first one on which the search fails.
pub open spec fn first_failure(docs: Seq<IndexedSession>, terms: Seq<Seq<char>>, k: int) -> bool {
    &&& 0 <= k < docs.len()
    &&& doc_fails(docs[k], terms)
    &&& forall|j: int| 0 <= j < k ==> !doc_fails(#[trigger] docs[j], terms)
}

/// `r` is the search result for document `d`.
pub open spec fn ranked_doc(r: RankedDocument, d: IndexedSession, terms: Seq<Seq<char>>) -> bool {
    &&& r.slug@ == d.slug@
    &&& r.score == doc_score(d.fields@, terms)
    &&& strictly_sorted(string_views(r.reasons@))
    &&& forall|x: Seq<char>| string_views(r.reasons@).contains(x) <==> is_reason(d.fields@, terms, x)
    &&& r.snippet@ == snippet_text(d.searchable_text@, terms)
    &&& r.highlighted_snippet@ == highlight_text(r.snippet@, terms)
    &&& r.match_text@ == match_text_of(d.searchable_text@, terms)
    &&& r.updated_at == d.updated_at
}

/// Document `a` comes before document `b`: a higher score, or the same score
/// and an earlier place (a stable sort by score, best first).
pub open spec fn ranks_before(docs: Seq<IndexedSession>, terms: Seq<Seq<char>>, a: int, b: int) -> bool {
    let sa = doc_score(docs[a].fields@, terms);
    let sb = doc_score(docs[b].fields@, terms);
    sa > sb || (sa == sb && a < b)
}

/// `v` lists the documents of `order`, which are the matching documents of
/// `docs[..n]` in ranking order.
pub open spec fn ranking_order(
    v: Seq<RankedDocument>,
    docs: Seq<IndexedSession>,
    terms: Seq<Seq<char>>,
    order: Seq<int>,
    n: int,
) -> bool {
    &&& order.len() == v.len()
    &&& forall|i: int|
        0 <= i < order.len() ==> 0 <= #[trigger] order[i] < n && doc_hits(docs[order[i]], terms)
            && ranked_doc(v[i], docs[order[i]], terms)
    &&& forall|i: int, j: int|
        0 <= i < j < order.len() ==> ranks_before(docs, terms, #[trigger] order[i], #[trigger] order[j])
    &&& forall|m: int| 0 <= m < n && doc_hits(#[trigger] docs[m], terms) ==> order.contains(m)
}

/// `v` is the ranked list of the documents that match.
pub open spec fn ranking_of(v: Seq<RankedDocument>, docs: Seq<IndexedSession>, terms: Seq<Seq<char>>) -> bool {
    exists|order: Seq<int>| ranking_order(v, docs, terms, order, docs.len() as int)
}

/// A search over documents whose texts are ASCII never fails on a snippet:
/// the first failure, where there is one, is a score that overflows.
pub proof fn lemma_ascii_documents_have_snippets(docs: Seq<IndexedSession>, terms: Seq<Seq<char>>)
    requires
        forall|i: int| 0 <= i < docs.len() ==> all_ascii(#[trigger] docs[i].searchable_text@),
    ensures
        forall|k: int| first_failure(docs, terms, k) ==> doc_overflows(#[trigger] docs[k], terms),
{
    assert forall|k: int| first_failure(docs, terms, k) implies doc_overflows(#[trigger] docs[k], terms) by {
        lemma_ascii_snippet_fits(docs[k].searchable_text@, terms);
    }
}

/// Whether a query lists every session (it holds no term).
pub fn lists_all_sessions(query: &str) -> (b: bool)
    ensures
        b == (tokens_of(query@).len() == 0),
{
    let terms = tokenize(query);
    terms.len() == 0
}

/// Searches the indexed sessions for the terms of a query.
pub fn search(documents: &Vec<IndexedSession>, query: &str) -> (r: SearchOutcome)
    ensures
        tokens_of(query@).len() == 0 ==> r is AllSessions,
        tokens_of(query@).len() > 0 ==> (r is ScoreOverflow <==> exists|k: int|
            first_failure(documents@, tokens_of(query@), k) && doc_overflows(
                #[trigger] documents@[k],
                tokens_of(query@),
            )),
        tokens_of(query@).len() > 0 ==> (r is SnippetOutOfBounds <==> exists|k: int|
            first_failure(documents@, tokens_of(query@), k) && !doc_overflows(
                #[trigger] documents@[k],
                tokens_of(query@),
            )),
        r matches SearchOutcome::Ranked(v) ==> tokens_of(query@).len() > 0 && ranking_of(
            v@,
            documents@,
            tokens_of(query@),
        ),
        tokens_of(query@).len() > 0 && !(exists|k: int| first_failure(documents@, tokens_of(query@), k))
            ==> (r matches SearchOutcome::Ranked(v) && ranking_of(v@, documents@, tokens_of(query@))),
{
    let terms = tokenize(query);
    let ghost tv = string_views(terms@);
    if terms.len() == 0 {
        return SearchOutcome::AllSessions;
    }
    let ghost docs = documents@;
    let mut hits: Vec<RankedDocument> = Vec::new();
    let ghost mut order: Seq<int> = Seq::empty();
    let mut k: usize = 0;
    while k < documents.len()
        invariant
            k <= documents.len(),
            docs == documents@,
            tv == string_views(terms@),
            tv == tokens_of(query@),
            tv.len() > 0,
            ranking_order(hits@, docs, tv, order, k as int),
            forall|m: int| 0 <= m < k ==> !doc_fails(#[trigger] docs[m], tv),
        decreases documents.len() - k,
    {
        let d = &documents[k];
        let scored = score_document(&d.fields, &terms);
        match scored {
            None => {
                proof {
                    assert(first_failure(docs, tv, k as int));
                    assert forall|j: int|
                        first_failure(docs, tv, j) && !doc_overflows(#[trigger] docs[j], tv) implies false by {
                        if j < k {
                        } else if j > k {
                            assert(!doc_fails(docs[k as int], tv));
                        }
                    }
                }
                return SearchOutcome::ScoreOverflow;
            },
            Some((score, reasons)) => {
                if score > 0 {
                    if !snippet_fits(d.searchable_text.as_str(), &terms) {
                        proof {
                            assert(first_failure(docs, tv, k as int));
                            assert forall|j: int|
                                first_failure(docs, tv, j) && doc_overflows(#[trigger] docs[j], tv) implies false by {
                                if j < k {
                                } else if j > k {
                                    assert(!doc_fails(docs[k as int], tv));
                                }
                            }
                        }
                        return SearchOutcome::SnippetOutOfBounds;
                    }
                    let snippet = make_snippet(d.searchable_text.as_str(), &terms);
                    let highlighted_snippet = highlight_snippet(snippet.as_str(), &terms);
                    let match_text = first_match_text(d.searchable_text.as_str(), &terms);
                    let ranked = RankedDocument {
                        slug: d.slug.clone(),
                        score,
                        reasons,
                        snippet,
                        highlighted_snippet,
                        match_text,
                        updated_at: d.updated_at,
                    };
                    let mut pos: usize = 0;
                    while pos < hits.len() && hits[pos].score >= score
                        invariant
                            pos <= hits.len(),
                            ranking_order(hits@, docs, tv, order, k as int),
                            score == doc_score(docs[k as int].fields@, tv),
                            forall|i: int| 0 <= i < pos ==> (#[trigger] hits@[i]).score >= score,
                        decreases hits.len() - pos,
                    {
                        pos += 1;
                    }
                    let ghost old_hits = hits@;
                    let ghost old_order = order;
                    hits.insert(pos, ranked);
                    proof {
                        order = old_order.insert(pos as int, k as int);
                        assert(ranked_doc(ranked, docs[k as int], tv));
                        assert forall|i: int| 0 <= i < order.len() implies 0 <= #[trigger] order[i] < k + 1
                            && doc_hits(docs[order[i]], tv) && ranked_doc(hits@[i], docs[order[i]], tv) by {
                            if i < pos {
                                assert(order[i] == old_order[i] && hits@[i] == old_hits[i]);
                            } else if i > pos {
                                assert(order[i] == old_order[i - 1] && hits@[i] == old_hits[i - 1]);
                            }
                        }
                        assert forall|i: int, j: int|
                            0 <= i < j < order.len() implies ranks_before(docs, tv, #[trigger] order[i], #[trigger] order[j]) by {
                            if j < pos {
                                assert(order[i] == old_order[i] && order[j] == old_order[j]);
                            } else if j == pos {
                                assert(order[i] == old_order[i]);
                                assert(old_hits[i].score == doc_score(docs[old_order[i]].fields@, tv));
                                assert(old_hits[i] == hits@[i]);
                            } else if i == pos {
                                assert(order[j] == old_order[j - 1]);
                                let o = old_order[pos as int];
                                assert(old_hits[pos as int].score < score);
                                assert(old_hits[pos as int].score == doc_score(docs[o].fields@, tv));
                                if j - 1 > pos {
                                    assert(ranks_before(docs, tv, o, old_order[j - 1]));
                                }
                            } else if i < pos {
                                assert(order[i] == old_order[i] && order[j] == old_order[j - 1]);
                            } else {
                                assert(order[i] == old_order[i - 1] && order[j] == old_order[j - 1]);
                            }
                        }
                        assert forall|m: int| 0 <= m < k + 1 && doc_hits(#[trigger] docs[m], tv) implies order.contains(m) by {
                            if m == k {
                                assert(order[pos as int] == m);
                            } else {
                                let i = choose|i: int| 0 <= i < old_order.len() && old_order[i] == m;
                                if i < pos {
                                    assert(order[i] == m);
                                } else {
                                    assert(order[i + 1] == m);
                                }
                            }
                        }
                    }
                } else {
                    proof {
                        assert forall|m: int| 0 <= m < k + 1 && doc_hits(#[trigger] docs[m], tv) implies order.contains(m) by {
                            if m == k {
                                assert(false);
                            }
                        }
                        assert forall|i: int| 0 <= i < order.len() implies 0 <= #[trigger] order[i] < k + 1 by {
                        }
                    }
                }
            },
        }
        k += 1;
    }
    proof {
        assert(ranking_order(hits@, docs, tv, order, docs.len() as int));
        assert forall|j: int| !(first_failure(docs, tv, j)) by {
            if 0 <= j < docs.len() {
                assert(!doc_fails(docs[j], tv));
            }
        }
    }
    SearchOutcome::Ranked(hits)
}


/// A search hit with the details of its session.
pub struct SearchHit {
    pub score: usize,
    pub reasons: Vec<String>,
    pub snippet: String,
    pub highlighted_snippet: String,
    pub match_text: String,
    pub updated_at: u64,
    pub session: SessionDetails,
}

/// The sizes of a rebuilt index.
pub struct IndexStats {
    pub sessions: usize,
    pub documents: usize,
    pub terms: usize,
}

/// The index as it is stored.
pub struct PersistedIndex {
    pub stats: IndexStats,
    pub updated_at: u64,
    pub documents: Vec<IndexedSession>,
}

/// A session as read for indexing: its details, the text of its transcript
/// files, and when it last changed.
pub struct SessionSnapshot {
    pub session: SessionDetails,
    pub transcript_text: String,
    pub updated_at: u64,
}

impl SearchHit {
    /// The hit for a ranked document, with its session's details.
    pub fn from_ranked(r: RankedDocument, session: SessionDetails) -> (h: SearchHit)
        ensures
            h.score == r.score,
            h.reasons == r.reasons,
            h.snippet == r.snippet,
            h.highlighted_snippet == r.highlighted_snippet,
            h.match_text == r.match_text,
            h.updated_at == r.updated_at,
            h.session == session,
    {
        SearchHit {
            score: r.score,
            reasons: r.reasons,
            snippet: r.snippet,
            highlighted_snippet: r.highlighted_snippet,
            match_text: r.match_text,
            updated_at: r.updated_at,
            session,
        }
    }

    /// The entry for a session when a query lists every session: score 0 and
    /// the one reason `全部会议`.
    pub fn listed(session: SessionDetails, updated_at: u64) -> (h: SearchHit)
        ensures
            h.score == 0,
            string_views(h.reasons@) == seq!["全部会议"@],
            h.snippet@.len() == 0,
            h.highlighted_snippet@.len() == 0,
            h.match_text@.len() == 0,
            h.updated_at == updated_at,
            h.session == session,
    {
        let mut reasons: Vec<String> = Vec::new();
        reasons.push(String::from_str("全部会议"));
        proof {
            assert(string_views(reasons@) =~= seq!["全部会议"@]);
        }
        SearchHit {
            score: 0,
            reasons,
            snippet: String::new(),
            highlighted_snippet: String::new(),
            match_text: String::new(),
            updated_at,
            session,
        }
    }
}

/// The fields of a session and their term counts, in the order of their
/// names: recordings, screenshots, title, notes, transcripts, audio.
pub open spec fn session_fields_spec(
    fs: Seq<FieldCounts>,
    session: SessionDetails,
    transcript: Seq<char>,
) -> bool {
    &&& fs.len() == 6
    &&& fs[0].field@ == "录屏"@ && counts_of(fs[0].counts@, tokens_of_all(string_views(session.recordings@)))
    &&& fs[1].field@ == "截图"@ && counts_of(fs[1].counts@, tokens_of_all(string_views(session.screenshots@)))
    &&& fs[2].field@ == "标题"@ && counts_of(fs[2].counts@, tokens_of(session.title@))
    &&& fs[3].field@ == "笔记"@ && counts_of(fs[3].counts@, tokens_of(session.notes@))
    &&& fs[4].field@ == "转写"@ && counts_of(fs[4].counts@, tokens_of(transcript))
    &&& fs[5].field@ == "音频"@ && counts_of(fs[5].counts@, tokens_of_all(string_views(session.audio@)))
}

/// Counts the terms of each field of a session.
pub fn session_fields(session: &SessionDetails, transcript: &str) -> (fs: Vec<FieldCounts>)
    ensures
        session_fields_spec(fs@, *session, transcript@),
{
    let mut fs: Vec<FieldCounts> = Vec::new();
    fs.push(FieldCounts { field: String::from_str("录屏"), counts: count_many(&session.recordings) });
    fs.push(FieldCounts { field: String::from_str("截图"), counts: count_many(&session.screenshots) });
    fs.push(FieldCounts { field: String::from_str("标题"), counts: count_terms(session.title.as_str()) });
    fs.push(FieldCounts { field: String::from_str("笔记"), counts: count_terms(session.notes.as_str()) });
    fs.push(FieldCounts { field: String::from_str("转写"), counts: count_terms(transcript) });
    fs.push(FieldCounts { field: String::from_str("音频"), counts: count_many(&session.audio) });
    fs
}

/// The text searched for snippets: title, notes, the file lists and the
/// transcripts, one per line.
pub open spec fn searchable_text_of(session: SessionDetails, transcript: Seq<char>) -> Seq<char> {
    join(
        seq![
            session.title@,
            session.notes@,
            join(string_views(session.screenshots@), "\n"@),
            join(string_views(session.recordings@), "\n"@),
            join(string_views(session.audio@), "\n"@),
            transcript,
        ],
        "\n"@,
    )
}

pub fn searchable_text(session: &SessionDetails, transcript: &str) -> (r: String)
    ensures
        r@ == searchable_text_of(*session, transcript@),
{
    let mut parts: Vec<String> = Vec::new();
    parts.push(session.title.clone());
    parts.push(session.notes.clone());
    parts.push(string_of(&join_strings(&session.screenshots, "\n")));
    parts.push(string_of(&join_strings(&session.recordings, "\n")));
    parts.push(string_of(&join_strings(&session.audio, "\n")));
    parts.push(String::from_str(transcript));
    proof {
        assert(string_views(parts@) =~= seq![
            session.title@,
            session.notes@,
            join(string_views(session.screenshots@), "\n"@),
            join(string_views(session.recordings@), "\n"@),
            join(string_views(session.audio@), "\n"@),
            transcript@,
        ]);
    }
    string_of(&join_strings(&parts, "\n"))
}

/// `t` is the term of entry `k` of field `j` of document `i`.
pub open spec fn term_at(docs: Seq<IndexedSession>, i: int, j: int, k: int, t: Seq<char>) -> bool {
    &&& 0 <= i < docs.len()
    &&& 0 <= j < docs[i].fields@.len()
    &&& 0 <= k < docs[i].fields@[j].counts@.len()
    &&& docs[i].fields@[j].counts@[k].term@ == t
}

/// Every term some field of some document counts.
pub open spec fn index_terms(docs: Seq<IndexedSession>) -> Set<Seq<char>> {
    Set::new(|t: Seq<char>| exists|i: int, j: int, k: int| #[trigger] term_at(docs, i, j, k, t))
}

/// The document stored for a session.
pub open spec fn indexed_session_of(d: IndexedSession, snap: SessionSnapshot) -> bool {
    &&& d.slug@ == snap.session.slug@
    &&& d.title@ == snap.session.title@
    &&& d.updated_at == snap.updated_at
    &&& d.searchable_text@ == searchable_text_of(snap.session, snap.transcript_text@)
    &&& session_fields_spec(d.fields@, snap.session, snap.transcript_text@)
}

/// Builds the documents of the index and its sizes: one document per
/// session, and the number of distinct terms over all fields.
pub fn index_documents(snapshots: &Vec<SessionSnapshot>) -> (r: (IndexStats, Vec<IndexedSession>))
    ensures
        r.1@.len() == snapshots@.len(),
        forall|i: int| 0 <= i < snapshots@.len() ==> indexed_session_of(#[trigger] r.1@[i], snapshots@[i]),
        r.0.sessions == snapshots@.len(),
        r.0.documents == snapshots@.len(),
        index_terms(r.1@).finite(),
        r.0.terms == index_terms(r.1@).len(),
{
    let mut docs: Vec<IndexedSession> = Vec::new();
    let mut i: usize = 0;
    while i < snapshots.len()
        invariant
            i <= snapshots.len(),
            docs@.len() == i,
            forall|m: int| 0 <= m < i ==> indexed_session_of(#[trigger] docs@[m], snapshots@[m]),
        decreases snapshots.len() - i,
    {
        let snap = &snapshots[i];
        let doc = IndexedSession {
            slug: snap.session.slug.clone(),
            title: snap.session.title.clone(),
            updated_at: snap.updated_at,
            searchable_text: searchable_text(&snap.session, snap.transcript_text.as_str()),
            fields: session_fields(&snap.session, snap.transcript_text.as_str()),
        };
        docs.push(doc);
        i += 1;
    }
    let ghost dv = docs@;
    let mut terms: Vec<Vec<char>> = Vec::new();
    let mut a: usize = 0;
    while a < docs.len()
        invariant
            a <= docs.len(),
            dv == docs@,
            strictly_sorted(views(terms@)),
            forall|t: Seq<char>|
                views(terms@).to_set().contains(t) <==> exists|x: int, y: int, z: int|
                    #[trigger] term_at(dv, x, y, z, t) && x < a,
        decreases docs.len() - a,
    {
        let mut b: usize = 0;
        while b < docs[a].fields.len()
            invariant
                a < docs.len(),
                b <= docs[a as int].fields@.len(),
                dv == docs@,
                strictly_sorted(views(terms@)),
                forall|t: Seq<char>|
                    views(terms@).to_set().contains(t) <==> exists|x: int, y: int, z: int|
                        #[trigger] term_at(dv, x, y, z, t) && (x < a || (x == a && y < b)),
            decreases docs[a as int].fields@.len() - b,
        {
            let mut c: usize = 0;
            while c < docs[a].fields[b].counts.len()
                invariant
                    a < docs.len(),
                    b < docs[a as int].fields@.len(),
                    c <= docs[a as int].fields@[b as int].counts@.len(),
                    dv == docs@,
                    strictly_sorted(views(terms@)),
                    forall|t: Seq<char>|
                        views(terms@).to_set().contains(t) <==> exists|x: int, y: int, z: int|
                            #[trigger] term_at(dv, x, y, z, t) && (x < a || (x == a && y < b) || (x
                                == a && y == b && z < c)),
                decreases docs[a as int].fields@[b as int].counts@.len() - c,
            {
                let t = chars_of(docs[a].fields[b].counts[c].term.as_str());
                let ghost prev = views(terms@).to_set();
                insert_sorted_unique(&mut terms, t);
                proof {
                    assert(term_at(dv, a as int, b as int, c as int, t@));
                    assert forall|u: Seq<char>|
                        views(terms@).to_set().contains(u) <==> exists|x: int, y: int, z: int|
                            #[trigger] term_at(dv, x, y, z, u) && (x < a || (x == a && y < b) || (x
                                == a && y == b && z < c + 1)) by {
                        if views(terms@).to_set().contains(u) && u != t@ {
                            assert(prev.contains(u));
                        }
                        if exists|x: int, y: int, z: int|
                            #[trigger] term_at(dv, x, y, z, u) && (x < a || (x == a && y < b) || (x
                                == a && y == b && z < c + 1)) {
                            let (x, y, z) = choose|x: int, y: int, z: int|
                                #[trigger] term_at(dv, x, y, z, u) && (x < a || (x == a && y < b)
                                    || (x == a && y == b && z < c + 1));
                            if !(x == a && y == b && z == c) {
                                assert(prev.contains(u));
                            }
                        }
                    }
                }
                c += 1;
            }
            proof {
                assert forall|u: Seq<char>|
                    views(terms@).to_set().contains(u) <==> exists|x: int, y: int, z: int|
                        #[trigger] term_at(dv, x, y, z, u) && (x < a || (x == a && y < b + 1)) by {
                    if exists|x: int, y: int, z: int|
                        #[trigger] term_at(dv, x, y, z, u) && (x < a || (x == a && y < b + 1)) {
                        let (x, y, z) = choose|x: int, y: int, z: int|
                            #[trigger] term_at(dv, x, y, z, u) && (x < a || (x == a && y < b + 1));
                        assert(term_at(dv, x, y, z, u) && (x < a || (x == a && y < b) || (x == a
                            && y == b && z < c)));
                    }
                }
            }
            b += 1;
        }
        proof {
            assert forall|u: Seq<char>|
                views(terms@).to_set().contains(u) <==> exists|x: int, y: int, z: int|
                    #[trigger] term_at(dv, x, y, z, u) && x < a + 1 by {
                if exists|x: int, y: int, z: int| #[trigger] term_at(dv, x, y, z, u) && x < a + 1 {
                    let (x, y, z) = choose|x: int, y: int, z: int|
                        #[trigger] term_at(dv, x, y, z, u) && x < a + 1;
                    assert(term_at(dv, x, y, z, u) && (x < a || (x == a && y < b)));
                }
            }
        }
        a += 1;
    }
    proof {
        let tv = views(terms@);
        assert(tv.to_set() =~= index_terms(dv)) by {
            assert forall|u: Seq<char>| tv.to_set().contains(u) <==> index_terms(dv).contains(u) by {
                if index_terms(dv).contains(u) {
                    let (x, y, z) = choose|x: int, y: int, z: int| #[trigger] term_at(dv, x, y, z, u);
                    assert(term_at(dv, x, y, z, u) && x < a);
                }
            }
        }
        assert(tv.no_duplicates()) by {
            assert forall|p: int, q: int| 0 <= p < tv.len() && 0 <= q < tv.len() && p != q implies tv[p] != tv[q] by {
                if p < q {
                    assert(seq_lt(tv[p], tv[q]));
                    crate::text::lemma_seq_lt_irreflexive(tv[p]);
                } else {
                    assert(seq_lt(tv[q], tv[p]));
                    crate::text::lemma_seq_lt_irreflexive(tv[q]);
                }
            }
        }
        tv.unique_seq_to_set();
        vstd::seq_lib::seq_to_set_is_finite(tv);
    }
    let stats = IndexStats { sessions: snapshots.len(), documents: docs.len(), terms: terms.len() };
    (stats, docs)
}


/// A field adds its count of a term times its weight to the term's score.
pub proof fn lemma_term_score_field(fs: Seq<FieldCounts>, t: Seq<char>, j: int)
    requires
        0 <= j < fs.len(),
    ensures
        term_score(fs, t) >= lookup(fs[j].counts@, t) * weight(fs[j].field@),
    decreases fs.len(),
{
    if j < fs.len() - 1 {
        lemma_term_score_field(fs.drop_last(), t, j);
        assert(fs.drop_last()[j] == fs[j]);
    }
}

/// Each query term adds its score to the document's.
pub proof fn lemma_doc_score_term(fs: Seq<FieldCounts>, terms: Seq<Seq<char>>, i: int)
    requires
        0 <= i < terms.len(),
    ensures
        doc_score(fs, terms) >= term_score(fs, terms[i]),
    decreases terms.len(),
{
    if i < terms.len() - 1 {
        lemma_doc_score_term(fs, terms.drop_last(), i);
        assert(terms.drop_last()[i] == terms[i]);
    }
}

/// A session whose title holds a term of the query is found by a search of
/// the index built from it, with a score of at least 5 (the title's weight),
/// unless its score overflows.
pub proof fn lemma_title_match_found(
    snapshots: Seq<SessionSnapshot>,
    docs: Seq<IndexedSession>,
    query: Seq<char>,
    k: int,
    i: int,
    v: Seq<RankedDocument>,
)
    requires
        docs.len() == snapshots.len(),
        forall|m: int| 0 <= m < snapshots.len() ==> indexed_session_of(#[trigger] docs[m], snapshots[m]),
        0 <= k < snapshots.len(),
        0 <= i < tokens_of(query).len(),
        occurrences(tokens_of(snapshots[k].session.title@), tokens_of(query)[i]) > 0,
        !doc_overflows(docs[k], tokens_of(query)),
        ranking_of(v, docs, tokens_of(query)),
    ensures
        exists|j: int| 0 <= j < v.len() && (#[trigger] v[j]).slug@ == snapshots[k].session.slug@ && v[j].score >= 5,
{
    let terms = tokens_of(query);
    let t = terms[i];
    let d = docs[k];
    assert(indexed_session_of(d, snapshots[k]));
    let fs = d.fields@;
    assert(fs[2].field@ == "标题"@);
    assert(lookup(fs[2].counts@, t) == occurrences(tokens_of(snapshots[k].session.title@), t));
    lemma_term_score_field(fs, t, 2);
    let c = lookup(fs[2].counts@, t);
    assert(c * 5 >= 5) by (nonlinear_arith)
        requires
            c >= 1,
    ;
    lemma_doc_score_term(fs, terms, i);
    assert(doc_score(fs, terms) >= 5);
    assert(doc_hits(d, terms));
    let order = choose|order: Seq<int>| ranking_order(v, docs, terms, order, docs.len() as int);
    assert(order.contains(k));
    let j = choose|j: int| 0 <= j < order.len() && order[j] == k;
    assert(ranked_doc(v[j], docs[order[j]], terms));
}


/// A document one of whose fields counts a term of the query is found by the
/// search, with at least that field's weight as score, unless its score
/// overflows.
pub proof fn lemma_field_match_found(
    docs: Seq<IndexedSession>,
    terms: Seq<Seq<char>>,
    k: int,
    i: int,
    f: int,
    v: Seq<RankedDocument>,
)
    requires
        0 <= k < docs.len(),
        0 <= i < terms.len(),
        0 <= f < docs[k].fields@.len(),
        lookup(docs[k].fields@[f].counts@, terms[i]) > 0,
        !doc_overflows(docs[k], terms),
        ranking_of(v, docs, terms),
    ensures
        exists|j: int| 0 <= j < v.len() && (#[trigger] v[j]).slug@ == docs[k].slug@
            && v[j].score >= weight(docs[k].fields@[f].field@),
{
    let fs = docs[k].fields@;
    let t = terms[i];
    let c = lookup(fs[f].counts@, t);
    let w = weight(fs[f].field@);
    lemma_term_score_field(fs, t, f);
    assert(c * w >= w) by (nonlinear_arith)
        requires
            c >= 1,
            w >= 0,
    ;
    lemma_doc_score_term(fs, terms, i);
    assert(w >= 1);
    assert(doc_hits(docs[k], terms));
    let order = choose|order: Seq<int>| ranking_order(v, docs, terms, order, docs.len() as int);
    assert(order.contains(k));
    let j = choose|j: int| 0 <= j < order.len() && order[j] == k;
    assert(ranked_doc(v[j], docs[order[j]], terms));
}

} // verus!
