use vstd::prelude::*;

use crate::order::{lemma_ranks_before_strict, ranks_before};
use crate::rank::{count_of, distinct_count, is_top_k, strictly_ranked, words};
use crate::tokenize::{all_tokens, fold_line, line_tokens};

verus! {

/// Where two top-k lists agree before position `i`, the entry of the first at `i`
/// does not rank before that of the second.
proof fn lemma_top_k_step(
    ts: Seq<Seq<char>>,
    k: nat,
    r1: Seq<(Seq<char>, nat)>,
    r2: Seq<(Seq<char>, nat)>,
    i: int,
)
    requires
        is_top_k(ts, k, r1),
        is_top_k(ts, k, r2),
        0 <= i < r1.len(),
        forall|j: int| 0 <= j < i ==> r1[j] == r2[j],
    ensures
        !ranks_before(r1[i], r2[i]),
{
    let a = r1[i];
    let b = r2[i];
    assert(ts.contains(a.0) && a.1 == count_of(ts, a.0));
    assert(ts.contains(b.0) && b.1 == count_of(ts, b.0));
    lemma_ranks_before_strict(a, b);
    if ranks_before(a, b) {
        if words(r2).contains(a.0) {
            let j = choose|j: int| 0 <= j < words(r2).len() && words(r2)[j] == a.0;
            assert(r2[j].0 == a.0);
            assert(ts.contains(r2[j].0) && r2[j].1 == count_of(ts, r2[j].0));
            assert(r2[j] == a);
            if j < i {
                assert(r1[j] == a);
                assert(ranks_before(r1[j], r1[i]));
                lemma_ranks_before_strict(a, a);
            } else if j > i {
                assert(ranks_before(r2[i], r2[j]));
            } else {
                lemma_ranks_before_strict(a, a);
            }
        } else {
            assert(ranks_before(r2[i], (a.0, count_of(ts, a.0))));
        }
    }
}

proof fn lemma_top_k_prefix_agree(
    ts: Seq<Seq<char>>,
    k: nat,
    r1: Seq<(Seq<char>, nat)>,
    r2: Seq<(Seq<char>, nat)>,
    i: int,
)
    requires
        is_top_k(ts, k, r1),
        is_top_k(ts, k, r2),
        0 <= i <= r1.len(),
    ensures
        forall|j: int| 0 <= j < i ==> r1[j] == r2[j],
    decreases i,
{
    if i > 0 {
        lemma_top_k_prefix_agree(ts, k, r1, r2, i - 1);
        lemma_top_k_step(ts, k, r1, r2, i - 1);
        lemma_top_k_step(ts, k, r2, r1, i - 1);
        let a = r1[i - 1];
        let b = r2[i - 1];
        lemma_ranks_before_strict(a, b);
        assert(a.1 == count_of(ts, a.0));
        assert(b.1 == count_of(ts, b.0));
        assert(a == b);
    }
}

/// The top-k list of a token sequence is unique: whoever computes it, and however often,
/// gets the same entries in the same order.
pub proof fn lemma_top_k_unique(
    ts: Seq<Seq<char>>,
    k: nat,
    r1: Seq<(Seq<char>, nat)>,
    r2: Seq<(Seq<char>, nat)>,
)
    requires
        is_top_k(ts, k, r1),
        is_top_k(ts, k, r2),
    ensures
        r1 == r2,
{
    lemma_top_k_prefix_agree(ts, k, r1, r2, r1.len() as int);
    assert(r1 =~= r2);
}

proof fn lemma_same_folded_lines_same_tokens(lines1: Seq<Seq<char>>, lines2: Seq<Seq<char>>)
    requires
        lines1.len() == lines2.len(),
        forall|i: int| 0 <= i < lines1.len() ==> fold_line(#[trigger] lines1[i]) == fold_line(lines2[i]),
    ensures
        all_tokens(lines1) == all_tokens(lines2),
    decreases lines1.len(),
{
    if lines1.len() > 0 {
        let n = lines1.len() - 1;
        assert(fold_line(lines1[n]) == fold_line(lines2[n]));
        assert(line_tokens(lines1.last()) == line_tokens(lines2.last()));
        assert forall|i: int| 0 <= i < lines1.drop_last().len() implies fold_line(#[trigger] lines1.drop_last()[i]) == fold_line(lines2.drop_last()[i]) by {
            assert(fold_line(lines1[i]) == fold_line(lines2[i]));
        }
        lemma_same_folded_lines_same_tokens(lines1.drop_last(), lines2.drop_last());
    }
}

/// Case does not matter: lines that differ only in the case of ASCII letters give the
/// same top-k list.
pub proof fn lemma_case_insensitive(
    lines1: Seq<Seq<char>>,
    lines2: Seq<Seq<char>>,
    k: nat,
    r1: Seq<(Seq<char>, nat)>,
    r2: Seq<(Seq<char>, nat)>,
)
    requires
        lines1.len() == lines2.len(),
        forall|i: int| 0 <= i < lines1.len() ==> fold_line(#[trigger] lines1[i]) == fold_line(lines2[i]),
        is_top_k(all_tokens(lines1), k, r1),
        is_top_k(all_tokens(lines2), k, r2),
    ensures
        r1 == r2,
{
    lemma_same_folded_lines_same_tokens(lines1, lines2);
    lemma_top_k_unique(all_tokens(lines1), k, r1, r2);
}

/// The sum of the counts of a list of entries.
pub open spec fn total_count(r: Seq<(Seq<char>, nat)>) -> nat
    decreases r.len(),
{
    if r.len() == 0 {
        0
    } else {
        total_count(r.drop_last()) + r.last().1
    }
}

/// The occurrences in `ts` of the words of `ws`, word by word.
spec fn occurrences(ws: Seq<Seq<char>>, ts: Seq<Seq<char>>) -> nat
    decreases ws.len(),
{
    if ws.len() == 0 {
        0
    } else {
        occurrences(ws.drop_last(), ts) + count_of(ts, ws.last())
    }
}

proof fn lemma_occurrences_push(ws: Seq<Seq<char>>, ts: Seq<Seq<char>>, t: Seq<char>)
    requires
        ws.no_duplicates(),
    ensures
        occurrences(ws, ts.push(t)) == occurrences(ws, ts) + if ws.contains(t) { 1nat } else { 0nat },
    decreases ws.len(),
{
    assert(ts.push(t).drop_last() == ts);
    if ws.len() > 0 {
        let p = ws.drop_last();
        assert(p.no_duplicates()) by {
            assert forall|i: int, j: int| 0 <= i < j < p.len() implies p[i] != p[j] by {
                assert(p[i] == ws[i] && p[j] == ws[j]);
            }
        }
        lemma_occurrences_push(p, ts, t);
        if ws.last() == t {
            if p.contains(t) {
                let i = choose|i: int| 0 <= i < p.len() && p[i] == t;
                assert(ws[i] == ws[ws.len() - 1]);
            }
        } else {
            if ws.contains(t) {
                let i = choose|i: int| 0 <= i < ws.len() && ws[i] == t;
                assert(p[i] == t);
            }
            if p.contains(t) {
                let i = choose|i: int| 0 <= i < p.len() && p[i] == t;
                assert(ws[i] == t);
            }
        }
    }
}

proof fn lemma_occurrences_cover(ws: Seq<Seq<char>>, ts: Seq<Seq<char>>)
    requires
        ws.no_duplicates(),
        forall|j: int| 0 <= j < ts.len() ==> ws.contains(#[trigger] ts[j]),
    ensures
        occurrences(ws, ts) == ts.len(),
    decreases ts.len(),
{
    if ts.len() == 0 {
        assert forall|i: int| 0 <= i <= ws.len() implies occurrences(#[trigger] ws.take(i), ts) == 0 by {
            lemma_occurrences_empty(ws, ts, i);
        }
        assert(ws.take(ws.len() as int) == ws);
    } else {
        let p = ts.drop_last();
        assert forall|j: int| 0 <= j < p.len() implies ws.contains(#[trigger] p[j]) by {
            assert(p[j] == ts[j]);
        }
        lemma_occurrences_cover(ws, p);
        assert(p.push(ts.last()) == ts);
        assert(ws.contains(ts[ts.len() - 1]));
        lemma_occurrences_push(ws, p, ts.last());
    }
}

proof fn lemma_occurrences_empty(ws: Seq<Seq<char>>, ts: Seq<Seq<char>>, i: int)
    requires
        ts.len() == 0,
        0 <= i <= ws.len(),
    ensures
        occurrences(ws.take(i), ts) == 0,
    decreases i,
{
    if i > 0 {
        assert(ws.take(i).drop_last() == ws.take(i - 1));
        lemma_occurrences_empty(ws, ts, i - 1);
    }
}

proof fn lemma_total_count_occurrences(ts: Seq<Seq<char>>, r: Seq<(Seq<char>, nat)>)
    requires
        forall|i: int| 0 <= i < r.len() ==> (#[trigger] r[i]).1 == count_of(ts, r[i].0),
    ensures
        total_count(r) == occurrences(words(r), ts),
    decreases r.len(),
{
    if r.len() > 0 {
        let p = r.drop_last();
        assert(words(p) == words(r).drop_last());
        assert forall|i: int| 0 <= i < p.len() implies (#[trigger] p[i]).1 == count_of(ts, p[i].0) by {
            assert(p[i] == r[i]);
        }
        lemma_total_count_occurrences(ts, p);
        assert(r[r.len() - 1].1 == count_of(ts, r[r.len() - 1].0));
    }
}

proof fn lemma_ranked_words_distinct(r: Seq<(Seq<char>, nat)>, ts: Seq<Seq<char>>)
    requires
        strictly_ranked(r),
        forall|i: int| 0 <= i < r.len() ==> (#[trigger] r[i]).1 == count_of(ts, r[i].0),
    ensures
        words(r).no_duplicates(),
{
    assert forall|i: int, j: int| 0 <= i < j < words(r).len() implies words(r)[i] != words(r)[j] by {
        assert(ranks_before(r[i], r[j]));
        if r[i].0 == r[j].0 {
            assert(r[i].1 == count_of(ts, r[i].0));
            assert(r[j].1 == count_of(ts, r[j].0));
            assert(r[i] == r[j]);
            lemma_ranks_before_strict(r[i], r[j]);
        }
    }
}

/// Where `k` reaches the number of distinct tokens, the top-k list holds every token, and
/// its counts add up to the number of tokens.
pub proof fn lemma_full_list_counts_all_tokens(ts: Seq<Seq<char>>, k: nat, r: Seq<(Seq<char>, nat)>)
    requires
        is_top_k(ts, k, r),
        k >= distinct_count(ts),
    ensures
        total_count(r) == ts.len(),
{
    let ws = words(r);
    lemma_ranked_words_distinct(r, ts);
    ws.unique_seq_to_set();
    assert(ws.to_set().subset_of(ts.to_set())) by {
        assert forall|w: Seq<char>| ws.to_set().contains(w) implies ts.to_set().contains(w) by {
            let i = choose|i: int| 0 <= i < ws.len() && ws[i] == w;
            assert(ts.contains(r[i].0));
        }
    }
    assert forall|j: int| 0 <= j < ts.len() implies ws.contains(#[trigger] ts[j]) by {
        let w = ts[j];
        if !ws.contains(w) {
            assert(ts.to_set().contains(w));
            assert(ws.to_set().subset_of(ts.to_set().remove(w)));
            vstd::set_lib::lemma_len_subset(ws.to_set(), ts.to_set().remove(w));
        }
    }
    lemma_total_count_occurrences(ts, r);
    lemma_occurrences_cover(ws, ts);
}

} // verus!
