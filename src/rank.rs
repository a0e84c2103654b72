use vstd::prelude::*;

use crate::order::{lemma_ranks_before_strict, lemma_ranks_before_transitive, ranks_before, word_lt};
use crate::tokenize::{all_tokens, is_folded_word, lemma_all_tokens_folded, split_words, views};

verus! {

/// How often `w` occurs in `ts`.
pub open spec fn count_of(ts: Seq<Seq<char>>, w: Seq<char>) -> nat
    decreases ts.len(),
{
    if ts.len() == 0 {
        0
    } else {
        count_of(ts.drop_last(), w) + if ts.last() == w {
            1nat
        } else {
            0nat
        }
    }
}

/// A ranked entry as a word and its count.
pub open spec fn entry_view(e: (String, usize)) -> (Seq<char>, nat) {
    (e.0@, e.1 as nat)
}

/// The views of a sequence of entries.
pub open spec fn entries(v: Seq<(String, usize)>) -> Seq<(Seq<char>, nat)> {
    v.map_values(|e: (String, usize)| entry_view(e))
}

/// The words of a sequence of entries.
pub open spec fn words(r: Seq<(Seq<char>, nat)>) -> Seq<Seq<char>> {
    r.map_values(|e: (Seq<char>, nat)| e.0)
}

/// `t` is a frequency table of `ts`: each distinct token once, with its number of occurrences.
pub open spec fn is_tally(ts: Seq<Seq<char>>, t: Seq<(Seq<char>, nat)>) -> bool {
    &&& words(t).no_duplicates()
    &&& words(t).to_set() == ts.to_set()
    &&& forall|i: int| 0 <= i < t.len() ==> (#[trigger] t[i]).1 == count_of(ts, t[i].0)
}

/// Each entry of `r` ranks before every later one.
pub open spec fn strictly_ranked(r: Seq<(Seq<char>, nat)>) -> bool {
    forall|i: int, j: int| 0 <= i < j < r.len() ==> ranks_before(#[trigger] r[i], #[trigger] r[j])
}

/// The number of distinct tokens of `ts`.
pub open spec fn distinct_count(ts: Seq<Seq<char>>) -> nat {
    ts.to_set().len()
}

/// `r` holds the `k` best-ranked entries of the frequency table of `ts` (all of them
/// where there are fewer), best first.
pub open spec fn is_top_k(ts: Seq<Seq<char>>, k: nat, r: Seq<(Seq<char>, nat)>) -> bool {
    &&& r.len() == if k < distinct_count(ts) { k } else { distinct_count(ts) }
    &&& forall|i: int| 0 <= i < r.len() ==> ts.contains(#[trigger] r[i].0) && r[i].1 == count_of(ts, r[i].0)
    &&& strictly_ranked(r)
    &&& forall|w: Seq<char>, i: int|
        #![trigger ts.contains(w), r[i]]
        ts.contains(w) && !words(r).contains(w) && 0 <= i < r.len() ==> ranks_before(r[i], (w, count_of(ts, w)))
}

proof fn lemma_count_of_bound(ts: Seq<Seq<char>>, w: Seq<char>)
    ensures
        count_of(ts, w) <= ts.len(),
        !ts.contains(w) ==> count_of(ts, w) == 0,
    decreases ts.len(),
{
    if ts.len() > 0 {
        lemma_count_of_bound(ts.drop_last(), w);
        if !ts.contains(w) {
            assert forall|i: int| 0 <= i < ts.drop_last().len() implies ts.drop_last()[i] != w by {
                assert(ts.drop_last()[i] == ts[i]);
            }
            assert(ts.last() != w);
        }
    }
}

proof fn lemma_all_tokens_prefix(lines: Seq<Seq<char>>, n: int)
    requires
        0 <= n <= lines.len(),
    ensures
        all_tokens(lines.take(n)).len() <= all_tokens(lines).len(),
    decreases lines.len(),
{
    if n < lines.len() {
        assert(lines.drop_last().take(n) == lines.take(n));
        lemma_all_tokens_prefix(lines.drop_last(), n);
    } else {
        assert(lines.take(n) == lines);
    }
}

/// Counts one more occurrence of `w` in a frequency table.
fn record(table: &mut Vec<(String, usize)>, w: String, Ghost(ts): Ghost<Seq<Seq<char>>>)
    requires
        is_tally(ts, entries(old(table)@)),
        ts.len() < usize::MAX,
    ensures
        is_tally(ts.push(w@), entries(final(table)@)),
{
    let ghost t = entries(table@);
    let ghost ts2 = ts.push(w@);
    assert(ts2.drop_last() == ts);
    assert(ts2.to_set() == ts.to_set().insert(w@)) by {
        assert forall|x: Seq<char>| ts2.to_set().contains(x) <==> ts.to_set().insert(w@).contains(x) by {
            if ts2.contains(x) && x != w@ {
                let i = choose|i: int| 0 <= i < ts2.len() && ts2[i] == x;
                assert(ts[i] == x);
            }
            if ts.contains(x) {
                let i = choose|i: int| 0 <= i < ts.len() && ts[i] == x;
                assert(ts2[i] == x);
            }
            assert(ts2[ts.len() as int] == w@);
        }
    }
    let mut i: usize = 0;
    while i < table.len()
        invariant
            table@ == old(table)@,
            t == entries(table@),
            is_tally(ts, t),
            ts.len() < usize::MAX,
            ts2 == ts.push(w@),
            ts2.drop_last() == ts,
            ts2.to_set() == ts.to_set().insert(w@),
            forall|j: int| 0 <= j < i ==> table@[j].0@ != w@,
        decreases table.len() - i,
    {
        if table[i].0 == w {
            proof {
                lemma_count_of_bound(ts, w@);
            }
            assert(t[i as int].0 == w@);
            assert(t[i as int].1 == count_of(ts, w@));
            let c = table[i].1 + 1;
            table[i].1 = c;
            proof {
                let t2 = entries(table@);
                assert(words(t2) =~= words(t));
                assert forall|j: int| 0 <= j < t2.len() implies (#[trigger] t2[j]).1 == count_of(ts2, t2[j].0) by {
                    assert(t[j].0 == t2[j].0);
                    assert(ts2.last() == w@);
                    assert(count_of(ts2, t2[j].0) == count_of(ts, t2[j].0) + if w@ == t2[j].0 { 1nat } else { 0nat });
                    if j != i {
                        assert(t2[j] == t[j]);
                        assert(words(t)[j] != words(t)[i as int]);
                    } else {
                        assert(t2[j].1 == t[j].1 + 1);
                    }
                }
                assert(words(t).to_set().contains(w@)) by {
                    assert(words(t)[i as int] == w@);
                }
                assert(ts.to_set().insert(w@) =~= ts.to_set());
            }
            return;
        }
        i = i + 1;
    }
    proof {
        assert(!words(t).contains(w@));
        assert(!ts.contains(w@)) by {
            if ts.contains(w@) {
                assert(ts.to_set().contains(w@));
            }
        }
        lemma_count_of_bound(ts, w@);
    }
    table.push((w, 1));
    proof {
        let t2 = entries(table@);
        assert(words(t2) == words(t).push(w@));
        assert(words(t2).to_set() == words(t).to_set().insert(w@)) by {
            let a = words(t);
            let b = words(t2);
            assert forall|x: Seq<char>| b.to_set().contains(x) <==> a.to_set().insert(w@).contains(x) by {
                if b.contains(x) && x != w@ {
                    let i = choose|i: int| 0 <= i < b.len() && b[i] == x;
                    assert(a[i] == x);
                }
                if a.contains(x) {
                    let i = choose|i: int| 0 <= i < a.len() && a[i] == x;
                    assert(b[i] == x);
                }
                assert(b[a.len() as int] == w@);
            }
        }
        assert forall|j: int| 0 <= j < t2.len() implies (#[trigger] t2[j]).1 == count_of(ts2, t2[j].0) by {
            if j < t.len() {
                assert(t2[j] == t[j]);
                assert(t[j].0 != w@) by {
                    assert(words(t)[j] == t[j].0);
                }
            }
        }
    }
}

/// Builds the frequency table of the tokens of all lines.
pub fn tally(logs: &[String]) -> (t: Vec<(String, usize)>)
    requires
        all_tokens(views(logs@)).len() <= usize::MAX,
    ensures
        is_tally(all_tokens(views(logs@)), entries(t@)),
{
    let ghost lines = views(logs@);
    let mut table: Vec<(String, usize)> = Vec::new();
    assert(lines.take(0) == Seq::<Seq<char>>::empty());
    assert(all_tokens(lines.take(0)).to_set() =~= Set::<Seq<char>>::empty());
    assert(words(entries(table@)).to_set() =~= Set::<Seq<char>>::empty());
    let mut li: usize = 0;
    while li < logs.len()
        invariant
            lines == views(logs@),
            all_tokens(lines).len() <= usize::MAX,
            li <= logs.len(),
            is_tally(all_tokens(lines.take(li as int)), entries(table@)),
        decreases logs.len() - li,
    {
        let toks = split_words(logs[li].as_str());
        let ghost done = all_tokens(lines.take(li as int));
        proof {
            assert(lines.take(li + 1).drop_last() == lines.take(li as int));
            assert(all_tokens(lines.take(li + 1)) == done + views(toks@));
            lemma_all_tokens_prefix(lines, li + 1);
            assert(done + views(toks@).take(0) == done);
        }
        let mut j: usize = 0;
        while j < toks.len()
            invariant
                j <= toks.len(),
                (done + views(toks@)).len() <= usize::MAX,
                is_tally(done + views(toks@).take(j as int), entries(table@)),
            decreases toks.len() - j,
        {
            let w = toks[j].clone();
            record(&mut table, w, Ghost(done + views(toks@).take(j as int)));
            assert(done + views(toks@).take(j + 1) == (done + views(toks@).take(j as int)).push(toks@[j as int]@));
            j = j + 1;
        }
        assert(views(toks@).take(j as int) == views(toks@));
        li = li + 1;
    }
    assert(lines.take(li as int) == lines);
    table
}

proof fn lemma_folded_word_is_ascii(w: Seq<char>)
    requires
        is_folded_word(w),
    ensures
        vstd::utf8::is_ascii_chars(w),
{
    assert forall|i: int| 0 <= i < w.len() implies '\0' <= #[trigger] w[i] <= '\u{7f}' by {
        assert(crate::tokenize::is_folded_word_char(w[i]));
    }
}

/// Tells whether entry `a` ranks before entry `b`.
pub fn ranks_first(a: &(String, usize), b: &(String, usize)) -> (r: bool)
    requires
        is_folded_word(a.0@),
        is_folded_word(b.0@),
    ensures
        r == ranks_before(entry_view(*a), entry_view(*b)),
{
    proof {
        lemma_folded_word_is_ascii(a.0@);
        lemma_folded_word_is_ascii(b.0@);
    }
    a.1 > b.1 || (a.1 == b.1 && word_lt(a.0.as_str(), b.0.as_str()))
}

/// Sorts a frequency table by the ranking rule.
fn sort_ranked(table: Vec<(String, usize)>) -> (r: Vec<(String, usize)>)
    requires
        words(entries(table@)).no_duplicates(),
        forall|i: int| 0 <= i < table@.len() ==> is_folded_word(#[trigger] table@[i].0@),
    ensures
        r@.len() == table@.len(),
        strictly_ranked(entries(r@)),
        forall|x: (Seq<char>, nat)| entries(r@).contains(x) <==> entries(table@).contains(x),
        forall|i: int| 0 <= i < r@.len() ==> is_folded_word(#[trigger] r@[i].0@),
{
    let ghost all = entries(table@);
    let mut rest = table;
    let mut sorted: Vec<(String, usize)> = Vec::new();
    while rest.len() > 0
        invariant
            all == entries(table@),
            words(all).no_duplicates(),
            forall|i: int| 0 <= i < table@.len() ==> is_folded_word(#[trigger] table@[i].0@),
            rest@ == table@.take(rest@.len() as int),
            rest@.len() <= table@.len(),
            sorted@.len() + rest@.len() == table@.len(),
            strictly_ranked(entries(sorted@)),
            forall|i: int| 0 <= i < sorted@.len() ==> is_folded_word(#[trigger] sorted@[i].0@),
            forall|x: (Seq<char>, nat)|
                entries(sorted@).contains(x) <==> all.subrange(rest@.len() as int, all.len() as int).contains(x),
        decreases rest@.len(),
    {
        let ghost n = rest@.len() - 1;
        let e = rest.pop().unwrap();
        let ghost ev = entry_view(e);
        let ghost old_sorted = entries(sorted@);
        let ghost prev = sorted@;
        assert(e == table@[n]);
        assert(ev == all[n]);
        assert(is_folded_word(e.0@));
        proof {
            assert forall|q: int| 0 <= q < old_sorted.len() implies (#[trigger] old_sorted[q]).0 != ev.0 by {
                assert(old_sorted.contains(old_sorted[q]));
                let tail = all.subrange(n + 1, all.len() as int);
                let m = choose|m: int| 0 <= m < tail.len() && tail[m] == old_sorted[q];
                assert(all[n + 1 + m] == old_sorted[q]);
                assert(words(all)[n + 1 + m] != words(all)[n]);
            }
        }
        let mut p: usize = 0;
        while p < sorted.len() && ranks_first(&sorted[p], &e)
            invariant
                p <= sorted@.len(),
                old_sorted == entries(sorted@),
                ev == entry_view(e),
                is_folded_word(e.0@),
                forall|i: int| 0 <= i < sorted@.len() ==> is_folded_word(#[trigger] sorted@[i].0@),
                forall|q: int| 0 <= q < p ==> ranks_before(#[trigger] old_sorted[q], ev),
            decreases sorted@.len() - p,
        {
            p = p + 1;
        }
        proof {
            assert forall|q: int| p <= q < old_sorted.len() implies ranks_before(ev, #[trigger] old_sorted[q]) by {
                lemma_ranks_before_strict(old_sorted[p as int], ev);
                if q > p {
                    lemma_ranks_before_transitive(ev, old_sorted[p as int], old_sorted[q]);
                }
            }
        }
        sorted.insert(p, e);
        proof {
            let ns = entries(sorted@);
            assert(ns =~= old_sorted.insert(p as int, ev));
            assert forall|i: int, j: int| 0 <= i < j < ns.len() implies ranks_before(#[trigger] ns[i], #[trigger] ns[j]) by {
                if j < p {
                    assert(ns[i] == old_sorted[i] && ns[j] == old_sorted[j]);
                } else if j == p {
                    assert(ns[i] == old_sorted[i]);
                } else if i < p {
                    assert(ns[i] == old_sorted[i] && ns[j] == old_sorted[j - 1]);
                    lemma_ranks_before_transitive(old_sorted[i], ev, old_sorted[j - 1]);
                } else if i == p {
                    assert(ns[j] == old_sorted[j - 1]);
                } else {
                    assert(ns[i] == old_sorted[i - 1] && ns[j] == old_sorted[j - 1]);
                }
            }
            assert forall|i: int| 0 <= i < sorted@.len() implies is_folded_word(#[trigger] sorted@[i].0@) by {
                if i < p {
                    assert(sorted@[i] == prev[i]);
                } else if i > p {
                    assert(sorted@[i] == prev[i - 1]);
                }
            }
            let tail = all.subrange(n, all.len() as int);
            let old_tail = all.subrange(n + 1, all.len() as int);
            assert forall|x: (Seq<char>, nat)| ns.contains(x) <==> tail.contains(x) by {
                if ns.contains(x) {
                    let i = choose|i: int| 0 <= i < ns.len() && ns[i] == x;
                    if i < p {
                        assert(old_sorted[i] == x);
                        assert(old_sorted.contains(x));
                    } else if i > p {
                        assert(old_sorted[i - 1] == x);
                        assert(old_sorted.contains(x));
                    } else {
                        assert(tail[0] == x);
                    }
                    if x != ev {
                        let m = choose|m: int| 0 <= m < old_tail.len() && old_tail[m] == x;
                        assert(tail[m + 1] == x);
                    }
                }
                if tail.contains(x) {
                    let m = choose|m: int| 0 <= m < tail.len() && tail[m] == x;
                    if m == 0 {
                        assert(ns[p as int] == x);
                    } else {
                        assert(old_tail[m - 1] == x);
                        assert(old_sorted.contains(x));
                        let i = choose|i: int| 0 <= i < old_sorted.len() && old_sorted[i] == x;
                        if i < p {
                            assert(ns[i] == x);
                        } else {
                            assert(ns[i + 1] == x);
                        }
                    }
                }
            }
        }
    }
    proof {
        assert(all.subrange(0, all.len() as int) =~= all);
    }
    sorted
}

/// The `k` most frequent tokens of `logs` with their counts: a higher count first, and
/// among equal counts the smaller word first.
pub fn top_k_words(logs: &[String], k: usize) -> (r: Vec<(String, usize)>)
    requires
        all_tokens(views(logs@)).len() <= usize::MAX,
    ensures
        is_top_k(all_tokens(views(logs@)), k as nat, entries(r@)),
        forall|i: int| 0 <= i < r@.len() ==> is_folded_word(#[trigger] r@[i].0@),
{
    let ghost ts = all_tokens(views(logs@));
    let table = tally(logs);
    let ghost t = entries(table@);
    proof {
        lemma_all_tokens_folded(views(logs@));
        assert forall|i: int| 0 <= i < table@.len() implies is_folded_word(#[trigger] table@[i].0@) by {
            assert(words(t)[i] == table@[i].0@);
            assert(words(t).to_set().contains(words(t)[i]));
            assert(ts.to_set().contains(table@[i].0@));
            let m = choose|m: int| 0 <= m < ts.len() && ts[m] == table@[i].0@;
        }
    }
    let mut ranked = sort_ranked(table);
    let ghost s = entries(ranked@);
    let ghost sv = ranked@;
    ranked.truncate(k);
    proof {
        assert forall|i: int| 0 <= i < ranked@.len() implies is_folded_word(#[trigger] ranked@[i].0@) by {
            assert(ranked@[i] == sv[i]);
        }
        let r = entries(ranked@);
        words(t).unique_seq_to_set();
        assert(distinct_count(ts) == t.len());
        assert(r =~= s.take(r.len() as int));
        assert forall|i: int| 0 <= i < r.len() implies ts.contains(#[trigger] r[i].0) && r[i].1 == count_of(ts, r[i].0) by {
            assert(r[i] == s[i]);
            assert(s.contains(s[i]));
            let m = choose|m: int| 0 <= m < t.len() && t[m] == s[i];
            assert(words(t)[m] == r[i].0);
            assert(words(t).to_set().contains(r[i].0));
            assert(ts.to_set().contains(r[i].0));
        }
        assert forall|w: Seq<char>, i: int|
            #![trigger ts.contains(w), r[i]]
            ts.contains(w) && !words(r).contains(w) && 0 <= i < r.len() implies ranks_before(r[i], (w, count_of(ts, w))) by {
            assert(ts.to_set().contains(w));
            assert(words(t).to_set().contains(w));
            let m = choose|m: int| 0 <= m < words(t).len() && words(t)[m] == w;
            assert(t.contains(t[m]));
            let j = choose|j: int| 0 <= j < s.len() && s[j] == t[m];
            if j < r.len() {
                assert(words(r)[j] == w);
            }
            assert(r[i] == s[i]);
        }
    }
    ranked
}

} // verus!
