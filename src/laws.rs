//! Facts about word counts and the exported frequency list.
use vstd::prelude::*;

use crate::export::{
    dir, is_export, lemma_dir, lemma_lex_antisym, lemma_lex_total, lists, ordered, precedes, sorted,
};
use crate::freq;
use crate::words::{fnv, words};

verus! {

/// The count that `freq` keeps for a word is the number of its occurrences,
/// and a word has a count exactly when it occurs.
pub proof fn lemma_freq_counts(ws: Seq<Seq<u8>>, w: Seq<u8>)
    ensures
        freq(ws).contains_key(w) <==> ws.contains(w),
        freq(ws).contains_key(w) ==> freq(ws)[w] == ws.to_multiset().count(w),
        !freq(ws).contains_key(w) ==> ws.to_multiset().count(w) == 0,
    decreases ws.len(),
{
    ws.to_multiset_ensures();
    if ws.len() > 0 {
        let t = ws.drop_last();
        lemma_freq_counts(t, w);
        assert(ws =~= t.push(ws.last()));
        t.to_multiset_ensures();
        if t.contains(w) {
            let i = choose|i: int| 0 <= i < t.len() && t[i] == w;
            assert(ws[i] == w);
        }
        if ws.contains(w) && ws.last() != w {
            let i = choose|i: int| 0 <= i < ws.len() && ws[i] == w;
            assert(t[i] == w);
        }
    }
}

/// Every pair of the exported list of an input gives a word of that input
/// with the number of its case-insensitive occurrences, and every word of the
/// input has its pair.
pub proof fn lemma_export_counts(s: Seq<u8>, r: Seq<(nat, Seq<u8>)>)
    requires
        is_export(freq(words(s)), r),
    ensures
        forall|i: int| 0 <= i < r.len() ==> #[trigger] r[i].0 == words(s).to_multiset().count(r[i].1) && r[i].0 > 0,
        forall|w: Seq<u8>| #[trigger] words(s).contains(w) ==> exists|i: int| 0 <= i < r.len() && #[trigger] r[i].1 == w,
{
    assert forall|i: int| 0 <= i < r.len() implies #[trigger] r[i].0 == words(s).to_multiset().count(r[i].1) && r[i].0
        > 0 by {
        lemma_freq_counts(words(s), r[i].1);
        words(s).to_multiset_ensures();
    }
    assert forall|w: Seq<u8>| #[trigger] words(s).contains(w) implies exists|i: int|
        0 <= i < r.len() && #[trigger] r[i].1 == w by {
        lemma_freq_counts(words(s), w);
    }
}

/// Two different words keep two separate pairs with their own counts, even
/// when their hashes are equal.
pub proof fn lemma_collisions_kept_apart(s: Seq<u8>, r: Seq<(nat, Seq<u8>)>, w1: Seq<u8>, w2: Seq<u8>)
    requires
        is_export(freq(words(s)), r),
        w1 != w2,
        fnv(w1) == fnv(w2),
        words(s).contains(w1),
        words(s).contains(w2),
    ensures
        exists|i: int, j: int|
            0 <= i < r.len() && 0 <= j < r.len() && i != j && #[trigger] r[i] == (words(s).to_multiset().count(w1), w1)
                && #[trigger] r[j] == (words(s).to_multiset().count(w2), w2),
{
    lemma_export_counts(s, r);
    let i = choose|i: int| 0 <= i < r.len() && #[trigger] r[i].1 == w1;
    let j = choose|j: int| 0 <= j < r.len() && #[trigger] r[j].1 == w2;
    assert(r[i] == (words(s).to_multiset().count(w1), w1));
    assert(r[j] == (words(s).to_multiset().count(w2), w2));
}

/// Sum of the counts of a list of pairs.
pub open spec fn total(s: Seq<(nat, Seq<u8>)>) -> nat
    decreases s.len(),
{
    if s.len() == 0 {
        0
    } else {
        total(s.drop_last()) + s.last().0
    }
}

proof fn lemma_total_update(s: Seq<(nat, Seq<u8>)>, k: int, v: (nat, Seq<u8>))
    requires
        0 <= k < s.len(),
    ensures
        total(s.update(k, v)) + s[k].0 == total(s) + v.0,
    decreases s.len(),
{
    if k == s.len() - 1 {
        assert(s.update(k, v).drop_last() =~= s.drop_last());
    } else {
        lemma_total_update(s.drop_last(), k, v);
        assert(s.update(k, v).drop_last() =~= s.drop_last().update(k, v));
    }
}

proof fn lemma_total_remove(s: Seq<(nat, Seq<u8>)>, k: int)
    requires
        0 <= k < s.len(),
    ensures
        total(s.remove(k)) + s[k].0 == total(s),
    decreases s.len(),
{
    if k < s.len() - 1 {
        lemma_total_remove(s.drop_last(), k);
        assert(s.remove(k).drop_last() =~= s.drop_last().remove(k));
        assert(s.remove(k).last() == s.last());
    } else {
        assert(s.remove(k) =~= s.drop_last());
    }
}

/// The counts of any listing of the words' frequencies add up to the number of words.
pub proof fn lemma_listing_total(ws: Seq<Seq<u8>>, r: Seq<(nat, Seq<u8>)>)
    requires
        lists(freq(ws), r),
    ensures
        total(r) == ws.len(),
    decreases ws.len(),
{
    if ws.len() == 0 {
        if r.len() > 0 {
            assert(freq(ws).contains_key(r[0].1));
        }
    } else {
        let t = ws.drop_last();
        let w = ws.last();
        let m = freq(ws);
        let m0 = freq(t);
        assert(m.contains_key(w));
        let k = choose|k: int| 0 <= k < r.len() && #[trigger] r[k].1 == w;
        if m0.contains_key(w) {
            let r2 = r.update(k, (m0[w], w));
            assert forall|i: int| 0 <= i < r2.len() implies #[trigger] m0.contains_key(r2[i].1) && m0[r2[i].1]
                == r2[i].0 by {
                if i != k {
                    assert(m.contains_key(r[i].1));
                    assert(r[i].1 != r[k].1);
                }
            }
            assert forall|a: int, b: int| 0 <= a < b < r2.len() implies #[trigger] r2[a].1 != #[trigger] r2[b].1 by {
                assert(r[a].1 != r[b].1);
            }
            assert forall|x: Seq<u8>| #[trigger] m0.contains_key(x) implies exists|i: int|
                0 <= i < r2.len() && #[trigger] r2[i].1 == x by {
                assert(m.contains_key(x));
                let i = choose|i: int| 0 <= i < r.len() && #[trigger] r[i].1 == x;
                assert(r2[i].1 == x);
            }
            lemma_listing_total(t, r2);
            lemma_total_update(r, k, (m0[w], w));
        } else {
            let r2 = r.remove(k);
            assert forall|i: int| 0 <= i < r2.len() implies #[trigger] m0.contains_key(r2[i].1) && m0[r2[i].1]
                == r2[i].0 by {
                let q = if i < k { i } else { i + 1 };
                assert(r2[i] == r[q]);
                assert(m.contains_key(r[q].1));
                assert(r[q].1 != r[k].1);
            }
            assert forall|a: int, b: int| 0 <= a < b < r2.len() implies #[trigger] r2[a].1 != #[trigger] r2[b].1 by {
                let qa = if a < k { a } else { a + 1 };
                let qb = if b < k { b } else { b + 1 };
                assert(r2[a] == r[qa] && r2[b] == r[qb]);
                assert(r[qa].1 != r[qb].1);
            }
            assert forall|x: Seq<u8>| #[trigger] m0.contains_key(x) implies exists|i: int|
                0 <= i < r2.len() && #[trigger] r2[i].1 == x by {
                assert(m.contains_key(x));
                let i = choose|i: int| 0 <= i < r.len() && #[trigger] r[i].1 == x;
                assert(i != k);
                if i < k {
                    assert(r2[i] == r[i]);
                } else {
                    assert(r2[i - 1] == r[i]);
                }
            }
            lemma_listing_total(t, r2);
            lemma_total_remove(r, k);
        }
    }
}

/// The counts of an input's export add up to the number of words in the input.
pub proof fn lemma_export_total(s: Seq<u8>, r: Seq<(nat, Seq<u8>)>)
    requires
        is_export(freq(words(s)), r),
    ensures
        total(r) == words(s).len(),
{
    lemma_listing_total(words(s), r);
}

/// A list sorted pair by pair is sorted over every two positions.
pub proof fn lemma_sorted_ordered(s: Seq<(nat, Seq<u8>)>)
    requires
        sorted(s),
    ensures
        ordered(s, true),
    decreases s.len(),
{
    if s.len() > 1 {
        let t = s.drop_last();
        assert(sorted(t)) by {
            assert forall|i: int| 0 <= i < t.len() - 1 implies precedes(#[trigger] t[i], t[i + 1]) by {
                assert(precedes(s[i], s[i + 1]));
            }
        }
        lemma_sorted_ordered(t);
        lemma_dir(true);
        assert forall|i: int, j: int| 0 <= i < j < s.len() implies dir(true, #[trigger] s[i], #[trigger] s[j]) by {
            if j < s.len() - 1 {
                assert(t[i] == s[i] && t[j] == s[j]);
            } else if i < j - 1 {
                assert(t[i] == s[i] && t[j - 1] == s[j - 1]);
                assert(dir(true, s[i], s[j - 1]));
                assert(precedes(s[j - 1], s[j]));
                assert(dir(true, s[j - 1], s[j]));
            } else {
                assert(precedes(s[j - 1], s[j]));
            }
        }
    }
}

/// Without its first pair, an export is the export of the rest of the map.
proof fn lemma_export_tail(m: Map<Seq<u8>, nat>, s: Seq<(nat, Seq<u8>)>)
    requires
        is_export(m, s),
        s.len() > 0,
    ensures
        is_export(m.remove(s[0].1), s.drop_first()),
        s == seq![s[0]] + s.drop_first(),
{
    let m2 = m.remove(s[0].1);
    let t = s.drop_first();
    assert forall|k: int| 0 <= k < t.len() implies #[trigger] m2.contains_key(t[k].1) && m2[t[k].1] == t[k].0 by {
        assert(t[k] == s[k + 1]);
        assert(s[0].1 != s[k + 1].1);
        assert(m.contains_key(s[k + 1].1));
    }
    assert forall|a: int, b: int| 0 <= a < b < t.len() implies #[trigger] t[a].1 != #[trigger] t[b].1 by {
        assert(t[a] == s[a + 1] && t[b] == s[b + 1]);
    }
    assert forall|w: Seq<u8>| #[trigger] m2.contains_key(w) implies exists|k: int|
        0 <= k < t.len() && #[trigger] t[k].1 == w by {
        assert(m.contains_key(w));
        let k = choose|k: int| 0 <= k < s.len() && #[trigger] s[k].1 == w;
        assert(k != 0);
        assert(t[k - 1] == s[k]);
    }
    assert forall|k: int| 0 <= k < t.len() - 1 implies precedes(#[trigger] t[k], t[k + 1]) by {
        assert(t[k] == s[k + 1] && t[k + 1] == s[k + 2]);
    }
    assert(s =~= seq![s[0]] + t);
}

/// A table has one export: sorting its pairs again, or once more, gives the same list.
pub proof fn lemma_export_unique(m: Map<Seq<u8>, nat>, s1: Seq<(nat, Seq<u8>)>, s2: Seq<(nat, Seq<u8>)>)
    requires
        is_export(m, s1),
        is_export(m, s2),
    ensures
        s1 == s2,
    decreases s1.len(),
{
    if s1.len() == 0 {
        if s2.len() > 0 {
            assert(m.contains_key(s2[0].1));
        }
        assert(s1 =~= s2);
    } else {
        assert(m.contains_key(s1[0].1));
        assert(s2.len() > 0);
        let x = s1[0];
        let y = s2[0];
        lemma_sorted_ordered(s1);
        lemma_sorted_ordered(s2);
        assert(m.contains_key(y.1));
        let i = choose|i: int| 0 <= i < s1.len() && #[trigger] s1[i].1 == y.1;
        let j = choose|j: int| 0 <= j < s2.len() && #[trigger] s2[j].1 == x.1;
        assert(s1[i] == y);
        assert(s2[j] == x);
        lemma_lex_total(x.1, x.1, 0);
        assert(precedes(x, y)) by {
            if i > 0 {
                assert(dir(true, s1[0], s1[i]));
            }
        }
        assert(precedes(y, x)) by {
            if j > 0 {
                assert(dir(true, s2[0], s2[j]));
            }
        }
        assert(x.1.subrange(0, 0) =~= y.1.subrange(0, 0));
        lemma_lex_antisym(x.1, y.1, 0);
        assert(x == y);
        let m2 = m.remove(x.1);
        let t1 = s1.drop_first();
        let t2 = s2.drop_first();
        lemma_export_tail(m, s1);
        lemma_export_tail(m, s2);
        assert(is_export(m2, t1) && s1 == seq![x] + t1);
        assert(is_export(m2, t2) && s2 == seq![x] + t2);
        lemma_export_unique(m2, t1, t2);
    }
}

} // verus!
