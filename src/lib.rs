//! Case-insensitive word frequency counting over byte streams: a tokenizer
//! feeding an open-addressing hash table, and a sorted export of its counts.
use vstd::prelude::*;

pub mod export;
pub mod laws;
pub mod table;
pub mod words;

use crate::export::{dir, is_export, pairs, sort_pairs};
use crate::table::FrequencyHashMap;
use crate::words::{fnv, scan, words, H_INIT, PRIME, lemma_scan_len};

verus! {

/// How often each word occurs in `ws`, built one occurrence at a time.
pub open spec fn freq(ws: Seq<Seq<u8>>) -> Map<Seq<u8>, nat>
    decreases ws.len(),
{
    if ws.len() == 0 {
        Map::empty()
    } else {
        let m = freq(ws.drop_last());
        let w = ws.last();
        m.insert(w, (if m.contains_key(w) { m[w] } else { 0 }) + 1)
    }
}

/// `freq` has finitely many keys, at most one per occurrence, and no count above the number of occurrences.
pub proof fn lemma_freq_bounds(ws: Seq<Seq<u8>>)
    ensures
        freq(ws).dom().finite(),
        freq(ws).len() <= ws.len(),
        forall|w: Seq<u8>| #[trigger] freq(ws).contains_key(w) ==> 1 <= freq(ws)[w] <= ws.len(),
    decreases ws.len(),
{
    if ws.len() > 0 {
        lemma_freq_bounds(ws.drop_last());
    }
}

/// Reads `input` once and counts every word in it.
pub fn count_words(input: &[u8]) -> (table: FrequencyHashMap)
    requires
        input@.len() <= usize::MAX / 2,
    ensures
        table.wf(),
        table@ == freq(words(input@)),
{
    let mut word: Vec<u8> = Vec::with_capacity(256);
    let mut hash: u64 = H_INIT;
    let mut dict = FrequencyHashMap::new();
    let mut i: usize = 0;
    while i < input.len()
        invariant
            i <= input@.len(),
            input@.len() <= usize::MAX / 2,
            scan(input@.take(i as int)).1 == word@,
            hash == fnv(word@),
            dict.wf(),
            dict@ == freq(scan(input@.take(i as int)).0),
            forall|k: Seq<u8>| #[trigger] dict.hash_of().contains_key(k) ==> dict.hash_of()[k] == fnv(k),
        decreases input@.len() - i,
    {
        let ghost before = input@.take(i as int);
        proof {
            assert(input@.take(i + 1).drop_last() =~= before);
            lemma_scan_len(before);
            lemma_freq_bounds(scan(before).0);
            dict.lemma_wf();
        }
        let byte = input[i];
        if 97 <= byte && byte <= 122 {
            word.push(byte);
            hash = (hash ^ byte as u64).wrapping_mul(PRIME);
            proof {
                assert(word@.drop_last() =~= scan(before).1);
            }
        } else if 65 <= byte && byte <= 90 {
            let lower = byte ^ 0x20;
            assert(lower == byte + 32) by (bit_vector)
                requires
                    65 <= byte <= 90,
                    lower == byte ^ 0x20,
            ;
            word.push(lower);
            hash = (hash ^ lower as u64).wrapping_mul(PRIME);
            proof {
                assert(word@.drop_last() =~= scan(before).1);
            }
        } else if word.len() > 0 {
            let ghost ws = scan(before).0;
            let ghost cur = word@;
            dict.increment(hash, word.as_slice());
            proof {
                assert(ws.push(cur).drop_last() =~= ws);
                assert(freq(ws.push(cur)) == dict@);
            }
            word.clear();
            hash = H_INIT;
            proof {
                assert(word@ =~= Seq::<u8>::empty());
            }
        }
        i = i + 1;
    }
    proof {
        assert(input@.take(i as int) =~= input@);
    }
    if word.len() > 0 {
        proof {
            lemma_scan_len(input@);
            lemma_freq_bounds(scan(input@).0);
            dict.lemma_wf();
        }
        let ghost ws = scan(input@).0;
        let ghost cur = word@;
        dict.increment(hash, word.as_slice());
        proof {
            assert(ws.push(cur).drop_last() =~= ws);
            assert(freq(ws.push(cur)) == dict@);
        }
    }
    dict
}

/// Two positions holding one value make it occur at least twice.
proof fn lemma_count_two<A>(s: Seq<A>, i: int, j: int)
    requires
        0 <= i < s.len(),
        0 <= j < s.len(),
        i != j,
        s[i] == s[j],
    ensures
        s.to_multiset().count(s[i]) >= 2,
{
    s.to_multiset_ensures();
    s.remove(j).to_multiset_ensures();
    let k = if i < j { i } else { i - 1 };
    assert(s.remove(j)[k] == s[i]);
    assert(s.remove(j).contains(s[i]));
    assert(s.remove(j).to_multiset().count(s[i]) > 0);
    assert(s.remove(j).to_multiset() =~= s.to_multiset().remove(s[j]));
}

/// Where no two pairs share a word, every pair occurs at most once.
proof fn lemma_count_le_one(s: Seq<(nat, Seq<u8>)>, x: (nat, Seq<u8>))
    requires
        forall|i: int, j: int| 0 <= i < j < s.len() ==> #[trigger] s[i].1 != #[trigger] s[j].1,
    ensures
        s.to_multiset().count(x) <= 1,
    decreases s.len(),
{
    s.to_multiset_ensures();
    if s.len() > 0 {
        let t = s.drop_last();
        assert(s =~= t.push(s.last()));
        t.to_multiset_ensures();
        assert forall|i: int, j: int| 0 <= i < j < t.len() implies #[trigger] t[i].1 != #[trigger] t[j].1 by {
            assert(s[i] == t[i] && s[j] == t[j]);
        }
        lemma_count_le_one(t, x);
        if x == s.last() {
            assert(!t.contains(x)) by {
                if t.contains(x) {
                    let i = choose|i: int| 0 <= i < t.len() && t[i] == x;
                    assert(s[i] == t[i]);
                    assert(s[i].1 != s[s.len() - 1].1);
                }
            }
        }
    }
}

/// Lays out the table's pairs sorted by count, most frequent first, then by word.
pub fn export(table: FrequencyHashMap) -> (r: Vec<(usize, Vec<u8>)>)
    requires
        table.wf(),
    ensures
        is_export(table@, pairs(r@)),
{
    let ghost m = table@;
    let entries = table.into_entries();
    let ghost p0 = pairs(entries@);
    let r = sort_pairs(entries, true);
    proof {
        let p = pairs(r@);
        p.to_multiset_ensures();
        p0.to_multiset_ensures();
        assert forall|i: int| 0 <= i < p.len() implies #[trigger] m.contains_key(p[i].1) && m[p[i].1] == p[i].0 by {
            assert(p.contains(p[i]));
            assert(p.to_multiset().count(p[i]) > 0);
            assert(p0.to_multiset().count(p[i]) > 0);
            assert(p0.contains(p[i]));
        }
        assert forall|w: Seq<u8>| #[trigger] m.contains_key(w) implies exists|i: int|
            0 <= i < p.len() && #[trigger] p[i].1 == w by {
            let k = choose|k: int| 0 <= k < p0.len() && #[trigger] p0[k].1 == w;
            assert(p0.contains(p0[k]));
            assert(p0.to_multiset().count(p0[k]) > 0);
            assert(p.to_multiset().count(p0[k]) > 0);
            assert(p.contains(p0[k]));
        }
        assert forall|i: int, j: int| 0 <= i < j < p.len() implies #[trigger] p[i].1 != #[trigger] p[j].1 by {
            if p[i].1 == p[j].1 {
                assert(m.contains_key(p[i].1) && m[p[i].1] == p[i].0);
                assert(m.contains_key(p[j].1) && m[p[j].1] == p[j].0);
                assert(p[i] == p[j]);
                lemma_count_two(p, i, j);
                lemma_count_le_one(p0, p[i]);
            }
        }
        assert forall|i: int| 0 <= i < p.len() - 1 implies crate::export::precedes(#[trigger] p[i], p[i + 1]) by {
            assert(dir(true, p[i], p[i + 1]));
        }
    }
    r
}

/// The word frequencies of `input`, most frequent first, then by word.
pub fn word_frequencies(input: &[u8]) -> (r: Vec<(usize, Vec<u8>)>)
    requires
        input@.len() <= usize::MAX / 2,
    ensures
        is_export(freq(words(input@)), pairs(r@)),
{
    let table = count_words(input);
    export(table)
}

} // verus!
