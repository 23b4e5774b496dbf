//! What a byte stream means as words: maximal runs of ASCII letters, folded
//! to lower case, each with an FNV-1a style hash.
use vstd::prelude::*;

verus! {

/// Hash of the empty word.
pub const H_INIT: u64 = 2166136261;

/// Multiplier applied after each byte.
pub const PRIME: u64 = 0x1000193;

pub open spec fn is_letter(b: u8) -> bool {
    (65 <= b <= 90) || (97 <= b <= 122)
}

pub open spec fn is_lower(b: u8) -> bool {
    97 <= b <= 122
}

/// `A`-`Z` become `a`-`z`; every other byte stays.
pub open spec fn fold(b: u8) -> u8 {
    if 65 <= b <= 90 {
        (b + 32) as u8
    } else {
        b
    }
}

/// One hashing step, with 64-bit wrap-around.
pub open spec fn fnv_step(h: u64, b: u8) -> u64 {
    ((((h ^ (b as u64)) as nat) * (PRIME as nat)) % 0x1_0000_0000_0000_0000) as u64
}

/// Hash of a normalized word.
pub open spec fn fnv(w: Seq<u8>) -> u64
    decreases w.len(),
{
    if w.len() == 0 {
        H_INIT
    } else {
        fnv_step(fnv(w.drop_last()), w.last())
    }
}

/// Scanning `s` from the left: the words already closed by a separator, and
/// the word still open at the end.
pub open spec fn scan(s: Seq<u8>) -> (Seq<Seq<u8>>, Seq<u8>)
    decreases s.len(),
{
    if s.len() == 0 {
        (Seq::empty(), Seq::empty())
    } else {
        let (ws, cur) = scan(s.drop_last());
        let b = s.last();
        if is_letter(b) {
            (ws, cur.push(fold(b)))
        } else if cur.len() > 0 {
            (ws.push(cur), Seq::empty())
        } else {
            (ws, Seq::empty())
        }
    }
}

/// The words of `s`, in input order.
pub open spec fn words(s: Seq<u8>) -> Seq<Seq<u8>> {
    let (ws, cur) = scan(s);
    if cur.len() > 0 {
        ws.push(cur)
    } else {
        ws
    }
}

/// A word is a non-empty run of lower-case letters.
pub open spec fn is_word(w: Seq<u8>) -> bool {
    w.len() > 0 && forall|i: int| 0 <= i < w.len() ==> #[trigger] is_lower(w[i])
}

/// Each closed word needs a letter and a separator, and the open word a letter each.
pub proof fn lemma_scan_len(s: Seq<u8>)
    ensures
        2 * scan(s).0.len() + scan(s).1.len() <= s.len(),
        2 * words(s).len() <= s.len() + 1,
    decreases s.len(),
{
    if s.len() > 0 {
        lemma_scan_len(s.drop_last());
    }
}

/// Every emitted word is a non-empty run of lower-case letters; the open word
/// is made of lower-case letters too.
pub proof fn lemma_scan_words(s: Seq<u8>)
    ensures
        forall|i: int| 0 <= i < scan(s).0.len() ==> is_word(#[trigger] scan(s).0[i]),
        forall|i: int| 0 <= i < scan(s).1.len() ==> is_lower(#[trigger] scan(s).1[i]),
    decreases s.len(),
{
    if s.len() > 0 {
        lemma_scan_words(s.drop_last());
        let (ws, cur) = scan(s.drop_last());
        if !is_letter(s.last()) && cur.len() > 0 {
            assert(is_word(cur));
        }
    }
}

/// Every word of `s` is a non-empty run of lower-case ASCII letters.
pub proof fn lemma_words_are_words(s: Seq<u8>)
    ensures
        forall|i: int| 0 <= i < words(s).len() ==> is_word(#[trigger] words(s)[i]),
{
    lemma_scan_words(s);
    let (ws, cur) = scan(s);
    if cur.len() > 0 {
        assert(is_word(cur));
        assert forall|i: int| 0 <= i < words(s).len() implies is_word(#[trigger] words(s)[i]) by {
            if i < ws.len() {
                assert(words(s)[i] == ws[i]);
            }
        }
    }
}

/// `s[i..j]` is a maximal run of letters: letters only, with no letter just before or just after.
pub open spec fn is_run(s: Seq<u8>, i: int, j: int) -> bool {
    &&& 0 <= i < j <= s.len()
    &&& forall|k: int| i <= k < j ==> #[trigger] is_letter(s[k])
    &&& (i == 0 || !is_letter(s[i - 1]))
    &&& (j == s.len() || !is_letter(s[j]))
}

/// `s[i..j]` folded to lower case.
pub open spec fn folded(s: Seq<u8>, i: int, j: int) -> Seq<u8> {
    s.subrange(i, j).map_values(|b: u8| fold(b))
}

/// What `scan` has seen: the open word is the folded trailing run of letters,
/// and the closed words are the folded runs that a separator ends.
spec fn scan_matches_runs(s: Seq<u8>) -> bool {
    let (ws, cur) = scan(s);
    let l = s.len() - cur.len();
    &&& 0 <= l
    &&& forall|k: int| l <= k < s.len() ==> #[trigger] is_letter(s[k])
    &&& (l == 0 || !is_letter(s[l - 1]))
    &&& cur == folded(s, l, s.len() as int)
    &&& forall|w: Seq<u8>|
        #[trigger] ws.contains(w) <==> exists|i: int, j: int|
            #[trigger] is_run(s, i, j) && j < s.len() && folded(s, i, j) == w
}

proof fn lemma_run_in_prefix(s: Seq<u8>, b: u8, i: int, j: int)
    requires
        0 <= i < j < s.len(),
    ensures
        is_run(s.push(b), i, j) == is_run(s, i, j),
        folded(s.push(b), i, j) == folded(s, i, j),
{
    let t = s.push(b);
    assert(t.subrange(i, j) =~= s.subrange(i, j));
    assert(forall|k: int| 0 <= k < s.len() ==> t[k] == s[k]);
    if is_run(s, i, j) {
        assert forall|k: int| i <= k < j implies #[trigger] is_letter(t[k]) by {
            assert(is_letter(s[k]));
        }
    }
    if is_run(t, i, j) {
        assert forall|k: int| i <= k < j implies #[trigger] is_letter(s[k]) by {
            assert(is_letter(t[k]));
        }
    }
}

proof fn lemma_scan_runs(s: Seq<u8>)
    ensures
        scan_matches_runs(s),
    decreases s.len(),
{
    if s.len() == 0 {
        assert(folded(s, 0, 0) =~= Seq::<u8>::empty());
        assert forall|w: Seq<u8>| #[trigger] scan(s).0.contains(w) <==> exists|i: int, j: int|
            #[trigger] is_run(s, i, j) && j < s.len() && folded(s, i, j) == w by {}
    } else {
        let p = s.drop_last();
        let b = s.last();
        assert(s =~= p.push(b));
        lemma_scan_runs(p);
        let (ws0, cur0) = scan(p);
        let l0 = p.len() - cur0.len();
        let n = p.len() as int;
        assert(forall|k: int| 0 <= k < n ==> s[k] == p[k]);
        let (ws, cur) = scan(s);
        if is_letter(b) {
            assert(s.subrange(l0, s.len() as int) =~= p.subrange(l0, n).push(b));
            assert(folded(s, l0, s.len() as int) =~= folded(p, l0, n).push(fold(b)));
            assert forall|k: int| l0 <= k < s.len() implies #[trigger] is_letter(s[k]) by {
                if k < n {
                    assert(is_letter(p[k]));
                }
            }
            assert forall|w: Seq<u8>| #[trigger] ws.contains(w) <==> exists|i: int, j: int|
                #[trigger] is_run(s, i, j) && j < s.len() && folded(s, i, j) == w by {
                if ws.contains(w) {
                    let (i, j) = choose|i: int, j: int| #[trigger] is_run(p, i, j) && j < p.len() && folded(p, i, j) == w;
                    lemma_run_in_prefix(p, b, i, j);
                }
                if exists|i: int, j: int| #[trigger] is_run(s, i, j) && j < s.len() && folded(s, i, j) == w {
                    let (i, j) = choose|i: int, j: int| #[trigger] is_run(s, i, j) && j < s.len() && folded(s, i, j) == w;
                    assert(j != n);
                    lemma_run_in_prefix(p, b, i, j);
                    assert(is_run(p, i, j));
                }
            }
        } else {
            assert(folded(s, s.len() as int, s.len() as int) =~= Seq::<u8>::empty());
            assert forall|w: Seq<u8>| #[trigger] ws.contains(w) <==> exists|i: int, j: int|
                #[trigger] is_run(s, i, j) && j < s.len() && folded(s, i, j) == w by {
                if cur0.len() > 0 {
                    assert(ws == ws0.push(cur0));
                    assert(s.subrange(l0, n) =~= p.subrange(l0, n));
                    assert(is_run(s, l0, n));
                    assert(folded(s, l0, n) == cur0);
                }
                if ws.contains(w) {
                    if ws0.contains(w) {
                        let (i, j) = choose|i: int, j: int| #[trigger] is_run(p, i, j) && j < p.len() && folded(p, i, j) == w;
                        lemma_run_in_prefix(p, b, i, j);
                    } else {
                        let k = choose|k: int| 0 <= k < ws.len() && ws[k] == w;
                        assert(cur0.len() > 0);
                        assert(w == cur0);
                    }
                }
                if exists|i: int, j: int| #[trigger] is_run(s, i, j) && j < s.len() && folded(s, i, j) == w {
                    let (i, j) = choose|i: int, j: int| #[trigger] is_run(s, i, j) && j < s.len() && folded(s, i, j) == w;
                    if j < n {
                        lemma_run_in_prefix(p, b, i, j);
                        assert(ws0.contains(w));
                        if cur0.len() > 0 {
                            let q = choose|q: int| 0 <= q < ws0.len() && ws0[q] == w;
                            assert(ws[q] == w);
                        }
                    } else {
                        assert(j == n);
                        assert(is_letter(s[n - 1]));
                        assert(cur0.len() > 0);
                        if i < l0 {
                            assert(is_letter(s[l0 - 1]));
                        }
                        if i > l0 {
                            assert(is_letter(s[i - 1]));
                        }
                        assert(i == l0);
                        assert(s.subrange(l0, n) =~= p.subrange(l0, n));
                        assert(ws[ws.len() - 1] == cur0);
                    }
                }
            }
        }
    }
}

/// The words of `s` are exactly its maximal runs of ASCII letters, folded to lower case.
pub proof fn lemma_words_are_runs(s: Seq<u8>)
    ensures
        forall|w: Seq<u8>|
            #[trigger] words(s).contains(w) <==> exists|i: int, j: int| #[trigger] is_run(s, i, j) && folded(s, i, j) == w,
{
    lemma_scan_runs(s);
    let (ws, cur) = scan(s);
    let l = s.len() - cur.len();
    let n = s.len() as int;
    assert forall|w: Seq<u8>| #[trigger] words(s).contains(w) <==> exists|i: int, j: int|
        #[trigger] is_run(s, i, j) && folded(s, i, j) == w by {
        if cur.len() > 0 {
            assert(is_run(s, l, n));
        }
        if words(s).contains(w) {
            let k = choose|k: int| 0 <= k < words(s).len() && words(s)[k] == w;
            if k < ws.len() {
                assert(ws[k] == w);
                assert(ws.contains(w));
            } else {
                assert(w == cur);
            }
        }
        if exists|i: int, j: int| #[trigger] is_run(s, i, j) && folded(s, i, j) == w {
            let (i, j) = choose|i: int, j: int| #[trigger] is_run(s, i, j) && folded(s, i, j) == w;
            if j < n {
                assert(ws.contains(w));
                let q = choose|q: int| 0 <= q < ws.len() && ws[q] == w;
                assert(words(s)[q] == w);
            } else {
                assert(is_letter(s[n - 1]));
                assert(cur.len() > 0);
                if i < l {
                    assert(is_letter(s[l - 1]));
                }
                if i > l {
                    assert(is_letter(s[i - 1]));
                }
                assert(words(s)[words(s).len() - 1] == cur);
            }
        }
    }
}

} // verus!
