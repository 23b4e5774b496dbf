//! The exported frequency list: (count, word) pairs, most frequent first,
//! equal counts in ascending byte order of the word.
use vstd::prelude::*;

verus! {

broadcast use vstd::seq_lib::group_to_multiset_ensures;

/// A (count, word) pair as the contracts see it.
pub open spec fn pview(p: (usize, Vec<u8>)) -> (nat, Seq<u8>) {
    (p.0 as nat, p.1@)
}

pub open spec fn pairs(s: Seq<(usize, Vec<u8>)>) -> Seq<(nat, Seq<u8>)> {
    s.map_values(|p: (usize, Vec<u8>)| pview(p))
}

/// Lexicographic order on bytes, comparing from position `i` on.
pub open spec fn lex_le_from(a: Seq<u8>, b: Seq<u8>, i: int) -> bool
    decreases a.len() - i,
{
    if i >= a.len() {
        true
    } else if i >= b.len() {
        false
    } else if a[i] < b[i] {
        true
    } else if a[i] > b[i] {
        false
    } else {
        lex_le_from(a, b, i + 1)
    }
}

/// `a` comes no later than `b` in lexicographic byte order.
pub open spec fn lex_le(a: Seq<u8>, b: Seq<u8>) -> bool {
    lex_le_from(a, b, 0)
}

/// `x` may stand before `y`: a higher count, or the same count and a word no later.
pub open spec fn precedes(x: (nat, Seq<u8>), y: (nat, Seq<u8>)) -> bool {
    x.0 > y.0 || (x.0 == y.0 && lex_le(x.1, y.1))
}

/// `precedes` read forwards, or backwards when `fwd` is false.
pub open spec fn dir(fwd: bool, x: (nat, Seq<u8>), y: (nat, Seq<u8>)) -> bool {
    if fwd {
        precedes(x, y)
    } else {
        precedes(y, x)
    }
}

pub open spec fn ordered(s: Seq<(nat, Seq<u8>)>, fwd: bool) -> bool {
    forall|i: int, j: int| 0 <= i < j < s.len() ==> dir(fwd, #[trigger] s[i], #[trigger] s[j])
}

/// Each pair adjacent to the next is in order.
pub open spec fn sorted(s: Seq<(nat, Seq<u8>)>) -> bool {
    forall|i: int| 0 <= i < s.len() - 1 ==> precedes(#[trigger] s[i], s[i + 1])
}

/// `s` lists the map `m`: one pair per word of `m`, with its count.
pub open spec fn lists(m: Map<Seq<u8>, nat>, s: Seq<(nat, Seq<u8>)>) -> bool {
    &&& forall|i: int| 0 <= i < s.len() ==> #[trigger] m.contains_key(s[i].1) && m[s[i].1] == s[i].0
    &&& forall|i: int, j: int| 0 <= i < j < s.len() ==> #[trigger] s[i].1 != #[trigger] s[j].1
    &&& forall|w: Seq<u8>| #[trigger] m.contains_key(w) ==> exists|i: int| 0 <= i < s.len() && #[trigger] s[i].1 == w
}

/// `s` is the export of `m`: its pairs, sorted.
pub open spec fn is_export(m: Map<Seq<u8>, nat>, s: Seq<(nat, Seq<u8>)>) -> bool {
    lists(m, s) && sorted(s)
}

pub proof fn lemma_lex_total(a: Seq<u8>, b: Seq<u8>, i: int)
    requires
        0 <= i,
    ensures
        lex_le_from(a, b, i) || lex_le_from(b, a, i),
    decreases a.len() - i,
{
    if i < a.len() && i < b.len() && a[i] == b[i] {
        lemma_lex_total(a, b, i + 1);
    }
}

pub proof fn lemma_lex_trans(a: Seq<u8>, b: Seq<u8>, c: Seq<u8>, i: int)
    requires
        0 <= i,
        lex_le_from(a, b, i),
        lex_le_from(b, c, i),
    ensures
        lex_le_from(a, c, i),
    decreases a.len() - i,
{
    if i < a.len() && i < b.len() && i < c.len() && a[i] == b[i] && b[i] == c[i] {
        lemma_lex_trans(a, b, c, i + 1);
    }
}

pub proof fn lemma_lex_antisym(a: Seq<u8>, b: Seq<u8>, i: int)
    requires
        0 <= i <= a.len(),
        i <= b.len(),
        lex_le_from(a, b, i),
        lex_le_from(b, a, i),
        a.subrange(0, i) == b.subrange(0, i),
    ensures
        a == b,
    decreases a.len() - i,
{
    if i == a.len() {
        assert(a =~= a.subrange(0, i));
        assert(b =~= b.subrange(0, i));
    } else {
        assert(a.subrange(0, i + 1) =~= a.subrange(0, i).push(a[i]));
        assert(b.subrange(0, i + 1) =~= b.subrange(0, i).push(b[i]));
        lemma_lex_antisym(a, b, i + 1);
    }
}

/// `precedes` is total and transitive in either direction.
pub proof fn lemma_dir(fwd: bool)
    ensures
        forall|x: (nat, Seq<u8>), y: (nat, Seq<u8>)| dir(fwd, x, y) || dir(fwd, y, x),
        forall|x: (nat, Seq<u8>), y: (nat, Seq<u8>), z: (nat, Seq<u8>)|
            #[trigger] dir(fwd, x, y) && #[trigger] dir(fwd, y, z) ==> dir(fwd, x, z),
{
    assert forall|x: (nat, Seq<u8>), y: (nat, Seq<u8>)| dir(fwd, x, y) || dir(fwd, y, x) by {
        lemma_lex_total(x.1, y.1, 0);
    }
    assert forall|x: (nat, Seq<u8>), y: (nat, Seq<u8>), z: (nat, Seq<u8>)|
        #[trigger] dir(fwd, x, y) && #[trigger] dir(fwd, y, z) implies dir(fwd, x, z) by {
        if x.0 == y.0 && y.0 == z.0 {
            if fwd {
                lemma_lex_trans(x.1, y.1, z.1, 0);
            } else {
                lemma_lex_trans(z.1, y.1, x.1, 0);
            }
        }
    }
}

/// Compares two words in lexicographic byte order.
pub fn word_le(a: &[u8], b: &[u8]) -> (r: bool)
    ensures
        r == lex_le(a@, b@),
{
    let mut i: usize = 0;
    while i < a.len() && i < b.len() && a[i] == b[i]
        invariant
            i <= a@.len(),
            lex_le(a@, b@) == lex_le_from(a@, b@, i as int),
        decreases a@.len() - i,
    {
        i = i + 1;
    }
    if i >= a.len() {
        true
    } else if i >= b.len() {
        false
    } else {
        a[i] < b[i]
    }
}

fn pair_precedes(x: &(usize, Vec<u8>), y: &(usize, Vec<u8>)) -> (r: bool)
    ensures
        r == precedes(pview(*x), pview(*y)),
{
    x.0 > y.0 || (x.0 == y.0 && word_le(x.1.as_slice(), y.1.as_slice()))
}

pub proof fn lemma_pairs_push(s: Seq<(usize, Vec<u8>)>, x: (usize, Vec<u8>))
    ensures
        pairs(s.push(x)) == pairs(s).push(pview(x)),
        pairs(s).len() == s.len(),
{
    assert(pairs(s.push(x)) =~= pairs(s).push(pview(x)));
}

/// Merges two runs ordered against `fwd` into one run ordered along `fwd`,
/// taking from their ends.
fn merge(a: Vec<(usize, Vec<u8>)>, b: Vec<(usize, Vec<u8>)>, fwd: bool) -> (r: Vec<(usize, Vec<u8>)>)
    requires
        ordered(pairs(a@), !fwd),
        ordered(pairs(b@), !fwd),
    ensures
        ordered(pairs(r@), fwd),
        pairs(r@).to_multiset() == pairs(a@).to_multiset().add(pairs(b@).to_multiset()),
{
    let ghost a0 = pairs(a@);
    let ghost b0 = pairs(b@);
    let mut a = a;
    let mut b = b;
    let mut out: Vec<(usize, Vec<u8>)> = Vec::new();
    proof {
        lemma_dir(fwd);
        lemma_dir(!fwd);
        assert(pairs(out@) =~= Seq::<(nat, Seq<u8>)>::empty());
    }
    while a.len() > 0 || b.len() > 0
        invariant
            a@.len() <= a0.len(),
            b@.len() <= b0.len(),
            pairs(a@) == a0.subrange(0, a@.len() as int),
            pairs(b@) == b0.subrange(0, b@.len() as int),
            ordered(a0, !fwd),
            ordered(b0, !fwd),
            ordered(pairs(out@), fwd),
            pairs(out@).to_multiset().add(pairs(a@).to_multiset()).add(pairs(b@).to_multiset()) == a0.to_multiset().add(
                b0.to_multiset(),
            ),
            forall|i: int, j: int|
                0 <= i < out@.len() && 0 <= j < a@.len() ==> dir(fwd, #[trigger] pairs(out@)[i], #[trigger] a0[j]),
            forall|i: int, j: int|
                0 <= i < out@.len() && 0 <= j < b@.len() ==> dir(fwd, #[trigger] pairs(out@)[i], #[trigger] b0[j]),
            forall|x: (nat, Seq<u8>), y: (nat, Seq<u8>)| dir(fwd, x, y) || dir(fwd, y, x),
            forall|x: (nat, Seq<u8>), y: (nat, Seq<u8>), z: (nat, Seq<u8>)|
                #[trigger] dir(fwd, x, y) && #[trigger] dir(fwd, y, z) ==> dir(fwd, x, z),
        decreases a@.len() + b@.len(),
    {
        let take_a = if a.len() == 0 {
            false
        } else if b.len() == 0 {
            true
        } else if fwd {
            pair_precedes(&a[a.len() - 1], &b[b.len() - 1])
        } else {
            pair_precedes(&b[b.len() - 1], &a[a.len() - 1])
        };
        let ghost out_before = pairs(out@);
        let ghost a_before = pairs(a@);
        let ghost b_before = pairs(b@);
        let ghost na = a@.len() as int;
        let ghost nb = b@.len() as int;
        let ghost a_exec = a@;
        let ghost b_exec = b@;
        proof {
            if na > 0 {
                assert(a_before[na - 1] == pview(a_exec[na - 1]));
                assert(a0[na - 1] == a_before[na - 1]);
            }
            if nb > 0 {
                assert(b_before[nb - 1] == pview(b_exec[nb - 1]));
                assert(b0[nb - 1] == b_before[nb - 1]);
            }
        }
        let x = if take_a {
            match a.pop() {
                Some(x) => x,
                None => { proof { assert(false); } return out; }
            }
        } else {
            match b.pop() {
                Some(x) => x,
                None => { proof { assert(false); } return out; }
            }
        };
        proof {
            lemma_pairs_push(out@, x);
            if take_a {
                assert(pview(x) == a0[na - 1]);
                assert(a@ =~= a@);
                lemma_pairs_push(a@, x);
                assert(pairs(a@) =~= a0.subrange(0, a@.len() as int));
                assert(a_before =~= pairs(a@).push(pview(x)));
                if nb > 0 {
                    assert(dir(fwd, a0[na - 1], b0[nb - 1]));
                }
            } else {
                assert(pview(x) == b0[nb - 1]);
                lemma_pairs_push(b@, x);
                assert(pairs(b@) =~= b0.subrange(0, b@.len() as int));
                assert(b_before =~= pairs(b@).push(pview(x)));
                if na > 0 {
                    assert(!dir(fwd, a0[na - 1], b0[nb - 1]));
                    assert(dir(fwd, b0[nb - 1], a0[na - 1]));
                }
            }
        }
        out.push(x);
        proof {
            let o = pairs(out@);
            assert(o == out_before.push(pview(x)));
            assert forall|i: int, j: int| 0 <= i < j < o.len() implies dir(fwd, #[trigger] o[i], #[trigger] o[j]) by {
                if j < o.len() - 1 {
                    assert(o[i] == out_before[i] && o[j] == out_before[j]);
                } else if take_a {
                    assert(o[i] == out_before[i]);
                    assert(dir(fwd, out_before[i], a0[na - 1]));
                } else {
                    assert(o[i] == out_before[i]);
                    assert(dir(fwd, out_before[i], b0[nb - 1]));
                }
            }
            assert forall|i: int, j: int| 0 <= i < out@.len() && 0 <= j < a@.len() implies dir(
                fwd,
                #[trigger] pairs(out@)[i],
                #[trigger] a0[j],
            ) by {
                if i < o.len() - 1 {
                    assert(o[i] == out_before[i]);
                } else if take_a {
                    assert(o[i] == pview(x));
                    assert(dir(!fwd, a0[j], a0[na - 1]));
                    assert(dir(fwd, a0[na - 1], a0[j]));
                } else {
                    assert(o[i] == pview(x));
                    if j < na - 1 {
                        assert(dir(!fwd, a0[j], a0[na - 1]));
                        assert(dir(fwd, a0[na - 1], a0[j]));
                    }
                    assert(dir(fwd, b0[nb - 1], a0[na - 1]));
                }
            }
            assert forall|i: int, j: int| 0 <= i < out@.len() && 0 <= j < b@.len() implies dir(
                fwd,
                #[trigger] pairs(out@)[i],
                #[trigger] b0[j],
            ) by {
                if i < o.len() - 1 {
                    assert(o[i] == out_before[i]);
                } else if take_a {
                    assert(o[i] == pview(x));
                    if j < nb - 1 {
                        assert(dir(!fwd, b0[j], b0[nb - 1]));
                        assert(dir(fwd, b0[nb - 1], b0[j]));
                    }
                    assert(dir(fwd, a0[na - 1], b0[nb - 1]));
                } else {
                    assert(o[i] == pview(x));
                    assert(dir(!fwd, b0[j], b0[nb - 1]));
                    assert(dir(fwd, b0[nb - 1], b0[j]));
                }
            }
            if take_a {
                assert(o.to_multiset().add(pairs(a@).to_multiset()).add(pairs(b@).to_multiset()) =~= out_before.to_multiset().add(
                    a_before.to_multiset(),
                ).add(b_before.to_multiset()));
            } else {
                assert(o.to_multiset().add(pairs(a@).to_multiset()).add(pairs(b@).to_multiset()) =~= out_before.to_multiset().add(
                    a_before.to_multiset(),
                ).add(b_before.to_multiset()));
            }
        }
    }
    proof {
        assert(pairs(a@) =~= Seq::<(nat, Seq<u8>)>::empty());
        assert(pairs(b@) =~= Seq::<(nat, Seq<u8>)>::empty());
        assert(pairs(out@).to_multiset() =~= pairs(out@).to_multiset().add(pairs(a@).to_multiset()).add(
            pairs(b@).to_multiset(),
        ));
    }
    out
}

/// Merge sort along `fwd`; the result holds the same pairs.
pub fn sort_pairs(v: Vec<(usize, Vec<u8>)>, fwd: bool) -> (r: Vec<(usize, Vec<u8>)>)
    ensures
        ordered(pairs(r@), fwd),
        pairs(r@).to_multiset() == pairs(v@).to_multiset(),
    decreases v@.len(),
{
    if v.len() <= 1 {
        return v;
    }
    let ghost v0 = pairs(v@);
    let mid = v.len() / 2;
    let mut left = v;
    let mut right: Vec<(usize, Vec<u8>)> = Vec::new();
    proof {
        assert(pairs(right@) =~= Seq::<(nat, Seq<u8>)>::empty());
        assert(pairs(left@).to_multiset().add(pairs(right@).to_multiset()) =~= v0.to_multiset());
    }
    while left.len() > mid
        invariant
            mid >= 1,
            left@.len() >= mid,
            left@.len() + right@.len() == v0.len(),
            pairs(left@).to_multiset().add(pairs(right@).to_multiset()) == v0.to_multiset(),
        decreases left@.len(),
    {
        let ghost l0 = pairs(left@);
        let ghost r0 = pairs(right@);
        match left.pop() {
            Some(x) => {
                proof {
                    lemma_pairs_push(left@, x);
                    assert(l0 =~= pairs(left@).push(pview(x)));
                    lemma_pairs_push(right@, x);
                }
                right.push(x);
                proof {
                    assert(pairs(left@).to_multiset().add(pairs(right@).to_multiset()) =~= l0.to_multiset().add(
                        r0.to_multiset(),
                    ));
                }
            },
            None => {},
        }
    }
    let sl = sort_pairs(left, !fwd);
    let sr = sort_pairs(right, !fwd);
    merge(sl, sr, fwd)
}

} // verus!
