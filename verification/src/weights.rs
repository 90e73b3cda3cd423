//! The weight domain: sums, ordering and sorting of item weights.

use vstd::prelude::*;

verus! {

/// The sum of a sequence of weights, as a mathematical integer.
pub open spec fn weight_sum(s: Seq<u32>) -> int
    decreases s.len(),
{
    if s.len() == 0 {
        0
    } else {
        weight_sum(s.drop_last()) + s.last()
    }
}

/// The weights are in ascending order.
pub open spec fn sorted_asc(s: Seq<u32>) -> bool {
    forall|i: int, j: int| 0 <= i < j < s.len() ==> s[i] <= s[j]
}

/// Strict lexicographic order on weight sequences, as `Vec::cmp` orders them:
/// the first differing position decides, and a proper prefix comes first.
pub open spec fn lex_lt(a: Seq<u32>, b: Seq<u32>) -> bool
    decreases a.len(),
{
    if a.len() == 0 {
        b.len() > 0
    } else if b.len() == 0 {
        false
    } else if a.first() != b.first() {
        a.first() < b.first()
    } else {
        lex_lt(a.drop_first(), b.drop_first())
    }
}

pub proof fn lemma_weight_sum_push(s: Seq<u32>, x: u32)
    ensures
        weight_sum(s.push(x)) == weight_sum(s) + x,
{
    assert(s.push(x).drop_last() =~= s);
    assert(s.push(x).last() == x);
}

pub proof fn lemma_weight_sum_nonneg(s: Seq<u32>)
    ensures
        0 <= weight_sum(s),
    decreases s.len(),
{
    if s.len() > 0 {
        lemma_weight_sum_nonneg(s.drop_last());
    }
}

pub proof fn lemma_weight_sum_remove(s: Seq<u32>, i: int)
    requires
        0 <= i < s.len(),
    ensures
        weight_sum(s.remove(i)) == weight_sum(s) - s[i],
    decreases s.len(),
{
    if i == s.len() - 1 {
        assert(s.remove(i) =~= s.drop_last());
    } else {
        assert(s.remove(i).drop_last() =~= s.drop_last().remove(i));
        assert(s.remove(i).last() == s.last());
        lemma_weight_sum_remove(s.drop_last(), i);
    }
}

/// The sum of a sequence of weights depends only on its multiset: any two
/// arrangements of the same items weigh the same.
pub proof fn lemma_weight_sum_multiset(s: Seq<u32>, t: Seq<u32>)
    requires
        s.to_multiset() == t.to_multiset(),
    ensures
        weight_sum(s) == weight_sum(t),
    decreases s.len(),
{
    broadcast use vstd::seq_lib::group_to_multiset_ensures;

    if s.len() == 0 {
        assert(t.to_multiset().len() == 0);
        assert(t.len() == 0);
    } else {
        let x = s.last();
        assert(s.contains(x));
        assert(s.to_multiset().count(x) > 0);
        assert(t.to_multiset().count(x) > 0);
        assert(t.contains(x));
        let i = choose|i: int| 0 <= i < t.len() && t[i] == x;
        lemma_weight_sum_remove(t, i);
        assert(s.remove(s.len() - 1) =~= s.drop_last());
        assert(s.drop_last().to_multiset() == s.to_multiset().remove(x));
        assert(t.remove(i).to_multiset() == t.to_multiset().remove(x));
        lemma_weight_sum_multiset(s.drop_last(), t.remove(i));
    }
}

/// A sequence weighs at least as much as any single item it holds.
pub proof fn lemma_weight_sum_member(s: Seq<u32>, w: u32)
    requires
        s.to_multiset().count(w) > 0,
    ensures
        w <= weight_sum(s),
{
    broadcast use vstd::seq_lib::group_to_multiset_ensures;

    assert(s.contains(w));
    let i = choose|i: int| 0 <= i < s.len() && s[i] == w;
    lemma_weight_sum_remove(s, i);
    lemma_weight_sum_nonneg(s.remove(i));
}

/// A sorted arrangement of a multiset of weights is unique: two sorted
/// sequences holding the same items are equal.
pub proof fn lemma_sorted_unique(a: Seq<u32>, b: Seq<u32>)
    requires
        sorted_asc(a),
        sorted_asc(b),
        a.to_multiset() == b.to_multiset(),
    ensures
        a == b,
    decreases a.len(),
{
    broadcast use vstd::seq_lib::group_to_multiset_ensures;

    if a.len() == 0 {
        assert(b.to_multiset().len() == 0);
        assert(a =~= b);
    } else {
        assert(a.contains(a.last()));
        assert(b.to_multiset().count(a.last()) > 0);
        assert(b.contains(a.last()));
        assert(b.len() > 0);
        assert(b.contains(b.last()));
        assert(a.to_multiset().count(b.last()) > 0);
        assert(a.contains(b.last()));
        let i = choose|i: int| 0 <= i < b.len() && b[i] == a.last();
        assert(a.last() == b[i] <= b.last());
        let j = choose|j: int| 0 <= j < a.len() && a[j] == b.last();
        assert(b.last() == a[j] <= a.last());
        assert(a.last() == b.last());
        assert(a.drop_last() =~= a.remove(a.len() - 1));
        assert(b.drop_last() =~= b.remove(b.len() - 1));
        assert(a.drop_last().to_multiset() == a.to_multiset().remove(a.last()));
        assert(b.drop_last().to_multiset() == b.to_multiset().remove(b.last()));
        lemma_sorted_unique(a.drop_last(), b.drop_last());
        assert(a.len() == a.to_multiset().len());
        assert(b.len() == b.to_multiset().len());
        assert(a.len() == b.len());
        assert forall|k: int| 0 <= k < a.len() implies a[k] == b[k] by {
            if k < a.len() - 1 {
                assert(a[k] == a.drop_last()[k]);
                assert(b[k] == b.drop_last()[k]);
            }
        }
        assert(a =~= b);
    }
}

pub proof fn lemma_weight_sum_take_step(s: Seq<u32>, i: int)
    requires
        0 <= i < s.len(),
    ensures
        weight_sum(s.take(i + 1)) == weight_sum(s.take(i)) + s[i],
{
    assert(s.take(i + 1).drop_last() =~= s.take(i));
    assert(s.take(i + 1).last() == s[i]);
}

pub proof fn lemma_weight_sum_take_le(s: Seq<u32>, i: int)
    requires
        0 <= i <= s.len(),
    ensures
        weight_sum(s.take(i)) <= weight_sum(s),
    decreases s.len() - i,
{
    if i == s.len() {
        assert(s.take(i) =~= s);
    } else {
        lemma_weight_sum_take_step(s, i);
        lemma_weight_sum_take_le(s, i + 1);
    }
}

pub proof fn lemma_weight_sum_concat(a: Seq<u32>, b: Seq<u32>)
    ensures
        weight_sum(a + b) == weight_sum(a) + weight_sum(b),
    decreases b.len(),
{
    if b.len() == 0 {
        assert(a + b =~= a);
    } else {
        assert((a + b).drop_last() =~= a + b.drop_last());
        assert((a + b).last() == b.last());
        lemma_weight_sum_concat(a, b.drop_last());
    }
}

/// `lex_lt` is transitive.
pub proof fn lemma_lex_lt_trans(a: Seq<u32>, b: Seq<u32>, c: Seq<u32>)
    requires
        lex_lt(a, b),
        lex_lt(b, c),
    ensures
        lex_lt(a, c),
    decreases a.len() + b.len() + c.len(),
{
    if a.len() == 0 {
        assert(c.len() > 0);
    } else if b.len() == 0 {
        assert(false);
    } else if c.len() == 0 {
        assert(false);
    } else if a.first() == b.first() && b.first() == c.first() {
        lemma_lex_lt_trans(a.drop_first(), b.drop_first(), c.drop_first());
    }
}

/// Any two weight sequences are lexicographically comparable.
pub proof fn lemma_lex_trichotomy(a: Seq<u32>, b: Seq<u32>)
    ensures
        lex_lt(a, b) || lex_lt(b, a) || a == b,
    decreases a.len(),
{
    if a.len() == 0 {
        if b.len() == 0 {
            assert(a =~= b);
        }
    } else if b.len() == 0 {
    } else if a.first() == b.first() {
        lemma_lex_trichotomy(a.drop_first(), b.drop_first());
        if a.drop_first() == b.drop_first() {
            assert(a.drop_first().len() == a.len() - 1);
            assert(b.drop_first().len() == b.len() - 1);
            assert(a.len() == b.len());
            assert forall|i: int| 0 <= i < a.len() implies a[i] == b[i] by {
                if i > 0 {
                    assert(a[i] == a.drop_first()[i - 1]);
                    assert(b[i] == b.drop_first()[i - 1]);
                }
            }
            assert(a =~= b);
        }
    }
}

/// Nothing is lexicographically below itself.
pub proof fn lemma_lex_irrefl(a: Seq<u32>)
    ensures
        !lex_lt(a, a),
    decreases a.len(),
{
    if a.len() > 0 {
        lemma_lex_irrefl(a.drop_first());
    }
}

/// Not-below is transitive: the lexicographic order is total.
pub proof fn lemma_lex_ge_trans(a: Seq<u32>, b: Seq<u32>, c: Seq<u32>)
    requires
        !lex_lt(a, b),
        !lex_lt(b, c),
    ensures
        !lex_lt(a, c),
{
    if lex_lt(a, c) {
        lemma_lex_trichotomy(b, c);
        if lex_lt(c, b) {
            lemma_lex_lt_trans(a, c, b);
        }
        assert(false);
    }
}

/// Appending an item never makes a sequence lexicographically smaller.
pub proof fn lemma_lex_push(a: Seq<u32>, x: u32)
    ensures
        !lex_lt(a.push(x), a),
    decreases a.len(),
{
    if a.len() > 0 {
        assert(a.push(x).first() == a.first());
        assert(a.push(x).drop_first() =~= a.drop_first().push(x));
        lemma_lex_push(a.drop_first(), x);
    }
}

/// `lex_lt` is unchanged by removing an equal prefix of both sequences.
pub proof fn lemma_lex_lt_skip(a: Seq<u32>, b: Seq<u32>, i: int)
    requires
        0 <= i <= a.len(),
        i <= b.len(),
        forall|k: int| 0 <= k < i ==> a[k] == b[k],
    ensures
        lex_lt(a, b) == lex_lt(a.skip(i), b.skip(i)),
    decreases i,
{
    if i > 0 {
        assert(a.len() > 0 && b.len() > 0);
        assert(a.first() == b.first());
        assert(lex_lt(a, b) == lex_lt(a.drop_first(), b.drop_first()));
        lemma_lex_lt_skip(a.drop_first(), b.drop_first(), i - 1);
        assert(a.drop_first().skip(i - 1) =~= a.skip(i));
        assert(b.drop_first().skip(i - 1) =~= b.skip(i));
    } else {
        assert(a.skip(0) =~= a);
        assert(b.skip(0) =~= b);
    }
}

/// Decides `lex_lt(a@, b@)`, the order the search uses to keep adjacent
/// bins' contents canonical.
pub fn vec_lex_lt(a: &Vec<u32>, b: &Vec<u32>) -> (r: bool)
    ensures
        r == lex_lt(a@, b@),
{
    let mut i: usize = 0;
    loop
        invariant
            0 <= i <= a@.len(),
            i <= b@.len(),
            forall|k: int| 0 <= k < i ==> a@[k] == b@[k],
        ensures
            lex_lt(a@, b@) == ({
                if i < a@.len() && i < b@.len() {
                    a@[i as int] < b@[i as int]
                } else {
                    i == a@.len() && i < b@.len()
                }
            }),
        decreases a@.len() - i,
    {
        if i >= a.len() || i >= b.len() {
            proof {
                lemma_lex_lt_skip(a@, b@, i as int);
                if i >= a.len() {
                    assert(a@.skip(i as int) =~= Seq::<u32>::empty());
                }
                if i >= b.len() {
                    assert(b@.skip(i as int).len() == 0);
                }
            }
            break;
        }
        if a[i] != b[i] {
            proof {
                lemma_lex_lt_skip(a@, b@, i as int);
                assert(a@.skip(i as int).first() == a@[i as int]);
                assert(b@.skip(i as int).first() == b@[i as int]);
            }
            break;
        }
        i = i + 1;
    }
    if i < a.len() && i < b.len() {
        a[i] < b[i]
    } else {
        i == a.len() && i < b.len()
    }
}

/// Sorts the weights ascending, keeping the same multiset of items.
pub fn sort_ascending(v: Vec<u32>) -> (r: Vec<u32>)
    ensures
        sorted_asc(r@),
        r@.to_multiset() == v@.to_multiset(),
        r@.len() == v@.len(),
        weight_sum(r@) == weight_sum(v@),
{
    let mut src = v;
    let mut out: Vec<u32> = Vec::new();
    proof {
        broadcast use vstd::seq_lib::group_to_multiset_ensures;

        assert(out@.to_multiset().add(src@.to_multiset()) =~= src@.to_multiset());
    }
    let ghost orig = src@;
    loop
        invariant
            sorted_asc(out@),
            forall|i: int, j: int|
                0 <= i < out@.len() && 0 <= j < src@.len() ==> out@[i] <= src@[j],
            out@.to_multiset().add(src@.to_multiset()) == orig.to_multiset(),
            out@.len() + src@.len() == orig.len(),
        ensures
            src@.len() == 0,
        decreases src@.len(),
    {
        if src.len() == 0 {
            break;
        }
        let mut min_idx: usize = 0;
        let mut k: usize = 1;
        while k < src.len()
            invariant
                0 <= min_idx < src@.len(),
                k <= src@.len(),
                forall|j: int| 0 <= j < k ==> src@[min_idx as int] <= src@[j],
            decreases src@.len() - k,
        {
            if src[k] < src[min_idx] {
                min_idx = k;
            }
            k = k + 1;
        }
        let x = src.remove(min_idx);
        proof {
            broadcast use vstd::seq_lib::group_to_multiset_ensures;

            assert(out@.push(x).to_multiset().add(src@.to_multiset()) =~= orig.to_multiset());
        }
        out.push(x);
    }
    proof {
        broadcast use vstd::seq_lib::group_to_multiset_ensures;

        assert(out@.to_multiset().add(src@.to_multiset()) =~= out@.to_multiset());
        lemma_weight_sum_multiset(out@, orig);
    }
    out
}

} // verus!
