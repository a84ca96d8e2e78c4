//! Levenshtein edit distance.
use vstd::prelude::*;

use crate::text::chars_of;

verus! {

/// The smallest of three numbers.
pub open spec fn min3(x: nat, y: nat, z: nat) -> nat {
    if x <= y && x <= z {
        x
    } else if y <= z {
        y
    } else {
        z
    }
}

/// The Levenshtein distance between `a` and `b`, by the recurrence over their last
/// characters: equal last characters cost nothing, otherwise one deletion, insertion or
/// substitution is added to the cheapest of the three smaller problems.
pub open spec fn lev(a: Seq<char>, b: Seq<char>) -> nat
    decreases a.len() + b.len(),
{
    if a.len() == 0 {
        b.len()
    } else if b.len() == 0 {
        a.len()
    } else if a.last() == b.last() {
        lev(a.drop_last(), b.drop_last())
    } else {
        1 + min3(
            lev(a.drop_last(), b),
            lev(a, b.drop_last()),
            lev(a.drop_last(), b.drop_last()),
        )
    }
}

/// The distance does not depend on the order of its arguments.
pub proof fn lemma_lev_symmetric(a: Seq<char>, b: Seq<char>)
    ensures
        lev(a, b) == lev(b, a),
    decreases a.len() + b.len(),
{
    if a.len() > 0 && b.len() > 0 {
        lemma_lev_symmetric(a.drop_last(), b.drop_last());
        if a.last() != b.last() {
            lemma_lev_symmetric(a.drop_last(), b);
            lemma_lev_symmetric(a, b.drop_last());
        }
    }
}

/// The distance never exceeds the length of the longer sequence.
pub proof fn lemma_lev_upper_bound(a: Seq<char>, b: Seq<char>)
    ensures
        lev(a, b) <= if a.len() >= b.len() {
            a.len()
        } else {
            b.len()
        },
    decreases a.len() + b.len(),
{
    if a.len() > 0 && b.len() > 0 {
        lemma_lev_upper_bound(a.drop_last(), b.drop_last());
    }
}

/// Every sequence is at distance zero from itself.
pub proof fn lemma_lev_identity(a: Seq<char>)
    ensures
        lev(a, a) == 0,
    decreases a.len(),
{
    if a.len() > 0 {
        lemma_lev_identity(a.drop_last());
    }
}

/// Distance zero means equal sequences.
pub proof fn lemma_lev_zero_means_equal(a: Seq<char>, b: Seq<char>)
    requires
        lev(a, b) == 0,
    ensures
        a == b,
    decreases a.len() + b.len(),
{
    if a.len() > 0 && b.len() > 0 {
        lemma_lev_zero_means_equal(a.drop_last(), b.drop_last());
        assert(a =~= a.drop_last().push(a.last()));
        assert(b =~= b.drop_last().push(b.last()));
    } else {
        assert(a =~= b);
    }
}

/// The distance is at least the difference of the lengths.
pub proof fn lemma_lev_lower_bound(a: Seq<char>, b: Seq<char>)
    ensures
        lev(a, b) >= a.len() - b.len(),
        lev(a, b) >= b.len() - a.len(),
    decreases a.len() + b.len(),
{
    if a.len() > 0 && b.len() > 0 {
        lemma_lev_lower_bound(a.drop_last(), b.drop_last());
        lemma_lev_lower_bound(a.drop_last(), b);
        lemma_lev_lower_bound(a, b.drop_last());
    }
}

proof fn lemma_lev_step_right(a: Seq<char>, c: Seq<char>)
    requires
        c.len() > 0,
    ensures
        lev(a, c) <= lev(a, c.drop_last()) + 1,
        lev(a, c.drop_last()) <= lev(a, c) + 1,
    decreases a.len() + c.len(), 0int,
{
    let c1 = c.drop_last();
    if a.len() == 0 {
    } else if c1.len() == 0 {
        lemma_lev_upper_bound(a, c);
        lemma_lev_lower_bound(a, c);
    } else {
        let a1 = a.drop_last();
        lemma_lev_step_left(a, c1);
        if a.last() != c.last() {
            lemma_lev_step_right(a1, c);
        }
    }
}

proof fn lemma_lev_step_left(a: Seq<char>, c: Seq<char>)
    requires
        a.len() > 0,
    ensures
        lev(a, c) <= lev(a.drop_last(), c) + 1,
        lev(a.drop_last(), c) <= lev(a, c) + 1,
    decreases a.len() + c.len(), 1int,
{
    lemma_lev_symmetric(a, c);
    lemma_lev_symmetric(a.drop_last(), c);
    lemma_lev_step_right(c, a);
}

/// The distance obeys the triangle inequality.
pub proof fn lemma_lev_triangle(a: Seq<char>, b: Seq<char>, c: Seq<char>)
    ensures
        lev(a, c) <= lev(a, b) + lev(b, c),
    decreases a.len() + b.len() + c.len(),
{
    lemma_lev_upper_bound(a, c);
    lemma_lev_lower_bound(a, b);
    lemma_lev_lower_bound(b, c);
    if a.len() > 0 && b.len() > 0 && c.len() > 0 {
        let a1 = a.drop_last();
        let b1 = b.drop_last();
        let c1 = c.drop_last();
        lemma_lev_step_left(a, c);
        lemma_lev_step_right(a, c);
        lemma_lev_step_right(a, b);
        lemma_lev_step_left(b, c);
        lemma_lev_triangle(a1, b, c);
        lemma_lev_triangle(a, b, c1);
        lemma_lev_triangle(a, b1, c);
        lemma_lev_triangle(a1, b1, c1);
    }
}

/// Whether `v` is `u` with one character inserted, deleted or replaced.
pub open spec fn one_edit(u: Seq<char>, v: Seq<char>) -> bool {
    ||| exists|i: int, c: char| 0 <= i <= u.len() && v == #[trigger] u.insert(i, c)
    ||| exists|i: int| 0 <= i < u.len() && v == #[trigger] u.remove(i)
    ||| exists|i: int, c: char| 0 <= i < u.len() && v == #[trigger] u.update(i, c)
}

/// Whether each sequence of `chain` is one edit away from the one before it.
pub open spec fn is_edit_chain(chain: Seq<Seq<char>>) -> bool {
    chain.len() > 0 && forall|k: int| 0 <= k < chain.len() - 1 ==> one_edit(#[trigger] chain[k], chain[k + 1])
}

proof fn lemma_lev_insert(u: Seq<char>, i: int, c: char)
    requires
        0 <= i <= u.len(),
    ensures
        lev(u, u.insert(i, c)) <= 1,
    decreases u.len() - i,
{
    let v = u.insert(i, c);
    if i == u.len() {
        assert(v.drop_last() =~= u);
        lemma_lev_step_right(u, v);
        lemma_lev_identity(u);
    } else {
        let u1 = u.drop_last();
        assert(v.last() == u.last());
        assert(v.drop_last() =~= u1.insert(i, c));
        lemma_lev_insert(u1, i, c);
    }
}

proof fn lemma_lev_remove(u: Seq<char>, i: int)
    requires
        0 <= i < u.len(),
    ensures
        lev(u, u.remove(i)) <= 1,
    decreases u.len() - i,
{
    let v = u.remove(i);
    if i == u.len() - 1 {
        assert(v =~= u.drop_last());
        lemma_lev_step_left(u, v);
        lemma_lev_identity(v);
    } else {
        let u1 = u.drop_last();
        assert(v.last() == u.last());
        assert(v.drop_last() =~= u1.remove(i));
        lemma_lev_remove(u1, i);
    }
}

proof fn lemma_lev_update(u: Seq<char>, i: int, c: char)
    requires
        0 <= i < u.len(),
    ensures
        lev(u, u.update(i, c)) <= 1,
    decreases u.len() - i,
{
    let v = u.update(i, c);
    let u1 = u.drop_last();
    if i == u.len() - 1 {
        assert(v.drop_last() =~= u1);
        lemma_lev_identity(u1);
    } else {
        assert(v.last() == u.last());
        assert(v.drop_last() =~= u1.update(i, c));
        lemma_lev_update(u1, i, c);
    }
}

/// One edit is at distance at most one.
pub proof fn lemma_lev_one_edit(u: Seq<char>, v: Seq<char>)
    requires
        one_edit(u, v),
    ensures
        lev(u, v) <= 1,
{
    if exists|i: int, c: char| 0 <= i <= u.len() && v == #[trigger] u.insert(i, c) {
        let (i, c) = choose|i: int, c: char| 0 <= i <= u.len() && v == #[trigger] u.insert(i, c);
        lemma_lev_insert(u, i, c);
    } else if exists|i: int| 0 <= i < u.len() && v == #[trigger] u.remove(i) {
        let i = choose|i: int| 0 <= i < u.len() && v == #[trigger] u.remove(i);
        lemma_lev_remove(u, i);
    } else {
        let (i, c) = choose|i: int, c: char| 0 <= i < u.len() && v == #[trigger] u.update(i, c);
        lemma_lev_update(u, i, c);
    }
}

/// No sequence of single-character edits from `chain[0]` to its last element is shorter
/// than the distance.
pub proof fn lemma_lev_chain_bound(chain: Seq<Seq<char>>)
    requires
        is_edit_chain(chain),
    ensures
        lev(chain[0], chain.last()) <= chain.len() - 1,
    decreases chain.len(),
{
    if chain.len() == 1 {
        lemma_lev_identity(chain[0]);
    } else {
        let p = chain.drop_last();
        assert forall|k: int| 0 <= k < p.len() - 1 implies one_edit(#[trigger] p[k], p[k + 1]) by {
            assert(p[k] == chain[k] && p[k + 1] == chain[k + 1]);
        }
        lemma_lev_chain_bound(p);
        assert(one_edit(chain[chain.len() - 2], chain.last()));
        lemma_lev_one_edit(chain[chain.len() - 2], chain.last());
        lemma_lev_triangle(chain[0], p.last(), chain.last());
    }
}

/// Every sequence of `chain` with `c` appended.
pub open spec fn push_all(chain: Seq<Seq<char>>, c: char) -> Seq<Seq<char>> {
    chain.map_values(|w: Seq<char>| w.push(c))
}

/// A chain of single-character edits from `a` to `b` that follows the recurrence of
/// [`lev`].
pub open spec fn edit_chain(a: Seq<char>, b: Seq<char>) -> Seq<Seq<char>>
    decreases a.len() + b.len(),
{
    if a.len() == 0 {
        Seq::new(b.len() + 1, |k: int| b.take(k))
    } else if b.len() == 0 {
        Seq::new(a.len() + 1, |k: int| a.take(a.len() - k))
    } else if a.last() == b.last() {
        push_all(edit_chain(a.drop_last(), b.drop_last()), a.last())
    } else {
        let del = lev(a.drop_last(), b);
        let ins = lev(a, b.drop_last());
        let sub = lev(a.drop_last(), b.drop_last());
        if del <= ins && del <= sub {
            seq![a] + edit_chain(a.drop_last(), b)
        } else if ins <= sub {
            edit_chain(a, b.drop_last()).push(b)
        } else {
            seq![a] + push_all(edit_chain(a.drop_last(), b.drop_last()), b.last())
        }
    }
}

proof fn lemma_one_edit_push(u: Seq<char>, v: Seq<char>, c: char)
    requires
        one_edit(u, v),
    ensures
        one_edit(u.push(c), v.push(c)),
{
    if exists|i: int, d: char| 0 <= i <= u.len() && v == #[trigger] u.insert(i, d) {
        let (i, d) = choose|i: int, d: char| 0 <= i <= u.len() && v == #[trigger] u.insert(i, d);
        assert(v.push(c) =~= u.push(c).insert(i, d));
    } else if exists|i: int| 0 <= i < u.len() && v == #[trigger] u.remove(i) {
        let i = choose|i: int| 0 <= i < u.len() && v == #[trigger] u.remove(i);
        assert(v.push(c) =~= u.push(c).remove(i));
    } else {
        let (i, d) = choose|i: int, d: char| 0 <= i < u.len() && v == #[trigger] u.update(i, d);
        assert(v.push(c) =~= u.push(c).update(i, d));
    }
}

proof fn lemma_push_all_chain(chain: Seq<Seq<char>>, c: char)
    requires
        is_edit_chain(chain),
    ensures
        is_edit_chain(push_all(chain, c)),
        push_all(chain, c).len() == chain.len(),
        push_all(chain, c)[0] == chain[0].push(c),
        push_all(chain, c).last() == chain.last().push(c),
{
    let p = push_all(chain, c);
    assert forall|k: int| 0 <= k < p.len() - 1 implies one_edit(#[trigger] p[k], p[k + 1]) by {
        assert(one_edit(chain[k], chain[k + 1]));
        lemma_one_edit_push(chain[k], chain[k + 1], c);
    }
}

spec fn chain_from_to(ch: Seq<Seq<char>>, a: Seq<char>, b: Seq<char>, n: nat) -> bool {
    &&& is_edit_chain(ch)
    &&& ch[0] == a
    &&& ch.last() == b
    &&& ch.len() == n + 1
}

proof fn lemma_chain_insertions(b: Seq<char>)
    ensures
        chain_from_to(Seq::new(b.len() + 1, |k: int| b.take(k)), Seq::empty(), b, b.len()),
{
    let ch = Seq::new(b.len() + 1, |k: int| b.take(k));
    assert forall|k: int| 0 <= k < ch.len() - 1 implies one_edit(#[trigger] ch[k], ch[k + 1]) by {
        assert(b.take(k + 1) =~= b.take(k).insert(k, b[k]));
    }
    assert(ch[0] =~= Seq::<char>::empty());
    assert(ch.last() =~= b);
}

proof fn lemma_chain_deletions(a: Seq<char>)
    ensures
        chain_from_to(Seq::new(a.len() + 1, |k: int| a.take(a.len() - k)), a, Seq::empty(), a.len()),
{
    let ch = Seq::new(a.len() + 1, |k: int| a.take(a.len() - k));
    assert forall|k: int| 0 <= k < ch.len() - 1 implies one_edit(#[trigger] ch[k], ch[k + 1]) by {
        let n = a.len() - k;
        assert(a.take(n - 1) =~= a.take(n).remove(n - 1));
    }
    assert(ch[0] =~= a);
    assert(ch.last() =~= Seq::<char>::empty());
}

proof fn lemma_chain_cons(a: Seq<char>, rest: Seq<Seq<char>>, b: Seq<char>, n: nat)
    requires
        chain_from_to(rest, rest[0], b, n),
        one_edit(a, rest[0]),
    ensures
        chain_from_to(seq![a] + rest, a, b, n + 1),
{
    let ch = seq![a] + rest;
    assert forall|k: int| 0 <= k < ch.len() - 1 implies one_edit(#[trigger] ch[k], ch[k + 1]) by {
        if k > 0 {
            assert(ch[k] == rest[k - 1] && ch[k + 1] == rest[k]);
        }
    }
}

proof fn lemma_chain_snoc(a: Seq<char>, rest: Seq<Seq<char>>, b: Seq<char>, n: nat)
    requires
        chain_from_to(rest, a, rest.last(), n),
        one_edit(rest.last(), b),
    ensures
        chain_from_to(rest.push(b), a, b, n + 1),
{
    let ch = rest.push(b);
    assert forall|k: int| 0 <= k < ch.len() - 1 implies one_edit(#[trigger] ch[k], ch[k + 1]) by {
        if k < rest.len() - 1 {
            assert(ch[k] == rest[k] && ch[k + 1] == rest[k + 1]);
        }
    }
}

/// The distance is reached: some chain of exactly `lev(a, b)` single-character edits
/// leads from `a` to `b`.
pub proof fn lemma_lev_edit_chain(a: Seq<char>, b: Seq<char>)
    ensures
        is_edit_chain(edit_chain(a, b)),
        edit_chain(a, b)[0] == a,
        edit_chain(a, b).last() == b,
        edit_chain(a, b).len() == lev(a, b) + 1,
    decreases a.len() + b.len(),
{
    if a.len() == 0 {
        lemma_chain_insertions(b);
        assert(a =~= Seq::<char>::empty());
    } else if b.len() == 0 {
        lemma_chain_deletions(a);
        assert(b =~= Seq::<char>::empty());
    } else {
        let a1 = a.drop_last();
        let b1 = b.drop_last();
        let y = b.last();
        if a.last() == y {
            lemma_lev_edit_chain(a1, b1);
            lemma_push_all_chain(edit_chain(a1, b1), y);
            assert(a1.push(y) =~= a);
            assert(b1.push(y) =~= b);
        } else {
            let del = lev(a1, b);
            let ins = lev(a, b1);
            let sub = lev(a1, b1);
            if del <= ins && del <= sub {
                lemma_lev_edit_chain(a1, b);
                assert(a1 =~= a.remove(a.len() - 1));
                lemma_chain_cons(a, edit_chain(a1, b), b, del);
            } else if ins <= sub {
                lemma_lev_edit_chain(a, b1);
                assert(b =~= b1.insert(b1.len() as int, y));
                lemma_chain_snoc(a, edit_chain(a, b1), b, ins);
            } else {
                lemma_lev_edit_chain(a1, b1);
                lemma_push_all_chain(edit_chain(a1, b1), y);
                let rest = push_all(edit_chain(a1, b1), y);
                assert(a1.push(y) =~= a.update(a.len() - 1, y));
                assert(b1.push(y) =~= b);
                lemma_chain_cons(a, rest, b, sub);
            }
        }
    }
}

proof fn lemma_lev_prefix_step(a: Seq<char>, b: Seq<char>, i: int, j: int)
    requires
        0 <= i < a.len(),
        0 <= j < b.len(),
    ensures
        lev(a.take(i + 1), b.take(j + 1)) == if a[i] == b[j] {
            lev(a.take(i), b.take(j))
        } else {
            1 + min3(
                lev(a.take(i), b.take(j + 1)),
                lev(a.take(i + 1), b.take(j)),
                lev(a.take(i), b.take(j)),
            )
        },
{
    let x = a.take(i + 1);
    let y = b.take(j + 1);
    assert(x.drop_last() =~= a.take(i));
    assert(y.drop_last() =~= b.take(j));
    assert(x.last() == a[i]);
    assert(y.last() == b[j]);
}

proof fn lemma_lev_empty_left(b: Seq<char>, j: int)
    requires
        0 <= j <= b.len(),
    ensures
        lev(Seq::<char>::empty(), b.take(j)) == j,
{
}

/// Computes the Levenshtein distance between two strings, counting Unicode characters.
pub fn levenshtein(a: &str, b: &str) -> (d: usize)
    ensures
        d == lev(a@, b@),
{
    let a_chars = chars_of(a);
    let b_chars = chars_of(b);
    levenshtein_chars(a_chars.as_slice(), b_chars.as_slice())
}

/// Computes the Levenshtein distance between two character slices with a single row of
/// `min(|a|, |b|) + 1` cells.
pub fn levenshtein_chars(a: &[char], b: &[char]) -> (d: usize)
    ensures
        d == lev(a@, b@),
{
    if a.len() == 0 {
        return b.len();
    }
    if b.len() == 0 {
        return a.len();
    }
    proof {
        lemma_lev_symmetric(a@, b@);
    }
    let (a, b) = if a.len() < b.len() {
        (b, a)
    } else {
        (a, b)
    };
    let ghost sa = a@;
    let ghost sb = b@;
    let n = b.len();
    let m = a.len();
    let mut dp: Vec<usize> = Vec::new();
    let mut k: usize = 0;
    loop
        invariant_except_break
            k <= n,
            dp.len() == k,
            forall|t: int| 0 <= t < k ==> dp@[t] == t,
        invariant
            n == sb.len(),
        ensures
            dp.len() == n + 1,
            forall|t: int| 0 <= t <= n ==> dp@[t] == t,
        decreases n - k,
    {
        dp.push(k);
        if k == n {
            break;
        }
        k = k + 1;
    }
    proof {
        assert forall|t: int| 0 <= t <= n implies dp@[t] == lev(sa.take(0), sb.take(t)) by {
            assert(sa.take(0) =~= Seq::<char>::empty());
            lemma_lev_empty_left(sb, t);
        }
    }
    let mut i: usize = 0;
    while i < m
        invariant
            i <= m == sa.len(),
            n == sb.len(),
            m >= n,
            a@ == sa,
            b@ == sb,
            dp.len() == n + 1,
            forall|t: int| 0 <= t <= n ==> dp@[t] == lev(sa.take(i as int), sb.take(t)),
        decreases m - i,
    {
        let ca = a[i];
        let mut prev = dp[0];
        dp.set(0, i + 1);
        proof {
            assert(sb.take(0) =~= Seq::<char>::empty());
        }
        let mut j: usize = 0;
        while j < n
            invariant
                i < m == sa.len(),
                n == sb.len(),
                m >= n,
                j <= n,
                a@ == sa,
                b@ == sb,
                ca == sa[i as int],
                dp.len() == n + 1,
                prev == lev(sa.take(i as int), sb.take(j as int)),
                forall|t: int| 0 <= t <= j ==> dp@[t] == lev(sa.take(i + 1), sb.take(t)),
                forall|t: int| j < t <= n ==> dp@[t] == lev(sa.take(i as int), sb.take(t)),
            decreases n - j,
        {
            let cb = b[j];
            let temp = dp[j + 1];
            proof {
                lemma_lev_prefix_step(sa, sb, i as int, j as int);
                lemma_lev_upper_bound(sa.take(i + 1), sb.take(j + 1));
            }
            if ca == cb {
                dp.set(j + 1, prev);
            } else {
                let left = dp[j];
                let mut best = prev;
                if left < best {
                    best = left;
                }
                if temp < best {
                    best = temp;
                }
                proof {
                    assert(best == min3(temp as nat, left as nat, prev as nat));
                }
                dp.set(j + 1, 1 + best);
            }
            prev = temp;
            j = j + 1;
        }
        i = i + 1;
    }
    proof {
        assert(sa.take(m as int) =~= sa);
        assert(sb.take(n as int) =~= sb);
    }
    dp[n]
}

} // verus!
