//! The identity-aware combination of two values and the left-to-right fold
//! of a sequence under it, with the laws of that fold.
//!
//! A combination function `g` comes with a distinguished value, the identity,
//! that stands for "nothing": [`merge`] never hands it to `g`. The fold of a
//! sequence under `merge` is what a range query of a segment tree returns.
//!
//! The combination has to be associative. [`associative`] asks that of all
//! values, [`splits`] only of the values that can be reached from one
//! sequence: the folds of its ranges. The second is what a function needs
//! that is defined on a part of its type, such as a sum that must not
//! overflow.

use vstd::prelude::*;

verus! {

/// Combination that treats `identity` as "nothing": an operand equal to
/// `identity` is dropped and the other operand is the result; only two proper
/// values are handed to `g`. When both operands are the identity, so is the
/// result.
pub open spec fn merge<T>(g: spec_fn(T, T) -> T, identity: T, a: T, b: T) -> T {
    if a == identity {
        b
    } else if b == identity {
        a
    } else {
        g(a, b)
    }
}

/// Whether the identity-aware combination built from `g` gives the same for
/// `a`, `b` and `c` whether the first two or the last two are combined first.
pub open spec fn associates<T>(g: spec_fn(T, T) -> T, identity: T, a: T, b: T, c: T) -> bool {
    merge(g, identity, merge(g, identity, a, b), c) == merge(
        g,
        identity,
        a,
        merge(g, identity, b, c),
    )
}

/// Whether the identity-aware combination built from `g` is associative.
pub open spec fn associative<T>(g: spec_fn(T, T) -> T, identity: T) -> bool {
    forall|a: T, b: T, c: T| #[trigger] associates(g, identity, a, b, c)
}

/// The left-to-right fold of `s` under [`merge`], starting from `identity`.
pub open spec fn fold<T>(g: spec_fn(T, T) -> T, identity: T, s: Seq<T>) -> T {
    s.fold_left(identity, |acc: T, x: T| merge(g, identity, acc, x))
}

/// Whether the fold of `s[a..c]` is the combination of the folds of its two
/// parts `s[a..b]` and `s[b..c]`.
pub open spec fn splits_at<T>(
    g: spec_fn(T, T) -> T,
    identity: T,
    s: Seq<T>,
    a: int,
    b: int,
    c: int,
) -> bool {
    fold(g, identity, s.subrange(a, c)) == merge(
        g,
        identity,
        fold(g, identity, s.subrange(a, b)),
        fold(g, identity, s.subrange(b, c)),
    )
}

/// Whether `g` is associative on what can be reached from `s`: the fold of
/// every range of `s` is the combination of the folds of the two parts of the
/// range, wherever the range is parted.
pub open spec fn splits<T>(g: spec_fn(T, T) -> T, identity: T, s: Seq<T>) -> bool {
    forall|a: int, b: int, c: int|
        0 <= a <= b <= c <= s.len() ==> #[trigger] splits_at(g, identity, s, a, b, c)
}

/// The identity is neutral on both sides of the identity-aware combination,
/// also when the other operand is the identity itself.
pub proof fn lemma_identity_neutral<T>(g: spec_fn(T, T) -> T, identity: T, x: T)
    ensures
        merge(g, identity, identity, x) == x,
        merge(g, identity, x, identity) == x,
{
}

/// Folding a sequence extended by one element combines the fold of the
/// sequence with that element.
pub proof fn lemma_fold_push<T>(g: spec_fn(T, T) -> T, identity: T, s: Seq<T>, x: T)
    ensures
        fold(g, identity, s.push(x)) == merge(g, identity, fold(g, identity, s), x),
{
    assert(s.push(x).drop_last() =~= s);
}

/// The fold of a one-element sequence is that element.
pub proof fn lemma_fold_single<T>(g: spec_fn(T, T) -> T, identity: T, x: T)
    ensures
        fold(g, identity, seq![x]) == x,
{
    assert(seq![x].drop_last() =~= Seq::<T>::empty());
    reveal_with_fuel(Seq::fold_left, 2);
}

/// Under an associative combination the fold of a concatenation is the
/// combination of the folds of its two parts.
pub proof fn lemma_fold_concat<T>(g: spec_fn(T, T) -> T, identity: T, s1: Seq<T>, s2: Seq<T>)
    requires
        associative(g, identity),
    ensures
        fold(g, identity, s1 + s2) == merge(
            g,
            identity,
            fold(g, identity, s1),
            fold(g, identity, s2),
        ),
    decreases s2.len(),
{
    if s2.len() == 0 {
        assert(s1 + s2 =~= s1);
    } else {
        let init = s2.drop_last();
        let x = s2.last();
        lemma_fold_concat(g, identity, s1, init);
        assert(associates(g, identity, fold(g, identity, s1), fold(g, identity, init), x));
        assert(s1 + s2 =~= (s1 + init).push(x));
        assert(s2 =~= init.push(x));
        lemma_fold_push(g, identity, s1 + init, x);
        lemma_fold_push(g, identity, init, x);
    }
}

/// Where `identity` is neutral for `g` itself, the fold of a sequence that is
/// not empty is the plain left-to-right fold of `g` over it, begun with its
/// first element.
pub proof fn lemma_fold_plain<T>(g: spec_fn(T, T) -> T, identity: T, s: Seq<T>)
    requires
        s.len() > 0,
        forall|x: T| #[trigger] g(identity, x) == x,
        forall|x: T| #[trigger] g(x, identity) == x,
    ensures
        fold(g, identity, s) == s.subrange(1, s.len() as int).fold_left(s[0], g),
    decreases s.len(),
{
    let tail = s.subrange(1, s.len() as int);
    if s.len() == 1 {
        assert(s =~= seq![s[0]]);
        lemma_fold_single(g, identity, s[0]);
    } else {
        let init = s.drop_last();
        lemma_fold_plain(g, identity, init);
        assert(s =~= init.push(s.last()));
        lemma_fold_push(g, identity, init, s.last());
        assert(tail.drop_last() =~= init.subrange(1, init.len() as int));
    }
}

/// Replacing a value leaves the fold of every range that does not hold its
/// index as it was.
pub proof fn lemma_update_outside<T>(
    g: spec_fn(T, T) -> T,
    identity: T,
    s: Seq<T>,
    i: int,
    x: T,
    l: int,
    r: int,
)
    requires
        0 <= i < s.len(),
        0 <= l <= r <= s.len(),
        i < l || r <= i,
    ensures
        fold(g, identity, s.update(i, x).subrange(l, r)) == fold(g, identity, s.subrange(l, r)),
{
    assert(s.update(i, x).subrange(l, r) =~= s.subrange(l, r));
}

/// A combination that is associative is associative on what can be reached
/// from any sequence.
pub proof fn lemma_associative_splits<T>(g: spec_fn(T, T) -> T, identity: T, s: Seq<T>)
    requires
        associative(g, identity),
    ensures
        splits(g, identity, s),
{
    assert forall|a: int, b: int, c: int| 0 <= a <= b <= c <= s.len() implies #[trigger] splits_at(
        g,
        identity,
        s,
        a,
        b,
        c,
    ) by {
        assert(s.subrange(a, c) =~= s.subrange(a, b) + s.subrange(b, c));
        lemma_fold_concat(g, identity, s.subrange(a, b), s.subrange(b, c));
    }
}

/// Replacing a value puts the new value in the place of the old one in the
/// fold of every range that holds its index: the fold of such a range is the
/// combination of the fold of what precedes the index, the new value and the
/// fold of what follows the index.
pub proof fn lemma_update_inside<T>(
    g: spec_fn(T, T) -> T,
    identity: T,
    s: Seq<T>,
    i: int,
    x: T,
    l: int,
    r: int,
)
    requires
        splits(g, identity, s.update(i, x)),
        0 <= l <= i < r <= s.len(),
    ensures
        fold(g, identity, s.update(i, x).subrange(l, r)) == merge(
            g,
            identity,
            merge(g, identity, fold(g, identity, s.subrange(l, i)), x),
            fold(g, identity, s.subrange(i + 1, r)),
        ),
{
    let updated = s.update(i, x);
    assert(splits_at(g, identity, updated, l, i + 1, r));
    assert(splits_at(g, identity, updated, l, i, i + 1));
    assert(updated.subrange(l, i) =~= s.subrange(l, i));
    assert(updated.subrange(i + 1, r) =~= s.subrange(i + 1, r));
    assert(updated.subrange(i, i + 1) =~= seq![x]);
    lemma_fold_single(g, identity, x);
}

} // verus!
