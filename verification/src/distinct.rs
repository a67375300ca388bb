//! Sequences without repetitions: each value stands where it first occurred,
//! and its position is its identity.

use vstd::prelude::*;

verus! {

/// The values of `s`, each once, in the order of their first occurrence.
pub open spec fn distinct<T>(s: Seq<T>) -> Seq<T>
    decreases s.len(),
{
    if s.len() == 0 {
        s
    } else {
        with(distinct(s.drop_last()), s.last())
    }
}

/// `s` with `x` at the end, unless it holds `x` already.
pub open spec fn with<T>(s: Seq<T>, x: T) -> Seq<T> {
    if s.contains(x) {
        s
    } else {
        s.push(x)
    }
}

/// `distinct` keeps every value and no value twice.
pub proof fn lemma_distinct<T>(s: Seq<T>)
    ensures
        distinct(s).no_duplicates(),
        forall|x: T| #[trigger] distinct(s).contains(x) <==> s.contains(x),
        distinct(s).len() <= s.len(),
    decreases s.len(),
{
    if s.len() > 0 {
        let t = s.drop_last();
        lemma_distinct(t);
        lemma_with(distinct(t), s.last());
        assert forall|x: T| #[trigger] distinct(s).contains(x) <==> s.contains(x) by {
            if s.contains(x) {
                let i = choose|i: int| 0 <= i < s.len() && s[i] == x;
                if i < t.len() {
                    assert(t[i] == x);
                }
            }
            if t.contains(x) {
                let i = choose|i: int| 0 <= i < t.len() && t[i] == x;
                assert(s[i] == x);
            }
            if x == s.last() {
                assert(s[s.len() - 1] == x);
            }
        }
    }
}

/// Adding a value keeps those that were there, at their positions.
pub proof fn lemma_with<T>(s: Seq<T>, x: T)
    requires
        s.no_duplicates(),
    ensures
        with(s, x).no_duplicates(),
        s.is_prefix_of(with(s, x)),
        with(s, x).contains(x),
        forall|y: T| #[trigger] with(s, x).contains(y) <==> s.contains(y) || y == x,
        with(s, x).len() <= s.len() + 1,
{
    let t = with(s, x);
    if !s.contains(x) {
        assert(t[s.len() as int] == x);
        assert forall|y: T| #[trigger] t.contains(y) <==> s.contains(y) || y == x by {
            if s.contains(y) {
                let i = choose|i: int| 0 <= i < s.len() && s[i] == y;
                assert(t[i] == y);
            }
            if t.contains(y) && y != x {
                let i = choose|i: int| 0 <= i < t.len() && t[i] == y;
                assert(s[i] == y);
            }
        }
    }
}

/// One more value is added to the different ones, unless it is among them.
pub proof fn lemma_distinct_push<T>(s: Seq<T>, x: T)
    ensures
        distinct(s.push(x)) == with(distinct(s), x),
{
    assert(s.push(x).drop_last() == s);
}

/// The position of a value in a sequence without repetitions.
pub proof fn lemma_position<T>(s: Seq<T>, i: int)
    requires
        s.no_duplicates(),
        0 <= i < s.len(),
    ensures
        s.index_of(s[i]) == i,
{
}

/// A value that is there has a position.
pub proof fn lemma_position_of<T>(s: Seq<T>, x: T)
    requires
        s.contains(x),
    ensures
        0 <= s.index_of(x) < s.len(),
        s[s.index_of(x)] == x,
{
}

/// A longer sequence keeps the positions of a prefix.
pub proof fn lemma_position_stable<T>(s: Seq<T>, t: Seq<T>, x: T)
    requires
        s.is_prefix_of(t),
        t.no_duplicates(),
        s.contains(x),
    ensures
        t.contains(x),
        t.index_of(x) == s.index_of(x),
{
    let i = s.index_of(x);
    assert(t[i] == x);
    lemma_position(t, i);
}

} // verus!
