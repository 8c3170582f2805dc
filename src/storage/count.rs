//! Counting the positions of an integer range that satisfy a predicate.

use vstd::prelude::*;

verus! {

/// The number of positions `x` with `a <= x < b` for which `f(x)` holds.
pub open spec fn count_in(f: spec_fn(int) -> bool, a: int, b: int) -> nat
    decreases b - a,
{
    if b <= a {
        0
    } else {
        count_in(f, a, b - 1) + if f(b - 1) {
            1nat
        } else {
            0nat
        }
    }
}

pub proof fn lemma_count_split(f: spec_fn(int) -> bool, a: int, b: int, c: int)
    requires
        a <= b <= c,
    ensures
        count_in(f, a, c) == count_in(f, a, b) + count_in(f, b, c),
    decreases c - b,
{
    if c > b {
        lemma_count_split(f, a, b, c - 1);
    }
}

pub proof fn lemma_count_all(f: spec_fn(int) -> bool, a: int, b: int)
    requires
        a <= b,
        forall|x: int| a <= x < b ==> #[trigger] f(x),
    ensures
        count_in(f, a, b) == b - a,
    decreases b - a,
{
    if b > a {
        lemma_count_all(f, a, b - 1);
    }
}

pub proof fn lemma_count_none(f: spec_fn(int) -> bool, a: int, b: int)
    requires
        forall|x: int| a <= x < b ==> !#[trigger] f(x),
    ensures
        count_in(f, a, b) == 0,
    decreases b - a,
{
    if b > a {
        lemma_count_none(f, a, b - 1);
    }
}

pub proof fn lemma_count_same(f: spec_fn(int) -> bool, g: spec_fn(int) -> bool, a: int, b: int)
    requires
        forall|x: int| a <= x < b ==> #[trigger] f(x) == g(x),
    ensures
        count_in(f, a, b) == count_in(g, a, b),
    decreases b - a,
{
    if b > a {
        lemma_count_same(f, g, a, b - 1);
    }
}

/// Where `g` holds exactly where one of `f` and `h` holds, and never both,
/// the counts add up.
pub proof fn lemma_count_sum(
    f: spec_fn(int) -> bool,
    h: spec_fn(int) -> bool,
    g: spec_fn(int) -> bool,
    a: int,
    b: int,
)
    requires
        forall|x: int| a <= x < b ==> (#[trigger] g(x) <==> (f(x) || h(x))),
        forall|x: int| a <= x < b ==> !(#[trigger] f(x) && h(x)),
    ensures
        count_in(g, a, b) == count_in(f, a, b) + count_in(h, a, b),
    decreases b - a,
{
    if b > a {
        lemma_count_sum(f, h, g, a, b - 1);
        assert(g(b - 1) <==> (f(b - 1) || h(b - 1)));
        assert(!(f(b - 1) && h(b - 1)));
    }
}

pub proof fn lemma_count_bound(f: spec_fn(int) -> bool, a: int, b: int)
    requires
        a <= b,
    ensures
        count_in(f, a, b) <= b - a,
    decreases b - a,
{
    if b > a {
        lemma_count_bound(f, a, b - 1);
    }
}

} // verus!
