//! The normal form of a cycle.

use core::cmp::Ordering;
use vstd::laws_cmp::obeys_cmp;
use vstd::prelude::*;
use vstd::std_specs::cmp::OrdSpec;

verus! {

/// Whether the order of `T` is a total order that its comparison functions follow.
pub open spec fn ordered<T: Ord>() -> bool {
    obeys_cmp::<T>()
}

/// Whether `a` comes before `b` in the order of their type.
pub open spec fn less<T: Ord>(a: T, b: T) -> bool {
    a.cmp_spec(&b) == Ordering::Less
}

/// The sequence that starts at position `p` of `s` and goes once around.
pub open spec fn rotated<T>(s: Seq<T>, p: int) -> Seq<T> {
    s.skip(p) + s.take(p)
}

/// Whether `p` is the first position of a smallest item of `s`.
pub open spec fn is_first_min<T: Ord>(s: Seq<T>, p: int) -> bool {
    &&& 0 <= p < s.len()
    &&& forall|j: int| 0 <= j < s.len() ==> !less(#[trigger] s[j], s[p])
    &&& forall|j: int| 0 <= j < p ==> less(s[p], #[trigger] s[j])
}

/// The cycle `s`, turned so that it starts with its smallest item.
pub open spec fn normalized<T: Ord>(s: Seq<T>) -> Seq<T> {
    if s.len() == 0 {
        s
    } else {
        rotated(s, choose|p: int| is_first_min(s, p))
    }
}

/// Numbers have a total order.
pub proof fn lemma_usize_ordered()
    ensures
        ordered::<usize>(),
        forall|a: usize, b: usize| #[trigger] less(a, b) <==> a < b,
{
    broadcast use vstd::laws_cmp::group_laws_cmp;

}

/// In a total order, an item before one that does not come after a third comes before that third.
proof fn lemma_less_chain<T: Ord>(a: T, b: T, c: T)
    requires
        ordered::<T>(),
        less(a, b),
        !less(c, b),
    ensures
        less(a, c),
{
    reveal(vstd::laws_eq::obeys_eq_spec_properties);
    reveal(vstd::laws_cmp::obeys_partial_cmp_spec_properties);
    reveal(vstd::laws_cmp::obeys_cmp_partial_ord);
    reveal(vstd::laws_cmp::obeys_cmp_ord);
    lemma_compare(a, b);
    lemma_compare(b, c);
    lemma_compare(a, c);
}

/// How the order of two items reads from either side.
proof fn lemma_compare<T: Ord>(a: T, b: T)
    requires
        ordered::<T>(),
    ensures
        less(a, b) ==> !less(b, a),
        !less(a, a),
{
    reveal(vstd::laws_eq::obeys_eq_spec_properties);
    reveal(vstd::laws_cmp::obeys_partial_cmp_spec_properties);
    reveal(vstd::laws_cmp::obeys_cmp_partial_ord);
    reveal(vstd::laws_cmp::obeys_cmp_ord);
}

/// A sequence has one first position of a smallest item.
pub proof fn lemma_first_min_unique<T: Ord>(s: Seq<T>, p: int, q: int)
    requires
        is_first_min(s, p),
        is_first_min(s, q),
    ensures
        p == q,
{
    if p < q {
        assert(less(s[q], s[p]));
    } else if q < p {
        assert(less(s[p], s[q]));
    }
}

/// The normal form of a cycle, in terms of the position at which it starts.
pub proof fn lemma_normalized<T: Ord>(s: Seq<T>, p: int)
    requires
        is_first_min(s, p),
    ensures
        normalized(s) == rotated(s, p),
{
    let q = choose|q: int| is_first_min(s, q);
    lemma_first_min_unique(s, p, q);
}

/// A cycle with one smallest item has the same normal form wherever one starts to go around it.
pub proof fn lemma_normalized_rotation<T: Ord>(s: Seq<T>, k: int, p: int)
    requires
        ordered::<T>(),
        0 <= k <= s.len(),
        0 <= p < s.len(),
        forall|j: int| 0 <= j < s.len() && j != p ==> less(s[p], #[trigger] s[j]),
    ensures
        normalized(rotated(s, k)) == normalized(s),
        normalized(s) == rotated(s, p),
{
    let r = rotated(s, k);
    let n = s.len() as int;
    assert(is_first_min(s, p)) by {
        assert forall|j: int| 0 <= j < s.len() implies !less(#[trigger] s[j], s[p]) by {
            lemma_compare(s[p], s[j]);
        }
    }
    lemma_normalized(s, p);
    let q = if k <= p {
        p - k
    } else {
        n - k + p
    };
    assert(r[q] == s[p]);
    assert(is_first_min(r, q)) by {
        assert forall|j: int| 0 <= j < r.len() && j != q implies less(r[q], #[trigger] r[j]) by {
            let i = if j < n - k {
                j + k
            } else {
                j - (n - k)
            };
            assert(r[j] == s[i] && i != p);
        }
        assert forall|j: int| 0 <= j < r.len() implies !less(#[trigger] r[j], r[q]) by {
            lemma_compare(r[q], r[j]);
        }
    }
    lemma_normalized(r, q);
    assert(rotated(r, q) =~= rotated(s, p));
}

/// A sequence of numbers has a first smallest item.
pub proof fn lemma_first_min(s: Seq<usize>) -> (p: int)
    requires
        s.len() > 0,
    ensures
        is_first_min(s, p),
    decreases s.len(),
{
    lemma_usize_ordered();
    if s.len() == 1 {
        0
    } else {
        let front = s.drop_last();
        let q = lemma_first_min(front);
        assert forall|j: int| 0 <= j < front.len() implies s[q] <= #[trigger] s[j] by {
            assert(!less(front[j], front[q]));
        }
        assert forall|j: int| 0 <= j < q implies s[q] < #[trigger] s[j] by {
            assert(less(front[q], front[j]));
        }
        if s.last() < s[q] {
            s.len() - 1
        } else {
            q
        }
    }
}

/// A cycle of distinct numbers has the same normal form wherever one starts to go around it.
pub proof fn lemma_distinct_normalized(c: Seq<usize>, k: int)
    requires
        c.no_duplicates(),
        0 < c.len(),
        0 <= k <= c.len(),
    ensures
        normalized(rotated(c, k)) == normalized(c),
{
    lemma_usize_ordered();
    let p = lemma_first_min(c);
    assert forall|j: int| 0 <= j < c.len() && j != p implies less(c[p], #[trigger] c[j]) by {
        assert(!less(c[j], c[p]));
    }
    lemma_normalized_rotation(c, k, p);
}

/// Turning a cycle to its smallest number keeps the way around it, and starts at the first of its
/// smallest numbers.
pub proof fn lemma_normal_form(s: Seq<usize>) -> (p: int)
    requires
        s.len() > 0,
    ensures
        0 <= p < s.len(),
        forall|j: int| 0 <= j < s.len() ==> s[p] <= #[trigger] s[j],
        forall|j: int| 0 <= j < p ==> s[p] < #[trigger] s[j],
        normalized(s).len() == s.len(),
        forall|i: int|
            0 <= i < s.len() ==> #[trigger] normalized(s)[i] == s[if p + i < s.len() {
                p + i
            } else {
                p + i - s.len()
            }],
{
    lemma_usize_ordered();
    let p = lemma_first_min(s);
    lemma_normalized(s, p);
    assert(is_first_min(s, p));
    assert forall|j: int| 0 <= j < s.len() implies s[p] <= #[trigger] s[j] by {
        assert(!less(s[j], s[p]));
    }
    assert forall|j: int| 0 <= j < p implies s[p] < #[trigger] s[j] by {
        assert(less(s[p], s[j]));
    }
    assert(normalized(s) == rotated(s, p));
    p
}

/// Normalizing twice is normalizing once.
pub proof fn lemma_normalized_idempotent<T: Ord>(s: Seq<T>, p: int)
    requires
        is_first_min(s, p),
    ensures
        normalized(normalized(s)) == normalized(s),
{
    lemma_normalized(s, p);
    let r = normalized(s);
    assert(is_first_min(r, 0)) by {
        assert(r[0] == s[p]);
        assert forall|j: int| 0 <= j < r.len() implies !less(#[trigger] r[j], r[0]) by {
            let i = if j < s.len() - p {
                j + p
            } else {
                j - (s.len() - p)
            };
            assert(r[j] == s[i]);
        }
    }
    lemma_normalized(r, 0);
    assert(rotated(r, 0) =~= r);
}

/// Whether `a` comes before `b`.
fn precedes<T: Ord>(a: &T, b: &T) -> (r: bool)
    ensures
        ordered::<T>() ==> r == less(*a, *b),
{
    proof {
        reveal(vstd::laws_cmp::obeys_cmp_ord);
    }
    match a.cmp(b) {
        Ordering::Less => true,
        _ => false,
    }
}

/// Normalizes a cycle to start with its "smallest" node. What comes out goes around the same cycle,
/// whatever the order of the nodes is worth.
pub fn normalize_cycle<T: Ord + Copy + Clone>(input: &[T]) -> (r: Vec<T>)
    ensures
        ordered::<T>() ==> r@ == normalized(input@) && (input@.len() > 0 ==> exists|p: int|
            is_first_min(input@, p) && r@ == rotated(input@, p)),
        exists|p: int| 0 <= p <= input@.len() && r@ == #[trigger] rotated(input@, p),
{
    let len = input.len();
    let mut min_pos: usize = 0;
    let mut i: usize = 1;
    proof {
        if ordered::<T>() && len > 0 {
            lemma_compare(input@[0], input@[0]);
        }
    }
    while i < len
        invariant
            len == input@.len(),
            min_pos < i,
            min_pos < len || min_pos == 0,
            len > 0 ==> i <= len,
            ordered::<T>() && len > 0 ==> {
                &&& forall|j: int| 0 <= j < i ==> !less(#[trigger] input@[j], input@[min_pos as int])
                &&& forall|j: int|
                    0 <= j < min_pos ==> less(input@[min_pos as int], #[trigger] input@[j])
            },
        decreases len - i,
    {
        if precedes(&input[i], &input[min_pos]) {
            proof {
                if ordered::<T>() {
                    let x = input@[i as int];
                    let y = input@[min_pos as int];
                    assert forall|j: int| 0 <= j < i implies less(x, #[trigger] input@[j]) by {
                        lemma_less_chain(x, y, input@[j]);
                    }
                    assert forall|j: int| 0 <= j < i + 1 implies !less(#[trigger] input@[j], x) by {
                        lemma_compare(x, input@[j]);
                    }
                }
            }
            min_pos = i;
        }
        i = i + 1;
    }
    let mut cycle: Vec<T> = Vec::with_capacity(len);
    let mut k: usize = 0;
    while k < len
        invariant
            len == input@.len(),
            k <= len,
            min_pos < len || min_pos == 0,
            cycle@ == rotated(input@, min_pos as int).take(k as int),
        decreases len - k,
    {
        let pos = if k < len - min_pos {
            min_pos + k
        } else {
            k - (len - min_pos)
        };
        cycle.push(input[pos]);
        proof {
            assert(rotated(input@, min_pos as int)[k as int] == input@[pos as int]);
            assert(rotated(input@, min_pos as int).take(k as int + 1) =~= rotated(
                input@,
                min_pos as int,
            ).take(k as int).push(input@[pos as int]));
        }
        k = k + 1;
    }
    proof {
        assert(cycle@ =~= rotated(input@, min_pos as int));
        if ordered::<T>() && len > 0 {
            assert(is_first_min(input@, min_pos as int));
            lemma_normalized(input@, min_pos as int);
        }
        if len == 0 {
            assert(rotated(input@, 0) =~= input@);
        }
    }
    cycle
}

} // verus!
