//! Stable sorting by a comparison function, as the collections' `sort` does it: the order
//! is computed as a sequence of positions into the sorted sequence.

use vstd::prelude::*;
use std::cmp::Ordering;
use crate::collections::{Element, views};

verus! {

/// A position as a mathematical integer.
pub open spec fn ix(i: usize) -> int {
    i as int
}

/// The length of a sequence as a mathematical integer.
pub open spec fn len_of<T>(s: Seq<T>) -> int {
    s.len() as int
}

/// The element at the `x`-th of the positions `p`.
pub open spec fn pick<T>(s: Seq<T>, p: Seq<usize>, x: int) -> T {
    s[p[x] as int]
}

/// `p` holds each position below `n` exactly once.
pub open spec fn positions_of(p: Seq<usize>, n: int) -> bool {
    &&& p.len() == n
    &&& forall|x: int| 0 <= x < p.len() ==> #[trigger] p[x] < n
    &&& p.no_duplicates()
}

/// The views of the elements of `s` at the positions `p`, in that order.
pub open spec fn arranged<V>(s: Seq<V>, p: Seq<usize>) -> Seq<V> {
    p.map_values(|x: usize| s[x as int])
}

/// No result of comparing `a` with `b` is `Greater`: `a` may stand before `b`.
pub open spec fn not_after<T, F: Fn(&T, &T) -> Ordering>(compare: &F, a: T, b: T) -> bool {
    forall|o: Ordering| #[trigger] compare.ensures((&a, &b), o) ==> o != Ordering::Greater
}

/// `compare` is a total order: it accepts any two elements, gives one result for them,
/// answers `Greater` one way round exactly when it answers `Less` the other, and "may stand
/// before" is transitive.
pub open spec fn total_order<T, F: Fn(&T, &T) -> Ordering>(compare: &F) -> bool {
    &&& forall|a: T, b: T| #[trigger] compare.requires((&a, &b))
    &&& forall|a: T, b: T, o1: Ordering, o2: Ordering|
        #[trigger] compare.ensures((&a, &b), o1) && #[trigger] compare.ensures((&a, &b), o2) ==> o1
            == o2
    &&& forall|a: T, b: T, o1: Ordering, o2: Ordering|
        #[trigger] compare.ensures((&a, &b), o1) && #[trigger] compare.ensures((&b, &a), o2) ==> (o1
            == Ordering::Greater <==> o2 == Ordering::Less)
    &&& forall|a: T, b: T, c: T|
        #[trigger] not_after(compare, a, b) && #[trigger] not_after(compare, b, c) ==> not_after(
            compare,
            a,
            c,
        )
}

/// The elements of `s` at the positions `p` are in the order of `compare`.
pub open spec fn sorted_by<T, F: Fn(&T, &T) -> Ordering>(compare: &F, s: Seq<T>, p: Seq<usize>) -> bool {
    forall|x: int, y: int|
        0 <= x < y < p.len() ==> not_after(compare, #[trigger] pick(s, p, x), #[trigger] pick(s, p, y))
}

/// Elements change their order only where `compare` puts the later one first: equal
/// elements keep their order.
pub open spec fn stable_by<T, F: Fn(&T, &T) -> Ordering>(compare: &F, s: Seq<T>, p: Seq<usize>) -> bool {
    forall|x: int, y: int|
        0 <= x < y < p.len() && p[x] > p[y] ==> compare.ensures(
            (&#[trigger] pick(s, p, y), &#[trigger] pick(s, p, x)),
            Ordering::Greater,
        )
}

/// Inserting the position `k` at `pos` keeps the positions sorted and stable, where the
/// elements before `pos` may stand before the new one and those after it compare greater.
proof fn lemma_insert_position<T, F: Fn(&T, &T) -> Ordering>(
    compare: &F,
    s: Seq<T>,
    p: Seq<usize>,
    pos: int,
    k: usize,
)
    requires
        total_order(compare),
        0 <= pos <= p.len(),
        ix(k) < s.len(),
        positions_of(p, ix(k)),
        sorted_by(compare, s, p),
        stable_by(compare, s, p),
        forall|m: int|
            pos <= m < p.len() ==> compare.ensures(
                (&#[trigger] pick(s, p, m), &s[ix(k)]),
                Ordering::Greater,
            ),
        pos > 0 ==> not_after(compare, pick(s, p, pos - 1), s[ix(k)]),
    ensures
        positions_of(p.insert(pos, k), ix(k) + 1),
        sorted_by(compare, s, p.insert(pos, k)),
        stable_by(compare, s, p.insert(pos, k)),
{
    let q = p.insert(pos, k);
    let e = s[ix(k)];
    assert forall|x: int| 0 <= x < q.len() implies pick(s, q, x) == (if x < pos {
        pick(s, p, x)
    } else if x == pos {
        e
    } else {
        pick(s, p, x - 1)
    }) && q[x] == (if x < pos {
        p[x]
    } else if x == pos {
        k
    } else {
        p[x - 1]
    }) by {}
    assert forall|x: int| 0 <= x < q.len() implies #[trigger] q[x] < ix(k) + 1 by {
        if x != pos {
            let y = if x < pos {
                x
            } else {
                x - 1
            };
            assert(p[y] < ix(k));
        }
    }
    assert forall|x: int, y: int| 0 <= x < q.len() && 0 <= y < q.len() && x != y implies q[x]
        != q[y] by {
        if x != pos && y != pos {
            let a = if x < pos {
                x
            } else {
                x - 1
            };
            let b = if y < pos {
                y
            } else {
                y - 1
            };
            assert(a != b);
            assert(p[a] != p[b]);
        } else if x == pos {
            let b = if y < pos {
                y
            } else {
                y - 1
            };
            assert(p[b] < ix(k));
        } else {
            let a = if x < pos {
                x
            } else {
                x - 1
            };
            assert(p[a] < ix(k));
        }
    }
    assert forall|x: int, y: int| 0 <= x < y < q.len() implies not_after(
        compare,
        #[trigger] pick(s, q, x),
        #[trigger] pick(s, q, y),
    ) by {
        if x < pos && y < pos {
            assert(not_after(compare, pick(s, p, x), pick(s, p, y)));
        } else if x > pos && y > pos {
            assert(not_after(compare, pick(s, p, x - 1), pick(s, p, y - 1)));
        } else if x < pos && y > pos {
            assert(not_after(compare, pick(s, p, x), pick(s, p, y - 1)));
        } else if y == pos {
            if x < pos - 1 {
                assert(not_after(compare, pick(s, p, x), pick(s, p, pos - 1)));
                assert(not_after(compare, pick(s, p, pos - 1), e));
            }
        } else {
            let g = pick(s, p, y - 1);
            assert(compare.ensures((&g, &e), Ordering::Greater));
            assert forall|o: Ordering| #[trigger] compare.ensures((&e, &g), o) implies o
                != Ordering::Greater by {
                assert(compare.ensures((&g, &e), Ordering::Greater));
            }
        }
    }
    assert forall|x: int, y: int| 0 <= x < y < q.len() && q[x] > q[y] implies compare.ensures(
        (&#[trigger] pick(s, q, y), &#[trigger] pick(s, q, x)),
        Ordering::Greater,
    ) by {
        if x < pos && y < pos {
            assert(p[x] > p[y]);
        } else if x > pos && y > pos {
            assert(p[x - 1] > p[y - 1]);
        } else if x < pos && y > pos {
            assert(p[x] > p[y - 1]);
        } else if y == pos {
            assert(p[x] < ix(k));
        } else {
            assert(pick(s, q, y) == pick(s, p, y - 1));
        }
    }
}

/// The positions of the elements of `s` in the stable order of `compare`.
pub fn sort_positions<T, F: Fn(&T, &T) -> Ordering>(s: &Vec<T>, compare: &F) -> (p: Vec<usize>)
    requires
        total_order(compare),
    ensures
        positions_of(p@, len_of(s@)),
        sorted_by(compare, s@, p@),
        stable_by(compare, s@, p@),
{
    let mut p: Vec<usize> = Vec::new();
    let mut k: usize = 0;
    while k < s.len()
        invariant
            total_order(compare),
            k <= s@.len(),
            positions_of(p@, ix(k)),
            sorted_by(compare, s@, p@),
            stable_by(compare, s@, p@),
        decreases s@.len() - k,
    {
        let mut pos: usize = p.len();
        let mut done = false;
        while pos > 0 && !done
            invariant
                total_order(compare),
                k < s@.len(),
                positions_of(p@, ix(k)),
                pos <= p@.len(),
                forall|m: int|
                    pos <= m < p@.len() ==> compare.ensures(
                        (&#[trigger] pick(s@, p@, m), &s@[ix(k)]),
                        Ordering::Greater,
                    ),
                done ==> pos > 0 && not_after(compare, pick(s@, p@, pos - 1), s@[ix(k)]),
            decreases pos + (if done {
                0int
            } else {
                1int
            }),
        {
            let before = &s[p[pos - 1]];
            assert(*before == pick(s@, p@, pos - 1));
            let o = compare(before, &s[k]);
            match o {
                Ordering::Greater => {
                    pos = pos - 1;
                },
                _ => {
                    proof {
                        let a = pick(s@, p@, pos - 1);
                        let b = s@[ix(k)];
                        assert forall|o2: Ordering| #[trigger] compare.ensures((&a, &b), o2) implies o2
                            != Ordering::Greater by {
                            assert(compare.ensures((&a, &b), o));
                        }
                    }
                    done = true;
                },
            }
        }
        proof {
            lemma_insert_position(compare, s@, p@, ix(pos), k);
        }
        p.insert(pos, k);
        k = k + 1;
    }
    p
}

/// Copies of the elements of `s` at the positions `p`, in that order.
pub fn arrange<T: Element>(s: &Vec<T>, p: &Vec<usize>) -> (r: Vec<T>)
    requires
        forall|x: int| 0 <= x < p@.len() ==> #[trigger] p@[x] < s@.len(),
    ensures
        views(r@) == arranged(views(s@), p@),
{
    let mut r: Vec<T> = Vec::new();
    let mut i: usize = 0;
    while i < p.len()
        invariant
            i <= p@.len(),
            forall|x: int| 0 <= x < p@.len() ==> #[trigger] p@[x] < s@.len(),
            r@.len() == i,
            forall|j: int| 0 <= j < i ==> #[trigger] r@[j]@ == s@[p@[j] as int]@,
        decreases p@.len() - i,
    {
        let e = s[p[i]].duplicate();
        r.push(e);
        i = i + 1;
    }
    assert(views(r@) =~= arranged(views(s@), p@));
    r
}

} // verus!
