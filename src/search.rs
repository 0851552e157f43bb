//! The combinatorial search: every set of five pairwise-disjoint masks drawn
//! from a sorted list of masks, found by filtering the candidates at each
//! depth and only looking forward in the list.
use vstd::math::min;
use vstd::prelude::*;
use rayon::iter::{IndexedParallelIterator, IntoParallelIterator, ParallelIterator};

verus! {

/// Number of words in a solution.
pub const SOLUTION_LEN: usize = 5;

/// Values strictly increase along the sequence.
pub open spec fn increasing(s: Seq<u32>) -> bool {
    forall|a: int, b: int| 0 <= a < b < s.len() ==> s[a] < s[b]
}

/// No two entries of the sequence share a bit.
pub open spec fn pairwise_disjoint(s: Seq<u32>) -> bool {
    forall|a: int, b: int| 0 <= a < b < s.len() ==> s[a] & s[b] == 0
}

/// Every entry of `s` occurs in `c`.
pub open spec fn drawn_from(c: Seq<u32>, s: Seq<u32>) -> bool {
    forall|a: int| 0 <= a < s.len() ==> c.contains(#[trigger] s[a])
}

/// A list the search can work on: sorted without repeats, and no empty mask.
pub open spec fn is_mask_list(s: Seq<u32>) -> bool {
    &&& increasing(s)
    &&& forall|a: int| 0 <= a < s.len() ==> #[trigger] s[a] != 0
}

/// An increasing run of pairwise-disjoint masks taken from `c`.
pub open spec fn is_chain(c: Seq<u32>, s: Seq<u32>) -> bool {
    &&& increasing(s)
    &&& pairwise_disjoint(s)
    &&& drawn_from(c, s)
}

/// A solution over `list`: five pairwise-disjoint masks of the list, in
/// increasing order.
pub open spec fn is_solution(list: Seq<u32>, t: Seq<u32>) -> bool {
    t.len() == SOLUTION_LEN && is_chain(list, t)
}

/// The masks that share no bit with `mask`.
pub open spec fn disjoint_from(mask: u32) -> spec_fn(u32) -> bool {
    |m: u32| m & mask == 0
}

/// The candidates that follow `c[j]` once `c[j]` is chosen: the entries of
/// `c` from position `j` on that share no bit with it.
pub open spec fn remaining_after(c: Seq<u32>, j: int) -> Seq<u32> {
    c.subrange(j, c.len() as int).filter(disjoint_from(c[j]))
}

/// What the search emits below the partial solution `p` when `d` more masks
/// are to be chosen from the candidates `c`, starting at position `j`.
pub open spec fn extensions(c: Seq<u32>, j: int, p: Seq<u32>, d: nat) -> Seq<Seq<u32>>
    decreases d, c.len() - j,
{
    if d == 0 || j < 0 || j >= c.len() {
        Seq::empty()
    } else {
        let first = if d == 1 {
            seq![p.push(c[j])]
        } else {
            extensions(remaining_after(c, j), 0, p.push(c[j]), (d - 1) as nat)
        };
        first + extensions(c, j + 1, p, d)
    }
}

/// What the search emits for the outer choice `list[i]`.
pub open spec fn branch(list: Seq<u32>, i: int) -> Seq<Seq<u32>> {
    extensions(remaining_after(list, i), 0, seq![list[i]], (SOLUTION_LEN - 1) as nat)
}

/// Every solution over `list`, in the order the search finds them.
pub open spec fn all_solutions(list: Seq<u32>) -> Seq<Seq<u32>> {
    extensions(list, 0, Seq::empty(), SOLUTION_LEN as nat)
}

/// The solutions of a result vector, as sequences.
pub open spec fn views(s: Seq<[u32; 5]>) -> Seq<Seq<u32>> {
    s.map_values(|a: [u32; 5]| a@)
}

/// `t` continues the partial solution `p` by `d` masks of `c`, the first of
/// them at position `j` or later.
pub open spec fn extends(c: Seq<u32>, j: int, p: Seq<u32>, d: nat, t: Seq<u32>) -> bool {
    &&& t.len() == p.len() + d
    &&& t.subrange(0, p.len() as int) == p
    &&& is_chain(c, t.subrange(p.len() as int, t.len() as int))
    &&& 0 <= j < c.len()
    &&& c[j] <= t[p.len() as int]
}

proof fn lemma_self_and(x: u32)
    ensures
        x & x == x,
{
    assert(x & x == x) by (bit_vector);
}

proof fn lemma_filter_increasing(s: Seq<u32>, f: spec_fn(u32) -> bool)
    requires
        increasing(s),
    ensures
        increasing(s.filter(f)),
    decreases s.len(),
{
    if s.len() > 0 {
        let rest = s.drop_last();
        lemma_filter_increasing(rest, f);
        let sub = rest.filter(f);
        assert forall|a: int| 0 <= a < sub.len() implies sub[a] < s.last() by {
            rest.lemma_filter_contains_rev(f, sub[a]);
            let k = choose|k: int| 0 <= k < rest.len() && rest[k] == sub[a];
            assert(s[k] == rest[k]);
        }
        reveal(Seq::filter);
        assert(s.filter(f) == (if f(s.last()) {
            sub.push(s.last())
        } else {
            sub
        }));
    }
}

/// The candidates after a choice are again a mask list, holding exactly the
/// larger masks of `c` that share no bit with the choice.
proof fn lemma_remaining(c: Seq<u32>, j: int)
    requires
        is_mask_list(c),
        0 <= j < c.len(),
    ensures
        is_mask_list(remaining_after(c, j)),
        forall|x: u32|
            #[trigger] remaining_after(c, j).contains(x) <==> (c.contains(x) && c[j] < x && x & c[j] == 0),
{
    let sub = c.subrange(j, c.len() as int);
    let f = disjoint_from(c[j]);
    let r = remaining_after(c, j);
    lemma_filter_increasing(sub, f);
    lemma_self_and(c[j]);
    assert forall|x: u32| r.contains(x) implies c.contains(x) && c[j] < x && x & c[j] == 0 by {
        sub.lemma_filter_contains_rev(f, x);
        let ri = choose|ri: int| 0 <= ri < r.len() && r[ri] == x;
        sub.lemma_filter_pred(f, ri);
        let k = choose|k: int| 0 <= k < sub.len() && sub[k] == x;
        assert(c[j + k] == x);
        assert(c.contains(x));
    }
    assert forall|x: u32| c.contains(x) && c[j] < x && x & c[j] == 0 implies r.contains(x) by {
        let k = choose|k: int| 0 <= k < c.len() && c[k] == x;
        assert(k > j);
        assert(sub[k - j] == x);
        sub.lemma_filter_contains(f, k - j);
    }
    assert forall|a: int| 0 <= a < r.len() implies #[trigger] r[a] != 0 by {
        assert(r.contains(r[a]));
    }
}

proof fn lemma_concat_contains(a: Seq<Seq<u32>>, b: Seq<Seq<u32>>)
    ensures
        forall|t: Seq<u32>| (a + b).contains(t) <==> (a.contains(t) || b.contains(t)),
{
    assert forall|t: Seq<u32>| (a + b).contains(t) <==> (a.contains(t) || b.contains(t)) by {
        if (a + b).contains(t) {
            let k = choose|k: int| 0 <= k < (a + b).len() && (a + b)[k] == t;
            if k >= a.len() {
                assert(b[k - a.len()] == t);
            }
        }
        if a.contains(t) {
            let k = choose|k: int| 0 <= k < a.len() && a[k] == t;
            assert((a + b)[k] == t);
        }
        if b.contains(t) {
            let k = choose|k: int| 0 <= k < b.len() && b[k] == t;
            assert((a + b)[k + a.len()] == t);
        }
    }
}

proof fn lemma_concat_no_duplicates(a: Seq<Seq<u32>>, b: Seq<Seq<u32>>)
    requires
        a.no_duplicates(),
        b.no_duplicates(),
        forall|t: Seq<u32>| a.contains(t) ==> !b.contains(t),
    ensures
        (a + b).no_duplicates(),
{
    let s = a + b;
    assert forall|x: int, y: int| 0 <= x < s.len() && 0 <= y < s.len() && x != y implies s[x]
        != s[y] by {
        if x < a.len() && y >= a.len() {
            assert(a.contains(s[x]));
            assert(b.contains(b[y - a.len()]));
        } else if y < a.len() && x >= a.len() {
            assert(a.contains(s[y]));
            assert(b.contains(b[x - a.len()]));
        } else if x >= a.len() {
            assert(s[x] == b[x - a.len()] && s[y] == b[y - a.len()]);
        }
    }
}

proof fn lemma_and_comm(x: u32, y: u32)
    ensures
        x & y == y & x,
{
    assert(x & y == y & x) by (bit_vector);
}

/// The part of `extensions(c, j, p, d)` that chooses `c[j]` next holds
/// exactly its continuations whose next mask is `c[j]`.
proof fn lemma_first_choice(c: Seq<u32>, j: int, p: Seq<u32>, d: nat, t: Seq<u32>)
    requires
        is_mask_list(c),
        0 <= j < c.len(),
        1 <= d,
        d > 1 ==> forall|t2: Seq<u32>|
            #[trigger] extensions(remaining_after(c, j), 0, p.push(c[j]), (d - 1) as nat).contains(
                t2,
            ) <==> extends(remaining_after(c, j), 0, p.push(c[j]), (d - 1) as nat, t2),
    ensures
        (if d == 1 {
            seq![p.push(c[j])]
        } else {
            extensions(remaining_after(c, j), 0, p.push(c[j]), (d - 1) as nat)
        }).contains(t) <==> (extends(c, j, p, d, t) && t[p.len() as int] == c[j]),
{
    let p2 = p.push(c[j]);
    let r = remaining_after(c, j);
    let np = p.len() as int;
    lemma_remaining(c, j);
    if d == 1 {
        if extends(c, j, p, d, t) && t[np] == c[j] {
            assert forall|k: int| 0 <= k < np implies t[k] == p[k] by {
                assert(t.subrange(0, np)[k] == t[k]);
            }
            assert(t =~= p2);
            assert(seq![p2][0] == t);
        }
        if seq![p2].contains(t) {
            let k = choose|k: int| 0 <= k < seq![p2].len() && seq![p2][k] == t;
            assert(t == p2);
            assert(t.subrange(0, np) =~= p);
            let u = t.subrange(np, t.len() as int);
            assert(u =~= seq![c[j]]);
            assert(c.contains(c[j]));
            assert(drawn_from(c, u));
            assert(extends(c, j, p, d, t));
        }
    } else {
        let u = t.subrange(np, t.len() as int);
        let u2 = t.subrange(np + 1, t.len() as int);
        if extends(r, 0, p2, (d - 1) as nat, t) {
            assert(is_chain(r, u2));
            assert(t.subrange(0, np + 1)[np] == t[np]);
            assert(t[np] == c[j]);
            assert forall|k: int| 0 <= k < np implies t[k] == p[k] by {
                assert(t.subrange(0, np + 1)[k] == t[k]);
                assert(p2[k] == p[k]);
            }
            assert(t.subrange(0, np) =~= p);
            assert forall|k: int| 1 <= k < u.len() implies u[k] == u2[k - 1] && r.contains(
                #[trigger] u[k],
            ) by {
                assert(r.contains(u2[k - 1]));
            }
            assert(u[0] == c[j]);
            assert forall|a: int, b: int| 0 <= a < b < u.len() implies u[a] < u[b] && u[a] & u[b]
                == 0 by {
                if a == 0 {
                    assert(u[b] == u2[b - 1]);
                    assert(r.contains(u2[b - 1]));
                    assert(c[j] < u[b]);
                    lemma_and_comm(u[b], c[j]);
                    assert(u[a] < u[b]);
                } else {
                    assert(u[a] == u2[a - 1] && u[b] == u2[b - 1]);
                    assert(u2[a - 1] < u2[b - 1]);
                    assert(u2[a - 1] & u2[b - 1] == 0);
                }
            }
            assert forall|a: int| 0 <= a < u.len() implies c.contains(#[trigger] u[a]) by {
                if a == 0 {
                    assert(c.contains(c[j]));
                } else {
                    assert(r.contains(u[a]));
                }
            }
            assert(is_chain(c, u));
            assert(extends(c, j, p, d, t));
        }
        if extends(c, j, p, d, t) && t[np] == c[j] {
            assert forall|k: int| 0 <= k < np + 1 implies t[k] == p2[k] by {
                if k < np {
                    assert(t.subrange(0, np)[k] == t[k]);
                }
            }
            assert(t.subrange(0, np + 1) =~= p2);
            assert(u[0] == t[np]);
            assert(is_chain(c, u));
            assert forall|k: int| 0 <= k < u2.len() implies r.contains(#[trigger] u2[k]) by {
                assert(u2[k] == u[k + 1]);
                assert(c.contains(u[k + 1]));
                assert(u[0] < u[k + 1]);
                assert(u[0] & u[k + 1] == 0);
                lemma_and_comm(u[0], u[k + 1]);
            }
            assert forall|a: int, b: int| 0 <= a < b < u2.len() implies #[trigger] u2[a]
                < #[trigger] u2[b] by {
                assert(u2[a] == u[a + 1] && u2[b] == u[b + 1]);
            }
            assert forall|a: int, b: int| 0 <= a < b < u2.len() implies #[trigger] u2[a]
                & #[trigger] u2[b] == 0 by {
                assert(u2[a] == u[a + 1] && u2[b] == u[b + 1]);
            }
            assert(r.contains(u2[0]));
            let k = choose|k: int| 0 <= k < r.len() && r[k] == u2[0];
            if k > 0 {
                assert(r[0] < r[k]);
            }
            assert(u2[0] == t[np + 1]);
            assert(is_chain(r, u2));
            assert(extends(r, 0, p2, (d - 1) as nat, t));
        }
    }
}

/// The search below `p` emits, once each, exactly the continuations of `p`
/// by `d` increasing pairwise-disjoint masks of `c` starting at `c[j]` or later.
pub proof fn lemma_extensions(c: Seq<u32>, j: int, p: Seq<u32>, d: nat)
    requires
        is_mask_list(c),
        1 <= d,
        0 <= j <= c.len(),
    ensures
        forall|t: Seq<u32>| extensions(c, j, p, d).contains(t) <==> extends(c, j, p, d, t),
        extensions(c, j, p, d).no_duplicates(),
    decreases d, c.len() - j,
{
    let np = p.len() as int;
    if j == c.len() {
        assert(extensions(c, j, p, d) =~= Seq::empty());
        assert forall|t: Seq<u32>| !extensions(c, j, p, d).contains(t) by {}
    } else {
        let p2 = p.push(c[j]);
        let r = remaining_after(c, j);
        let a = if d == 1 {
            seq![p2]
        } else {
            extensions(r, 0, p2, (d - 1) as nat)
        };
        let b = extensions(c, j + 1, p, d);
        assert(extensions(c, j, p, d) == a + b);
        lemma_extensions(c, j + 1, p, d);
        lemma_remaining(c, j);
        if d > 1 {
            lemma_extensions(r, 0, p2, (d - 1) as nat);
        }
        assert forall|t: Seq<u32>| a.contains(t) <==> (extends(c, j, p, d, t) && t[np] == c[j]) by {
            lemma_first_choice(c, j, p, d, t);
        }
        assert forall|t: Seq<u32>| b.contains(t) <==> (extends(c, j, p, d, t) && t[np] != c[j]) by {
            let u = t.subrange(np, t.len() as int);
            if b.contains(t) {
                assert(extends(c, j + 1, p, d, t));
                assert(c[j] < c[j + 1]);
                assert(extends(c, j, p, d, t));
            }
            if extends(c, j, p, d, t) && t[np] != c[j] {
                assert(t[np] == u[0]);
                assert(c.contains(u[0]));
                let k = choose|k: int| 0 <= k < c.len() && c[k] == u[0];
                if k < j {
                    assert(c[k] < c[j]);
                }
                assert(k > j);
                if k > j + 1 {
                    assert(c[j + 1] < c[k]);
                }
                assert(extends(c, j + 1, p, d, t));
            }
        }
        lemma_concat_contains(a, b);
        assert forall|t: Seq<u32>| extensions(c, j, p, d).contains(t) <==> extends(c, j, p, d, t) by {
            assert((a + b).contains(t) <==> (a.contains(t) || b.contains(t)));
        }
        if d == 1 {
            assert(a.no_duplicates());
        }
        lemma_concat_no_duplicates(a, b);
    }
}

/// The full search finds each solution over `list` exactly once.
pub proof fn lemma_all_solutions(list: Seq<u32>)
    requires
        is_mask_list(list),
    ensures
        forall|t: Seq<u32>| all_solutions(list).contains(t) <==> is_solution(list, t),
        all_solutions(list).no_duplicates(),
{
    lemma_extensions(list, 0, Seq::empty(), SOLUTION_LEN as nat);
    assert forall|t: Seq<u32>| all_solutions(list).contains(t) <==> is_solution(list, t) by {
        let e = Seq::<u32>::empty();
        if is_solution(list, t) {
            assert(t.subrange(0, 0) =~= e);
            assert(t.subrange(0, t.len() as int) =~= t);
            assert(list.contains(t[0]));
            let k = choose|k: int| 0 <= k < list.len() && list[k] == t[0];
            if k > 0 {
                assert(list[0] < list[k]);
            }
            assert(extends(list, 0, e, SOLUTION_LEN as nat, t));
        }
        if all_solutions(list).contains(t) {
            assert(extends(list, 0, e, SOLUTION_LEN as nat, t));
            assert(t.subrange(0, t.len() as int) =~= t);
        }
    }
}

/// Two increasing sequences with the same members are equal.
pub proof fn lemma_increasing_same_members(a: Seq<u32>, b: Seq<u32>)
    requires
        increasing(a),
        increasing(b),
        forall|x: u32| a.contains(x) <==> b.contains(x),
    ensures
        a == b,
    decreases a.len(),
{
    if a.len() == 0 {
        if b.len() > 0 {
            assert(b.contains(b[0]));
        }
        assert(a =~= b);
    } else {
        assert(a.contains(a[0]));
        assert(b.len() > 0);
        assert(b.contains(b[0]));
        let k = choose|k: int| 0 <= k < b.len() && b[k] == a[0];
        let m = choose|m: int| 0 <= m < a.len() && a[m] == b[0];
        if k > 0 {
            assert(b[0] < b[k]);
        }
        if m > 0 {
            assert(a[0] < a[m]);
        }
        assert(a[0] == b[0]);
        let a2 = a.drop_first();
        let b2 = b.drop_first();
        assert forall|x: u32| a2.contains(x) <==> b2.contains(x) by {
            if a2.contains(x) {
                let i = choose|i: int| 0 <= i < a2.len() && a2[i] == x;
                assert(a[0] < a[i + 1]);
                assert(a.contains(a[i + 1]));
                let j = choose|j: int| 0 <= j < b.len() && b[j] == x;
                assert(j != 0);
                assert(b2[j - 1] == x);
            }
            if b2.contains(x) {
                let i = choose|i: int| 0 <= i < b2.len() && b2[i] == x;
                assert(b[0] < b[i + 1]);
                assert(b.contains(b[i + 1]));
                let j = choose|j: int| 0 <= j < a.len() && a[j] == x;
                assert(j != 0);
                assert(a2[j - 1] == x);
            }
        }
        lemma_increasing_same_members(a2, b2);
        assert forall|i: int| 0 <= i < a.len() implies a[i] == b[i] by {
            if i > 0 {
                assert(a[i] == a2[i - 1] && b[i] == b2[i - 1]);
            }
        }
        assert(a =~= b);
    }
}

/// In every solution, any two of the five masks share no letter.
pub proof fn lemma_solution_disjoint(list: Seq<u32>, t: Seq<u32>)
    requires
        is_solution(list, t),
    ensures
        forall|a: int, b: int| 0 <= a < 5 && 0 <= b < 5 && a != b ==> #[trigger] t[a] & #[trigger] t[b] == 0,
{
    assert forall|a: int, b: int| 0 <= a < 5 && 0 <= b < 5 && a != b implies #[trigger] t[a]
        & #[trigger] t[b] == 0 by {
        if b < a {
            assert(t[b] & t[a] == 0);
            lemma_and_comm(t[a], t[b]);
        }
    }
}

/// No two solutions found over a mask list hold the same five masks, in
/// whatever order they are taken.
pub proof fn lemma_no_permutation_duplicates(list: Seq<u32>)
    requires
        is_mask_list(list),
    ensures
        forall|a: int, b: int|
            0 <= a < all_solutions(list).len() && 0 <= b < all_solutions(list).len() && a != b
                ==> (#[trigger] all_solutions(list)[a]).to_set() != (
            #[trigger] all_solutions(list)[b]).to_set(),
{
    let r = all_solutions(list);
    lemma_all_solutions(list);
    assert forall|a: int, b: int| 0 <= a < r.len() && 0 <= b < r.len() && a != b implies (
    #[trigger] r[a]).to_set() != (#[trigger] r[b]).to_set() by {
        assert(r.contains(r[a]) && r.contains(r[b]));
        assert(is_solution(list, r[a]) && is_solution(list, r[b]));
        assert(r[a] != r[b]);
        if r[a].to_set() == r[b].to_set() {
            assert forall|x: u32| r[a].contains(x) <==> r[b].contains(x) by {
                assert(r[a].to_set().contains(x) == r[a].contains(x));
                assert(r[b].to_set().contains(x) == r[b].contains(x));
            }
            lemma_increasing_same_members(r[a], r[b]);
        }
    }
}

/// The sets of five masks of `list` that share no bit pairwise.
pub open spec fn disjoint_five_subsets(list: Seq<u32>) -> Set<Set<u32>> {
    Set::new(
        |m: Set<u32>|
            {
                &&& m.finite()
                &&& m.len() == SOLUTION_LEN
                &&& m.subset_of(list.to_set())
                &&& forall|x: u32, y: u32| m.contains(x) && m.contains(y) && x != y ==> x & y == 0
            },
    )
}

proof fn lemma_increasing_no_duplicates(s: Seq<u32>)
    requires
        increasing(s),
    ensures
        s.no_duplicates(),
{
    assert forall|a: int, b: int| 0 <= a < s.len() && 0 <= b < s.len() && a != b implies s[a]
        != s[b] by {
        if a < b {
            assert(s[a] < s[b]);
        } else {
            assert(s[b] < s[a]);
        }
    }
}

/// Taken as sets, the solutions found over a mask list are exactly its sets
/// of five pairwise-disjoint masks, and there are as many solutions as such
/// sets.
pub proof fn lemma_solution_sets(list: Seq<u32>)
    requires
        is_mask_list(list),
    ensures
        all_solutions(list).map_values(|t: Seq<u32>| t.to_set()).to_set() == disjoint_five_subsets(
            list,
        ),
        all_solutions(list).len() == disjoint_five_subsets(list).len(),
{
    let r = all_solutions(list);
    let q = r.map_values(|t: Seq<u32>| t.to_set());
    lemma_all_solutions(list);
    assert forall|m: Set<u32>| q.to_set().contains(m) implies disjoint_five_subsets(list).contains(
        m,
    ) by {
        let i = choose|i: int| 0 <= i < q.len() && q[i] == m;
        let t = r[i];
        assert(r.contains(t));
        assert(is_solution(list, t));
        lemma_increasing_no_duplicates(t);
        t.unique_seq_to_set();
        vstd::seq_lib::seq_to_set_is_finite(t);
        lemma_solution_disjoint(list, t);
        assert forall|x: u32| m.contains(x) implies list.to_set().contains(x) by {
            let a = choose|a: int| 0 <= a < t.len() && t[a] == x;
            assert(list.contains(t[a]));
        }
        assert forall|x: u32, y: u32| m.contains(x) && m.contains(y) && x != y implies x & y
            == 0 by {
            let a = choose|a: int| 0 <= a < t.len() && t[a] == x;
            let b = choose|b: int| 0 <= b < t.len() && t[b] == y;
            assert(t[a] & t[b] == 0);
        }
    }
    assert forall|m: Set<u32>| disjoint_five_subsets(list).contains(m) implies q.to_set().contains(
        m,
    ) by {
        let f = |x: u32| m.contains(x);
        let s = list.filter(f);
        lemma_filter_increasing(list, f);
        assert forall|x: u32| s.contains(x) <==> m.contains(x) by {
            if s.contains(x) {
                list.lemma_filter_contains_rev(f, x);
                let k = choose|k: int| 0 <= k < s.len() && s[k] == x;
                list.lemma_filter_pred(f, k);
            }
            if m.contains(x) {
                assert(list.to_set().contains(x));
                let k = choose|k: int| 0 <= k < list.len() && list[k] == x;
                list.lemma_filter_contains(f, k);
            }
        }
        assert(s.to_set() =~= m);
        lemma_increasing_no_duplicates(s);
        s.unique_seq_to_set();
        assert forall|a: int, b: int| 0 <= a < b < s.len() implies #[trigger] s[a] & #[trigger] s[b]
            == 0 by {
            assert(s[a] < s[b]);
            assert(s.contains(s[a]) && s.contains(s[b]));
        }
        assert forall|a: int| 0 <= a < s.len() implies list.contains(#[trigger] s[a]) by {
            assert(s.contains(s[a]));
            assert(m.contains(s[a]));
            assert(list.to_set().contains(s[a]));
        }
        assert(is_solution(list, s));
        assert(r.contains(s));
        let i = choose|i: int| 0 <= i < r.len() && r[i] == s;
        assert(q[i] == m);
    }
    assert(q.to_set() =~= disjoint_five_subsets(list));
    lemma_no_permutation_duplicates(list);
    assert forall|a: int, b: int| 0 <= a < q.len() && 0 <= b < q.len() && a != b implies q[a]
        != q[b] by {
        assert(r[a].to_set() != r[b].to_set());
    }
    q.unique_seq_to_set();
}

/// The search depends only on which masks are listed: two mask lists with
/// the same members (as two runs over the same words build) give the same
/// solutions.
pub proof fn lemma_same_masks_same_solutions(a: Seq<u32>, b: Seq<u32>)
    requires
        is_mask_list(a),
        is_mask_list(b),
        forall|x: u32| a.contains(x) <==> b.contains(x),
    ensures
        all_solutions(a) == all_solutions(b),
{
    lemma_increasing_same_members(a, b);
}

/// Fills `vec` with the entries of `prev_vec` from position `start` on that
/// share no bit with `mask`, in their order; nothing when `start` is past
/// the end.
pub fn filter_vec(vec: &mut Vec<u32>, prev_vec: &Vec<u32>, mask: u32, start: usize)
    ensures
        final(vec)@ == prev_vec@.subrange(
            min(start as int, prev_vec@.len() as int),
            prev_vec@.len() as int,
        ).filter(disjoint_from(mask)),
{
    vec.clear();
    let first: usize = if start <= prev_vec.len() {
        start
    } else {
        prev_vec.len()
    };
    let mut idx: usize = first;
    while idx < prev_vec.len()
        invariant
            first == min(start as int, prev_vec@.len() as int),
            first <= idx <= prev_vec@.len(),
            vec@ == prev_vec@.subrange(first as int, idx as int).filter(disjoint_from(mask)),
        decreases prev_vec@.len() - idx,
    {
        let m = prev_vec[idx];
        proof {
            reveal(Seq::filter);
            let next = prev_vec@.subrange(first as int, idx as int + 1);
            assert(next.drop_last() =~= prev_vec@.subrange(first as int, idx as int));
            assert(next.last() == m);
        }
        if m & mask == 0 {
            vec.push(m);
        }
        idx = idx + 1;
    }
}

proof fn lemma_views_push(s: Seq<[u32; 5]>, a: [u32; 5])
    ensures
        views(s.push(a)) == views(s).push(a@),
{
    assert(views(s.push(a)) =~= views(s).push(a@));
}

proof fn lemma_views_add(s: Seq<[u32; 5]>, t: Seq<[u32; 5]>)
    ensures
        views(s + t) == views(s) + views(t),
{
    assert(views(s + t) =~= views(s) + views(t));
}

/// After one more choice: the pending part of a level shrinks by what the
/// deeper level emitted for `c[j]`.
proof fn lemma_step(
    done: Seq<Seq<u32>>,
    deeper: Seq<Seq<u32>>,
    base: Seq<Seq<u32>>,
    c: Seq<u32>,
    j: int,
    p: Seq<u32>,
    d: nat,
)
    requires
        d > 1,
        0 <= j < c.len(),
        done + extensions(c, j, p, d) == base + extensions(c, 0, p, d),
        is_mask_list(c),
        deeper == extensions(remaining_after(c, j), 0, p.push(c[j]), (d - 1) as nat),
    ensures
        (done + deeper) + extensions(c, j + 1, p, d) == base + extensions(c, 0, p, d),
{
    assert(extensions(c, j, p, d) == deeper + extensions(c, j + 1, p, d));
    assert((done + deeper) + extensions(c, j + 1, p, d) =~= done + extensions(c, j, p, d));
}

/// Every solution whose first mask is `masks[i]`, found by four levels of
/// filtering, each reusing its own buffer.
fn branch_solutions(masks: &Vec<u32>, i: usize) -> (r: Vec<[u32; 5]>)
    requires
        is_mask_list(masks@),
        i < masks@.len(),
    ensures
        views(r@) == branch(masks@, i as int),
{
    let n = masks.len();
    let mask = masks[i];
    let mut solutions: Vec<[u32; 5]> = Vec::new();
    let mut words1: Vec<u32> = Vec::with_capacity(n);
    let mut words2: Vec<u32> = Vec::with_capacity(n);
    let mut words3: Vec<u32> = Vec::with_capacity(n);
    let mut words4: Vec<u32> = Vec::with_capacity(n);
    filter_vec(&mut words1, masks, mask, i);
    proof {
        lemma_remaining(masks@, i as int);
    }
    let ghost p1 = seq![mask];
    let mut j: usize = 0;
    while j < words1.len()
        invariant
            is_mask_list(words1@),
            j <= words1@.len(),
            p1 == seq![mask],
            views(solutions@) + extensions(words1@, j as int, p1, 4) == extensions(
                words1@,
                0,
                p1,
                4,
            ),
        decreases words1@.len() - j,
    {
        let mask1 = words1[j];
        filter_vec(&mut words2, &words1, mask1, j);
        proof {
            lemma_remaining(words1@, j as int);
        }
        let ghost p2 = p1.push(mask1);
        let ghost base2 = views(solutions@);
        let mut k: usize = 0;
        while k < words2.len()
            invariant
                is_mask_list(words1@),
                j < words1@.len(),
                words2@ == remaining_after(words1@, j as int),
                p2 == p1.push(words1@[j as int]),
                p2 == seq![mask, mask1],
                base2 + extensions(words1@, j as int, p1, 4) == extensions(words1@, 0, p1, 4),
                is_mask_list(words2@),
                k <= words2@.len(),
                views(solutions@) + extensions(words2@, k as int, p2, 3) == base2 + extensions(
                    words2@,
                    0,
                    p2,
                    3,
                ),
            decreases words2@.len() - k,
        {
            let mask2 = words2[k];
            filter_vec(&mut words3, &words2, mask2, k);
            proof {
                lemma_remaining(words2@, k as int);
            }
            let ghost p3 = p2.push(mask2);
            let ghost base3 = views(solutions@);
            let mut l: usize = 0;
            while l < words3.len()
                invariant
                    is_mask_list(words2@),
                    k < words2@.len(),
                    words3@ == remaining_after(words2@, k as int),
                    p3 == p2.push(words2@[k as int]),
                    p3 == seq![mask, mask1, mask2],
                    base3 + extensions(words2@, k as int, p2, 3) == base2 + extensions(
                        words2@,
                        0,
                        p2,
                        3,
                    ),
                    is_mask_list(words3@),
                    l <= words3@.len(),
                    views(solutions@) + extensions(words3@, l as int, p3, 2) == base3
                        + extensions(words3@, 0, p3, 2),
                decreases words3@.len() - l,
            {
                let mask3 = words3[l];
                filter_vec(&mut words4, &words3, mask3, l);
                let ghost p4 = p3.push(mask3);
                let ghost base4 = views(solutions@);
                let mut x: usize = 0;
                while x < words4.len()
                    invariant
                        l < words3@.len(),
                        words4@ == remaining_after(words3@, l as int),
                        p4 == p3.push(words3@[l as int]),
                        base4 + extensions(words3@, l as int, p3, 2) == base3 + extensions(
                            words3@,
                            0,
                            p3,
                            2,
                        ),
                        x <= words4@.len(),
                        views(solutions@) + extensions(words4@, x as int, p4, 1) == base4
                            + extensions(words4@, 0, p4, 1),
                        p4 == seq![mask, mask1, mask2, mask3],
                    decreases words4@.len() - x,
                {
                    let mask4 = words4[x];
                    let ghost before = solutions@;
                    let sol: [u32; 5] = [mask, mask1, mask2, mask3, mask4];
                    solutions.push(sol);
                    proof {
                        assert(sol@ =~= p4.push(mask4));
                        lemma_views_push(before, sol);
                        let rest = extensions(words4@, x as int + 1, p4, 1);
                        assert(extensions(words4@, x as int, p4, 1) == seq![p4.push(mask4)]
                            + rest);
                        assert(views(solutions@) + rest =~= views(before) + extensions(
                            words4@,
                            x as int,
                            p4,
                            1,
                        ));
                    }
                    x = x + 1;
                }
                proof {
                    let deeper = extensions(words4@, 0, p4, 1);
                    assert(extensions(words4@, x as int, p4, 1) =~= Seq::empty());
                    assert(views(solutions@) =~= base4 + deeper);
                    lemma_step(base4, deeper, base3, words3@, l as int, p3, 2);
                }
                l = l + 1;
            }
            proof {
                let deeper = extensions(words3@, 0, p3, 2);
                assert(extensions(words3@, l as int, p3, 2) =~= Seq::empty());
                assert(views(solutions@) =~= base3 + deeper);
                lemma_step(base3, deeper, base2, words2@, k as int, p2, 3);
            }
            k = k + 1;
        }
        proof {
            let deeper = extensions(words2@, 0, p2, 3);
            assert(extensions(words2@, k as int, p2, 3) =~= Seq::empty());
            assert(views(solutions@) =~= base2 + deeper);
            lemma_step(base2, deeper, Seq::empty(), words1@, j as int, p1, 4);
            assert(Seq::<Seq<u32>>::empty() + extensions(words1@, 0, p1, 4) =~= extensions(
                words1@,
                0,
                p1,
                4,
            ));
        }
        j = j + 1;
    }
    proof {
        assert(extensions(words1@, j as int, p1, 4) =~= Seq::empty());
        assert(views(solutions@) =~= extensions(words1@, 0, p1, 4));
    }
    solutions
}

/// Runs `branch_solutions` for every outer index on rayon's thread pool.
/// Relies on rayon: `into_par_iter` on a `usize` range and `map` make an
/// indexed parallel iterator, and `IndexedParallelIterator::collect_into_vec`
/// stores the item of position `i` at index `i` of the cleared target vector.
#[verifier::external_body]
fn par_branches(masks: &Vec<u32>) -> (r: Vec<Vec<[u32; 5]>>)
    requires
        is_mask_list(masks@),
    ensures
        r@.len() == masks@.len(),
        forall|i: int| 0 <= i < r@.len() ==> views(#[trigger] r@[i]@) == branch(masks@, i),
{
    let mut out = Vec::new();
    (0..masks.len()).into_par_iter().map(|i| branch_solutions(masks, i)).collect_into_vec(
        &mut out,
    );
    out
}

/// Every solution over the mask list, each exactly once: the branches of the
/// outer choices are searched in parallel and joined in list order.
pub fn find_all_solutions(masks: &Vec<u32>) -> (r: Vec<[u32; 5]>)
    requires
        is_mask_list(masks@),
    ensures
        views(r@) == all_solutions(masks@),
        forall|t: Seq<u32>| views(r@).contains(t) <==> is_solution(masks@, t),
        views(r@).no_duplicates(),
{
    let parts = par_branches(masks);
    let ghost e = Seq::<u32>::empty();
    let mut out: Vec<[u32; 5]> = Vec::new();
    let mut i: usize = 0;
    while i < parts.len()
        invariant
            is_mask_list(masks@),
            parts@.len() == masks@.len(),
            forall|q: int| 0 <= q < parts@.len() ==> views(#[trigger] parts@[q]@) == branch(masks@, q),
            i <= parts@.len(),
            e == Seq::<u32>::empty(),
            views(out@) + extensions(masks@, i as int, e, 5) == all_solutions(masks@),
        decreases parts@.len() - i,
    {
        let part = &parts[i];
        let ghost before = out@;
        let mut y: usize = 0;
        while y < part.len()
            invariant
                y <= part@.len(),
                out@ == before + part@.subrange(0, y as int),
            decreases part@.len() - y,
        {
            out.push(part[y]);
            proof {
                assert(part@.subrange(0, y as int + 1) =~= part@.subrange(0, y as int).push(
                    part@[y as int],
                ));
                assert(out@ =~= before + part@.subrange(0, y as int + 1));
            }
            y = y + 1;
        }
        proof {
            assert(part@.subrange(0, y as int) =~= part@);
            lemma_views_add(before, part@);
            assert(e.push(masks@[i as int]) =~= seq![masks@[i as int]]);
            let rest = extensions(masks@, i as int + 1, e, 5);
            assert(extensions(masks@, i as int, e, 5) == branch(masks@, i as int) + rest);
            assert(views(out@) + rest =~= views(before) + extensions(masks@, i as int, e, 5));
        }
        i = i + 1;
    }
    proof {
        assert(extensions(masks@, i as int, e, 5) =~= Seq::empty());
        assert(views(out@) =~= all_solutions(masks@));
        lemma_all_solutions(masks@);
    }
    out
}

} // verus!
