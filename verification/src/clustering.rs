//! Grouping voice samples by speaker.
//!
//! The distance between two samples is given by an order key: an integer that
//! is smaller for a smaller distance. Clustering only ever compares distances,
//! so keys are all it needs.

use vstd::prelude::*;

verus! {

// ── Model ───────────────────────────────────────────────────────────────────

/// The rows of a matrix of order keys.
pub open spec fn matrix(rows: Seq<Vec<i32>>) -> Seq<Seq<i32>> {
    rows.map_values(|r: Vec<i32>| r@)
}

/// A distance table: as many columns as rows, and the same both ways round.
pub open spec fn is_distance_table(dist: Seq<Seq<i32>>) -> bool {
    &&& forall|i: int| 0 <= i < dist.len() ==> (#[trigger] dist[i]).len() == dist.len()
    &&& forall|i: int, j: int|
        0 <= i < dist.len() && 0 <= j < dist.len() ==> #[trigger] dist[i][j] == dist[j][i]
}

/// A partition of `0..rep.len()`: `rep[i]` is the smallest member of the group of `i`.
pub open spec fn is_partition(rep: Seq<int>) -> bool {
    forall|i: int|
        #![trigger rep[i]]
        0 <= i < rep.len() ==> 0 <= rep[i] <= i && rep[rep[i]] == rep[i]
}

/// How many groups have their smallest member below `r`.
pub open spec fn groups_below(rep: Seq<int>, r: int) -> nat
    decreases r,
{
    if r <= 0 {
        0
    } else {
        groups_below(rep, r - 1) + if rep[r - 1] == r - 1 {
            1nat
        } else {
            0nat
        }
    }
}

/// How many groups there are.
pub open spec fn group_count(rep: Seq<int>) -> nat {
    groups_below(rep, rep.len() as int)
}

/// Every sample in a group of its own.
pub open spec fn singletons(n: nat) -> Seq<int> {
    Seq::new(n, |i: int| i)
}

/// Group `b` joined to group `a`.
pub open spec fn joined_groups(rep: Seq<int>, a: int, b: int) -> Seq<int> {
    Seq::new(
        rep.len(),
        |i: int|
            if rep[i] == b {
                a
            } else {
                rep[i]
            },
    )
}

/// `m` is the largest distance between a member of group `a` and one of group `b`.
pub open spec fn is_linkage(dist: Seq<Seq<i32>>, rep: Seq<int>, a: int, b: int, m: int) -> bool {
    &&& exists|x: int, y: int|
        #![trigger rep[x], rep[y]]
        0 <= x < rep.len() && 0 <= y < rep.len() && rep[x] == a && rep[y] == b && dist[x][y] == m
    &&& forall|x: int, y: int|
        #![trigger rep[x], rep[y]]
        0 <= x < rep.len() && 0 <= y < rep.len() && rep[x] == a && rep[y] == b ==> dist[x][y] <= m
}

/// The largest distance between a member of group `a` and one of group `b`.
pub open spec fn linkage(dist: Seq<Seq<i32>>, rep: Seq<int>, a: int, b: int) -> int {
    choose|m: int| is_linkage(dist, rep, a, b, m)
}

/// `a < b` are the smallest members of two groups.
pub open spec fn is_pair(rep: Seq<int>, a: int, b: int) -> bool {
    0 <= a < b < rep.len() && rep[a] == a && rep[b] == b
}

/// Pair `(a, b)` comes before pair `(c, d)`.
pub open spec fn pair_before(a: int, b: int, c: int, d: int) -> bool {
    a < c || (a == c && b < d)
}

/// Groups `a` and `b` are the closest two; of equally close pairs, the first.
pub open spec fn is_closest(dist: Seq<Seq<i32>>, rep: Seq<int>, a: int, b: int) -> bool {
    &&& is_pair(rep, a, b)
    &&& forall|c: int, d: int|
        #![trigger is_pair(rep, c, d)]
        is_pair(rep, c, d) && !(a == c && b == d) ==> {
            ||| linkage(dist, rep, a, b) < linkage(dist, rep, c, d)
            ||| linkage(dist, rep, a, b) == linkage(dist, rep, c, d) && pair_before(a, b, c, d)
        }
}

/// The closest two groups.
pub open spec fn closest_pair(dist: Seq<Seq<i32>>, rep: Seq<int>) -> (int, int) {
    choose|p: (int, int)| is_closest(dist, rep, p.0, p.1)
}

/// The groups after `steps` joins, each of the closest two groups.
pub open spec fn after_joins(dist: Seq<Seq<i32>>, steps: nat) -> Seq<int>
    decreases steps,
{
    if steps == 0 {
        singletons(dist.len())
    } else {
        let rep = after_joins(dist, (steps - 1) as nat);
        let p = closest_pair(dist, rep);
        joined_groups(rep, p.0, p.1)
    }
}

/// The distance between the two groups that the join number `step` (from zero) joins.
pub open spec fn join_height(dist: Seq<Seq<i32>>, step: nat) -> int {
    let rep = after_joins(dist, step);
    let p = closest_pair(dist, rep);
    linkage(dist, rep, p.0, p.1)
}

/// The number of joins that leave `k` of `n` groups.
pub open spec fn joins_to(n: nat, k: nat) -> nat {
    if n <= k {
        0
    } else {
        (n - k) as nat
    }
}

/// The groups numbered from zero, in the order of their smallest members.
pub open spec fn group_numbers(rep: Seq<int>) -> Seq<int> {
    Seq::new(rep.len(), |i: int| groups_below(rep, rep[i]) as int)
}

/// The values of a list of labels.
pub open spec fn label_values(labels: Seq<usize>) -> Seq<int> {
    labels.map_values(|l: usize| l as int)
}

// ── Facts about partitions ──────────────────────────────────────────────────

proof fn lemma_singletons(n: nat)
    ensures
        is_partition(singletons(n)),
        group_count(singletons(n)) == n,
{
    lemma_singletons_below(n, n as int);
}

proof fn lemma_singletons_below(n: nat, r: int)
    requires
        0 <= r <= n,
    ensures
        groups_below(singletons(n), r) == r,
    decreases r,
{
    if r > 0 {
        lemma_singletons_below(n, r - 1);
    }
}

proof fn lemma_joined(rep: Seq<int>, a: int, b: int)
    requires
        is_partition(rep),
        is_pair(rep, a, b),
    ensures
        is_partition(joined_groups(rep, a, b)),
        group_count(joined_groups(rep, a, b)) == group_count(rep) - 1,
{
    let out = joined_groups(rep, a, b);
    assert forall|i: int| #![trigger out[i]] 0 <= i < out.len() implies 0 <= out[i] <= i && out[out[i]]
        == out[i] by {
        assert(0 <= rep[i] <= i && rep[rep[i]] == rep[i]);
    }
    lemma_joined_below(rep, a, b, rep.len() as int);
}

proof fn lemma_joined_below(rep: Seq<int>, a: int, b: int, r: int)
    requires
        is_partition(rep),
        is_pair(rep, a, b),
        0 <= r <= rep.len(),
    ensures
        groups_below(joined_groups(rep, a, b), r) == groups_below(rep, r) - if r > b {
            1int
        } else {
            0int
        },
    decreases r,
{
    if r > 0 {
        lemma_joined_below(rep, a, b, r - 1);
        assert(0 <= rep[r - 1] <= r - 1);
    }
}

proof fn lemma_groups_monotone(rep: Seq<int>, p: int, q: int)
    requires
        p <= q,
    ensures
        groups_below(rep, p) <= groups_below(rep, q),
    decreases q - p,
{
    if p < q {
        lemma_groups_monotone(rep, p, q - 1);
    }
}

/// The labels are exactly the numbers `0..count`, given out in the order in which
/// they first appear.
pub open spec fn are_numbered(labels: Seq<int>, count: nat) -> bool {
    &&& forall|i: int| 0 <= i < labels.len() ==> 0 <= #[trigger] labels[i] < count
    &&& forall|g: int| 0 <= g < count ==> #[trigger] labels.contains(g)
    &&& forall|i: int, g: int|
        0 <= i < labels.len() && 0 <= g < labels[i] ==> #[trigger] labels.take(i).contains(g)
}

/// The group number `g`, if its smallest member is below `r`.
proof fn lemma_nth_group(rep: Seq<int>, r: int, g: int) -> (j: int)
    requires
        0 <= g < groups_below(rep, r),
    ensures
        0 <= j < r,
        rep[j] == j,
        groups_below(rep, j) == g,
    decreases r,
{
    if r > 0 && groups_below(rep, r - 1) > g {
        lemma_nth_group(rep, r - 1, g)
    } else {
        r - 1
    }
}

proof fn lemma_group_numbers(rep: Seq<int>)
    requires
        is_partition(rep),
    ensures
        are_numbered(group_numbers(rep), group_count(rep)),
{
    let nums = group_numbers(rep);
    let count = group_count(rep);
    assert forall|i: int| 0 <= i < nums.len() implies 0 <= #[trigger] nums[i] < count by {
        assert(0 <= rep[i] <= i && rep[rep[i]] == rep[i]);
        lemma_groups_monotone(rep, rep[i] + 1, rep.len() as int);
    }
    assert forall|g: int| 0 <= g < count implies #[trigger] nums.contains(g) by {
        let j = lemma_nth_group(rep, rep.len() as int, g);
        assert(nums[j] == g);
    }
    assert forall|i: int, g: int|
        0 <= i < nums.len() && 0 <= g < nums[i] implies #[trigger] nums.take(i).contains(g) by {
        assert(0 <= rep[i] <= i);
        let j = lemma_nth_group(rep, rep[i], g);
        assert(nums.take(i)[j] == g);
    }
}

/// With more than one group there is a second smallest member.
proof fn lemma_second_group(rep: Seq<int>, r: int)
    requires
        groups_below(rep, r) >= 2,
    ensures
        exists|i: int| 0 < i < r && rep[i] == i,
    decreases r,
{
    if r > 0 {
        if rep[r - 1] == r - 1 && r - 1 > 0 {
        } else if r - 1 > 0 {
            lemma_second_group(rep, r - 1);
        } else {
            assert(groups_below(rep, 0) == 0);
        }
    }
}

proof fn lemma_linkage_unique(dist: Seq<Seq<i32>>, rep: Seq<int>, a: int, b: int, m: int)
    requires
        is_linkage(dist, rep, a, b, m),
    ensures
        linkage(dist, rep, a, b) == m,
{
    let k = linkage(dist, rep, a, b);
    assert(is_linkage(dist, rep, a, b, k));
}

proof fn lemma_closest_unique(dist: Seq<Seq<i32>>, rep: Seq<int>, a: int, b: int)
    requires
        is_closest(dist, rep, a, b),
    ensures
        closest_pair(dist, rep) == (a, b),
{
    let p = closest_pair(dist, rep);
    let q = (a, b);
    assert(is_closest(dist, rep, q.0, q.1));
    assert(is_closest(dist, rep, p.0, p.1));
    assert(is_pair(rep, p.0, p.1));
    assert(is_pair(rep, a, b));
}

// ── Joining the closest groups ──────────────────────────────────────────────

/// `d` holds, for every two groups, the largest distance between their members.
spec fn holds_linkages(d: Seq<Seq<i32>>, dist: Seq<Seq<i32>>, rep: Seq<int>) -> bool {
    &&& d.len() == rep.len()
    &&& forall|i: int| 0 <= i < d.len() ==> (#[trigger] d[i]).len() == d.len()
    &&& forall|a: int, b: int|
        #![trigger d[a][b]]
        0 <= a < rep.len() && 0 <= b < rep.len() && a != b && rep[a] == a && rep[b] == b ==> is_linkage(
            dist,
            rep,
            a,
            b,
            d[a][b] as int,
        )
}

/// `(a, b)` is the pair of active indices with the smallest entry of `d`; of equal
/// entries, the first.
spec fn is_smallest(d: Seq<Seq<i32>>, active: Seq<bool>, a: int, b: int) -> bool {
    &&& 0 <= a < b < active.len()
    &&& active[a]
    &&& active[b]
    &&& forall|p: int, q: int|
        #![trigger d[p][q]]
        0 <= p < q < active.len() && active[p] && active[q] && !(a == p && b == q) ==> {
            ||| d[a][b] < d[p][q]
            ||| d[a][b] == d[p][q] && pair_before(a, b, p, q)
        }
}

fn find_smallest(d: &Vec<Vec<i32>>, active: &Vec<bool>) -> (best: (usize, usize))
    requires
        d.len() == active.len(),
        forall|i: int| 0 <= i < d.len() ==> (#[trigger] d@[i]).len() == d.len(),
        exists|p: int, q: int| #![trigger active[p], active[q]] 0 <= p < q < active.len() && active[p] && active[q],
    ensures
        is_smallest(matrix(d@), active@, best.0 as int, best.1 as int),
{
    let n = active.len();
    let ghost m = matrix(d@);
    let mut best: Option<(usize, usize)> = None;
    let mut i: usize = 0;
    while i < n
        invariant
            i <= n,
            n == active.len(),
            n == d.len(),
            m == matrix(d@),
            forall|r: int| 0 <= r < d.len() ==> (#[trigger] d@[r]).len() == d.len(),
            best is None ==> forall|p: int, q: int|
                #![trigger active[p], active[q]]
                0 <= p < i && p < q < n ==> !(active[p] && active[q]),
            best matches Some(top) ==> {
                let a = top.0 as int;
                let b = top.1 as int;
                &&& 0 <= a < i
                &&& a < b < n
                &&& active[a]
                &&& active[b]
                &&& forall|p: int, q: int|
                    #![trigger m[p][q]]
                    0 <= p < i && p < q < n && active[p] && active[q] && !(a == p && b == q) ==> {
                        ||| m[a][b] < m[p][q]
                        ||| m[a][b] == m[p][q] && pair_before(a, b, p, q)
                    }
            },
        decreases n - i,
    {
        if active[i] {
            let mut j: usize = i + 1;
            while j < n
                invariant
                    i < n,
                    i < j <= n,
                    n == active.len(),
                    n == d.len(),
                    m == matrix(d@),
                    active[i as int],
                    forall|r: int| 0 <= r < d.len() ==> (#[trigger] d@[r]).len() == d.len(),
                    best is None ==> forall|p: int, q: int|
                        #![trigger active[p], active[q]]
                        (0 <= p < i && p < q < n || p == i && i < q < j) ==> !(active[p] && active[q]),
                    best matches Some(top) ==> {
                        let a = top.0 as int;
                        let b = top.1 as int;
                        &&& 0 <= a <= i
                        &&& a < b < n
                        &&& active[a]
                        &&& active[b]
                        &&& a == i ==> b < j
                        &&& forall|p: int, q: int|
                            #![trigger m[p][q]]
                            (0 <= p < i && p < q < n || p == i && i < q < j) && active[p] && active[q]
                                && !(a == p && b == q) ==> {
                                ||| m[a][b] < m[p][q]
                                ||| m[a][b] == m[p][q] && pair_before(a, b, p, q)
                            }
                    },
                decreases n - j,
            {
                if active[j] {
                    assert(m[i as int][j as int] == d@[i as int]@[j as int]);
                    let closer: bool = match best {
                        Some((a, b)) => {
                            assert(m[a as int][b as int] == d@[a as int]@[b as int]);
                            d[i][j] < d[a][b]
                        },
                        None => true,
                    };
                    if closer {
                        best = Some((i, j));
                    }
                }
                j += 1;
            }
        }
        i += 1;
    }
    match best {
        Some(b) => b,
        None => {
            proof {
                let (p, q) = choose|p: int, q: int|
                    #![trigger active[p], active[q]]
                    0 <= p < q < active.len() && active[p] && active[q];
                assert(false);
            }
            (0, 1)
        },
    }
}

proof fn lemma_smallest_is_closest(
    d: Seq<Seq<i32>>,
    active: Seq<bool>,
    dist: Seq<Seq<i32>>,
    rep: Seq<int>,
    a: int,
    b: int,
)
    requires
        holds_linkages(d, dist, rep),
        active.len() == rep.len(),
        forall|i: int| 0 <= i < rep.len() ==> #[trigger] active[i] == (rep[i] == i),
        is_smallest(d, active, a, b),
    ensures
        is_closest(dist, rep, a, b),
        linkage(dist, rep, a, b) == d[a][b],
{
    lemma_linkage_unique(dist, rep, a, b, d[a][b] as int);
    assert forall|p: int, q: int|
        #![trigger is_pair(rep, p, q)]
        is_pair(rep, p, q) && !(a == p && b == q) implies {
        ||| linkage(dist, rep, a, b) < linkage(dist, rep, p, q)
        ||| linkage(dist, rep, a, b) == linkage(dist, rep, p, q) && pair_before(a, b, p, q)
    } by {
        assert(active[p] && active[q]);
        lemma_linkage_unique(dist, rep, p, q, d[p][q] as int);
    }
}

/// Joining two groups: the distance to a third is the larger of the two distances.
proof fn lemma_linkage_joined(
    dist: Seq<Seq<i32>>,
    rep: Seq<int>,
    a: int,
    b: int,
    l: int,
    m1: int,
    m2: int,
)
    requires
        is_distance_table(dist),
        dist.len() == rep.len(),
        a != l,
        b != l,
        a != b,
        is_linkage(dist, rep, a, l, m1),
        is_linkage(dist, rep, b, l, m2),
    ensures
        is_linkage(dist, joined_groups(rep, a, b), a, l, if m1 >= m2 { m1 } else { m2 }),
        is_linkage(dist, joined_groups(rep, a, b), l, a, if m1 >= m2 { m1 } else { m2 }),
{
    let out = joined_groups(rep, a, b);
    let m = if m1 >= m2 { m1 } else { m2 };
    let (x1, y1) = choose|x: int, y: int|
        #![trigger rep[x], rep[y]]
        0 <= x < rep.len() && 0 <= y < rep.len() && rep[x] == a && rep[y] == l && dist[x][y] == m1;
    let (x2, y2) = choose|x: int, y: int|
        #![trigger rep[x], rep[y]]
        0 <= x < rep.len() && 0 <= y < rep.len() && rep[x] == b && rep[y] == l && dist[x][y] == m2;
    let (x, y) = if m1 >= m2 { (x1, y1) } else { (x2, y2) };
    assert(out[x] == a && out[y] == l && dist[x][y] == m && dist[y][x] == m);
    assert forall|p: int, q: int|
        #![trigger out[p], out[q]]
        0 <= p < out.len() && 0 <= q < out.len() && out[p] == a && out[q] == l implies dist[p][q] <= m by {
        assert(rep[p] == a || rep[p] == b);
        assert(rep[q] == l);
    }
    assert forall|p: int, q: int|
        #![trigger out[p], out[q]]
        0 <= p < out.len() && 0 <= q < out.len() && out[p] == l && out[q] == a implies dist[p][q] <= m by {
        assert(rep[q] == a || rep[q] == b);
        assert(rep[p] == l);
        assert(dist[p][q] == dist[q][p]);
    }
}

proof fn lemma_linkage_kept(dist: Seq<Seq<i32>>, rep: Seq<int>, a: int, b: int, p: int, q: int, m: int)
    requires
        dist.len() == rep.len(),
        p != a && p != b && q != a && q != b,
        is_linkage(dist, rep, p, q, m),
    ensures
        is_linkage(dist, joined_groups(rep, a, b), p, q, m),
{
    let out = joined_groups(rep, a, b);
    let (x, y) = choose|x: int, y: int|
        #![trigger rep[x], rep[y]]
        0 <= x < rep.len() && 0 <= y < rep.len() && rep[x] == p && rep[y] == q && dist[x][y] == m;
    assert(out[x] == p && out[y] == q && dist[x][y] == m);
    assert forall|s: int, t: int|
        #![trigger out[s], out[t]]
        0 <= s < out.len() && 0 <= t < out.len() && out[s] == p && out[t] == q implies dist[s][t] <= m by {
        assert(rep[s] == p && rep[t] == q);
    }
}

/// Makes row and column `a` of `d` hold the larger of rows `a` and `b`.
fn widen(d: &mut Vec<Vec<i32>>, active: &Vec<bool>, a: usize, b: usize)
    requires
        old(d).len() == active.len(),
        forall|i: int| 0 <= i < old(d).len() ==> (#[trigger] old(d)@[i]).len() == old(d).len(),
        a < active.len(),
        b < active.len(),
        a != b,
    ensures
        final(d).len() == old(d).len(),
        forall|i: int| 0 <= i < final(d).len() ==> (#[trigger] final(d)@[i]).len() == final(d).len(),
        forall|p: int, q: int|
            #![trigger final(d)@[p]@[q]]
            0 <= p < final(d).len() && 0 <= q < final(d).len() ==> {
                let before = old(d)@;
                final(d)@[p]@[q] == if p == a && q != a && q != b && active[q] {
                    if before[a as int]@[q] >= before[b as int]@[q] {
                        before[a as int]@[q]
                    } else {
                        before[b as int]@[q]
                    }
                } else if q == a && p != a && p != b && active[p] {
                    if before[a as int]@[p] >= before[b as int]@[p] {
                        before[a as int]@[p]
                    } else {
                        before[b as int]@[p]
                    }
                } else {
                    before[p]@[q]
                }
            },
{
    let n = active.len();
    let ghost before = d@;
    let mut l: usize = 0;
    while l < n
        invariant
            l <= n,
            n == active.len(),
            n == d.len(),
            n == before.len(),
            before == old(d)@,
            a < n,
            b < n,
            a != b,
            forall|i: int| 0 <= i < n ==> (#[trigger] d@[i]).len() == n,
            forall|i: int| 0 <= i < n ==> (#[trigger] before[i]).len() == n,
            forall|p: int, q: int|
                #![trigger d@[p]@[q]]
                0 <= p < n && 0 <= q < n ==> d@[p]@[q] == if p == a && q != a && q != b && q < l
                    && active[q] {
                    if before[a as int]@[q] >= before[b as int]@[q] {
                        before[a as int]@[q]
                    } else {
                        before[b as int]@[q]
                    }
                } else if q == a && p != a && p != b && p < l && active[p] {
                    if before[a as int]@[p] >= before[b as int]@[p] {
                        before[a as int]@[p]
                    } else {
                        before[b as int]@[p]
                    }
                } else {
                    before[p]@[q]
                },
        decreases n - l,
    {
        if active[l] && l != a && l != b {
            let x: i32 = d[a][l];
            let y: i32 = d[b][l];
            let m: i32 = if x >= y { x } else { y };
            d[a][l] = m;
            d[l][a] = m;
        }
        l += 1;
    }
}

proof fn lemma_smallest(d: Seq<Seq<i32>>, active: Seq<bool>, a: int, b: int, p: int, q: int)
    requires
        d.len() == active.len(),
        is_smallest(d, active, a, b),
        is_symmetric(d),
        0 <= p < active.len(),
        0 <= q < active.len(),
        p != q,
        active[p],
        active[q],
    ensures
        d[a][b] <= d[p][q],
{
    assert(d[p][q] == d[q][p]);
}

/// No entry is smaller than one before it.
pub open spec fn never_fall(heights: Seq<i32>) -> bool {
    forall|s: int, t: int|
        0 <= s <= t < heights.len() ==> #[trigger] heights[s] <= #[trigger] heights[t]
}

/// `d` is the same both ways round.
spec fn is_symmetric(d: Seq<Seq<i32>>) -> bool {
    forall|p: int, q: int| 0 <= p < d.len() && 0 <= q < d.len() ==> #[trigger] d[p][q] == d[q][p]
}

/// No two active indices have a smaller entry of `d` than the last height.
spec fn are_reached(d: Seq<Seq<i32>>, active: Seq<bool>, heights: Seq<i32>) -> bool {
    forall|p: int, q: int|
        #![trigger d[p][q]]
        0 <= p < active.len() && 0 <= q < active.len() && p != q && active[p] && active[q]
            && heights.len() > 0 ==> heights.last() <= d[p][q]
}

/// The groups and the join heights when `k` groups are left.
fn join_closest(dist: &Vec<Vec<i32>>, k: usize) -> (out: (Vec<usize>, Vec<i32>))
    requires
        is_distance_table(matrix(dist@)),
        k >= 1,
    ensures
        label_values(out.0@) == after_joins(matrix(dist@), joins_to(dist@.len(), k as nat)),
        is_partition(label_values(out.0@)),
        group_count(label_values(out.0@)) == dist@.len() - joins_to(dist@.len(), k as nat),
        out.1@.len() == joins_to(dist@.len(), k as nat),
        forall|s: int|
            0 <= s < out.1@.len() ==> #[trigger] out.1@[s] == join_height(matrix(dist@), s as nat),
        never_fall(out.1@),
{
    let n = dist.len();
    let ghost table = matrix(dist@);
    let mut d: Vec<Vec<i32>> = Vec::new();
    let mut label: Vec<usize> = Vec::new();
    let mut active: Vec<bool> = Vec::new();
    let mut i: usize = 0;
    while i < n
        invariant
            i <= n,
            n == dist.len(),
            table == matrix(dist@),
            d.len() == i,
            label.len() == i,
            active.len() == i,
            forall|r: int| 0 <= r < i ==> (#[trigger] d@[r])@ == table[r],
            forall|r: int| 0 <= r < i ==> label@[r] == r,
            forall|r: int| 0 <= r < i ==> active@[r],
        decreases n - i,
    {
        let row = copy_row(&dist[i]);
        d.push(row);
        label.push(i);
        active.push(true);
        i += 1;
    }
    let mut heights: Vec<i32> = Vec::new();
    let mut groups: usize = n;
    proof {
        lemma_singletons(n as nat);
        assert(label_values(label@) =~= singletons(n as nat));
        let rep = singletons(n as nat);
        assert forall|a: int, b: int|
            #![trigger matrix(d@)[a][b]]
            0 <= a < n && 0 <= b < n && a != b && rep[a] == a && rep[b] == b implies is_linkage(
            table,
            rep,
            a,
            b,
            matrix(d@)[a][b] as int,
        ) by {
            assert(table[a][b] == d@[a]@[b]);
            assert(rep[a] == a && rep[b] == b);
        }
        assert(forall|r: int| 0 <= r < n ==> (#[trigger] matrix(d@)[r]).len() == n) by {
            assert(forall|r: int| 0 <= r < n ==> (#[trigger] table[r]).len() == n);
        }
    }
    while groups > k
        invariant
            k >= 1,
            groups <= n,
            n == dist.len(),
            n <= k ==> groups == n,
            n > k ==> groups >= k,
            table == matrix(dist@),
            is_distance_table(table),
            d.len() == n,
            label.len() == n,
            active.len() == n,
            label_values(label@) == after_joins(table, (n - groups) as nat),
            is_partition(label_values(label@)),
            group_count(label_values(label@)) == groups,
            forall|r: int| 0 <= r < n ==> #[trigger] active@[r] == (label@[r] == r),
            holds_linkages(matrix(d@), table, label_values(label@)),
            heights.len() == n - groups,
            forall|s: int|
                0 <= s < heights@.len() ==> #[trigger] heights@[s] == join_height(table, s as nat),
            never_fall(heights@),
            is_symmetric(matrix(d@)),
            are_reached(matrix(d@), active@, heights@),
        decreases groups,
    {
        let ghost rep = label_values(label@);
        proof {
            lemma_second_group(rep, n as int);
            let q = choose|q: int| 0 < q < n && rep[q] == q;
            assert(rep[0] == 0);
            assert(active[0] && active[q]);
            assert(forall|r: int| 0 <= r < n ==> (#[trigger] d@[r]).len() == n) by {
                assert(forall|r: int| 0 <= r < n ==> (#[trigger] matrix(d@)[r]).len() == n);
                assert(forall|r: int| 0 <= r < n ==> matrix(d@)[r] == (#[trigger] d@[r])@);
            }
        }
        let (a, b) = find_smallest(&d, &active);
        let ghost before = matrix(d@);
        proof {
            lemma_smallest_is_closest(before, active@, table, rep, a as int, b as int);
            lemma_closest_unique(table, rep, a as int, b as int);
            lemma_joined(rep, a as int, b as int);
        }
        assert(before[a as int][b as int] == d@[a as int]@[b as int]);
        let ghost was_active = active@;
        proof {
            assert(are_reached(before, active@, heights@));
            assert(heights@.len() > 0 ==> heights@.last() <= before[a as int][b as int]);
        }
        heights.push(d[a][b]);
        widen(&mut d, &active, a, b);
        active.set(b, false);
        proof {
            let after = matrix(d@);
            assert forall|p: int, q: int| 0 <= p < n && 0 <= q < n implies #[trigger] after[p][q]
                == after[q][p] by {
                assert(after[p][q] == d@[p]@[q] && after[q][p] == d@[q]@[p]);
                assert(before[p][q] == before[q][p]);
            }
            assert forall|p: int, q: int|
                #![trigger after[p][q]]
                0 <= p < n && 0 <= q < n && p != q && active@[p] && active@[q] implies before[a as int][b as int]
                <= after[p][q] by {
                assert(after[p][q] == d@[p]@[q]);
                assert(was_active[p] && was_active[q]);
                assert(before[p][q] == before[q][p]);
                lemma_smallest(before, was_active, a as int, b as int, p, q);
            }
        }
        groups -= 1;
        let mut l: usize = 0;
        while l < n
            invariant
                l <= n,
                n == label.len(),
                n == rep.len(),
                a < n,
                forall|r: int| 0 <= r < n && r >= l ==> label@[r] == rep[r],
                forall|r: int|
                    0 <= r < l ==> label@[r] == if rep[r] == b {
                        a as int
                    } else {
                        rep[r]
                    },
            decreases n - l,
        {
            if label[l] == b {
                label.set(l, a);
            }
            l += 1;
        }
        proof {
            let out = joined_groups(rep, a as int, b as int);
            assert(label_values(label@) =~= out);
            let after = matrix(d@);
            assert forall|r: int| 0 <= r < n implies #[trigger] active@[r] == (label@[r] == r) by {
                assert(label_values(label@)[r] == label@[r]);
                assert(0 <= rep[r] <= r);
            }
            assert forall|p: int, q: int|
                #![trigger after[p][q]]
                0 <= p < n && 0 <= q < n && p != q && out[p] == p && out[q] == q implies is_linkage(
                table,
                out,
                p,
                q,
                after[p][q] as int,
            ) by {
                assert(after[p][q] == d@[p]@[q]);
                assert(0 <= rep[p] <= p && 0 <= rep[q] <= q);
                assert(p != b && q != b && rep[p] == p && rep[q] == q);
                if p == a {
                    assert(is_linkage(table, rep, p, q, before[p][q] as int));
                    assert(is_linkage(table, rep, b as int, q, before[b as int][q] as int));
                    lemma_linkage_joined(
                        table,
                        rep,
                        p,
                        b as int,
                        q,
                        before[p][q] as int,
                        before[b as int][q] as int,
                    );
                } else if q == a {
                    assert(is_linkage(table, rep, q, p, before[q][p] as int));
                    assert(is_linkage(table, rep, b as int, p, before[b as int][p] as int));
                    lemma_linkage_joined(
                        table,
                        rep,
                        q,
                        b as int,
                        p,
                        before[q][p] as int,
                        before[b as int][p] as int,
                    );
                } else {
                    assert(is_linkage(table, rep, p, q, before[p][q] as int));
                    lemma_linkage_kept(table, rep, a as int, b as int, p, q, before[p][q] as int);
                }
            }
            assert(forall|r: int| 0 <= r < n ==> (#[trigger] after[r]).len() == n) by {
                assert(forall|r: int| 0 <= r < n ==> after[r] == (#[trigger] d@[r])@);
            }
        }
    }
    (label, heights)
}

fn copy_row(row: &Vec<i32>) -> (out: Vec<i32>)
    ensures
        out@ == row@,
{
    let mut out: Vec<i32> = Vec::new();
    let mut i: usize = 0;
    while i < row.len()
        invariant
            i <= row.len(),
            out@ == row@.take(i as int),
        decreases row.len() - i,
    {
        out.push(row[i]);
        i += 1;
        assert(row@.take(i as int) =~= row@.take(i - 1).push(row@[i - 1]));
    }
    assert(row@.take(i as int) =~= row@);
    out
}

/// The groups numbered from zero, in the order of their smallest members.
fn number_groups(rep: &Vec<usize>) -> (out: Vec<usize>)
    requires
        is_partition(label_values(rep@)),
    ensures
        label_values(out@) == group_numbers(label_values(rep@)),
{
    let n = rep.len();
    let ghost r = label_values(rep@);
    let mut below: Vec<usize> = Vec::new();
    let mut count: usize = 0;
    let mut i: usize = 0;
    while i < n
        invariant
            i <= n,
            n == rep.len(),
            r == label_values(rep@),
            below.len() == i,
            count <= i,
            count == groups_below(r, i as int),
            forall|j: int| 0 <= j < i ==> #[trigger] below@[j] == groups_below(r, j),
        decreases n - i,
    {
        below.push(count);
        if rep[i] == i {
            count += 1;
        }
        i += 1;
    }
    let mut out: Vec<usize> = Vec::new();
    let mut k: usize = 0;
    while k < n
        invariant
            k <= n,
            n == rep.len(),
            r == label_values(rep@),
            is_partition(r),
            below.len() == n,
            forall|j: int| 0 <= j < n ==> #[trigger] below@[j] == groups_below(r, j),
            out.len() == k,
            forall|j: int| 0 <= j < k ==> #[trigger] out@[j] == groups_below(r, r[j]),
        decreases n - k,
    {
        assert(r[k as int] == rep@[k as int]);
        out.push(below[rep[k]]);
        k += 1;
    }
    assert(label_values(out@) =~= group_numbers(r));
    out
}

/// `(p, q)` with `q < n` comes before `(c, d)`.
spec fn comes_before(n: int, p: int, q: int, c: int, d: int) -> bool {
    0 <= p && 0 <= q < n && pair_before(p, q, c, d)
}

/// The closest of the pairs of groups before `(c, d)`, if there are any.
proof fn lemma_closest_before(dist: Seq<Seq<i32>>, rep: Seq<int>, c: int, d: int) -> (best: Option<(int, int)>)
    requires
        0 <= c <= rep.len(),
        0 <= d <= rep.len(),
    ensures
        match best {
            None => forall|p: int, q: int| #[trigger]
                comes_before(rep.len() as int, p, q, c, d) ==> !is_pair(rep, p, q),
            Some(top) => {
                &&& is_pair(rep, top.0, top.1)
                &&& comes_before(rep.len() as int, top.0, top.1, c, d)
                &&& forall|p: int, q: int| #[trigger]
                    comes_before(rep.len() as int, p, q, c, d) && is_pair(rep, p, q) && !(top.0 == p
                        && top.1 == q) ==> {
                        ||| linkage(dist, rep, top.0, top.1) < linkage(dist, rep, p, q)
                        ||| linkage(dist, rep, top.0, top.1) == linkage(dist, rep, p, q) && pair_before(
                            top.0,
                            top.1,
                            p,
                            q,
                        )
                    }
            },
        },
    decreases c, d,
{
    let n = rep.len() as int;
    if d > 0 {
        let best = lemma_closest_before(dist, rep, c, d - 1);
        assert forall|p: int, q: int| #[trigger] comes_before(n, p, q, c, d) implies comes_before(
            n,
            p,
            q,
            c,
            d - 1,
        ) || (p == c && q == d - 1) by {}
        if is_pair(rep, c, d - 1) {
            assert(comes_before(n, c, d - 1, c, d));
            match best {
                None => Some((c, d - 1)),
                Some(top) => {
                    assert(comes_before(n, top.0, top.1, c, d));
                    if linkage(dist, rep, c, d - 1) < linkage(dist, rep, top.0, top.1) {
                        Some((c, d - 1))
                    } else {
                        best
                    }
                },
            }
        } else {
            if let Some(top) = best {
                assert(comes_before(n, top.0, top.1, c, d));
            }
            best
        }
    } else if c > 0 {
        let best = lemma_closest_before(dist, rep, c - 1, n);
        assert forall|p: int, q: int| #[trigger] comes_before(n, p, q, c, 0) implies comes_before(
            n,
            p,
            q,
            c - 1,
            n,
        ) by {}
        if let Some(top) = best {
            assert(comes_before(n, top.0, top.1, c, 0));
        }
        best
    } else {
        None
    }
}

proof fn lemma_closest_exists(dist: Seq<Seq<i32>>, rep: Seq<int>)
    requires
        is_partition(rep),
        group_count(rep) >= 2,
    ensures
        ({
            let p = closest_pair(dist, rep);
            is_closest(dist, rep, p.0, p.1)
        }),
{
    let n = rep.len() as int;
    lemma_second_group(rep, n);
    let q = choose|q: int| 0 < q < n && rep[q] == q;
    assert(0 <= rep[0] <= 0);
    assert(is_pair(rep, 0, q));
    assert(comes_before(n, 0, q, n, 0));
    let best = lemma_closest_before(dist, rep, n, 0);
    if let Some(top) = best {
        assert forall|c: int, d: int|
            #![trigger is_pair(rep, c, d)]
            is_pair(rep, c, d) && !(top.0 == c && top.1 == d) implies {
            ||| linkage(dist, rep, top.0, top.1) < linkage(dist, rep, c, d)
            ||| linkage(dist, rep, top.0, top.1) == linkage(dist, rep, c, d) && pair_before(
                top.0,
                top.1,
                c,
                d,
            )
        } by {
            assert(comes_before(n, c, d, n, 0));
        }
        assert(is_closest(dist, rep, top.0, top.1));
    }
}

proof fn lemma_after_joins(dist: Seq<Seq<i32>>, steps: nat)
    requires
        steps == 0 || steps < dist.len(),
    ensures
        is_partition(after_joins(dist, steps)),
        after_joins(dist, steps).len() == dist.len(),
        group_count(after_joins(dist, steps)) == dist.len() - steps,
    decreases steps,
{
    lemma_joins_keep_length(dist, steps);
    if steps == 0 {
        lemma_singletons(dist.len());
    } else {
        let rep = after_joins(dist, (steps - 1) as nat);
        lemma_after_joins(dist, (steps - 1) as nat);
        lemma_closest_exists(dist, rep);
        let p = closest_pair(dist, rep);
        lemma_joined(rep, p.0, p.1);
    }
}

/// Joining the closest groups until `k` are left numbers the samples by exactly `k`
/// numbers, or by as many as there are samples, if these are fewer.
pub proof fn exactly_so_many_groups(dist: Seq<Seq<i32>>, k: nat)
    requires
        k >= 1,
    ensures
        ({
            let labels = group_numbers(after_joins(dist, joins_to(dist.len(), k)));
            &&& labels.len() == dist.len()
            &&& are_numbered(labels, if dist.len() <= k { dist.len() } else { k })
        }),
{
    let steps = joins_to(dist.len(), k);
    lemma_after_joins(dist, steps);
    lemma_group_numbers(after_joins(dist, steps));
}

proof fn lemma_same_number(rep: Seq<int>, i: int, j: int)
    requires
        is_partition(rep),
        0 <= i < rep.len(),
        0 <= j < rep.len(),
    ensures
        group_numbers(rep)[i] == group_numbers(rep)[j] <==> rep[i] == rep[j],
{
    let (a, b) = (rep[i], rep[j]);
    assert(rep[a] == a && rep[b] == b);
    if a < b {
        lemma_groups_monotone(rep, a + 1, b);
    } else if b < a {
        lemma_groups_monotone(rep, b + 1, a);
    }
}

proof fn lemma_joins_only_join(dist: Seq<Seq<i32>>, few: nat, many: nat, i: int, j: int)
    requires
        few <= many,
        0 <= i < dist.len(),
        0 <= j < dist.len(),
        after_joins(dist, few)[i] == after_joins(dist, few)[j],
    ensures
        after_joins(dist, many)[i] == after_joins(dist, many)[j],
    decreases many,
{
    if few < many {
        lemma_joins_only_join(dist, few, (many - 1) as nat, i, j);
        lemma_joins_keep_length(dist, (many - 1) as nat);
    }
}

/// Asking for fewer groups only joins groups: samples with the same number among `more`
/// groups have the same number among `fewer`.
pub proof fn fewer_groups_only_join(dist: Seq<Seq<i32>>, fewer: nat, more: nat, i: int, j: int)
    requires
        1 <= fewer <= more,
        0 <= i < dist.len(),
        0 <= j < dist.len(),
    ensures
        ({
            let coarse = group_numbers(after_joins(dist, joins_to(dist.len(), fewer)));
            let fine = group_numbers(after_joins(dist, joins_to(dist.len(), more)));
            fine[i] == fine[j] ==> coarse[i] == coarse[j]
        }),
{
    let (few, many) = (joins_to(dist.len(), more), joins_to(dist.len(), fewer));
    lemma_after_joins(dist, few);
    lemma_after_joins(dist, many);
    lemma_same_number(after_joins(dist, few), i, j);
    lemma_same_number(after_joins(dist, many), i, j);
    if after_joins(dist, few)[i] == after_joins(dist, few)[j] {
        lemma_joins_only_join(dist, few, many, i, j);
    }
}

proof fn lemma_joins_keep_length(dist: Seq<Seq<i32>>, steps: nat)
    ensures
        after_joins(dist, steps).len() == dist.len(),
    decreases steps,
{
    if steps > 0 {
        lemma_joins_keep_length(dist, (steps - 1) as nat);
    }
}

/// Complete-linkage clustering: the closest two groups are joined until `k` groups
/// are left. Returns the number of each sample's group.
pub fn ahc_complete(dist: &Vec<Vec<i32>>, k: usize) -> (labels: Vec<usize>)
    requires
        is_distance_table(matrix(dist@)),
        k >= 1,
    ensures
        label_values(labels@) == group_numbers(
            after_joins(matrix(dist@), joins_to(dist@.len(), k as nat)),
        ),
        are_numbered(label_values(labels@), if dist@.len() <= k { dist@.len() } else { k as nat }),
        labels.len() == dist.len(),
{
    let (groups, heights) = join_closest(dist, k);
    proof {
        lemma_group_numbers(label_values(groups@));
        lemma_joins_keep_length(matrix(dist@), joins_to(dist@.len(), k as nat));
        assert(matrix(dist@).len() == dist@.len());
    }
    let labels = number_groups(&groups);
    assert(labels@.len() == label_values(labels@).len());
    labels
}

/// The distances at which the closest two groups are joined, from single samples
/// down to one group. They never fall: each join is at least as high as the one before.
pub fn join_heights(dist: &Vec<Vec<i32>>) -> (heights: Vec<i32>)
    requires
        is_distance_table(matrix(dist@)),
    ensures
        heights@.len() == joins_to(dist@.len(), 1),
        forall|s: int|
            0 <= s < heights@.len() ==> #[trigger] heights@[s] == join_height(matrix(dist@), s as nat),
        never_fall(heights@),
{
    let (groups, heights) = join_closest(dist, 1);
    heights
}

// ── How many speakers ───────────────────────────────────────────────────────

/// The gap that closes when `n` samples in `k` groups are joined once more.
pub open spec fn gap_at(n: nat, gaps: Seq<i32>, k: int) -> i32 {
    gaps[n - 1 - k]
}

/// The largest number of speakers to consider.
pub open spec fn speaker_cap(n: nat, max_k: nat) -> nat {
    if max_k <= n {
        max_k
    } else {
        n
    }
}

/// `k` is the number of speakers that the join heights of `n` samples suggest:
/// the state before the join with the largest rise in height. Of equal rises the
/// one with more speakers counts.
pub open spec fn is_estimate(n: nat, gaps: Seq<i32>, max_k: nat, k: int) -> bool {
    if n <= 2 {
        k == n
    } else if speaker_cap(n, max_k) < 2 {
        k == speaker_cap(n, max_k)
    } else {
        &&& 2 <= k <= speaker_cap(n, max_k)
        &&& k < n
        &&& forall|j: int|
            #![trigger gap_at(n, gaps, j)]
            2 <= j <= speaker_cap(n, max_k) && j < n ==> {
                ||| gap_at(n, gaps, j) < gap_at(n, gaps, k)
                ||| gap_at(n, gaps, j) == gap_at(n, gaps, k) && j <= k
            }
    }
}

/// Estimates the number of speakers among `n` samples, `max_k` at most. `gaps[i]`
/// is the order key of the rise from join height `i` to join height `i + 1`.
pub fn estimate_speakers(n: usize, gaps: &Vec<i32>, max_k: usize) -> (k: usize)
    requires
        n >= 2 ==> gaps.len() == n - 2,
    ensures
        is_estimate(n as nat, gaps@, max_k as nat, k as int),
{
    if n <= 2 {
        return n;
    }
    let cap: usize = if max_k <= n { max_k } else { n };
    let mut best: Option<usize> = None;
    let mut i: usize = 0;
    while i < gaps.len()
        invariant
            n >= 3,
            gaps.len() == n - 2,
            i <= gaps.len(),
            cap == speaker_cap(n as nat, max_k as nat),
            best is None ==> i == 0 || n - i > cap,
            best matches Some(b) ==> {
                &&& b < i
                &&& n - 1 - b <= cap
                &&& forall|j: int|
                    #![trigger gap_at(n as nat, gaps@, j)]
                    n - 1 - i < j < n && j <= cap ==> {
                        ||| gap_at(n as nat, gaps@, j) < gaps@[b as int]
                        ||| gap_at(n as nat, gaps@, j) == gaps@[b as int] && j <= n - 1 - b
                    }
            },
        decreases gaps.len() - i,
    {
        let k: usize = n - 1 - i;
        if k <= cap {
            let better: bool = match best {
                Some(b) => gaps[i] > gaps[b],
                None => true,
            };
            if better {
                best = Some(i);
            }
        }
        i += 1;
    }
    match best {
        Some(b) => n - 1 - b,
        None => if cap < 2 {
            cap
        } else {
            assert(2 > cap);
            2
        },
    }
}

// ── Order keys ──────────────────────────────────────────────────────────────

/// The order key of a number given by its IEEE 754 single-precision bits: the
/// magnitude bits, negated where the sign bit is set.
pub open spec fn order_key_of(bits: u32) -> int {
    if bits < 0x8000_0000 {
        bits as int
    } else {
        0x8000_0000 - bits
    }
}

/// The order key of a single-precision number that is no NaN, given by its bits.
/// A smaller number has a smaller key, and both zeros have the key zero.
pub fn order_key(bits: u32) -> (key: i32)
    ensures
        key == order_key_of(bits),
{
    if bits < 0x8000_0000 {
        bits as i32
    } else {
        -((bits - 0x8000_0000) as i32)
    }
}

/// The bits of the single-precision number with the given order key.
pub fn key_bits(key: i32) -> (bits: u32)
    requires
        key > i32::MIN,
    ensures
        order_key_of(bits) == key,
        key == 0 ==> bits == 0,
{
    if key >= 0 {
        key as u32
    } else {
        0x8000_0000 + (-key) as u32
    }
}

/// Two numbers with the same order key have the same bits, except the two zeros.
pub proof fn order_key_tells_apart(a: u32, b: u32)
    requires
        order_key_of(a) == order_key_of(b),
    ensures
        a == b || (a == 0 && b == 0x8000_0000) || (a == 0x8000_0000 && b == 0),
{
}

// ── Largest entries ─────────────────────────────────────────────────────────

/// `i` is the last index with the largest entry.
pub open spec fn is_last_max(keys: Seq<i32>, i: int) -> bool {
    &&& 0 <= i < keys.len()
    &&& forall|j: int| 0 <= j < keys.len() ==> #[trigger] keys[j] <= keys[i]
    &&& forall|j: int| i < j < keys.len() ==> #[trigger] keys[j] < keys[i]
}

/// The last index with the largest entry.
pub fn last_max(keys: &Vec<i32>) -> (at: usize)
    requires
        keys.len() > 0,
    ensures
        is_last_max(keys@, at as int),
{
    let mut at: usize = 0;
    let mut i: usize = 1;
    while i < keys.len()
        invariant
            at < i <= keys.len(),
            forall|j: int| 0 <= j < i ==> #[trigger] keys@[j] <= keys@[at as int],
            forall|j: int| at < j < i ==> #[trigger] keys@[j] < keys@[at as int],
        decreases keys.len() - i,
    {
        if keys[i] >= keys[at] {
            at = i;
        }
        i += 1;
    }
    at
}

/// The largest entry of each row.
pub open spec fn are_row_maxima(rows: Seq<Seq<i32>>, tops: Seq<i32>) -> bool {
    &&& tops.len() == rows.len()
    &&& forall|i: int|
        #![trigger tops[i]]
        0 <= i < rows.len() ==> rows[i].contains(tops[i]) && forall|j: int|
            0 <= j < rows[i].len() ==> #[trigger] rows[i][j] <= tops[i]
}

/// `i` is the last row whose largest entry is the largest of all.
pub open spec fn is_farthest(rows: Seq<Seq<i32>>, i: int) -> bool {
    exists|tops: Seq<i32>| #[trigger] are_row_maxima(rows, tops) && is_last_max(tops, i)
}

/// Where the next centre goes: the sample with the largest distance to any centre.
/// `rows[i]` holds the distance keys of sample `i` to the centres.
pub fn farthest_point(rows: &Vec<Vec<i32>>) -> (at: usize)
    requires
        rows.len() > 0,
        forall|i: int| 0 <= i < rows.len() ==> (#[trigger] rows@[i]).len() > 0,
    ensures
        is_farthest(matrix(rows@), at as int),
{
    let mut tops: Vec<i32> = Vec::new();
    let mut i: usize = 0;
    let ghost m = matrix(rows@);
    while i < rows.len()
        invariant
            i <= rows.len(),
            m == matrix(rows@),
            tops.len() == i,
            forall|r: int| 0 <= r < rows.len() ==> (#[trigger] rows@[r]).len() > 0,
            forall|r: int|
                #![trigger tops@[r]]
                0 <= r < i ==> m[r].contains(tops@[r]) && forall|j: int|
                    0 <= j < m[r].len() ==> #[trigger] m[r][j] <= tops@[r],
        decreases rows.len() - i,
    {
        let at = last_max(&rows[i]);
        assert(m[i as int] == rows@[i as int]@);
        assert(m[i as int][at as int] == rows@[i as int]@[at as int]);
        tops.push(rows[i][at]);
        i += 1;
    }
    assert(are_row_maxima(m, tops@));
    last_max(&tops)
}

/// The smallest entry of each row.
pub open spec fn are_row_minima(rows: Seq<Seq<i32>>, lows: Seq<i32>) -> bool {
    &&& lows.len() == rows.len()
    &&& forall|i: int|
        #![trigger lows[i]]
        0 <= i < rows.len() ==> rows[i].contains(lows[i]) && forall|j: int|
            0 <= j < rows[i].len() ==> lows[i] <= #[trigger] rows[i][j]
}

/// `i` is the last row whose smallest entry is the largest of all.
pub open spec fn is_most_remote(rows: Seq<Seq<i32>>, i: int) -> bool {
    exists|lows: Seq<i32>| #[trigger] are_row_minima(rows, lows) && is_last_max(lows, i)
}

fn smallest(row: &Vec<i32>) -> (low: i32)
    requires
        row.len() > 0,
    ensures
        row@.contains(low),
        forall|j: int| 0 <= j < row.len() ==> low <= #[trigger] row@[j],
{
    let mut low: i32 = row[0];
    let mut i: usize = 1;
    assert(row@[0] == low);
    while i < row.len()
        invariant
            0 < i <= row.len(),
            row@.contains(low),
            forall|j: int| 0 <= j < i ==> low <= #[trigger] row@[j],
        decreases row.len() - i,
    {
        if row[i] < low {
            low = row[i];
            assert(row@[i as int] == low);
        }
        i += 1;
    }
    low
}

/// Where the centre of an empty cluster goes: the sample that is most distant from its
/// nearest centre. `rows[i]` holds the distance keys of sample `i` to the centres.
pub fn remotest_point(rows: &Vec<Vec<i32>>) -> (at: usize)
    requires
        rows.len() > 0,
        forall|i: int| 0 <= i < rows.len() ==> (#[trigger] rows@[i]).len() > 0,
    ensures
        is_most_remote(matrix(rows@), at as int),
{
    let mut lows: Vec<i32> = Vec::new();
    let mut i: usize = 0;
    let ghost m = matrix(rows@);
    while i < rows.len()
        invariant
            i <= rows.len(),
            m == matrix(rows@),
            lows.len() == i,
            forall|r: int| 0 <= r < rows.len() ==> (#[trigger] rows@[r]).len() > 0,
            forall|r: int|
                #![trigger lows@[r]]
                0 <= r < i ==> m[r].contains(lows@[r]) && forall|j: int|
                    0 <= j < m[r].len() ==> lows@[r] <= #[trigger] m[r][j],
        decreases rows.len() - i,
    {
        assert(m[i as int] == rows@[i as int]@);
        lows.push(smallest(&rows[i]));
        i += 1;
    }
    assert(are_row_minima(m, lows@));
    last_max(&lows)
}

// ── Means ───────────────────────────────────────────────────────────────────

/// How often the means are moved at most.
pub const MAX_ROUNDS: usize = 150;

/// The labels of a clustering by means, and how often they were assigned.
pub struct KMeans {
    pub labels: Vec<usize>,
    pub rounds: usize,
}

/// Row by row, the last index with the largest entry.
pub open spec fn are_nearest(sims: Seq<Seq<i32>>, labels: Seq<usize>) -> bool {
    &&& labels.len() == sims.len()
    &&& forall|i: int|
        #![trigger labels[i]]
        0 <= i < sims.len() ==> is_last_max(sims[i], labels[i] as int)
}

impl KMeans {
    /// All `n` samples with the label zero.
    pub fn new(n: usize) -> (out: KMeans)
        ensures
            out.labels@ == Seq::new(n as nat, |i: int| 0usize),
            out.rounds == 0,
    {
        KMeans { labels: zeros(n), rounds: 0 }
    }

    /// Gives each sample the label of the most similar centre; of equally similar
    /// ones the last. `sims[i]` holds the similarity keys of sample `i`. Returns
    /// whether the centres are to be moved and the samples assigned again.
    pub fn assign(&mut self, sims: &Vec<Vec<i32>>) -> (again: bool)
        requires
            sims.len() == old(self).labels.len(),
            forall|i: int| 0 <= i < sims.len() ==> (#[trigger] sims@[i]).len() > 0,
            old(self).rounds < MAX_ROUNDS,
        ensures
            are_nearest(matrix(sims@), final(self).labels@),
            final(self).rounds == old(self).rounds + 1,
            again == (final(self).labels@ != old(self).labels@ && final(self).rounds < MAX_ROUNDS),
    {
        let ghost before = self.labels@;
        let ghost m = matrix(sims@);
        let mut next: Vec<usize> = Vec::new();
        let mut changed: bool = false;
        let mut i: usize = 0;
        while i < sims.len()
            invariant
                i <= sims.len(),
                sims.len() == self.labels.len(),
                before == self.labels@,
                *self == *old(self),
                m == matrix(sims@),
                forall|r: int| 0 <= r < sims.len() ==> (#[trigger] sims@[r]).len() > 0,
                next.len() == i,
                forall|r: int| #![trigger next@[r]] 0 <= r < i ==> is_last_max(m[r], next@[r] as int),
                changed == exists|r: int| #![trigger next@[r]] 0 <= r < i && next@[r] != before[r],
            decreases sims.len() - i,
        {
            let at = last_max(&sims[i]);
            let ghost was = next@;
            next.push(at);
            if self.labels[i] != at {
                changed = true;
                assert(next@[i as int] != before[i as int]);
            }
            proof {
                assert(m[i as int] == sims@[i as int]@);
                assert forall|r: int| 0 <= r < i implies next@[r] == was[r] by {}
            }
            i += 1;
        }
        proof {
            if !changed {
                assert(next@ =~= before);
            }
        }
        self.labels = next;
        self.rounds = self.rounds + 1;
        changed && self.rounds < MAX_ROUNDS
    }
}

/// `n` zeros.
pub fn zeros(n: usize) -> (out: Vec<usize>)
    ensures
        out@ == Seq::new(n as nat, |i: int| 0usize),
{
    let mut out: Vec<usize> = Vec::new();
    let mut i: usize = 0;
    while i < n
        invariant
            i <= n,
            out@ == Seq::new(i as nat, |j: int| 0usize),
        decreases n - i,
    {
        out.push(0);
        i += 1;
        assert(out@ =~= Seq::new(i as nat, |j: int| 0usize));
    }
    out
}

/// How often `label` occurs in `labels`.
pub open spec fn occurrences(labels: Seq<usize>, label: usize) -> nat
    decreases labels.len(),
{
    if labels.len() == 0 {
        0
    } else {
        occurrences(labels.drop_last(), label) + if labels.last() == label {
            1nat
        } else {
            0nat
        }
    }
}

proof fn lemma_occurrences_bound(labels: Seq<usize>, label: usize)
    ensures
        occurrences(labels, label) <= labels.len(),
    decreases labels.len(),
{
    if labels.len() > 0 {
        lemma_occurrences_bound(labels.drop_last(), label);
    }
}

/// The number of samples with each of the labels `0..k`.
pub fn cluster_sizes(labels: &Vec<usize>, k: usize) -> (sizes: Vec<usize>)
    requires
        forall|i: int| 0 <= i < labels.len() ==> #[trigger] labels@[i] < k,
    ensures
        sizes.len() == k,
        forall|c: int| 0 <= c < k ==> #[trigger] sizes@[c] == occurrences(labels@, c as usize),
{
    let mut sizes = zeros(k);
    let mut i: usize = 0;
    while i < labels.len()
        invariant
            i <= labels.len(),
            sizes.len() == k,
            forall|j: int| 0 <= j < labels.len() ==> #[trigger] labels@[j] < k,
            forall|c: int|
                0 <= c < k ==> #[trigger] sizes@[c] == occurrences(labels@.take(i as int), c as usize),
        decreases labels.len() - i,
    {
        let l: usize = labels[i];
        proof {
            lemma_occurrences_bound(labels@.take(i as int), l);
            assert(labels@.take(i + 1).drop_last() =~= labels@.take(i as int));
        }
        let size: usize = sizes[l];
        sizes.set(l, size + 1);
        i += 1;
    }
    assert(labels@.take(i as int) =~= labels@);
    sizes
}

// ── Smoothing ───────────────────────────────────────────────────────────────

/// The labels within `half` of index `i`.
pub open spec fn neighbourhood(labels: Seq<usize>, i: int, half: int) -> Seq<usize> {
    let lo = if i >= half { i - half } else { 0 };
    let hi = if i + half + 1 <= labels.len() { i + half + 1 } else { labels.len() as int };
    labels.subrange(lo, hi)
}

/// `label` occurs in `window`, and no label occurs more often.
pub open spec fn is_most_frequent(window: Seq<usize>, label: usize) -> bool {
    &&& window.contains(label)
    &&& forall|other: usize|
        #[trigger] occurrences(window, other) <= occurrences(window, label)
}

fn most_frequent(labels: &Vec<usize>, lo: usize, hi: usize) -> (out: usize)
    requires
        lo < hi <= labels.len(),
    ensures
        is_most_frequent(labels@.subrange(lo as int, hi as int), out),
{
    let ghost w = labels@.subrange(lo as int, hi as int);
    let mut best: usize = labels[lo];
    assert(w[0] == best);
    let mut best_count: usize = 0;
    let mut i: usize = lo;
    while i < hi
        invariant
            lo <= i <= hi <= labels.len(),
            lo < hi,
            w == labels@.subrange(lo as int, hi as int),
            w.contains(best),
            i > lo ==> best_count == occurrences(w, best),
            i == lo ==> best_count == 0,
            forall|j: int| 0 <= j < i - lo ==> occurrences(w, #[trigger] w[j]) <= best_count,
        decreases hi - i,
    {
        let l: usize = labels[i];
        let count = count_between(labels, lo, hi, l);
        assert(w[i - lo] == l);
        if i == lo || count > best_count {
            best = l;
            best_count = count;
        }
        i += 1;
    }
    assert forall|other: usize| #[trigger] occurrences(w, other) <= occurrences(w, best) by {
        if occurrences(w, other) > 0 {
            lemma_occurs(w, other);
        }
    }
    best
}

proof fn lemma_occurs(labels: Seq<usize>, label: usize)
    requires
        occurrences(labels, label) > 0,
    ensures
        exists|j: int| 0 <= j < labels.len() && #[trigger] labels[j] == label,
    decreases labels.len(),
{
    if labels.last() != label {
        lemma_occurs(labels.drop_last(), label);
        let j = choose|j: int| 0 <= j < labels.drop_last().len() && #[trigger] labels.drop_last()[j] == label;
        assert(labels[j] == label);
    }
}

fn count_between(labels: &Vec<usize>, lo: usize, hi: usize, label: usize) -> (count: usize)
    requires
        lo <= hi <= labels.len(),
    ensures
        count == occurrences(labels@.subrange(lo as int, hi as int), label),
{
    let mut count: usize = 0;
    let mut i: usize = lo;
    while i < hi
        invariant
            lo <= i <= hi <= labels.len(),
            count <= i - lo,
            count == occurrences(labels@.subrange(lo as int, i as int), label),
        decreases hi - i,
    {
        assert(labels@.subrange(lo as int, i + 1).drop_last() =~= labels@.subrange(lo as int, i as int));
        if labels[i] == label {
            count += 1;
        }
        i += 1;
    }
    count
}

/// Replaces each label by a most frequent one among the `k / 2` labels before it,
/// itself and the `k / 2` after it. Which of equally frequent labels is taken is
/// left open.
pub fn smooth(labels: &Vec<usize>, k: usize) -> (out: Vec<usize>)
    ensures
        out.len() == labels.len(),
        forall|i: int|
            #![trigger out@[i]]
            0 <= i < labels.len() ==> is_most_frequent(neighbourhood(labels@, i, k as int / 2), out@[i]),
{
    let n = labels.len();
    let half: usize = k / 2;
    let mut out: Vec<usize> = Vec::new();
    let mut i: usize = 0;
    while i < n
        invariant
            i <= n,
            n == labels.len(),
            half == k as int / 2,
            out.len() == i,
            forall|j: int|
                #![trigger out@[j]]
                0 <= j < i ==> is_most_frequent(neighbourhood(labels@, j, k as int / 2), out@[j]),
        decreases n - i,
    {
        let lo: usize = if i >= half { i - half } else { 0 };
        let hi: usize = if half < n - i { i + half + 1 } else { n };
        assert(neighbourhood(labels@, i as int, half as int) =~= labels@.subrange(lo as int, hi as int));
        out.push(most_frequent(labels, lo, hi));
        i += 1;
    }
    out
}

// ── Choice of method ────────────────────────────────────────────────────────

/// Up to this many samples are clustered by joining; more are clustered by means.
pub const MAX_JOINED_SAMPLES: usize = 800;

/// How the labels of a set of samples are found.
pub enum ClusterPlan {
    /// They are known without looking at the samples.
    Known(Vec<usize>),
    /// By joining the closest groups.
    Join,
    /// By means.
    Means,
}

/// How `n` samples are sorted into `k` groups: with no more samples than groups each
/// gets its own, with one group all get that one.
pub fn plan_clusters(n: usize, k: usize) -> (plan: ClusterPlan)
    ensures
        match plan {
            ClusterPlan::Known(labels) => {
                ||| n <= k && label_values(labels@) == singletons(n as nat)
                ||| n > k && k == 1 && labels@ == Seq::new(n as nat, |i: int| 0usize)
            },
            ClusterPlan::Join => n > k && k != 1 && n <= MAX_JOINED_SAMPLES,
            ClusterPlan::Means => n > k && k != 1 && n > MAX_JOINED_SAMPLES,
        },
{
    if n <= k {
        let mut labels: Vec<usize> = Vec::new();
        let mut i: usize = 0;
        while i < n
            invariant
                i <= n,
                labels.len() == i,
                forall|j: int| 0 <= j < i ==> labels@[j] == j,
            decreases n - i,
        {
            labels.push(i);
            i += 1;
        }
        assert(label_values(labels@) =~= singletons(n as nat));
        ClusterPlan::Known(labels)
    } else if k == 1 {
        ClusterPlan::Known(zeros(n))
    } else if n <= MAX_JOINED_SAMPLES {
        ClusterPlan::Join
    } else {
        ClusterPlan::Means
    }
}

// ── Laws of grouping ────────────────────────────────────────────────────────

/// The largest distance from a member of group `a` to one of group `b`, of the pairs before
/// `(c, d)`, if there are any.
proof fn lemma_largest_before(
    dist: Seq<Seq<i32>>,
    rep: Seq<int>,
    a: int,
    b: int,
    c: int,
    d: int,
) -> (best: Option<(int, int)>)
    requires
        0 <= c <= rep.len(),
        0 <= d <= rep.len(),
    ensures
        match best {
            None => forall|x: int, y: int| #[trigger]
                comes_before(rep.len() as int, x, y, c, d) ==> !(rep[x] == a && rep[y] == b),
            Some(top) => {
                &&& comes_before(rep.len() as int, top.0, top.1, c, d)
                &&& rep[top.0] == a
                &&& rep[top.1] == b
                &&& forall|x: int, y: int| #[trigger]
                    comes_before(rep.len() as int, x, y, c, d) && rep[x] == a && rep[y] == b
                        ==> dist[x][y] <= dist[top.0][top.1]
            },
        },
    decreases c, d,
{
    let n = rep.len() as int;
    if d > 0 {
        let best = lemma_largest_before(dist, rep, a, b, c, d - 1);
        assert forall|x: int, y: int| #[trigger] comes_before(n, x, y, c, d) implies comes_before(
            n,
            x,
            y,
            c,
            d - 1,
        ) || (x == c && y == d - 1) by {}
        if rep[c] == a && rep[d - 1] == b {
            assert(comes_before(n, c, d - 1, c, d));
            match best {
                None => Some((c, d - 1)),
                Some(top) => {
                    assert(comes_before(n, top.0, top.1, c, d));
                    if dist[c][d - 1] > dist[top.0][top.1] {
                        Some((c, d - 1))
                    } else {
                        best
                    }
                },
            }
        } else {
            if let Some(top) = best {
                assert(comes_before(n, top.0, top.1, c, d));
            }
            best
        }
    } else if c > 0 {
        let best = lemma_largest_before(dist, rep, a, b, c - 1, n);
        assert forall|x: int, y: int| #[trigger] comes_before(n, x, y, c, 0) implies comes_before(
            n,
            x,
            y,
            c - 1,
            n,
        ) by {}
        if let Some(top) = best {
            assert(comes_before(n, top.0, top.1, c, 0));
        }
        best
    } else {
        None
    }
}

proof fn lemma_linkage_exists(dist: Seq<Seq<i32>>, rep: Seq<int>, a: int, b: int)
    requires
        0 <= a < rep.len(),
        0 <= b < rep.len(),
        rep[a] == a,
        rep[b] == b,
    ensures
        is_linkage(dist, rep, a, b, linkage(dist, rep, a, b)),
{
    let n = rep.len() as int;
    let best = lemma_largest_before(dist, rep, a, b, n, 0);
    assert(comes_before(n, a, b, n, 0));
    if let Some(top) = best {
        let m = dist[top.0][top.1] as int;
        assert(rep[top.0] == a && rep[top.1] == b);
        assert forall|x: int, y: int|
            #![trigger rep[x], rep[y]]
            0 <= x < rep.len() && 0 <= y < rep.len() && rep[x] == a && rep[y] == b implies dist[x][y]
            <= m by {
            assert(comes_before(n, x, y, n, 0));
        }
        assert(is_linkage(dist, rep, a, b, m));
    }
}

/// Within a group all are at most `h` apart, and of every two groups some are at least `h`
/// apart.
spec fn are_apart(dist: Seq<Seq<i32>>, rep: Seq<int>, h: int) -> bool {
    &&& forall|x: int, y: int|
        #![trigger rep[x], rep[y]]
        0 <= x < rep.len() && 0 <= y < rep.len() && x != y && rep[x] == rep[y] ==> dist[x][y] <= h
    &&& forall|p: int, q: int| #[trigger] is_pair(rep, p, q) ==> exists|x: int, y: int|
        #![trigger rep[x], rep[y]]
        0 <= x < rep.len() && 0 <= y < rep.len() && rep[x] == p && rep[y] == q && dist[x][y] >= h
}

proof fn lemma_apart_after_join(dist: Seq<Seq<i32>>, rep: Seq<int>, h: int) -> (m: int)
    requires
        is_distance_table(dist),
        dist.len() == rep.len(),
        is_partition(rep),
        group_count(rep) >= 2,
        are_apart(dist, rep, h),
    ensures
        ({
            let p = closest_pair(dist, rep);
            &&& are_apart(dist, joined_groups(rep, p.0, p.1), m)
            &&& m == linkage(dist, rep, p.0, p.1)
        }),
{
    lemma_closest_exists(dist, rep);
    let (a, b) = closest_pair(dist, rep);
    let out = joined_groups(rep, a, b);
    let m = linkage(dist, rep, a, b);
    assert(is_closest(dist, rep, a, b));
    lemma_linkage_exists(dist, rep, a, b);
    let (u, v) = choose|x: int, y: int|
        #![trigger rep[x], rep[y]]
        0 <= x < rep.len() && 0 <= y < rep.len() && rep[x] == a && rep[y] == b && dist[x][y] >= h;
    assert(dist[u][v] <= m);
    assert forall|x: int, y: int|
        #![trigger out[x], out[y]]
        0 <= x < out.len() && 0 <= y < out.len() && x != y && out[x] == out[y] implies dist[x][y] <= m by {
        if rep[x] != rep[y] {
            if rep[x] == a {
                assert(rep[y] == b);
            } else {
                assert(rep[x] == b && rep[y] == a);
                assert(dist[x][y] == dist[y][x]);
            }
        }
    }
    assert forall|p: int, q: int| #[trigger] is_pair(out, p, q) implies exists|x: int, y: int|
        #![trigger out[x], out[y]]
        0 <= x < out.len() && 0 <= y < out.len() && out[x] == p && out[y] == q && dist[x][y] >= m by {
        assert(rep[a] == a && rep[b] == b);
        assert(rep[p] == p && rep[q] == q);
        assert(is_pair(rep, p, q));
        lemma_linkage_exists(dist, rep, p, q);
        let l = linkage(dist, rep, p, q);
        let (x, y) = choose|x: int, y: int|
            #![trigger rep[x], rep[y]]
            0 <= x < rep.len() && 0 <= y < rep.len() && rep[x] == p && rep[y] == q && dist[x][y] == l;
        assert(out[b] == a);
        assert(p != b && q != b);
        assert(out[x] == p && out[y] == q);
    }
    m
}

proof fn lemma_apart_after_joins(dist: Seq<Seq<i32>>, steps: nat) -> (h: int)
    requires
        is_distance_table(dist),
        steps == 0 || steps < dist.len(),
    ensures
        are_apart(dist, after_joins(dist, steps), h),
        steps > 0 ==> h == join_height(dist, (steps - 1) as nat),
    decreases steps,
{
    let rep = after_joins(dist, steps);
    if steps == 0 {
        let h = i32::MIN as int;
        assert forall|p: int, q: int| #[trigger] is_pair(rep, p, q) implies exists|x: int, y: int|
            #![trigger rep[x], rep[y]]
            0 <= x < rep.len() && 0 <= y < rep.len() && rep[x] == p && rep[y] == q && dist[x][y] >= h by {
            assert(rep[p] == p && rep[q] == q && dist[p][q] >= h);
        }
        h
    } else {
        lemma_after_joins(dist, (steps - 1) as nat);
        let h = lemma_apart_after_joins(dist, (steps - 1) as nat);
        lemma_apart_after_join(dist, after_joins(dist, (steps - 1) as nat), h)
    }
}

/// Samples that are grouped together belong together: no two of one group are farther apart
/// than the height of the last join, while of every two groups some of their samples are at
/// least that far apart. Without a join, every sample is a group of its own.
pub proof fn groups_hold_what_is_close(dist: Seq<Seq<i32>>, k: nat, x: int, y: int)
    requires
        is_distance_table(dist),
        k >= 1,
        0 <= x < dist.len(),
        0 <= y < dist.len(),
        x != y,
    ensures
        ({
            let labels = group_numbers(after_joins(dist, joins_to(dist.len(), k)));
            let h = join_height(dist, (dist.len() - k - 1) as nat);
            &&& labels.len() == dist.len()
            &&& k >= dist.len() ==> labels[x] != labels[y]
            &&& k < dist.len() && labels[x] == labels[y] ==> dist[x][y] <= h
            &&& k < dist.len() && labels[x] != labels[y] ==> exists|u: int, v: int|
                #![trigger labels[u], labels[v]]
                0 <= u < dist.len() && 0 <= v < dist.len() && labels[u] == labels[x] && labels[v]
                    == labels[y] && dist[u][v] >= h
        }),
{
    let steps = joins_to(dist.len(), k);
    lemma_after_joins(dist, steps);
    let rep = after_joins(dist, steps);
    let labels = group_numbers(rep);
    lemma_same_number(rep, x, y);
    if k < dist.len() {
        let h = lemma_apart_after_joins(dist, steps);
        let (p, q) = (rep[x], rep[y]);
        assert(0 <= p <= x && rep[p] == p);
        assert(0 <= q <= y && rep[q] == q);
        if p != q {
            let (lo, hi) = if p < q { (p, q) } else { (q, p) };
            assert(is_pair(rep, lo, hi));
            let (s, t) = choose|s: int, t: int|
                #![trigger rep[s], rep[t]]
                0 <= s < rep.len() && 0 <= t < rep.len() && rep[s] == lo && rep[t] == hi && dist[s][t]
                    >= h;
            let (u, v) = if p < q { (s, t) } else { (t, s) };
            assert(dist[s][t] == dist[t][s]);
            lemma_same_number(rep, u, x);
            lemma_same_number(rep, v, y);
            assert(labels[u] == labels[x] && labels[v] == labels[y] && dist[u][v] >= h);
        }
    }
}

/// The joins are cut just before the largest rise in their heights: with `n` samples, a
/// largest rise after join number `at + 1` leaves `n - 1 - at` groups. Of equal rises the
/// first counts. One sample or two make as many groups.
pub proof fn the_largest_rise_decides(n: nat, gaps: Seq<i32>, max_k: nat, k: int, at: int)
    requires
        is_estimate(n, gaps, max_k, k),
    ensures
        n <= 2 ==> k == n,
        n > 2 && max_k >= 2 ==> 2 <= k <= max_k && k < n,
        n > 2 && gaps.len() == n - 2 && 0 <= at < gaps.len() && n - 1 - at <= max_k ==> gaps[at] < gaps[n
            - 1 - k] || gaps[at] == gaps[n - 1 - k] && at >= n - 1 - k,
        n > 2 && gaps.len() == n - 2 && 0 <= at < gaps.len() && n - 1 - at <= max_k && (forall|j: int|
            0 <= j < gaps.len() && j != at && n - 1 - j <= max_k ==> #[trigger] gaps[j] < gaps[at]) ==> k
            == n - 1 - at,
{
    if n > 2 && gaps.len() == n - 2 && 0 <= at < gaps.len() && n - 1 - at <= max_k {
        let best = n - 1 - at;
        assert(gap_at(n, gaps, best) == gaps[at]);
        assert(gap_at(n, gaps, k) == gaps[n - 1 - k]);
    }
}

/// Keys are ordered as the numbers are that the bits stand for: of numbers without a sign
/// those with larger bits are larger, of numbers with a sign those with smaller bits, and
/// the latter are not larger than the former.
pub proof fn keys_are_ordered_as_numbers(a: u32, b: u32)
    ensures
        a < 0x8000_0000 && b < 0x8000_0000 ==> (order_key_of(a) < order_key_of(b) <==> a < b),
        a >= 0x8000_0000 && b >= 0x8000_0000 ==> (order_key_of(a) < order_key_of(b) <==> a > b),
        a >= 0x8000_0000 && b < 0x8000_0000 ==> order_key_of(a) <= order_key_of(b),
        a > 0x8000_0000 && b < 0x8000_0000 ==> order_key_of(a) < 0 <= order_key_of(b),
        order_key_of(0) == 0 == order_key_of(0x8000_0000),
{
}

/// The farthest sample has an entry that no entry of any sample exceeds, and no later one
/// has as large an entry.
pub proof fn nothing_is_farther(rows: Seq<Seq<i32>>, i: int, j: int, c: int)
    requires
        is_farthest(rows, i),
        0 <= j < rows.len(),
        0 <= c < rows[j].len(),
    ensures
        0 <= i < rows.len(),
        exists|d: int|
            0 <= d < rows[i].len() && #[trigger] rows[i][d] >= rows[j][c] && (j > i ==> rows[i][d]
                > rows[j][c]),
{
    let tops = choose|tops: Seq<i32>| #[trigger] are_row_maxima(rows, tops) && is_last_max(tops, i);
    assert(tops[j] <= tops[i]);
    assert(j > i ==> tops[j] < tops[i]);
    assert(rows[j][c] <= tops[j]);
    assert(rows[i].contains(tops[i]));
    let d = choose|d: int| 0 <= d < rows[i].len() && rows[i][d] == tops[i];
    assert(rows[i][d] >= rows[j][c]);
}

/// The most remote sample is at least as far from its nearest centre as any other sample is
/// from its own, and farther than every later one.
pub proof fn nothing_is_more_remote(rows: Seq<Seq<i32>>, i: int, j: int, d: int)
    requires
        is_most_remote(rows, i),
        0 <= j < rows.len(),
        0 <= i < rows.len(),
        0 <= d < rows[i].len(),
    ensures
        exists|c: int|
            0 <= c < rows[j].len() && #[trigger] rows[j][c] <= rows[i][d] && (j > i ==> rows[j][c]
                < rows[i][d]),
{
    let lows = choose|lows: Seq<i32>| #[trigger] are_row_minima(rows, lows) && is_last_max(lows, i);
    assert(lows[j] <= lows[i]);
    assert(j > i ==> lows[j] < lows[i]);
    assert(lows[i] <= rows[i][d]);
    assert(rows[j].contains(lows[j]));
    let c = choose|c: int| 0 <= c < rows[j].len() && rows[j][c] == lows[j];
    assert(rows[j][c] <= rows[i][d]);
}

/// How often a label occurs is how often it occurs in the one part and in the other.
pub proof fn occurrences_add_up(a: Seq<usize>, b: Seq<usize>, label: usize, other: usize)
    ensures
        occurrences(a + b, label) == occurrences(a, label) + occurrences(b, label),
        occurrences(seq![label], label) == 1,
        other != label ==> occurrences(seq![other], label) == 0,
        occurrences(Seq::empty(), label) == 0,
    decreases b.len(),
{
    reveal_with_fuel(occurrences, 2);
    assert(seq![label].drop_last() =~= Seq::empty());
    assert(seq![other].drop_last() =~= Seq::empty());
    if b.len() > 0 {
        occurrences_add_up(a, b.drop_last(), label, other);
        assert((a + b).drop_last() =~= a + b.drop_last());
        assert((a + b).last() == b.last());
    } else {
        assert(a + b =~= a);
    }
}

/// The neighbourhood of a label holds it and the `half` labels before it and after it, as
/// far as there are any.
pub proof fn neighbours_are_on_both_sides(labels: Seq<usize>, i: int, half: int)
    requires
        0 <= i < labels.len(),
        0 <= half,
    ensures
        ({
            let w = neighbourhood(labels, i, half);
            let before = if i < half { i } else { half };
            let after = if labels.len() - 1 - i < half { labels.len() - 1 - i } else { half };
            &&& w.len() == before + 1 + after
            &&& forall|j: int| 0 <= j < w.len() ==> #[trigger] w[j] == labels[i - before + j]
        }),
{
}

/// The last of the largest keys: none is larger, and none after it is as large.
pub proof fn the_last_of_the_largest(keys: Seq<i32>, i: int, j: int)
    requires
        is_last_max(keys, i),
        0 <= j < keys.len(),
    ensures
        0 <= i < keys.len(),
        keys[j] <= keys[i],
        j > i ==> keys[j] < keys[i],
        is_last_max(keys, j) ==> j == i,
{
    if is_last_max(keys, j) {
        assert(keys[i] <= keys[j]);
        if j < i {
            assert(keys[i] < keys[j]);
        }
    }
}

/// Every sample goes to the centre that it is most similar to, the last of equally similar
/// ones.
pub proof fn samples_go_to_the_nearest_centre(sims: Seq<Seq<i32>>, labels: Seq<usize>, i: int, c: int)
    requires
        are_nearest(sims, labels),
        0 <= i < sims.len(),
        0 <= c < sims[i].len(),
    ensures
        labels.len() == sims.len(),
        labels[i] < sims[i].len(),
        sims[i][c] <= sims[i][labels[i] as int],
        c > labels[i] ==> sims[i][c] < sims[i][labels[i] as int],
{
    the_last_of_the_largest(sims[i], labels[i] as int, c);
}

} // verus!
