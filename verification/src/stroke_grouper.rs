//! Which way a grouped symbol faces relative to the ring, with the wire names.

use vstd::prelude::*;
use crate::topological_flood_fill::lemma_distinct_below;

verus! {

#[derive(Debug, Clone, Copy, PartialEq, Eq, Structural)]
pub enum RadialFacing {
    Outward,
    Inward,
    Counterclockwise,
    Clockwise,
    Unclear,
}

impl RadialFacing {
    /// The wire name of the facing.
    pub open spec fn wire_name(self) -> Seq<char> {
        match self {
            RadialFacing::Outward => "outward"@,
            RadialFacing::Inward => "inward"@,
            RadialFacing::Counterclockwise => "counterclockwise"@,
            RadialFacing::Clockwise => "clockwise"@,
            RadialFacing::Unclear => "unclear"@,
        }
    }

    /// The wire name of the facing.
    pub fn as_str(self) -> (name: &'static str)
        ensures
            name@ == self.wire_name(),
    {
        match self {
            RadialFacing::Outward => "outward",
            RadialFacing::Inward => "inward",
            RadialFacing::Counterclockwise => "counterclockwise",
            RadialFacing::Clockwise => "clockwise",
            RadialFacing::Unclear => "unclear",
        }
    }
}

/// Stroke `i` belongs to one of the groups.
pub open spec fn grouped(groups: Seq<Seq<usize>>, i: int) -> bool {
    exists|k: int, m: int| 0 <= k < groups.len() && 0 <= m < groups[k].len() && #[trigger] groups[k][m] == i
}

/// Stroke `i` belongs to one of the first `upto` groups.
pub open spec fn grouped_before(groups: Seq<Seq<usize>>, upto: int, i: int) -> bool {
    exists|k: int, m: int| 0 <= k < upto && 0 <= m < groups[k].len() && #[trigger] groups[k][m] == i
}

/// The groups, each seen as its sequence of stroke indices.
pub open spec fn group_views(groups: Seq<Vec<usize>>) -> Seq<Seq<usize>> {
    groups.map_values(|g: Vec<usize>| g@)
}

/// `joins` is an `n` by `n` table.
pub open spec fn is_square(joins: Seq<Vec<bool>>, n: int) -> bool {
    joins.len() == n && forall|i: int| 0 <= i < n ==> (#[trigger] joins[i])@.len() == n
}

/// The position of the first member of `group`, from position `p` on and
/// before position `m`, that `joins` links to the member at `m`; `m` when
/// there is none.
pub open spec fn first_link_from(joins: Seq<Vec<bool>>, group: Seq<usize>, m: int, p: int) -> int
    decreases m - p,
{
    if p >= m {
        m
    } else if joins[group[p] as int]@[group[m] as int] {
        p
    } else {
        first_link_from(joins, group, m, p + 1)
    }
}

/// The position of the first earlier member of `group` that `joins` links to
/// the member at `m`; `m` when there is none.
pub open spec fn first_link(joins: Seq<Vec<bool>>, group: Seq<usize>, m: int) -> int {
    first_link_from(joins, group, m, 0)
}

/// The members of `group` come in breadth-first order: every later member
/// is linked from an earlier one, and members are ordered by the position
/// of the first member linking to them, then by stroke index.
pub open spec fn is_breadth_first(joins: Seq<Vec<bool>>, group: Seq<usize>) -> bool {
    &&& forall|m: int| 0 < m < group.len() ==> #[trigger] first_link(joins, group, m) < m
    &&& forall|m1: int, m2: int|
        0 < m1 < m2 < group.len() ==> #[trigger] first_link(joins, group, m1) < #[trigger] first_link(joins, group, m2)
            || (first_link(joins, group, m1) == first_link(joins, group, m2) && group[m1] < group[m2])
}

/// The grouping of `n` strokes: each group starts with a seed stroke; the
/// groups start in stroke order, and every seed before a group's first
/// stroke is in an earlier group; every later member of a group is joinable
/// and joined to an earlier member; the members of a group come in
/// breadth-first order; a joinable stroke joined to a member belongs to that
/// group or an earlier one; no stroke is in two places; every seed is
/// grouped.
pub open spec fn is_grouping(seed: Seq<bool>, joinable: Seq<bool>, joins: Seq<Vec<bool>>, n: int, groups: Seq<Seq<usize>>) -> bool {
    &&& forall|k: int| 0 <= k < groups.len() ==> (#[trigger] groups[k]).len() > 0 && seed[groups[k][0] as int]
    &&& forall|k1: int, k2: int| 0 <= k1 < k2 < groups.len() ==> (#[trigger] groups[k1])[0] < (#[trigger] groups[k2])[0]
    &&& forall|k: int, i: int|
        0 <= k < groups.len() && 0 <= i < groups[k][0] && seed[i] ==> #[trigger] grouped_before(groups, k, i)
    &&& forall|k: int| 0 <= k < groups.len() ==> is_breadth_first(joins, #[trigger] groups[k])
    &&& forall|k: int, m: int| 0 <= k < groups.len() && 0 <= m < groups[k].len() ==> #[trigger] groups[k][m] < n
    &&& forall|k: int, m: int|
        0 <= k < groups.len() && 0 < m < groups[k].len() ==> joinable[#[trigger] groups[k][m] as int] && exists|m2: int|
            0 <= m2 < m && #[trigger] joins[groups[k][m2] as int]@[groups[k][m] as int]
    &&& forall|k: int, m: int, j: int|
        0 <= k < groups.len() && 0 <= m < groups[k].len() && 0 <= j < n && joinable[j]
            && #[trigger] joins[groups[k][m] as int]@[j] ==> grouped_before(groups, k + 1, j)
    &&& forall|k1: int, m1: int, k2: int, m2: int|
        0 <= k1 < groups.len() && 0 <= m1 < groups[k1].len() && 0 <= k2 < groups.len() && 0 <= m2 < groups[k2].len()
            && (k1 != k2 || m1 != m2) ==> #[trigger] groups[k1][m1] != #[trigger] groups[k2][m2]
    &&& forall|i: int| 0 <= i < n && seed[i] ==> #[trigger] grouped(groups, i)
}

/// Groups strokes into symbol candidates. Each seed stroke not yet grouped,
/// in stroke order, starts a group, which grows breadth first: each member
/// in turn takes in every joinable stroke, in stroke order, that is not yet
/// grouped and that `joins[member][stroke]` links to it.
pub fn group_strokes(seed: &[bool], joinable: &[bool], joins: &[Vec<bool>]) -> (groups: Vec<Vec<usize>>)
    requires
        joinable@.len() == seed@.len(),
        is_square(joins@, seed@.len() as int),
    ensures
        is_grouping(seed@, joinable@, joins@, seed@.len() as int, group_views(groups@)),
{
    let n = seed.len();
    let ghost sd = seed@;
    let ghost jn = joinable@;
    let ghost js = joins@;
    let mut visited: Vec<bool> = Vec::new();
    let mut i: usize = 0;
    while i < n
        invariant
            i <= n,
            visited@.len() == i,
            forall|k: int| 0 <= k < i ==> !visited@[k],
        decreases n - i,
    {
        visited.push(false);
        i = i + 1;
    }
    let mut groups: Vec<Vec<usize>> = Vec::new();
    let mut s: usize = 0;
    while s < n
        invariant
            n == sd.len() && jn.len() == n && sd == seed@ && jn == joinable@ && js == joins@,
            is_square(js, n as int),
            s <= n,
            visited@.len() == n,
            forall|i: int| 0 <= i < n ==> (#[trigger] visited@[i]) == grouped(group_views(groups@), i),
            forall|k: int| 0 <= k < groups@.len() ==> (#[trigger] groups@[k])@[0] < s,
            forall|i: int| 0 <= i < s && sd[i] ==> #[trigger] grouped(group_views(groups@), i),
            is_grouping_prefix(sd, jn, js, n as int, group_views(groups@)),
        decreases n - s,
    {
        if !seed[s] || visited[s] {
            s = s + 1;
            continue;
        }
        let ghost g0 = group_views(groups@);
        let group = grow_group(s, joinable, joins, &mut visited, Ghost(g0));
        groups.push(group);
        proof {
            let g1 = group_views(groups@);
            assert(g1 =~= g0.push(group@));
            lemma_push_group(sd, jn, js, n as int, g0, group@, s as int);
            assert forall|i: int| 0 <= i < n implies (#[trigger] visited@[i]) == grouped(g1, i) by {
                lemma_grouped_push(g0, group@, i);
            }
            assert forall|i: int| 0 <= i < s + 1 && sd[i] implies #[trigger] grouped(g1, i) by {
                lemma_grouped_push(g0, group@, i);
                if i == s {
                    assert(group@[0] == s);
                }
            }
            assert forall|k: int| 0 <= k < groups@.len() implies (#[trigger] groups@[k])@[0] < s + 1 by {
                if k < groups@.len() - 1 {
                    assert(groups@[k]@ == g0[k]);
                }
            }
        }
        s = s + 1;
    }
    groups
}

/// The properties of a grouping that hold while groups are still being added.
pub open spec fn is_grouping_prefix(seed: Seq<bool>, joinable: Seq<bool>, joins: Seq<Vec<bool>>, n: int, groups: Seq<Seq<usize>>) -> bool {
    &&& forall|k: int| 0 <= k < groups.len() ==> (#[trigger] groups[k]).len() > 0 && seed[groups[k][0] as int]
    &&& forall|k1: int, k2: int| 0 <= k1 < k2 < groups.len() ==> (#[trigger] groups[k1])[0] < (#[trigger] groups[k2])[0]
    &&& forall|k: int, i: int|
        0 <= k < groups.len() && 0 <= i < groups[k][0] && seed[i] ==> #[trigger] grouped_before(groups, k, i)
    &&& forall|k: int| 0 <= k < groups.len() ==> is_breadth_first(joins, #[trigger] groups[k])
    &&& forall|k: int, m: int| 0 <= k < groups.len() && 0 <= m < groups[k].len() ==> #[trigger] groups[k][m] < n
    &&& forall|k: int, m: int|
        0 <= k < groups.len() && 0 < m < groups[k].len() ==> joinable[#[trigger] groups[k][m] as int] && exists|m2: int|
            0 <= m2 < m && #[trigger] joins[groups[k][m2] as int]@[groups[k][m] as int]
    &&& forall|k: int, m: int, j: int|
        0 <= k < groups.len() && 0 <= m < groups[k].len() && 0 <= j < n && joinable[j]
            && #[trigger] joins[groups[k][m] as int]@[j] ==> grouped_before(groups, k + 1, j)
    &&& forall|k1: int, m1: int, k2: int, m2: int|
        0 <= k1 < groups.len() && 0 <= m1 < groups[k1].len() && 0 <= k2 < groups.len() && 0 <= m2 < groups[k2].len()
            && (k1 != k2 || m1 != m2) ==> #[trigger] groups[k1][m1] != #[trigger] groups[k2][m2]
}

/// Grows, breadth first, the group of seed `s`, marking its strokes visited.
fn grow_group(
    s: usize,
    joinable: &[bool],
    joins: &[Vec<bool>],
    visited: &mut Vec<bool>,
    Ghost(groups): Ghost<Seq<Seq<usize>>>,
) -> (group: Vec<usize>)
    requires
        is_square(joins@, joinable@.len() as int),
        old(visited)@.len() == joinable@.len(),
        s < joinable@.len(),
        !old(visited)@[s as int],
        forall|i: int| 0 <= i < joinable@.len() ==> (#[trigger] old(visited)@[i]) == grouped(groups, i),
        forall|k: int, m: int| 0 <= k < groups.len() && 0 <= m < groups[k].len() ==> #[trigger] groups[k][m] < joinable@.len(),
    ensures
        final(visited)@.len() == joinable@.len(),
        group@.len() > 0,
        group@[0] == s,
        group@.no_duplicates(),
        forall|m: int| 0 <= m < group@.len() ==> #[trigger] group@[m] < joinable@.len() && !grouped(groups, group@[m] as int),
        forall|m: int|
            0 < m < group@.len() ==> joinable@[#[trigger] group@[m] as int] && exists|m2: int|
                0 <= m2 < m && #[trigger] joins@[group@[m2] as int]@[group@[m] as int],
        forall|m: int, j: int|
            0 <= m < group@.len() && 0 <= j < joinable@.len() && joinable@[j] && #[trigger] joins@[group@[m] as int]@[j]
                ==> final(visited)@[j],
        forall|i: int| 0 <= i < joinable@.len() ==> (#[trigger] final(visited)@[i]) == (old(visited)@[i] || group@.contains(i as usize)),
        is_breadth_first(joins@, group@),
{
    let n = joinable.len();
    let ghost v0 = visited@;
    let mut queue: Vec<usize> = Vec::new();
    let mut group: Vec<usize> = Vec::new();
    visited.set(s, true);
    queue.push(s);
    let ghost mut parents: Seq<int> = seq![0int];
    proof {
        assert forall|i: int| 0 <= i < n implies (#[trigger] visited@[i]) == (v0[i] || queue@.contains(i as usize)) by {
            if i == s {
                assert(queue@[0] == s);
            }
            if queue@.contains(i as usize) {
                let m = choose|m: int| 0 <= m < queue@.len() && queue@[m] == i as usize;
                assert(m == 0);
            }
        }
    }
    let mut head: usize = 0;
    while head < queue.len()
        invariant
            n == joinable@.len(),
            is_square(joins@, n as int),
            visited@.len() == n,
            head <= queue@.len(),
            queue@.len() <= n,
            queue@[0] == s,
            queue@.len() > 0,
            group@ == queue@.subrange(0, head as int),
            queue@.no_duplicates(),
            forall|m: int| 0 <= m < queue@.len() ==> #[trigger] queue@[m] < n && !v0[queue@[m] as int],
            parents.len() == queue@.len(),
            forall|m: int| 0 < m < queue@.len() ==> joinable@[#[trigger] queue@[m] as int],
            forall|m: int| 0 < m < queue@.len() ==> 0 <= #[trigger] parents[m] < m,
            forall|m: int| 0 < m < queue@.len() ==> joins@[queue@[#[trigger] parents[m]] as int]@[queue@[m] as int],
            forall|m: int| 0 < m < queue@.len() ==> #[trigger] parents[m] < head,
            forall|m: int, q: int|
                #![trigger joins@[queue@[q] as int]@[queue@[m] as int]]
                0 < m < queue@.len() && 0 <= q < parents[m] ==> !joins@[queue@[q] as int]@[queue@[m] as int],
            forall|m1: int, m2: int|
                0 < m1 < m2 < queue@.len() ==> #[trigger] parents[m1] < #[trigger] parents[m2] || (parents[m1] == parents[m2]
                    && queue@[m1] < queue@[m2]),
            forall|m: int, j: int|
                0 <= m < head && 0 <= j < n && joinable@[j] && #[trigger] joins@[queue@[m] as int]@[j] ==> visited@[j],
            forall|i: int| 0 <= i < n ==> (#[trigger] visited@[i]) == (v0[i] || queue@.contains(i as usize)),
        decreases (n - queue@.len()) * (n + 1) + (queue@.len() - head),
    {
        let current = queue[head];
        let ghost q0 = queue@;
        let ghost vis0 = visited@;
        proof {
            assert(queue@.subrange(0, q0.len() as int) =~= q0);
        }
        let mut other: usize = 0;
        while other < n
            invariant
                n == joinable@.len(),
                is_square(joins@, n as int),
                visited@.len() == n,
                current == queue@[head as int],
                head < q0.len(),
                queue@.len() >= q0.len(),
                queue@.subrange(0, q0.len() as int) == q0,
                queue@.len() <= n,
                other <= n,
                queue@.no_duplicates(),
                forall|m: int| 0 <= m < queue@.len() ==> #[trigger] queue@[m] < n && !v0[queue@[m] as int],
                parents.len() == queue@.len(),
                forall|m: int| 0 < m < queue@.len() ==> joinable@[#[trigger] queue@[m] as int],
                forall|m: int| 0 < m < queue@.len() ==> 0 <= #[trigger] parents[m] < m,
                forall|m: int| 0 < m < queue@.len() ==> joins@[queue@[#[trigger] parents[m]] as int]@[queue@[m] as int],
                forall|m: int| 0 < m < queue@.len() ==> #[trigger] parents[m] <= head && (parents[m] == head ==> queue@[m] < other),
                forall|m: int, q: int|
                    #![trigger joins@[queue@[q] as int]@[queue@[m] as int]]
                    0 < m < queue@.len() && 0 <= q < parents[m] ==> !joins@[queue@[q] as int]@[queue@[m] as int],
                forall|m1: int, m2: int|
                    0 < m1 < m2 < queue@.len() ==> #[trigger] parents[m1] < #[trigger] parents[m2] || (parents[m1] == parents[m2]
                        && queue@[m1] < queue@[m2]),
                forall|m: int, j: int|
                    0 <= m < head && 0 <= j < n && joinable@[j] && #[trigger] joins@[queue@[m] as int]@[j] ==> visited@[j],
                forall|j: int| 0 <= j < other && joinable@[j] && #[trigger] joins@[current as int]@[j] ==> visited@[j],
                forall|i: int| 0 <= i < n ==> (#[trigger] visited@[i]) == (v0[i] || queue@.contains(i as usize)),
            decreases n - other,
        {
            if joinable[other] && !visited[other] && joins[current][other] {
                let ghost qa = queue@;
                visited.set(other, true);
                queue.push(other);
                proof {
                    parents = parents.push(head as int);
                    let qb = queue@;
                    assert(!qa.contains(other));
                    assert forall|m: int| 0 <= m < qb.len() implies #[trigger] qb[m] < n && !v0[qb[m] as int] by {
                        if m < qa.len() {
                            assert(qb[m] == qa[m]);
                        }
                    }
                    assert forall|m: int| 0 < m < qb.len() implies joinable@[#[trigger] qb[m] as int] by {
                        if m < qa.len() {
                            assert(qb[m] == qa[m]);
                        }
                    }
                    assert forall|m: int| 0 < m < qb.len() implies 0 <= #[trigger] parents[m] < m by {
                        if m < qa.len() {
                            assert(parents[m] == parents.drop_last()[m]);
                        }
                    }
                    assert forall|m: int, q: int|
                        #![trigger joins@[qb[q] as int]@[qb[m] as int]]
                        0 < m < qb.len() && 0 <= q < parents[m] implies !joins@[qb[q] as int]@[qb[m] as int] by {
                        if m < qa.len() {
                            assert(parents[m] == parents.drop_last()[m]);
                            assert(qb[m] == qa[m]);
                            assert(qb[q] == qa[q]);
                        } else {
                            assert(qb[q] == qa[q]);
                            assert(qb[m] == other);
                            if joins@[qa[q] as int]@[other as int] {
                                assert(visited@[other as int]);
                            }
                        }
                    }
                    assert forall|m: int| 0 < m < qb.len() implies #[trigger] parents[m] <= head && (parents[m] == head ==> qb[m] < other + 1) by {
                        if m < qa.len() {
                            assert(parents[m] == parents.drop_last()[m]);
                            assert(qb[m] == qa[m]);
                        }
                    }
                    assert forall|m1: int, m2: int|
                        0 < m1 < m2 < qb.len() implies #[trigger] parents[m1] < #[trigger] parents[m2] || (parents[m1] == parents[m2]
                            && qb[m1] < qb[m2]) by {
                        assert(parents[m1] == parents.drop_last()[m1]);
                        assert(qb[m1] == qa[m1]);
                        if m2 < qa.len() {
                            assert(parents[m2] == parents.drop_last()[m2]);
                            assert(qb[m2] == qa[m2]);
                        }
                    }
                    assert forall|m: int| 0 < m < qb.len() implies joins@[qb[#[trigger] parents[m]] as int]@[qb[m] as int] by {
                        if m < qa.len() {
                            assert(parents[m] == parents.drop_last()[m]);
                            assert(qb[m] == qa[m]);
                            assert(qb[parents[m]] == qa[parents[m]]);
                        } else {
                            assert(qb[head as int] == current);
                        }
                    }
                    assert(qb.no_duplicates()) by {
                        assert forall|a: int, b: int| 0 <= a < qb.len() && 0 <= b < qb.len() && a != b implies qb[a] != qb[b] by {
                            if a < qa.len() && b < qa.len() {
                                assert(qb[a] == qa[a] && qb[b] == qa[b]);
                            } else if a < qa.len() {
                                assert(qb[a] == qa[a]);
                                assert(qa.contains(qa[a]));
                            } else if b < qa.len() {
                                assert(qb[b] == qa[b]);
                                assert(qa.contains(qa[b]));
                            }
                        }
                    }
                    assert forall|i: int| 0 <= i < n implies (#[trigger] visited@[i]) == (v0[i] || qb.contains(i as usize)) by {
                        if qa.contains(i as usize) {
                            let m = choose|m: int| 0 <= m < qa.len() && qa[m] == i as usize;
                            assert(qb[m] == qa[m]);
                        }
                        if qb.contains(i as usize) {
                            let m = choose|m: int| 0 <= m < qb.len() && qb[m] == i as usize;
                            if m < qa.len() {
                                assert(qa[m] == qb[m]);
                            }
                        }
                        if i == other {
                            assert(qb[qa.len() as int] == other);
                        }
                    }
                    assert(queue@.subrange(0, q0.len() as int) =~= q0) by {
                        assert(qa.subrange(0, q0.len() as int) == q0);
                        assert forall|m: int| 0 <= m < q0.len() implies queue@[m] == q0[m] by {
                            assert(qa.subrange(0, q0.len() as int)[m] == qa[m]);
                        }
                    }
                    assert(queue@[head as int] == current) by {
                        assert(qa.subrange(0, q0.len() as int)[head as int] == qa[head as int]);
                    }
                    lemma_distinct_below(queue@, n as int);
                }
            }
            other = other + 1;
        }
        group.push(current);
        proof {
            assert((n - queue@.len()) * (n + 1) + (queue@.len() - head - 1) < (n - q0.len()) * (n + 1) + (q0.len() - head))
                by (nonlinear_arith)
                requires
                    q0.len() <= queue@.len() <= n,
                    head < q0.len(),
            {
                assert((n - queue@.len()) * (n + 1) <= (n - q0.len()) * (n + 1) - (queue@.len() - q0.len()) * (n + 1));
            }
            assert(group@ =~= queue@.subrange(0, head + 1)) by {
                assert forall|m: int| 0 <= m <= head implies queue@[m] == q0[m] by {
                    assert(queue@.subrange(0, q0.len() as int)[m] == queue@[m]);
                }
            }
        }
        head = head + 1;
    }
    proof {
        assert(group@ =~= queue@);
        assert forall|m: int|
            0 < m < group@.len() implies joinable@[#[trigger] group@[m] as int] && exists|m2: int|
                0 <= m2 < m && #[trigger] joins@[group@[m2] as int]@[group@[m] as int] by {
            let m2 = parents[m];
            assert(0 <= m2 < m);
            assert(joins@[group@[m2] as int]@[group@[m] as int]);
        }
        assert forall|m: int| 0 < m < group@.len() implies #[trigger] first_link(joins@, group@, m) == parents[m] by {
            lemma_first_link_at(joins@, group@, m, 0, parents[m]);
        }
        assert forall|m1: int, m2: int|
            0 < m1 < m2 < group@.len() implies #[trigger] first_link(joins@, group@, m1) < #[trigger] first_link(joins@, group@, m2)
                || (first_link(joins@, group@, m1) == first_link(joins@, group@, m2) && group@[m1] < group@[m2]) by {
            assert(first_link(joins@, group@, m1) == parents[m1]);
            assert(first_link(joins@, group@, m2) == parents[m2]);
        }
    }
    group
}

/// The search for the first link from position `p` stops at `r` when `r`
/// links to the member at `m` (or is `m`) and no position from `p` before
/// `r` does.
proof fn lemma_first_link_at(joins: Seq<Vec<bool>>, group: Seq<usize>, m: int, p: int, r: int)
    requires
        0 <= p <= r <= m,
        r < m ==> joins[group[r] as int]@[group[m] as int],
        forall|q: int| p <= q < r ==> !joins[group[q] as int]@[group[m] as int],
    ensures
        first_link_from(joins, group, m, p) == r,
    decreases r - p,
{
    if p < r {
        lemma_first_link_at(joins, group, m, p + 1, r);
    }
}

/// Adding a group: a stroke is grouped after the addition when it was
/// before, or is in the new group.
proof fn lemma_grouped_push(g0: Seq<Seq<usize>>, group: Seq<usize>, i: int)
    requires
        0 <= i <= usize::MAX,
    ensures
        grouped(g0.push(group), i) == (grouped(g0, i) || group.contains(i as usize)),
{
    let g1 = g0.push(group);
    if grouped(g0, i) {
        let (k, m) = choose|k: int, m: int| 0 <= k < g0.len() && 0 <= m < g0[k].len() && #[trigger] g0[k][m] == i;
        assert(g1[k][m] == i);
    }
    assert(g1[g0.len() as int] == group);
    if group.contains(i as usize) {
        let m = choose|m: int| 0 <= m < group.len() && group[m] == i as usize;
        assert(g1[g0.len() as int][m] == i);
    }
    if grouped(g1, i) {
        let (k, m) = choose|k: int, m: int| 0 <= k < g1.len() && 0 <= m < g1[k].len() && #[trigger] g1[k][m] == i;
        if k < g0.len() {
            assert(g0[k][m] == i);
        } else {
            assert(group[m] == i);
        }
    }
}

/// A group grown from an ungrouped seed extends a grouping in progress.
proof fn lemma_push_group(seed: Seq<bool>, joinable: Seq<bool>, joins: Seq<Vec<bool>>, n: int, g0: Seq<Seq<usize>>, group: Seq<usize>, s: int)
    requires
        is_grouping_prefix(seed, joinable, joins, n, g0),
        n <= usize::MAX,
        forall|k: int| 0 <= k < g0.len() ==> (#[trigger] g0[k])[0] < s,
        0 <= s < n,
        seed.len() == n,
        seed[s],
        forall|i: int| 0 <= i < s && seed[i] ==> #[trigger] grouped(g0, i),
        is_breadth_first(joins, group),
        group.len() > 0,
        group[0] == s,
        group.no_duplicates(),
        forall|m: int| 0 <= m < group.len() ==> #[trigger] group[m] < n && !grouped(g0, group[m] as int),
        forall|m: int|
            0 < m < group.len() ==> joinable[#[trigger] group[m] as int] && exists|m2: int|
                0 <= m2 < m && #[trigger] joins[group[m2] as int]@[group[m] as int],
        forall|m: int, j: int|
            0 <= m < group.len() && 0 <= j < n && joinable[j] && #[trigger] joins[group[m] as int]@[j] ==> grouped(g0, j)
                || group.contains(j as usize),
    ensures
        is_grouping_prefix(seed, joinable, joins, n, g0.push(group)),
{
    let g1 = g0.push(group);
    let last = g0.len() as int;
    assert forall|k: int| 0 <= k < g1.len() implies (#[trigger] g1[k]).len() > 0 && seed[g1[k][0] as int] by {
        if k < last {
            assert(g1[k] == g0[k]);
        }
    }
    assert forall|k1: int, k2: int| 0 <= k1 < k2 < g1.len() implies (#[trigger] g1[k1])[0] < (#[trigger] g1[k2])[0] by {
        assert(g1[k1] == g0[k1]);
        if k2 < last {
            assert(g1[k2] == g0[k2]);
        }
    }
    assert forall|k: int, i: int|
        0 <= k < g1.len() && 0 <= i < g1[k][0] && seed[i] implies #[trigger] grouped_before(g1, k, i) by {
        if k < last {
            assert(g1[k] == g0[k]);
            assert(grouped_before(g0, k, i));
            let (k2, m2) = choose|k2: int, m2: int| 0 <= k2 < k && 0 <= m2 < g0[k2].len() && #[trigger] g0[k2][m2] == i;
            assert(g1[k2] == g0[k2]);
            assert(g1[k2][m2] == i);
        } else {
            assert(g1[k] == group);
            assert(grouped(g0, i));
            let (k2, m2) = choose|k2: int, m2: int| 0 <= k2 < g0.len() && 0 <= m2 < g0[k2].len() && #[trigger] g0[k2][m2] == i;
            assert(g1[k2] == g0[k2]);
            assert(g1[k2][m2] == i);
        }
    }
    assert forall|k: int| 0 <= k < g1.len() implies is_breadth_first(joins, #[trigger] g1[k]) by {
        if k < last {
            assert(g1[k] == g0[k]);
        }
    }
    assert forall|k: int, m: int| 0 <= k < g1.len() && 0 <= m < g1[k].len() implies #[trigger] g1[k][m] < n by {
        if k < last {
            assert(g1[k] == g0[k]);
        }
    }
    assert forall|k: int, m: int|
        0 <= k < g1.len() && 0 < m < g1[k].len() implies joinable[#[trigger] g1[k][m] as int] && exists|m2: int|
            0 <= m2 < m && #[trigger] joins[g1[k][m2] as int]@[g1[k][m] as int] by {
        if k < last {
            assert(g1[k] == g0[k]);
            let m2 = choose|m2: int| 0 <= m2 < m && #[trigger] joins[g0[k][m2] as int]@[g0[k][m] as int];
            assert(g1[k][m2] == g0[k][m2]);
        } else {
            assert(g1[k] == group);
            let m2 = choose|m2: int| 0 <= m2 < m && #[trigger] joins[group[m2] as int]@[group[m] as int];
            assert(g1[k][m2] == group[m2]);
        }
    }
    assert forall|k: int, m: int, j: int|
        0 <= k < g1.len() && 0 <= m < g1[k].len() && 0 <= j < n && joinable[j] && #[trigger] joins[g1[k][m] as int]@[j]
            implies grouped_before(g1, k + 1, j) by {
        if k < last {
            assert(g1[k] == g0[k]);
            assert(joins[g0[k][m] as int]@[j]);
            let (k2, m2) = choose|k2: int, m2: int| 0 <= k2 < k + 1 && 0 <= m2 < g0[k2].len() && #[trigger] g0[k2][m2] == j;
            assert(g1[k2] == g0[k2]);
            assert(g1[k2][m2] == j);
        } else {
            assert(g1[k] == group);
            assert(joins[group[m] as int]@[j]);
            if grouped(g0, j) {
                let (k2, m2) = choose|k2: int, m2: int| 0 <= k2 < g0.len() && 0 <= m2 < g0[k2].len() && #[trigger] g0[k2][m2] == j;
                assert(g1[k2] == g0[k2]);
                assert(g1[k2][m2] == j);
            } else {
                let m2 = choose|m2: int| 0 <= m2 < group.len() && group[m2] == j as usize;
                assert(g1[last] == group);
                assert(g1[last][m2] == j);
            }
        }
    }
    assert forall|k1: int, m1: int, k2: int, m2: int|
        0 <= k1 < g1.len() && 0 <= m1 < g1[k1].len() && 0 <= k2 < g1.len() && 0 <= m2 < g1[k2].len() && (k1 != k2 || m1 != m2)
            implies #[trigger] g1[k1][m1] != #[trigger] g1[k2][m2] by {
        if k1 < last && k2 < last {
            assert(g1[k1] == g0[k1] && g1[k2] == g0[k2]);
        } else if k1 < last {
            assert(g1[k1] == g0[k1]);
            assert(g1[k2] == group);
            assert(!grouped(g0, group[m2] as int));
            if g1[k1][m1] == g1[k2][m2] {
                assert(g0[k1][m1] == group[m2]);
            }
        } else if k2 < last {
            assert(g1[k2] == g0[k2]);
            assert(g1[k1] == group);
            assert(!grouped(g0, group[m1] as int));
            if g1[k1][m1] == g1[k2][m2] {
                assert(g0[k2][m2] == group[m1]);
            }
        } else {
            assert(g1[k1] == group && g1[k2] == group);
        }
    }
}

/// Distinct facings have distinct wire names.
pub proof fn lemma_radial_facing_names_distinct(a: RadialFacing, b: RadialFacing)
    ensures
        a.wire_name() == b.wire_name() ==> a == b,
{
    reveal_strlit("outward");
    reveal_strlit("inward");
    reveal_strlit("counterclockwise");
    reveal_strlit("clockwise");
    reveal_strlit("unclear");
    if a != b && a.wire_name() == b.wire_name() {
        assert(a.wire_name().len() == b.wire_name().len());
        assert(a.wire_name()[0] == b.wire_name()[0]);
    }
}

} // verus!
