//! Which sets of votes let a requester hold a lock.
//!
//! Under [`QuorumPolicy::Majority`] a requester asks every member and needs a
//! strict majority. Under [`QuorumPolicy::Grid`] the members stand row-major in
//! a square grid; a requester asks the members of its own row and column and
//! needs all of them. Either way any two quorums share a member.
use vstd::arithmetic::div_mod::{
    lemma_fundamental_div_mod, lemma_fundamental_div_mod_converse_div,
    lemma_fundamental_div_mod_converse_mod,
};
use vstd::prelude::*;
use vstd::set_lib::{lemma_len_subset, lemma_set_disjoint_lens};

use crate::types::NodeId;

verus! {

/// How a node's quorum is formed.
#[derive(Clone, Copy, Debug, PartialEq, Eq, Structural)]
pub enum QuorumPolicy {
    /// Any strict majority of the members.
    Majority,
    /// The node's row and column in a square grid of the members.
    Grid,
}

/// `side` is the side of the smallest square grid with at least `n` cells.
pub open spec fn is_grid_side(n: nat, side: nat) -> bool {
    &&& n <= side * side
    &&& forall|s: nat| s < side ==> #[trigger] (s * s) < n
}

/// The side of the smallest square grid with at least `n` cells.
pub open spec fn grid_side(n: nat) -> nat {
    choose|side: nat| is_grid_side(n, side)
}

/// Whether two row-major cells lie in one row or in one column.
pub open spec fn same_line(side: nat, a: int, b: int) -> bool {
    a / side as int == b / side as int || a % side as int == b % side as int
}

/// The cells before `n` that share a line with cell `pos`, in order.
pub open spec fn line_cells(side: nat, pos: int, n: nat) -> Seq<int>
    decreases n,
{
    if n == 0 {
        Seq::empty()
    } else {
        let cells = line_cells(side, pos, (n - 1) as nat);
        if same_line(side, pos, n - 1) {
            cells.push(n - 1)
        } else {
            cells
        }
    }
}

/// The members in the row and in the column of `id`, in member order.
pub open spec fn grid_members(id: NodeId, members: Seq<NodeId>) -> Seq<NodeId> {
    line_cells(grid_side(members.len()), members.index_of(id), members.len()).map_values(
        |k: int| members[k],
    )
}

/// The members that a node asks for their vote.
pub open spec fn quorum_targets(policy: QuorumPolicy, id: NodeId, members: Seq<NodeId>) -> Seq<
    NodeId,
> {
    match policy {
        QuorumPolicy::Majority => members,
        QuorumPolicy::Grid => grid_members(id, members),
    }
}

/// How many of its targets' votes a node needs.
pub open spec fn quorum_threshold(policy: QuorumPolicy, id: NodeId, members: Seq<NodeId>) -> nat {
    match policy {
        QuorumPolicy::Majority => members.len() / 2 + 1,
        QuorumPolicy::Grid => grid_members(id, members).len(),
    }
}

/// `members` is a membership list for `id`: it names `id`, and nobody twice.
pub open spec fn valid_members(id: NodeId, members: Seq<NodeId>) -> bool {
    members.no_duplicates() && members.contains(id)
}

/// `votes` lets `id` hold a lock: enough votes, all of them from its targets,
/// none counted twice.
pub open spec fn is_quorum(
    policy: QuorumPolicy,
    id: NodeId,
    members: Seq<NodeId>,
    votes: Seq<NodeId>,
) -> bool {
    &&& votes.no_duplicates()
    &&& forall|x: NodeId| #[trigger]
        votes.contains(x) ==> quorum_targets(policy, id, members).contains(x)
    &&& votes.len() >= quorum_threshold(policy, id, members)
}

/// The side of the grid exists, and there is only one.
pub proof fn lemma_grid_side(n: nat, side: nat)
    requires
        is_grid_side(n, side),
    ensures
        grid_side(n) == side,
{
    let other = grid_side(n);
    assert(is_grid_side(n, other));
    if other < side {
        assert(other * other < n);
    }
    if side < other {
        assert(side * side < n);
    }
}

/// A side up to which every smaller square falls short of `n`.
proof fn lemma_grid_side_exists(n: nat, from: nat) -> (side: nat)
    requires
        forall|s: nat| s < from ==> #[trigger] (s * s) < n,
        from <= n + 1,
    ensures
        is_grid_side(n, side),
    decreases n + 1 - from,
{
    if n <= from * from {
        from
    } else {
        assert(from < n) by (nonlinear_arith)
            requires
                n > from * from,
                n >= 0,
                from >= 0,
        ;
        lemma_grid_side_exists(n, from + 1)
    }
}

/// The grid side of a nonempty cluster is positive and its square holds it.
pub proof fn lemma_grid_side_fits(n: nat)
    requires
        n > 0,
    ensures
        is_grid_side(n, grid_side(n)),
        grid_side(n) > 0,
        n <= grid_side(n) * grid_side(n),
{
    let side = lemma_grid_side_exists(n, 0);
    lemma_grid_side(n, side);
}

/// What [`line_cells`] lists: exactly the cells before `n` on a line with
/// `pos`, each once.
pub proof fn lemma_line_cells(side: nat, pos: int, n: nat)
    ensures
        line_cells(side, pos, n).no_duplicates(),
        forall|k: int| #[trigger]
            line_cells(side, pos, n).contains(k) <==> (0 <= k < n && same_line(side, pos, k)),
    decreases n,
{
    let cells = line_cells(side, pos, n);
    if n > 0 {
        let rest = line_cells(side, pos, (n - 1) as nat);
        lemma_line_cells(side, pos, (n - 1) as nat);
        if same_line(side, pos, n - 1) {
            assert forall|k: int| #[trigger] cells.contains(k) <==> (0 <= k < n && same_line(
                side,
                pos,
                k,
            )) by {
                if rest.contains(k) {
                    assert(cells[rest.index_of(k)] == k);
                }
                if k == n - 1 {
                    assert(cells[cells.len() - 1] == k);
                }
                if cells.contains(k) {
                    let i = cells.index_of(k);
                    if i < rest.len() {
                        assert(rest[i] == k);
                        assert(rest.contains(k));
                    }
                }
            }
            assert(!rest.contains(n - 1));
            assert forall|i: int, j: int|
                0 <= i < cells.len() && 0 <= j < cells.len() && i != j implies cells[i]
                != cells[j] by {
                if i < rest.len() {
                    assert(rest.contains(rest[i]));
                }
                if j < rest.len() {
                    assert(rest.contains(rest[j]));
                }
            }
        }
    }
}

/// A member is in the grid quorum of `id` exactly if its cell shares a line
/// with the cell of `id`; no member is listed twice.
pub proof fn lemma_grid_members(id: NodeId, members: Seq<NodeId>)
    requires
        valid_members(id, members),
    ensures
        grid_members(id, members).no_duplicates(),
        grid_members(id, members).contains(id),
        forall|k: int|
            0 <= k < members.len() ==> (grid_members(id, members).contains(#[trigger] members[k])
                <==> same_line(grid_side(members.len()), members.index_of(id), k)),
        forall|x: NodeId| #[trigger]
            grid_members(id, members).contains(x) ==> members.contains(x),
{
    let side = grid_side(members.len());
    let pos = members.index_of(id);
    let cells = line_cells(side, pos, members.len());
    let q = grid_members(id, members);
    lemma_line_cells(side, pos, members.len());
    assert forall|i: int, j: int| 0 <= i < q.len() && 0 <= j < q.len() && i != j implies q[i]
        != q[j] by {
        assert(cells.contains(cells[i]) && cells.contains(cells[j]));
    }
    assert forall|k: int| 0 <= k < members.len() implies (q.contains(#[trigger] members[k])
        <==> same_line(side, pos, k)) by {
        if same_line(side, pos, k) {
            assert(cells.contains(k));
            let i = cells.index_of(k);
            assert(q[i] == members[k]);
        }
        if q.contains(members[k]) {
            let i = q.index_of(members[k]);
            assert(cells.contains(cells[i]));
            assert(members[cells[i]] == members[k]);
        }
    }
    assert(members[pos] == id);
    assert forall|x: NodeId| #[trigger] q.contains(x) implies members.contains(x) by {
        let i = q.index_of(x);
        assert(cells.contains(cells[i]));
        assert(members[cells[i]] == x);
    }
}

/// **Grid quorums intersect.** For any two members, full grid or not, some
/// member is in the quorum of both.
pub proof fn law_grid_quorums_intersect(a: NodeId, b: NodeId, members: Seq<NodeId>) -> (x: NodeId)
    requires
        valid_members(a, members),
        valid_members(b, members),
    ensures
        grid_members(a, members).contains(x),
        grid_members(b, members).contains(x),
{
    let n = members.len();
    let side = grid_side(n) as int;
    lemma_grid_side_fits(n);
    lemma_grid_members(a, members);
    lemma_grid_members(b, members);
    let i = members.index_of(a);
    let j = members.index_of(b);
    lemma_fundamental_div_mod(i, side);
    lemma_fundamental_div_mod(j, side);
    // the cell in the row of the upper one and in the column of the lower one
    let (row, col) = if i / side <= j / side {
        (i / side, j % side)
    } else {
        (j / side, i % side)
    };
    let k = row * side + col;
    assert(0 <= row && 0 <= col < side) by (nonlinear_arith)
        requires
            side > 0,
            i >= 0,
            j >= 0,
            row == i / side || row == j / side,
            col == i % side || col == j % side,
    ;
    lemma_fundamental_div_mod_converse_div(k, side, row, col);
    lemma_fundamental_div_mod_converse_mod(k, side, row, col);
    assert(0 <= k < n) by (nonlinear_arith)
        requires
            k == row * side + col,
            0 <= row,
            0 <= col < side,
            i == side * (i / side) + i % side,
            j == side * (j / side) + j % side,
            0 <= i < n,
            0 <= j < n,
            (i / side <= j / side && row == i / side && col == j % side) || (j / side < i / side
                && row == j / side && col == i % side),
    ;
    members[k]
}

/// **Majorities intersect.** Two sets of votes that each hold more than half
/// of the members share a member.
proof fn lemma_majorities_intersect(members: Seq<NodeId>, a: Seq<NodeId>, b: Seq<NodeId>) -> (x:
    NodeId)
    requires
        members.no_duplicates(),
        a.no_duplicates(),
        b.no_duplicates(),
        forall|y: NodeId| #[trigger] a.contains(y) ==> members.contains(y),
        forall|y: NodeId| #[trigger] b.contains(y) ==> members.contains(y),
        a.len() >= members.len() / 2 + 1,
        b.len() >= members.len() / 2 + 1,
    ensures
        a.contains(x),
        b.contains(x),
{
    a.unique_seq_to_set();
    b.unique_seq_to_set();
    members.unique_seq_to_set();
    vstd::seq_lib::seq_to_set_is_finite(a);
    vstd::seq_lib::seq_to_set_is_finite(b);
    vstd::seq_lib::seq_to_set_is_finite(members);
    let sa = a.to_set();
    let sb = b.to_set();
    if sa.disjoint(sb) {
        lemma_set_disjoint_lens(sa, sb);
        assert((sa + sb).subset_of(members.to_set()));
        lemma_len_subset(sa + sb, members.to_set());
        assert(false);
    }
    choose|x: NodeId| sa.contains(x) && sb.contains(x)
}

/// A duplicate-free list drawn from `all` and at least as long holds all of it.
pub proof fn lemma_full_list(all: Seq<NodeId>, part: Seq<NodeId>, x: NodeId)
    requires
        all.no_duplicates(),
        part.no_duplicates(),
        forall|y: NodeId| #[trigger] part.contains(y) ==> all.contains(y),
        part.len() >= all.len(),
        all.contains(x),
    ensures
        part.contains(x),
{
    all.unique_seq_to_set();
    part.unique_seq_to_set();
    vstd::seq_lib::seq_to_set_is_finite(all);
    vstd::seq_lib::seq_to_set_is_finite(part);
    if !part.contains(x) {
        let sub = all.to_set().remove(x);
        assert(part.to_set().subset_of(sub));
        lemma_len_subset(part.to_set(), sub);
        assert(false);
    }
}

/// **Quorums intersect**, under either policy: any two sets of votes that let
/// two nodes hold a lock share a voter.
pub proof fn law_quorums_intersect(
    policy: QuorumPolicy,
    members: Seq<NodeId>,
    p: NodeId,
    votes_p: Seq<NodeId>,
    q: NodeId,
    votes_q: Seq<NodeId>,
) -> (x: NodeId)
    requires
        valid_members(p, members),
        valid_members(q, members),
        is_quorum(policy, p, members, votes_p),
        is_quorum(policy, q, members, votes_q),
    ensures
        votes_p.contains(x),
        votes_q.contains(x),
{
    match policy {
        QuorumPolicy::Majority => lemma_majorities_intersect(members, votes_p, votes_q),
        QuorumPolicy::Grid => {
            let x = law_grid_quorums_intersect(p, q, members);
            lemma_grid_members(p, members);
            lemma_grid_members(q, members);
            lemma_full_list(grid_members(p, members), votes_p, x);
            lemma_full_list(grid_members(q, members), votes_q, x);
            x
        },
    }
}

/// How many of the first `r * side + c` cells share a line with `pos`.
proof fn lemma_line_cells_count(side: nat, pos: int, r: int, c: int)
    requires
        side > 0,
        0 <= pos < side * side,
        0 <= r,
        0 <= c <= side,
    ensures
        r * side + c >= 0,
        line_cells(side, pos, (r * side + c) as nat).len() == r + (if r > pos / side as int {
            side - 1
        } else {
            0
        }) + (if r == pos / side as int {
            c
        } else if pos % (side as int) < c {
            1int
        } else {
            0
        }),
    decreases r, c,
{
    let s = side as int;
    assert(r * s + c >= 0) by (nonlinear_arith)
        requires
            r >= 0,
            s > 0,
            c >= 0,
    ;
    lemma_fundamental_div_mod(pos, s);
    assert(0 <= pos % s < s && 0 <= pos / s) by (nonlinear_arith)
        requires
            s > 0,
            pos >= 0,
    ;
    if c > 0 {
        lemma_line_cells_count(side, pos, r, c - 1);
        let k = r * s + (c - 1);
        lemma_fundamental_div_mod_converse_div(k, s, r, c - 1);
        lemma_fundamental_div_mod_converse_mod(k, s, r, c - 1);
        assert(line_cells(side, pos, (r * s + c) as nat).len() == line_cells(
            side,
            pos,
            (r * s + (c - 1)) as nat,
        ).len() + (if same_line(side, pos, k) {
            1int
        } else {
            0
        }));
    } else if r > 0 {
        lemma_line_cells_count(side, pos, r - 1, s);
        assert(r * s + 0 == (r - 1) * s + s) by (nonlinear_arith);
        assert(line_cells(side, pos, (r * s + 0) as nat) == line_cells(
            side,
            pos,
            ((r - 1) * s + s) as nat,
        ));
    } else {
        assert(r * s + c == 0) by (nonlinear_arith)
            requires
                r == 0,
                c == 0,
        ;
    }
}

/// **Grid quorums are small.** In a cluster of `side * side` members a grid
/// quorum has exactly `2 * side - 1` members, and from two rows on it is no
/// larger than a majority.
pub proof fn law_square_grid_quorum_size(id: NodeId, members: Seq<NodeId>, side: nat)
    requires
        valid_members(id, members),
        members.len() == side * side,
    ensures
        grid_members(id, members).len() == 2 * side - 1,
        side >= 2 ==> grid_members(id, members).len() <= members.len() / 2 + 1,
{
    assert(side > 0) by {
        if side == 0 {
            assert(side * side == 0);
        }
    }
    assert forall|s: nat| s < side implies #[trigger] (s * s) < members.len() by {
        assert(s * s < side * side) by (nonlinear_arith)
            requires
                0 <= s < side,
        ;
    }
    lemma_grid_side(members.len(), side);
    let pos = members.index_of(id);
    lemma_line_cells_count(side, pos, side as int, 0);
    assert(side * side + 0 == members.len());
    assert(pos / (side as int) < side) by (nonlinear_arith)
        requires
            0 <= pos < side * side,
            side > 0,
    ;
    if side >= 2 {
        assert(2 * side - 1 <= (side * side) / 2 + 1) by (nonlinear_arith)
            requires
                side >= 2,
        ;
    }
}

/// The side of the smallest square grid with at least `n` cells.
fn side_of(n: usize) -> (side: usize)
    requires
        n > 0,
    ensures
        side == grid_side(n as nat),
        side > 0,
{
    let mut side: usize = 0;
    while (side as u128) * (side as u128) < n as u128
        invariant
            n > 0,
            side <= n,
            side as u128 <= u64::MAX as u128,
            n as u128 <= u64::MAX as u128,
            forall|s: nat| s < side ==> #[trigger] (s * s) < n,
            (side as u128) * (side as u128) <= u128::MAX,
        decreases n - side,
    {
        let ghost before = side as nat;
        assert(before * before < n as nat);
        assert(side < n) by (nonlinear_arith)
            requires
                side * side < n,
                side >= 0,
        ;
        side += 1;
        assert((side as u128) * (side as u128) <= u128::MAX) by (nonlinear_arith)
            requires
                side as u128 <= u64::MAX as u128,
        ;
    }
    proof {
        lemma_grid_side(n as nat, side as nat);
        lemma_grid_side_fits(n as nat);
    }
    side
}

/// Where `id` stands in `members`.
fn position(members: &Vec<NodeId>, id: NodeId) -> (pos: usize)
    requires
        valid_members(id, members@),
    ensures
        pos < members@.len(),
        pos == members@.index_of(id),
{
    let mut i: usize = 0;
    while members[i] != id
        invariant
            valid_members(id, members@),
            i < members.len(),
            i <= members@.index_of(id),
        decreases members@.len() - i,
    {
        assert(members@[members@.index_of(id)] == id);
        i += 1;
    }
    i
}

/// The grid quorum of `id`: the members in its row and in its column, in
/// member order. Every node that knows the same member list computes the same
/// grid.
pub fn grid_quorum(id: NodeId, members: &Vec<NodeId>) -> (q: Vec<NodeId>)
    requires
        valid_members(id, members@),
    ensures
        q@ == grid_members(id, members@),
{
    let side = side_of(members.len());
    let pos = position(members, id);
    let mut q: Vec<NodeId> = Vec::new();
    let mut k: usize = 0;
    while k < members.len()
        invariant
            side > 0,
            side == grid_side(members@.len()),
            pos == members@.index_of(id),
            k <= members@.len(),
            q@ == line_cells(side as nat, pos as int, k as nat).map_values(
                |i: int| members@[i],
            ),
        decreases members@.len() - k,
    {
        if k / side == pos / side || k % side == pos % side {
            q.push(members[k]);
        }
        k += 1;
        assert(q@ =~= line_cells(side as nat, pos as int, k as nat).map_values(
            |i: int| members@[i],
        ));
    }
    q
}

} // verus!
