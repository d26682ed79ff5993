use vstd::prelude::*;
use crate::fsmeta::ChunkMeta;

verus! {

/// Scores are fixed-point numbers: `SCORE_ONE` stands for 1.0.
pub const SCORE_ONE: u32 = 1_000_000;

#[derive(Debug, Clone)]
pub struct DriveStatus {
    pub drive_id: String,
    pub free_bytes: u64,
    pub allocated_bytes: u64,
}

/// A node as placement sees it; `mesh_score` is in millionths.
#[derive(Debug, Clone)]
pub struct NodeStatus {
    pub node_id: String,
    pub mesh_score: u32,
    pub drives: Vec<DriveStatus>,
}

/// A snapshot of the cluster, in a fixed node order.
#[derive(Debug, Clone)]
pub struct ClusterState {
    pub nodes: Vec<NodeStatus>,
}

#[derive(Debug, Clone, Copy, PartialEq, Eq, Structural)]
pub enum PlacementError {
    /// The cluster has no nodes.
    NoNodes,
    /// The chosen node has no drives.
    NoDrives,
}

/// Total free bytes over `drives`.
pub open spec fn free_sum(drives: Seq<DriveStatus>) -> nat
    decreases drives.len(),
{
    if drives.len() == 0 {
        0
    } else {
        (free_sum(drives.drop_last()) + drives.last().free_bytes) as nat
    }
}

pub open spec fn node_free(n: NodeStatus) -> nat {
    free_sum(n.drives@)
}

/// The largest free total over `nodes`, and at least 1.
pub open spec fn max_free(nodes: Seq<NodeStatus>) -> nat
    decreases nodes.len(),
{
    if nodes.len() == 0 {
        1
    } else {
        let m = max_free(nodes.drop_last());
        let f = node_free(nodes.last());
        if f > m {
            f
        } else {
            m
        }
    }
}

/// A node's rank `0.6 * score + 0.4 * free / max_free`, multiplied by the
/// positive constant `10 * SCORE_ONE * m`, which keeps the order of ranks.
pub open spec fn scaled_rank(n: NodeStatus, m: nat) -> nat {
    (6 * n.mesh_score * m + 4 * node_free(n) * 1_000_000) as nat
}

/// The first index of a node of highest rank.
pub open spec fn best_node(nodes: Seq<NodeStatus>, m: nat) -> int
    decreases nodes.len(),
{
    if nodes.len() <= 1 {
        0
    } else {
        let b = best_node(nodes.drop_last(), m);
        if scaled_rank(nodes.last(), m) > scaled_rank(nodes[b], m) {
            nodes.len() - 1
        } else {
            b
        }
    }
}

/// The first index of a drive with the most free bytes.
pub open spec fn best_drive(drives: Seq<DriveStatus>) -> int
    decreases drives.len(),
{
    if drives.len() <= 1 {
        0
    } else {
        let b = best_drive(drives.drop_last());
        if drives.last().free_bytes > drives[b].free_bytes {
            drives.len() - 1
        } else {
            b
        }
    }
}

/// Every node's free total fits in a `u64`.
pub open spec fn free_fits(nodes: Seq<NodeStatus>) -> bool {
    forall|i: int| 0 <= i < nodes.len() ==> node_free(#[trigger] nodes[i]) <= u64::MAX
}

/// The outcome that the placement policy prescribes, as the chosen
/// (node, drive) positions.
pub open spec fn placement(nodes: Seq<NodeStatus>) -> Result<(int, int), PlacementError> {
    if nodes.len() == 0 {
        Err(PlacementError::NoNodes)
    } else {
        let k = best_node(nodes, max_free(nodes));
        if nodes[k].drives@.len() == 0 {
            Err(PlacementError::NoDrives)
        } else {
            Ok((k, best_drive(nodes[k].drives@)))
        }
    }
}

proof fn lemma_best_node_bounds(nodes: Seq<NodeStatus>, m: nat)
    ensures
        nodes.len() > 0 ==> 0 <= best_node(nodes, m) < nodes.len(),
    decreases nodes.len(),
{
    if nodes.len() > 1 {
        lemma_best_node_bounds(nodes.drop_last(), m);
    }
}

proof fn lemma_best_drive_bounds(drives: Seq<DriveStatus>)
    ensures
        drives.len() > 0 ==> 0 <= best_drive(drives) < drives.len(),
    decreases drives.len(),
{
    if drives.len() > 1 {
        lemma_best_drive_bounds(drives.drop_last());
    }
}

/// Free bytes over all drives of `n`.
fn node_free_bytes(n: &NodeStatus) -> (r: u64)
    requires
        node_free(*n) <= u64::MAX,
    ensures
        r == node_free(*n),
{
    let mut total: u64 = 0;
    let mut i: usize = 0;
    while i < n.drives.len()
        invariant
            i <= n.drives@.len(),
            node_free(*n) <= u64::MAX,
            total == free_sum(n.drives@.subrange(0, i as int)),
        decreases n.drives@.len() - i,
    {
        proof {
            lemma_free_sum_prefix(n.drives@, i as int + 1);
            assert(n.drives@.subrange(0, i + 1).drop_last() =~= n.drives@.subrange(0, i as int));
        }
        total = total + n.drives[i].free_bytes;
        i = i + 1;
    }
    assert(n.drives@.subrange(0, n.drives@.len() as int) =~= n.drives@);
    total
}

proof fn lemma_free_sum_prefix(d: Seq<DriveStatus>, k: int)
    requires
        0 <= k <= d.len(),
    ensures
        free_sum(d.subrange(0, k)) <= free_sum(d),
    decreases d.len(),
{
    if k < d.len() {
        lemma_free_sum_prefix(d.drop_last(), k);
        assert(d.drop_last().subrange(0, k) =~= d.subrange(0, k));
    } else {
        assert(d.subrange(0, k) =~= d);
    }
}

fn rank_of(n: &NodeStatus, m: u64) -> (r: u128)
    requires
        node_free(*n) <= u64::MAX,
    ensures
        r == scaled_rank(*n, m as nat),
{
    let f = node_free_bytes(n);
    let s = n.mesh_score as u128;
    assert(6 * s * m <= 6 * 0xffff_ffffu128 * 0xffff_ffff_ffff_ffffu128) by (nonlinear_arith)
        requires
            s <= 0xffff_ffff,
            m <= 0xffff_ffff_ffff_ffff,
    ;
    assert(4 * f * 1_000_000 <= 4 * 0xffff_ffff_ffff_ffffu128 * 1_000_000) by (nonlinear_arith)
        requires
            f <= 0xffff_ffff_ffff_ffff,
    ;
    6 * s * (m as u128) + 4 * (f as u128) * 1_000_000
}

/// Whether every node's free total fits in a `u64`, as placement needs.
pub fn free_bytes_fit(cluster: &ClusterState) -> (r: bool)
    ensures
        r == free_fits(cluster.nodes@),
{
    let mut i: usize = 0;
    while i < cluster.nodes.len()
        invariant
            i <= cluster.nodes@.len(),
            forall|k: int| 0 <= k < i ==> node_free(#[trigger] cluster.nodes@[k]) <= u64::MAX,
        decreases cluster.nodes@.len() - i,
    {
        let n = &cluster.nodes[i];
        let mut total: u64 = 0;
        let mut j: usize = 0;
        while j < n.drives.len()
            invariant
                i < cluster.nodes@.len(),
                *n == cluster.nodes@[i as int],
                forall|k: int| 0 <= k < i ==> node_free(#[trigger] cluster.nodes@[k]) <= u64::MAX,
                j <= n.drives@.len(),
                total == free_sum(n.drives@.subrange(0, j as int)),
            decreases n.drives@.len() - j,
        {
            assert(n.drives@.subrange(0, j + 1).drop_last() =~= n.drives@.subrange(0, j as int));
            assert(n.drives@.subrange(0, j + 1).last() == n.drives@[j as int]);
            match total.checked_add(n.drives[j].free_bytes) {
                Some(t) => {
                    total = t;
                },
                None => {
                    proof {
                        lemma_free_sum_prefix(n.drives@, j + 1);
                    }
                    assert(node_free(cluster.nodes@[i as int]) > u64::MAX);
                    return false;
                },
            }
            j = j + 1;
        }
        assert(n.drives@.subrange(0, n.drives@.len() as int) =~= n.drives@);
        i = i + 1;
    }
    true
}

/// Chooses where chunk `chunk_idx` of `file_path` goes: the node of highest
/// rank `0.6 * score + 0.4 * free / max_free` (the first such node in the
/// snapshot's order wins a tie), and on it the drive with the most free bytes
/// (again the first wins a tie).
pub fn allocate_chunk(file_path: &str, chunk_idx: u64, cluster: &ClusterState, content_hash: &str) -> (r:
    Result<ChunkMeta, PlacementError>)
    requires
        free_fits(cluster.nodes@),
    ensures
        match (r, placement(cluster.nodes@)) {
            (Ok(meta), Ok((k, d))) => {
                &&& meta.index == chunk_idx
                &&& meta.node_id@ == cluster.nodes@[k].node_id@
                &&& meta.drive_id@ == cluster.nodes@[k].drives@[d].drive_id@
                &&& meta.chunk_hash@ == content_hash@
            },
            (Err(e), Err(e2)) => e == e2,
            _ => false,
        },
{
    let nodes = &cluster.nodes;
    if nodes.len() == 0 {
        return Err(PlacementError::NoNodes);
    }
    // largest free total, at least 1
    let mut m: u64 = 1;
    let mut i: usize = 0;
    while i < nodes.len()
        invariant
            i <= nodes@.len(),
            free_fits(nodes@),
            m == max_free(nodes@.subrange(0, i as int)),
        decreases nodes@.len() - i,
    {
        assert(nodes@.subrange(0, i + 1).drop_last() =~= nodes@.subrange(0, i as int));
        assert(nodes@.subrange(0, i + 1).last() == nodes@[i as int]);
        assert(node_free(nodes@[i as int]) <= u64::MAX);
        let f = node_free_bytes(&nodes[i]);
        if f > m {
            m = f;
        }
        i = i + 1;
    }
    assert(nodes@.subrange(0, nodes@.len() as int) =~= nodes@);
    let ghost mm = m as nat;
    // first node of highest rank
    assert(node_free(nodes@[0]) <= u64::MAX);
    let mut best: usize = 0;
    let mut best_rank: u128 = rank_of(&nodes[0], m);
    let mut j: usize = 1;
    assert(nodes@.subrange(0, 1).len() == 1);
    while j < nodes.len()
        invariant
            1 <= j <= nodes@.len(),
            free_fits(nodes@),
            mm == m,
            best == best_node(nodes@.subrange(0, j as int), mm),
            best < j,
            best_rank == scaled_rank(nodes@[best as int], mm),
        decreases nodes@.len() - j,
    {
        let ghost pre = nodes@.subrange(0, j as int);
        assert(nodes@.subrange(0, j + 1).drop_last() =~= pre);
        assert(nodes@.subrange(0, j + 1).last() == nodes@[j as int]);
        proof {
            lemma_best_node_bounds(pre, mm);
        }
        assert(pre[best as int] == nodes@[best as int]);
        assert(node_free(nodes@[j as int]) <= u64::MAX);
        let rj = rank_of(&nodes[j], m);
        if rj > best_rank {
            best = j;
            best_rank = rj;
        }
        j = j + 1;
    }
    assert(nodes@.subrange(0, nodes@.len() as int) =~= nodes@);
    let node = &nodes[best];
    if node.drives.len() == 0 {
        return Err(PlacementError::NoDrives);
    }
    let mut bd: usize = 0;
    let mut d: usize = 1;
    assert(node.drives@.subrange(0, 1).len() == 1);
    while d < node.drives.len()
        invariant
            1 <= d <= node.drives@.len(),
            bd == best_drive(node.drives@.subrange(0, d as int)),
            bd < d,
        decreases node.drives@.len() - d,
    {
        let ghost pre = node.drives@.subrange(0, d as int);
        assert(node.drives@.subrange(0, d + 1).drop_last() =~= pre);
        assert(node.drives@.subrange(0, d + 1).last() == node.drives@[d as int]);
        assert(pre[bd as int] == node.drives@[bd as int]);
        if node.drives[d].free_bytes > node.drives[bd].free_bytes {
            bd = d;
        }
        d = d + 1;
    }
    assert(node.drives@.subrange(0, node.drives@.len() as int) =~= node.drives@);
    Ok(
        ChunkMeta {
            index: chunk_idx,
            node_id: node.node_id.clone(),
            drive_id: node.drives[bd].drive_id.clone(),
            chunk_hash: String::from_str(content_hash),
        },
    )
}

/// Placement depends on nothing but the snapshot: two snapshots with the
/// same nodes lead to the same (node, drive) choice.
pub proof fn law_placement_deterministic(c1: &ClusterState, c2: &ClusterState)
    requires
        c1.nodes@ == c2.nodes@,
    ensures
        placement(c1.nodes@) == placement(c2.nodes@),
{
}

proof fn lemma_best_node_max(nodes: Seq<NodeStatus>, m: nat)
    requires
        nodes.len() > 0,
    ensures
        0 <= best_node(nodes, m) < nodes.len(),
        forall|j: int|
            0 <= j < nodes.len() ==> scaled_rank(#[trigger] nodes[j], m) <= scaled_rank(
                nodes[best_node(nodes, m)],
                m,
            ),
        forall|j: int|
            0 <= j < best_node(nodes, m) ==> scaled_rank(#[trigger] nodes[j], m) < scaled_rank(
                nodes[best_node(nodes, m)],
                m,
            ),
    decreases nodes.len(),
{
    lemma_best_node_bounds(nodes, m);
    if nodes.len() > 1 {
        let d = nodes.drop_last();
        lemma_best_node_max(d, m);
        assert forall|j: int| 0 <= j < d.len() implies d[j] == nodes[j] by {}
    }
}

proof fn lemma_best_drive_max(drives: Seq<DriveStatus>)
    requires
        drives.len() > 0,
    ensures
        0 <= best_drive(drives) < drives.len(),
        forall|j: int|
            0 <= j < drives.len() ==> (#[trigger] drives[j]).free_bytes <= drives[best_drive(
                drives,
            )].free_bytes,
        forall|j: int|
            0 <= j < best_drive(drives) ==> (#[trigger] drives[j]).free_bytes < drives[best_drive(
                drives,
            )].free_bytes,
    decreases drives.len(),
{
    lemma_best_drive_bounds(drives);
    if drives.len() > 1 {
        let d = drives.drop_last();
        lemma_best_drive_max(d);
        assert forall|j: int| 0 <= j < d.len() implies d[j] == drives[j] by {}
    }
}

/// A placement lands on a node of highest rank, the first such in the
/// snapshot, and on its drive with the most free bytes, again the first
/// such.
pub proof fn law_placement_policy(nodes: Seq<NodeStatus>)
    requires
        placement(nodes) is Ok,
    ensures
        ({
            let (k, d) = placement(nodes)->Ok_0;
            let m = max_free(nodes);
            &&& 0 <= k < nodes.len()
            &&& 0 <= d < nodes[k].drives@.len()
            &&& forall|j: int|
                0 <= j < nodes.len() ==> scaled_rank(#[trigger] nodes[j], m) <= scaled_rank(
                    nodes[k],
                    m,
                )
            &&& forall|j: int|
                0 <= j < k ==> scaled_rank(#[trigger] nodes[j], m) < scaled_rank(nodes[k], m)
            &&& forall|j: int|
                0 <= j < nodes[k].drives@.len() ==> (#[trigger] nodes[k].drives@[j]).free_bytes
                    <= nodes[k].drives@[d].free_bytes
            &&& forall|j: int|
                0 <= j < d ==> (#[trigger] nodes[k].drives@[j]).free_bytes
                    < nodes[k].drives@[d].free_bytes
        }),
{
    let m = max_free(nodes);
    lemma_best_node_max(nodes, m);
    let k = best_node(nodes, m);
    lemma_best_drive_max(nodes[k].drives@);
}

} // verus!
