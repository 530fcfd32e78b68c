use vstd::prelude::*;

verus! {

/// The directed edge that `p` takes at step `k`: from `p[k]` to `p[k + 1]`.
pub open spec fn edge_at(p: Seq<usize>, k: int) -> (usize, usize) {
    (p[k], p[k + 1])
}

/// The number of edges an open path takes: one fewer than its locations, with
/// no edge back to the start.
pub open spec fn edge_count(p: Seq<usize>) -> nat {
    if p.len() == 0 {
        0
    } else {
        (p.len() - 1) as nat
    }
}

/// The path goes directly from `from` to `to` at some step.
pub open spec fn uses_edge(p: Seq<usize>, from: usize, to: usize) -> bool {
    exists|k: int| 0 <= k < edge_count(p) && #[trigger] edge_at(p, k) == (from, to)
}

/// The consecutive directed edges of `path`, in order; the path is open, so
/// no edge returns from its last location to its first.
pub fn path_edges(path: &Vec<usize>) -> (r: Vec<(usize, usize)>)
    ensures
        r.len() == edge_count(path@),
        forall|k: int| 0 <= k < r.len() ==> r@[k] == #[trigger] edge_at(path@, k),
{
    let mut out: Vec<(usize, usize)> = Vec::new();
    if path.len() == 0 {
        return out;
    }
    let mut i: usize = 0;
    while i + 1 < path.len()
        invariant
            path.len() > 0,
            i + 1 <= path.len(),
            out.len() == i,
            forall|k: int| 0 <= k < i ==> out@[k] == #[trigger] edge_at(path@, k),
        decreases path.len() - i,
    {
        out.push((path[i], path[i + 1]));
        i = i + 1;
    }
    out
}

/// Whether `path` goes directly from `from` to `to` at some step.
pub fn path_uses_edge(path: &Vec<usize>, from: usize, to: usize) -> (r: bool)
    ensures
        r == uses_edge(path@, from, to),
{
    if path.len() == 0 {
        return false;
    }
    let mut i: usize = 0;
    while i + 1 < path.len()
        invariant
            path.len() > 0,
            i + 1 <= path.len(),
            forall|k: int| 0 <= k < i ==> #[trigger] edge_at(path@, k) != (from, to),
        decreases path.len() - i,
    {
        if path[i] == from && path[i + 1] == to {
            assert(edge_at(path@, i as int) == (from, to));
            return true;
        }
        i = i + 1;
    }
    false
}

/// For each ant's path, in order, whether it deposits pheromone on the edge
/// from `from` to `to`, that is whether it takes that edge.
pub fn deposit_flags(paths: &Vec<Vec<usize>>, from: usize, to: usize) -> (r: Vec<bool>)
    ensures
        r.len() == paths.len(),
        forall|i: int| 0 <= i < r.len() ==> r@[i] == uses_edge(#[trigger] paths@[i]@, from, to),
{
    let mut out: Vec<bool> = Vec::new();
    let mut i: usize = 0;
    while i < paths.len()
        invariant
            i <= paths.len(),
            out.len() == i,
            forall|j: int| 0 <= j < i ==> out@[j] == uses_edge(#[trigger] paths@[j]@, from, to),
        decreases paths.len() - i,
    {
        out.push(path_uses_edge(&paths[i], from, to));
        i = i + 1;
    }
    out
}

/// An edge that no ant's path takes gets no deposit in the round: every flag
/// is clear, so its pheromone only evaporates.
pub proof fn lemma_unused_edge_only_evaporates(
    paths: Seq<Vec<usize>>,
    flags: Seq<bool>,
    from: usize,
    to: usize,
)
    requires
        flags.len() == paths.len(),
        forall|i: int| 0 <= i < flags.len() ==> flags[i] == uses_edge(#[trigger] paths[i]@, from, to),
        forall|i: int| 0 <= i < paths.len() ==> !uses_edge(#[trigger] paths[i]@, from, to),
    ensures
        forall|i: int| 0 <= i < flags.len() ==> !#[trigger] flags[i],
{
    assert forall|i: int| 0 <= i < flags.len() implies !#[trigger] flags[i] by {
        assert(!uses_edge(paths[i]@, from, to));
    }
}

/// A path that holds no location twice never takes an edge from a location
/// to itself, so no pheromone is ever deposited on the diagonal.
pub proof fn lemma_no_self_edge(p: Seq<usize>, city: usize)
    requires
        p.no_duplicates(),
    ensures
        !uses_edge(p, city, city),
{
    if uses_edge(p, city, city) {
        let k = choose|k: int| 0 <= k < edge_count(p) && #[trigger] edge_at(p, k) == (city, city);
        assert(p[k] == p[k + 1]);
    }
}

/// In a round whose paths each hold no location twice, no ant deposits on a
/// diagonal cell, so a diagonal pheromone of zero stays zero.
pub proof fn lemma_diagonal_gets_no_deposit(paths: Seq<Vec<usize>>, flags: Seq<bool>, city: usize)
    requires
        forall|i: int| 0 <= i < paths.len() ==> (#[trigger] paths[i]@).no_duplicates(),
        flags.len() == paths.len(),
        forall|i: int| 0 <= i < flags.len() ==> flags[i] == uses_edge(#[trigger] paths[i]@, city, city),
    ensures
        forall|i: int| 0 <= i < flags.len() ==> !#[trigger] flags[i],
{
    assert forall|i: int| 0 <= i < flags.len() implies !#[trigger] flags[i] by {
        lemma_no_self_edge(paths[i]@, city);
    }
}

} // verus!
