//! Simplification: taking the nodes of the interference graph away one by
//! one, low-degree nodes first, and marking a node for spilling whenever no
//! low-degree node is left.

use crate::degree::{degree, lemma_degree_bounds, lemma_degree_set, row_degree};
use crate::matrix::{grid, has_shape, is_empty, set_cell};
use crate::spill::contains;
use vstd::prelude::*;

verus! {

/// The graph without the removed nodes: their rows and columns are cleared.
pub open spec fn without(m: Seq<Seq<bool>>, removed: Seq<usize>) -> Seq<Seq<bool>> {
    Seq::new(
        m.len(),
        |a: int|
            Seq::new(
                m.len(),
                |b: int| m[a][b] && !removed.contains(a as usize) && !removed.contains(b as usize),
            ),
    )
}

/// The lowest node from `from` on that is still present and has fewer than
/// `t` neighbours; the number of nodes if there is none.
pub open spec fn first_low(w: Seq<Seq<bool>>, removed: Seq<usize>, t: usize, from: int) -> int
    decreases w.len() - from,
{
    if from < 0 || from >= w.len() {
        w.len() as int
    } else if !removed.contains(from as usize) && degree(w[from]) < t {
        from
    } else {
        first_low(w, removed, t, from + 1)
    }
}

/// The lowest node from `from` on that has at least `t` neighbours; the
/// number of nodes if there is none.
pub open spec fn first_high(w: Seq<Seq<bool>>, t: usize, from: int) -> int
    decreases w.len() - from,
{
    if from < 0 || from >= w.len() {
        w.len() as int
    } else if degree(w[from]) >= t {
        from
    } else {
        first_high(w, t, from + 1)
    }
}

/// The node to take away next, and whether it is marked for spilling.
pub open spec fn next_node(m: Seq<Seq<bool>>, t: usize, removed: Seq<usize>) -> (int, bool) {
    let w = without(m, removed);
    let low = first_low(w, removed, t, 0);
    if low < m.len() {
        (low, false)
    } else {
        (first_high(w, t, 0), true)
    }
}

/// Simplification continued from a state: the nodes in order of removal and
/// those among them that were marked for spilling.
pub open spec fn peel_from(
    m: Seq<Seq<bool>>,
    t: usize,
    removed: Seq<usize>,
    spills: Seq<usize>,
) -> (Seq<usize>, Seq<usize>)
    decreases m.len() - removed.len(),
{
    if removed.len() >= m.len() {
        (removed, spills)
    } else {
        let (node, spill) = next_node(m, t, removed);
        peel_from(
            m,
            t,
            removed.push(node as usize),
            if spill {
                spills.push(node as usize)
            } else {
                spills
            },
        )
    }
}

/// Simplification of the whole graph with threshold `t`.
pub open spec fn peel(m: Seq<Seq<bool>>, t: usize) -> (Seq<usize>, Seq<usize>) {
    peel_from(m, t, Seq::empty(), Seq::empty())
}

/// Which nodes are gone, as a row of flags.
pub open spec fn gone(removed: Seq<usize>, n: nat) -> Seq<bool> {
    Seq::new(n, |a: int| removed.contains(a as usize))
}

/// The number of neighbours that the node removed at position `p` still had
/// when it was removed.
pub open spec fn degree_at_removal(m: Seq<Seq<bool>>, removed: Seq<usize>, p: int) -> nat {
    degree(without(m, removed.take(p))[removed[p] as int])
}

/// Every node had fewer than `t` neighbours left when it was removed.
pub open spec fn peeled_low(m: Seq<Seq<bool>>, t: usize, removed: Seq<usize>) -> bool {
    forall|p: int| 0 <= p < removed.len() ==> #[trigger] degree_at_removal(m, removed, p) < t
}

/// Whether node `a` has a neighbour in the graph.
pub open spec fn touched(m: Seq<Seq<bool>>, a: int) -> bool {
    exists|b: int| 0 <= b < m[a].len() && m[a][b]
}

/// What holds of the removal order and the spill marks at every stage.
pub open spec fn peel_inv(m: Seq<Seq<bool>>, t: usize, removed: Seq<usize>, spills: Seq<usize>) -> bool {
    &&& removed.no_duplicates()
    &&& forall|i: int| 0 <= i < removed.len() ==> #[trigger] removed[i] < m.len()
    &&& degree(gone(removed, m.len())) == removed.len()
    &&& forall|i: int|
        0 <= i < spills.len() ==> removed.contains(#[trigger] spills[i]) && touched(
            m,
            spills[i] as int,
        )
    &&& spills.len() == 0 ==> peeled_low(m, t, removed)
}

/// Where the search for a low-degree node ends.
proof fn lemma_first_low(w: Seq<Seq<bool>>, removed: Seq<usize>, t: usize, from: int)
    requires
        0 <= from <= w.len(),
    ensures
        from <= first_low(w, removed, t, from) <= w.len(),
        first_low(w, removed, t, from) < w.len() ==> !removed.contains(
            first_low(w, removed, t, from) as usize,
        ) && degree(w[first_low(w, removed, t, from)]) < t,
        forall|a: int|
            from <= a < first_low(w, removed, t, from) ==> removed.contains(a as usize) || degree(
                #[trigger] w[a],
            ) >= t,
    decreases w.len() - from,
{
    if from < w.len() && !(!removed.contains(from as usize) && degree(w[from]) < t) {
        lemma_first_low(w, removed, t, from + 1);
    }
}

/// Where the search for a high-degree node ends.
proof fn lemma_first_high(w: Seq<Seq<bool>>, t: usize, from: int)
    requires
        0 <= from <= w.len(),
    ensures
        from <= first_high(w, t, from) <= w.len(),
        first_high(w, t, from) < w.len() ==> degree(w[first_high(w, t, from)]) >= t,
        forall|a: int| from <= a < first_high(w, t, from) ==> degree(#[trigger] w[a]) < t,
    decreases w.len() - from,
{
    if from < w.len() && !(degree(w[from]) >= t) {
        lemma_first_high(w, t, from + 1);
    }
}

/// One step of simplification: while nodes are left, the next node exists,
/// is still present, has the degree that its kind calls for, and the state
/// after its removal is sound again.
pub proof fn lemma_peel_step(m: Seq<Seq<bool>>, t: usize, removed: Seq<usize>, spills: Seq<usize>)
    requires
        has_shape(m, m.len(), m.len()),
        m.len() <= usize::MAX,
        t >= 1,
        peel_inv(m, t, removed, spills),
        removed.len() < m.len(),
    ensures
        ({
            let (node, spill) = next_node(m, t, removed);
            let w = without(m, removed);
            &&& 0 <= node < m.len()
            &&& !removed.contains(node as usize)
            &&& spill ==> degree(w[node]) >= t && first_low(w, removed, t, 0) == m.len()
            &&& !spill ==> degree(w[node]) < t && node == first_low(w, removed, t, 0)
            &&& peel_inv(
                m,
                t,
                removed.push(node as usize),
                if spill {
                    spills.push(node as usize)
                } else {
                    spills
                },
            )
        }),
{
    let n = m.len();
    let w = without(m, removed);
    let (node, spill) = next_node(m, t, removed);
    let g = gone(removed, n);
    lemma_first_low(w, removed, t, 0);
    lemma_first_high(w, t, 0);
    lemma_degree_bounds(g);
    let x = choose|x: int| 0 <= x < n && !g[x];
    assert(!removed.contains(x as usize));
    if spill {
        assert(degree(w[x]) >= t);
        assert(node <= x) by {
            if first_high(w, t, 0) > x {
                assert(degree(w[x]) < t);
            }
        }
        lemma_degree_bounds(w[node]);
        let b = choose|b: int| 0 <= b < w[node].len() && w[node][b];
        assert(m[node][b]);
        assert(touched(m, node));
    }
    let removed2 = removed.push(node as usize);
    let spills2 = if spill {
        spills.push(node as usize)
    } else {
        spills
    };
    assert(gone(removed2, n) =~= g.update(node, true)) by {
        assert forall|a: int| 0 <= a < n implies gone(removed2, n)[a] == g.update(node, true)[a] by {
            if removed.contains(a as usize) {
                let i = choose|i: int| 0 <= i < removed.len() && removed[i] == a as usize;
                assert(removed2[i] == a as usize);
            }
            if a == node {
                assert(removed2[removed.len() as int] == a as usize);
            }
        }
    }
    lemma_degree_set(g, node);
    assert forall|i: int| 0 <= i < spills2.len() implies removed2.contains(#[trigger] spills2[i])
        && touched(m, spills2[i] as int) by {
        if i < spills.len() {
            let j = choose|j: int| 0 <= j < removed.len() && removed[j] == spills[i];
            assert(removed2[j] == spills[i]);
        } else {
            assert(removed2[removed.len() as int] == node as usize);
        }
    }
    if spills2.len() == 0 {
        assert forall|p: int| 0 <= p < removed2.len() implies #[trigger] degree_at_removal(
            m,
            removed2,
            p,
        ) < t by {
            if p < removed.len() {
                assert(removed2.take(p) =~= removed.take(p));
                assert(degree_at_removal(m, removed, p) < t);
            } else {
                assert(removed2.take(p) =~= removed);
            }
        }
    }
}

/// Simplification ends with every node removed exactly once; the spill
/// marks are among them and have a neighbour each; and where nothing was
/// marked, every node had fewer than `t` neighbours left at its removal.
pub proof fn lemma_peel_from(m: Seq<Seq<bool>>, t: usize, removed: Seq<usize>, spills: Seq<usize>)
    requires
        has_shape(m, m.len(), m.len()),
        m.len() <= usize::MAX,
        t >= 1,
        peel_inv(m, t, removed, spills),
    ensures
        peel_inv(m, t, peel_from(m, t, removed, spills).0, peel_from(m, t, removed, spills).1),
        peel_from(m, t, removed, spills).0.len() == m.len(),
        forall|a: usize| a < m.len() ==> peel_from(m, t, removed, spills).0.contains(a),
        spills.len() > 0 ==> peel_from(m, t, removed, spills).1.len() > 0,
    decreases m.len() - removed.len(),
{
    let n = m.len();
    if removed.len() >= n {
        let g = gone(removed, n);
        lemma_degree_bounds(g);
        assert forall|a: usize| a < n implies removed.contains(a) by {
            assert(g[a as int]);
        }
    } else {
        lemma_peel_step(m, t, removed, spills);
        let (node, spill) = next_node(m, t, removed);
        lemma_peel_from(
            m,
            t,
            removed.push(node as usize),
            if spill {
                spills.push(node as usize)
            } else {
                spills
            },
        );
    }
}

/// The empty state is a sound start.
pub proof fn lemma_peel_start(m: Seq<Seq<bool>>, t: usize)
    ensures
        peel_inv(m, t, Seq::empty(), Seq::empty()),
{
    let g = gone(Seq::<usize>::empty(), m.len());
    assert forall|i: int| 0 <= i < g.len() implies !g[i] by {}
    lemma_degree_bounds(g);
}

/// The degree of every node.
fn degrees(m: &Vec<Vec<bool>>) -> (degs: Vec<usize>)
    ensures
        degs@.len() == m@.len(),
        forall|a: int| 0 <= a < m@.len() ==> #[trigger] degs@[a] == degree(grid(*m)[a]),
{
    let mut degs: Vec<usize> = Vec::new();
    let mut a: usize = 0;
    while a < m.len()
        invariant
            a <= m.len(),
            degs@.len() == a,
            forall|b: int| 0 <= b < a ==> #[trigger] degs@[b] == degree(grid(*m)[b]),
        decreases m.len() - a,
    {
        degs.push(row_degree(&m[a]));
        a += 1;
    }
    degs
}

/// The lowest node that is still present and has a degree below the
/// threshold; the number of nodes if there is none.
fn find_low(
    degs: &Vec<usize>,
    threshold: usize,
    removed_regs: &Vec<usize>,
    Ghost(w): Ghost<Seq<Seq<bool>>>,
) -> (reg_id: usize)
    requires
        degs@.len() == w.len(),
        forall|a: int| 0 <= a < w.len() ==> #[trigger] degs@[a] == degree(w[a]),
    ensures
        reg_id == first_low(w, removed_regs@, threshold, 0),
{
    let mut reg_id: usize = 0;
    while reg_id < degs.len()
        invariant
            reg_id <= degs@.len(),
            degs@.len() == w.len(),
            forall|a: int| 0 <= a < w.len() ==> #[trigger] degs@[a] == degree(w[a]),
            first_low(w, removed_regs@, threshold, 0) == first_low(
                w,
                removed_regs@,
                threshold,
                reg_id as int,
            ),
        decreases degs.len() - reg_id,
    {
        if degs[reg_id] < threshold && !contains(removed_regs, reg_id) {
            return reg_id;
        }
        reg_id += 1;
    }
    reg_id
}

/// The lowest node with a degree at or above the threshold; the number of
/// nodes if there is none.
fn find_high(degs: &Vec<usize>, threshold: usize, Ghost(w): Ghost<Seq<Seq<bool>>>) -> (reg_id:
    usize)
    requires
        degs@.len() == w.len(),
        forall|a: int| 0 <= a < w.len() ==> #[trigger] degs@[a] == degree(w[a]),
    ensures
        reg_id == first_high(w, threshold, 0),
{
    let mut reg_id: usize = 0;
    while reg_id < degs.len()
        invariant
            reg_id <= degs@.len(),
            degs@.len() == w.len(),
            forall|a: int| 0 <= a < w.len() ==> #[trigger] degs@[a] == degree(w[a]),
            first_high(w, threshold, 0) == first_high(w, threshold, reg_id as int),
        decreases degs.len() - reg_id,
    {
        if degs[reg_id] >= threshold {
            return reg_id;
        }
        reg_id += 1;
    }
    reg_id
}

/// Takes node `reg_id` out of the working graph by clearing its row and its
/// column.
fn detach(work: &mut Vec<Vec<bool>>, reg_id: usize)
    requires
        has_shape(grid(*old(work)), old(work)@.len() as nat, old(work)@.len() as nat),
        reg_id < old(work)@.len(),
    ensures
        has_shape(grid(*final(work)), old(work)@.len() as nat, old(work)@.len() as nat),
        forall|a: int, b: int|
            0 <= a < old(work)@.len() && 0 <= b < old(work)@.len() ==> #[trigger] grid(
                *final(work),
            )[a][b] == (grid(*old(work))[a][b] && a != reg_id && b != reg_id),
{
    let register_num = work.len();
    let ghost n = register_num as nat;
    let ghost w0 = grid(*work);
    let mut i: usize = 0;
    while i < register_num
        invariant
            i <= register_num,
            n == register_num,
            reg_id < n,
            has_shape(w0, n, n),
            has_shape(grid(*work), n, n),
            forall|a: int, b: int|
                0 <= a < n && 0 <= b < n ==> #[trigger] grid(*work)[a][b] == (w0[a][b] && !(b
                    == reg_id && a < i) && !(a == reg_id && b < i)),
        decreases register_num - i,
    {
        let ghost w1 = grid(*work);
        assert(w1[i as int].len() == n);
        set_cell(work, i, reg_id, false);
        let ghost w2 = grid(*work);
        assert(w2[reg_id as int].len() == n) by {
            assert(w1[reg_id as int].len() == n);
        }
        set_cell(work, reg_id, i, false);
        proof {
            let w3 = grid(*work);
            assert forall|a: int| 0 <= a < n implies (#[trigger] w3[a]).len() == n by {
                assert(w1[a].len() == n);
            }
            assert forall|a: int, b: int| 0 <= a < n && 0 <= b < n implies #[trigger] w3[a][b] == (
            w0[a][b] && !(b == reg_id && a < i + 1) && !(a == reg_id && b < i + 1)) by {
                assert(w1[a].len() == n);
                assert(w1[a][b] == (w0[a][b] && !(b == reg_id && a < i) && !(a == reg_id && b
                    < i)));
            }
        }
        i += 1;
    }
}

/// Simplifies the interference graph: repeatedly takes away the lowest node
/// that has fewer than `threshold` neighbours left or, when there is none,
/// the lowest node with at least `threshold` neighbours, which is then also
/// marked for spilling. Returns the nodes in order of removal, each node
/// once, and the marked ones; if none is marked, every node had fewer than
/// `threshold` neighbours left when it was removed.
pub fn simplify(interf_matrix: &Vec<Vec<bool>>, threshold: usize) -> (r: (Vec<usize>, Vec<usize>))
    requires
        has_shape(
            grid(*interf_matrix),
            interf_matrix@.len() as nat,
            interf_matrix@.len() as nat,
        ),
        threshold >= 1,
    ensures
        (r.0@, r.1@) == peel(grid(*interf_matrix), threshold),
        peel_inv(grid(*interf_matrix), threshold, r.0@, r.1@),
        r.0@.len() == interf_matrix@.len(),
        forall|a: usize| a < interf_matrix@.len() ==> r.0@.contains(a),
{
    let ghost m = grid(*interf_matrix);
    let ghost n = m.len();
    let register_num = interf_matrix.len();
    let mut spill_list: Vec<usize> = Vec::new();
    let mut removed_regs: Vec<usize> = Vec::new();
    let mut work = interf_matrix.clone();
    proof {
        lemma_peel_start(m, threshold);
        assert(work.deep_view() == interf_matrix.deep_view());
        assert forall|a: int| 0 <= a < n implies #[trigger] grid(work)[a] =~= without(
            m,
            removed_regs@,
        )[a] by {
            assert(work.deep_view()[a] == interf_matrix.deep_view()[a]);
            assert(work@[a].deep_view() =~= work@[a]@);
            assert(interf_matrix@[a].deep_view() =~= interf_matrix@[a]@);
            assert(m[a].len() == n);
        }
        assert(work@.len() == work.deep_view().len());
        assert(grid(work) =~= without(m, removed_regs@));
    }
    while !is_empty(&work, false) || removed_regs.len() < register_num
        invariant
            m == grid(*interf_matrix),
            n == m.len(),
            register_num == n,
            has_shape(m, n, n),
            threshold >= 1,
            grid(work) == without(m, removed_regs@),
            peel_inv(m, threshold, removed_regs@, spill_list@),
            peel_from(m, threshold, removed_regs@, spill_list@) == peel(m, threshold),
            removed_regs@.len() <= n,
        decreases n - removed_regs@.len(),
    {
        proof {
            if removed_regs@.len() >= n {
                lemma_degree_bounds(gone(removed_regs@, n));
                assert forall|a: int, b: int|
                    0 <= a < grid(work).len() && 0 <= b < grid(work)[a].len() implies !(
                #[trigger] grid(work)[a][b]) by {
                    assert(gone(removed_regs@, n)[a]);
                }
                assert(false);
            }
            lemma_peel_step(m, threshold, removed_regs@, spill_list@);
        }
        let degs = degrees(&work);
        let mut reg_id = find_low(&degs, threshold, &removed_regs, Ghost(grid(work)));
        if reg_id >= register_num {
            reg_id = find_high(&degs, threshold, Ghost(grid(work)));
            spill_list.push(reg_id);
        }
        let ghost w0 = grid(work);
        let ghost prev = removed_regs@;
        assert(has_shape(w0, n, n));
        detach(&mut work, reg_id);
        removed_regs.push(reg_id);
        proof {
            assert forall|a: int| 0 <= a < n implies #[trigger] grid(work)[a] =~= without(
                m,
                removed_regs@,
            )[a] by {
                assert forall|b: int| 0 <= b < n implies grid(work)[a][b] == without(
                    m,
                    removed_regs@,
                )[a][b] by {
                    assert(grid(work)[a][b] == (w0[a][b] && a != reg_id && b != reg_id));
                    assert(w0[a][b] == without(m, prev)[a][b]);
                    assert(forall|x: usize|
                        removed_regs@.contains(x) <==> (prev.contains(x) || x == reg_id)) by {
                        assert forall|x: usize|
                            removed_regs@.contains(x) <==> (prev.contains(x) || x
                                == reg_id) by {
                            if prev.contains(x) {
                                let i = choose|i: int| 0 <= i < prev.len() && prev[i] == x;
                                assert(removed_regs@[i] == x);
                            }
                            if x == reg_id {
                                assert(removed_regs@[prev.len() as int] == x);
                            }
                        }
                    }
                }
            }
            assert(grid(work) =~= without(m, removed_regs@));
            lemma_degree_bounds(gone(removed_regs@, n));
        }
    }
    proof {
        lemma_peel_start(m, threshold);
        lemma_peel_from(m, threshold, Seq::empty(), Seq::empty());
    }
    (removed_regs, spill_list)
}

} // verus!
