//! Coloring: giving each node the smallest color that none of its already
//! colored neighbours has, in reverse order of removal.

use crate::degree::{degree, lemma_degree_monotone, lemma_degree_set};
use crate::matrix::{grid, has_shape, irreflexive, symmetric};
use crate::simplify::{degree_at_removal, peeled_low, without};
use std::collections::HashMap;
use vstd::prelude::*;

verus! {

/// Whether some colored neighbour in the row has color `c`.
pub open spec fn taken(row: Seq<bool>, colors: Map<usize, usize>, c: usize) -> bool {
    exists|b: int|
        0 <= b < row.len() && #[trigger] row[b] && colors.contains_key(b as usize)
            && colors[b as usize] == c
}

/// The smallest color from `c` on, below `limit`, that no colored neighbour
/// has; `limit` if there is none.
pub open spec fn smallest_free(
    row: Seq<bool>,
    colors: Map<usize, usize>,
    c: usize,
    limit: usize,
) -> usize
    decreases limit - c,
{
    if c >= limit || !taken(row, colors, c) {
        c
    } else {
        smallest_free(row, colors, (c + 1) as usize, limit)
    }
}

/// The colors of the nodes in `removed`, the last one colored first: each
/// node gets the smallest color in `1..=k - 2` that no neighbour colored
/// before it has.
pub open spec fn paint(m: Seq<Seq<bool>>, removed: Seq<usize>, k: usize) -> Map<usize, usize>
    decreases removed.len(),
{
    if removed.len() == 0 {
        Map::empty()
    } else {
        let later = paint(m, removed.drop_first(), k);
        let node = removed.first();
        later.insert(node, smallest_free(m[node as int], later, 1, (k - 1) as usize))
    }
}

/// No two neighbours have the same color.
pub open spec fn proper(m: Seq<Seq<bool>>, colors: Map<usize, usize>) -> bool {
    forall|a: usize, b: usize|
        colors.contains_key(a) && colors.contains_key(b) && a < m.len() && b < m.len()
            && #[trigger] m[a as int][b as int] ==> colors[a] != colors[b]
}

/// The neighbours in the row whose color lies in `1..=c`.
spec fn hits(row: Seq<bool>, colors: Map<usize, usize>, c: nat) -> Seq<bool> {
    Seq::new(
        row.len(),
        |b: int| row[b] && colors.contains_key(b as usize) && 1 <= colors[b as usize] <= c,
    )
}

/// If each of the colors `1..=c` is taken by a neighbour, the row has at
/// least `c` neighbours.
proof fn lemma_colors_need_neighbours(row: Seq<bool>, colors: Map<usize, usize>, c: nat)
    requires
        c <= usize::MAX,
        forall|x: usize| 1 <= x <= c ==> taken(row, colors, x),
    ensures
        degree(hits(row, colors, c)) >= c,
        degree(row) >= c,
    decreases c,
{
    if c > 0 {
        let lower = hits(row, colors, (c - 1) as nat);
        lemma_colors_need_neighbours(row, colors, (c - 1) as nat);
        assert(taken(row, colors, c as usize));
        let b = choose|b: int|
            0 <= b < row.len() && #[trigger] row[b] && colors.contains_key(b as usize)
                && colors[b as usize] == c as usize;
        lemma_degree_set(lower, b);
        lemma_degree_monotone(lower.update(b, true), hits(row, colors, c));
    }
    lemma_degree_monotone(hits(row, colors, c), row);
}

/// The search for a free color ends at a color that is free or at the limit.
proof fn lemma_smallest_free(row: Seq<bool>, colors: Map<usize, usize>, c: usize, limit: usize)
    ensures
        c <= limit ==> c <= smallest_free(row, colors, c, limit) <= limit,
        smallest_free(row, colors, c, limit) < limit ==> !taken(
            row,
            colors,
            smallest_free(row, colors, c, limit),
        ),
        forall|x: usize|
            c <= x < smallest_free(row, colors, c, limit) ==> taken(row, colors, x),
    decreases limit - c,
{
    if !(c >= limit || !taken(row, colors, c)) {
        lemma_smallest_free(row, colors, (c + 1) as usize, limit);
    }
}

/// What holds of the coloring of a suffix of the removal order.
pub open spec fn painted_well(
    m: Seq<Seq<bool>>,
    removed: Seq<usize>,
    k: usize,
    from: int,
) -> bool {
    let colors = paint(m, removed.skip(from), k);
    &&& forall|a: usize| colors.contains_key(a) <==> removed.skip(from).contains(a)
    &&& forall|a: usize| colors.contains_key(a) ==> 1 <= #[trigger] colors[a] <= k - 2
    &&& proper(m, colors)
}

/// Coloring succeeds after a clean simplification: if every node had fewer
/// than `k - 2` neighbours left when it was removed, then every node of the
/// removal order gets a color in `1..=k - 2`, and no two neighbours get the
/// same.
pub proof fn lemma_paint(m: Seq<Seq<bool>>, removed: Seq<usize>, k: usize, from: int)
    requires
        k >= 3,
        has_shape(m, m.len(), m.len()),
        m.len() <= usize::MAX,
        symmetric(m),
        irreflexive(m),
        removed.no_duplicates(),
        forall|i: int| 0 <= i < removed.len() ==> #[trigger] removed[i] < m.len(),
        peeled_low(m, (k - 2) as usize, removed),
        0 <= from <= removed.len(),
    ensures
        painted_well(m, removed, k, from),
    decreases removed.len() - from,
{
    let suffix = removed.skip(from);
    if from < removed.len() {
        lemma_paint(m, removed, k, from + 1);
        assert(suffix.drop_first() =~= removed.skip(from + 1));
        let rest = removed.skip(from + 1);
        let later = paint(m, rest, k);
        let node = removed[from];
        assert(suffix.first() == node);
        let row = m[node as int];
        let limit = (k - 1) as usize;
        let color = smallest_free(row, later, 1, limit);
        let colors = paint(m, suffix, k);
        assert(colors == later.insert(node, color));
        lemma_smallest_free(row, later, 1, limit);
        let before = removed.take(from);
        let wrow = without(m, before)[node as int];
        assert(degree_at_removal(m, removed, from) < k - 2);
        assert(!before.contains(node)) by {
            if before.contains(node) {
                let i = choose|i: int| 0 <= i < before.len() && before[i] == node;
                assert(removed[i] == node);
            }
        }
        assert forall|b: int|
            0 <= b < row.len() && row[b] && later.contains_key(b as usize) implies wrow[b] by {
            let nb = b as usize;
            let i = choose|i: int| 0 <= i < rest.len() && rest[i] == nb;
            assert(removed[from + 1 + i] == nb);
            if before.contains(nb) {
                let j = choose|j: int| 0 <= j < before.len() && before[j] == nb;
                assert(removed[j] == nb);
            }
        }
        if color >= limit {
            assert forall|x: usize| 1 <= x <= (k - 2) as nat implies taken(wrow, later, x) by {
                assert(taken(row, later, x));
                let b = choose|b: int|
                    0 <= b < row.len() && #[trigger] row[b] && later.contains_key(b as usize)
                        && later[b as usize] == x;
                assert(wrow[b]);
            }
            lemma_colors_need_neighbours(wrow, later, (k - 2) as nat);
            assert(false);
        }
        assert forall|a: usize| colors.contains_key(a) <==> suffix.contains(a) by {
            if rest.contains(a) {
                let i = choose|i: int| 0 <= i < rest.len() && rest[i] == a;
                assert(suffix[i + 1] == a);
            }
            if suffix.contains(a) {
                let i = choose|i: int| 0 <= i < suffix.len() && suffix[i] == a;
                if i > 0 {
                    assert(rest[i - 1] == a);
                }
            }
            if a == node {
                assert(suffix[0] == a);
            }
        }
        assert(!later.contains_key(node)) by {
            if rest.contains(node) {
                let i = choose|i: int| 0 <= i < rest.len() && rest[i] == node;
                assert(removed[from + 1 + i] == node);
            }
        }
        assert forall|a: usize, b: usize|
            colors.contains_key(a) && colors.contains_key(b) && a < m.len() && b < m.len()
                && #[trigger] m[a as int][b as int] implies colors[a] != colors[b] by {
            if a == node && b == node {
                assert(!m[a as int][a as int]);
            } else if a == node {
                assert(row[b as int]);
                assert(m[a as int].len() == m.len());
            } else if b == node {
                assert(m[b as int][a as int]);
                assert(row[a as int]);
                assert(m[b as int].len() == m.len());
            }
        }
    } else {
        assert(suffix =~= Seq::<usize>::empty());
    }
}

/// Colors the nodes in reverse order of removal: each gets the smallest
/// color in `1..=register_num - 2` that none of its neighbours colored so
/// far has. After a simplification that marked nothing, every node gets such
/// a color and no two neighbours get the same.
pub fn assign_colors(
    interf_matrix: &Vec<Vec<bool>>,
    removed_regs: &Vec<usize>,
    register_num: usize,
) -> (reg_map: HashMap<usize, usize>)
    requires
        2 <= register_num,
        has_shape(
            grid(*interf_matrix),
            interf_matrix@.len() as nat,
            interf_matrix@.len() as nat,
        ),
        forall|i: int|
            0 <= i < removed_regs@.len() ==> #[trigger] removed_regs@[i] < interf_matrix@.len(),
    ensures
        reg_map@ == paint(grid(*interf_matrix), removed_regs@, register_num),
        register_num >= 3 && symmetric(grid(*interf_matrix)) && irreflexive(grid(*interf_matrix))
            && removed_regs@.no_duplicates() && peeled_low(
            grid(*interf_matrix),
            (register_num - 2) as usize,
            removed_regs@,
        ) ==> painted_well(grid(*interf_matrix), removed_regs@, register_num, 0),
{
    broadcast use vstd::std_specs::hash::group_hash_axioms;

    let ghost m = grid(*interf_matrix);
    let ghost removed = removed_regs@;
    let limit = register_num - 1;
    let mut reg_map: HashMap<usize, usize> = HashMap::new();
    let mut idx: usize = removed_regs.len();
    proof {
        assert(removed.skip(idx as int) =~= Seq::<usize>::empty());
    }
    while idx > 0
        invariant
            idx <= removed_regs@.len(),
            m == grid(*interf_matrix),
            removed == removed_regs@,
            2 <= register_num,
            limit == register_num - 1,
            has_shape(m, m.len(), m.len()),
            m.len() == interf_matrix@.len(),
            forall|i: int| 0 <= i < removed.len() ==> #[trigger] removed[i] < m.len(),
            reg_map@ == paint(m, removed.skip(idx as int), register_num),
            forall|a: usize| reg_map@.contains_key(a) ==> #[trigger] reg_map@[a] <= limit,
        decreases idx,
    {
        idx -= 1;
        let reg_id = removed_regs[idx];
        let ghost colors = reg_map@;
        let ghost row = m[reg_id as int];
        assert(row.len() == m.len());
        let mut is_painted: Vec<bool> = Vec::new();
        is_painted.resize(register_num, false);
        let connections = &interf_matrix[reg_id];
        assert(connections@ == row);
        let mut reg_id2: usize = 0;
        while reg_id2 < connections.len()
            invariant
                reg_id2 <= connections@.len(),
                connections@ == row,
                colors == reg_map@,
                is_painted@.len() == register_num,
                limit == register_num - 1,
                forall|a: usize| colors.contains_key(a) ==> #[trigger] colors[a] <= limit,
                forall|c: usize|
                    c < register_num ==> (#[trigger] is_painted@[c as int] <==> taken(
                        row.take(reg_id2 as int),
                        colors,
                        c,
                    )),
            decreases connections.len() - reg_id2,
        {
            let ghost flags = is_painted@;
            let ghost seen = row.take(reg_id2 as int);
            let ghost seen2 = row.take(reg_id2 + 1);
            let connected = connections[reg_id2];
            let ghost hit = if connected && colors.contains_key(reg_id2) {
                Some(colors[reg_id2])
            } else {
                None
            };
            if connected {
                if let Some(color) = reg_map.get(&reg_id2) {
                    is_painted[*color] = true;
                }
            }
            proof {
                assert forall|c: usize| c < register_num implies (#[trigger] is_painted@[c as int]
                    <==> taken(seen2, colors, c)) by {
                    assert(flags[c as int] <==> taken(seen, colors, c));
                    if taken(seen, colors, c) {
                        let b = choose|b: int|
                            0 <= b < seen.len() && #[trigger] seen[b] && colors.contains_key(
                                b as usize,
                            ) && colors[b as usize] == c;
                        assert(seen2[b]);
                    }
                    if hit == Some(c) {
                        assert(seen2[reg_id2 as int]);
                    }
                    if taken(seen2, colors, c) {
                        let b = choose|b: int|
                            0 <= b < seen2.len() && #[trigger] seen2[b] && colors.contains_key(
                                b as usize,
                            ) && colors[b as usize] == c;
                        if b < reg_id2 {
                            assert(seen[b]);
                        }
                    }
                }
            }
            reg_id2 += 1;
        }
        assert(row.take(reg_id2 as int) =~= row);
        let mut color: usize = 1;
        while color < limit && is_painted[color]
            invariant
                1 <= color,
                limit == register_num - 1,
                color <= limit,
                is_painted@.len() == register_num,
                forall|c: usize|
                    c < register_num ==> (#[trigger] is_painted@[c as int] <==> taken(
                        row,
                        colors,
                        c,
                    )),
                smallest_free(row, colors, 1, limit) == smallest_free(row, colors, color, limit),
            decreases limit - color,
        {
            color += 1;
        }
        proof {
            assert(removed.skip(idx as int).drop_first() =~= removed.skip(idx + 1));
            assert(removed.skip(idx as int).first() == reg_id);
            lemma_smallest_free(row, colors, 1, limit);
        }
        reg_map.insert(reg_id, color);
    }
    assert(removed.skip(0) =~= removed);
    proof {
        assert(m.len() == interf_matrix.len());
        if register_num >= 3 && symmetric(m) && irreflexive(m) && removed.no_duplicates()
            && peeled_low(m, (register_num - 2) as usize, removed) {
            lemma_paint(m, removed, register_num, 0);
        }
    }
    reg_map
}

} // verus!
