//! The dependency graph builder and the staged scheduler.
//!
//! The graph of one build is the set of targets reachable from the requested
//! root, each carried at its depth: the length of the longest dependency chain
//! from the root down to it. The scheduler partitions the graph into stages of
//! equal depth and orders them deepest first, so every dependency's stage runs
//! before the stage of each target that needs it.

use vstd::prelude::*;

verus! {

use crate::{BuildTarget, SpecTarget, targets_view, resolve, lemma_resolve_in_bounds};
use crate::subst::slice_chars;

/// A failure while building the dependency graph; either aborts the build
/// before any instruction runs.
#[derive(Debug)]
pub enum GraphError {
    /// A dependency names no target of the file.
    UnresolvedDependency(Vec<char>),
    /// The named target depends, possibly through others, on itself.
    DependencyCycle(Vec<char>),
}

/// The graph as a map from target index to assigned depth.
pub open spec fn map_of(m: Seq<(usize, usize)>) -> Map<usize, usize>
    decreases m.len(),
{
    if m.len() == 0 {
        Map::empty()
    } else {
        map_of(m.drop_last()).insert(m.last().0, m.last().1)
    }
}

/// Each target index appears at most once.
pub open spec fn unique_indices(m: Seq<(usize, usize)>) -> bool {
    forall|a: int, b: int| 0 <= a < b < m.len() ==> m[a].0 != m[b].0
}

/// Every recorded index denotes a target of the file.
pub open spec fn keys_in_bounds(m: Map<usize, usize>, n: int) -> bool {
    forall|j: usize| #[trigger] m.contains_key(j) ==> (j as int) < n
}

/// One recorded target's dependency resolves, is itself recorded, and sits
/// strictly deeper than the target that needs it.
pub open spec fn dep_ok(m: Map<usize, usize>, ts: Seq<SpecTarget>, j: usize, d: int) -> bool {
    match resolve(ts, ts[j as int].dependencies[d]) {
        Some(u) => m.contains_key(u as usize) && m[u as usize] > m[j],
        None => false,
    }
}

/// Every dependency of every recorded target is recorded strictly deeper than
/// the target itself: the layering invariant the scheduler relies on.
pub open spec fn deps_deeper(m: Map<usize, usize>, ts: Seq<SpecTarget>) -> bool {
    forall|j: usize, d: int|
        #![trigger m.contains_key(j), ts[j as int].dependencies[d]]
        m.contains_key(j) && (j as int) < ts.len() && 0 <= d < ts[j as int].dependencies.len()
            ==> dep_ok(m, ts, j, d)
}

proof fn lemma_map_of_contains(m: Seq<(usize, usize)>, i: usize)
    ensures
        map_of(m).contains_key(i) <==> exists|k: int| 0 <= k < m.len() && m[k].0 == i,
    decreases m.len(),
{
    if m.len() > 0 {
        lemma_map_of_contains(m.drop_last(), i);
        if map_of(m).contains_key(i) {
            if m.last().0 == i {
                assert(m[m.len() - 1].0 == i);
            } else {
                let k = choose|k: int| 0 <= k < m.drop_last().len() && m.drop_last()[k].0 == i;
                assert(m[k].0 == i);
            }
        }
        if exists|k: int| 0 <= k < m.len() && m[k].0 == i {
            let k = choose|k: int| 0 <= k < m.len() && m[k].0 == i;
            if k < m.len() - 1 {
                assert(m.drop_last()[k].0 == i);
            }
        }
    }
}

proof fn lemma_map_of_index(m: Seq<(usize, usize)>, k: int)
    requires
        unique_indices(m),
        0 <= k < m.len(),
    ensures
        map_of(m).contains_key(m[k].0),
        map_of(m)[m[k].0] == m[k].1,
    decreases m.len(),
{
    if k == m.len() - 1 {
    } else {
        assert(unique_indices(m.drop_last())) by {
            assert(forall|a: int, b: int|
                0 <= a < b < m.len() - 1 ==> m.drop_last()[a].0 == m[a].0 && m.drop_last()[b].0
                    == m[b].0);
        }
        lemma_map_of_index(m.drop_last(), k);
        assert(m.drop_last()[k] == m[k]);
        assert(m[k].0 != m.last().0);
    }
}

proof fn lemma_map_of_push(m: Seq<(usize, usize)>, i: usize, d: usize)
    requires
        forall|k: int| 0 <= k < m.len() ==> m[k].0 != i,
    ensures
        map_of(m.push((i, d))) == map_of(m).insert(i, d),
        unique_indices(m) ==> unique_indices(m.push((i, d))),
{
    assert(m.push((i, d)).drop_last() =~= m);
    if unique_indices(m) {
        assert(forall|a: int, b: int|
            0 <= a < b < m.push((i, d)).len() && b < m.len() ==> m.push((i, d))[a].0 != m.push(
                (i, d),
            )[b].0);
    }
}

proof fn lemma_map_of_update(m: Seq<(usize, usize)>, k: int, d: usize)
    requires
        unique_indices(m),
        0 <= k < m.len(),
    ensures
        map_of(m.update(k, (m[k].0, d))) == map_of(m).insert(m[k].0, d),
        unique_indices(m.update(k, (m[k].0, d))),
    decreases m.len(),
{
    let i = m[k].0;
    let m2 = m.update(k, (i, d));
    assert(unique_indices(m2)) by {
        assert(forall|a: int| 0 <= a < m.len() ==> m2[a].0 == m[a].0);
    }
    if k == m.len() - 1 {
        assert(m2.drop_last() =~= m.drop_last());
        assert(m2.last() == (i, d));
        assert(map_of(m2) == map_of(m.drop_last()).insert(i, d));
        assert(map_of(m) == map_of(m.drop_last()).insert(i, m[k].1));
        assert(map_of(m.drop_last()).insert(i, m[k].1).insert(i, d) =~= map_of(
            m.drop_last(),
        ).insert(i, d));
    } else {
        assert(unique_indices(m.drop_last())) by {
            assert(forall|a: int, b: int|
                0 <= a < b < m.len() - 1 ==> m.drop_last()[a].0 == m[a].0 && m.drop_last()[b].0
                    == m[b].0);
        }
        assert(m2.drop_last() =~= m.drop_last().update(k, (i, d)));
        assert(m.drop_last()[k] == m[k]);
        lemma_map_of_update(m.drop_last(), k, d);
        assert(m2.last() == m.last());
        assert(map_of(m2) == map_of(m.drop_last()).insert(i, d).insert(m.last().0, m.last().1));
        assert(m.last().0 != i);
        assert(map_of(m.drop_last()).insert(i, d).insert(m.last().0, m.last().1) =~= map_of(
            m.drop_last(),
        ).insert(m.last().0, m.last().1).insert(i, d));
    }
}

/// How many targets are marked in progress.
pub open spec fn count_true(g: Seq<bool>) -> int
    decreases g.len(),
{
    if g.len() == 0 {
        0
    } else {
        count_true(g.drop_last()) + if g.last() {
            1int
        } else {
            0int
        }
    }
}

proof fn lemma_count_true_bounds(g: Seq<bool>)
    ensures
        0 <= count_true(g) <= g.len(),
    decreases g.len(),
{
    if g.len() > 0 {
        lemma_count_true_bounds(g.drop_last());
    }
}

proof fn lemma_count_true_update(g: Seq<bool>, j: int, v: bool)
    requires
        0 <= j < g.len(),
    ensures
        count_true(g.update(j, v)) == count_true(g) - (if g[j] {
            1int
        } else {
            0int
        }) + (if v {
            1int
        } else {
            0int
        }),
    decreases g.len(),
{
    let g2 = g.update(j, v);
    if j == g.len() - 1 {
        assert(g2.drop_last() =~= g.drop_last());
    } else {
        assert(g2.drop_last() =~= g.drop_last().update(j, v));
        assert(g.drop_last()[j] == g[j]);
        lemma_count_true_update(g.drop_last(), j, v);
        assert(g2.last() == g.last());
    }
}

proof fn lemma_count_true_lt(g: Seq<bool>, j: int)
    requires
        0 <= j < g.len(),
        !g[j],
    ensures
        count_true(g) < g.len(),
    decreases g.len(),
{
    lemma_count_true_bounds(g.drop_last());
    if j < g.len() - 1 {
        lemma_count_true_lt(g.drop_last(), j);
    }
}

/// The depth-layered build graph rooted at one requested target: each entry is
/// a target index of the parsed list with its assigned depth.
pub struct BuildTree {
    pub target_map: Vec<(usize, usize)>,
}

impl View for BuildTree {
    type V = Map<usize, usize>;

    open spec fn view(&self) -> Map<usize, usize> {
        map_of(self.target_map@)
    }
}

impl BuildTree {
    /// The graph is sound for the target list: indices unique and in bounds,
    /// and every dependency recorded strictly deeper than its dependents.
    pub open spec fn wf(&self, ts: Seq<SpecTarget>) -> bool {
        &&& unique_indices(self.target_map@)
        &&& keys_in_bounds(self@, ts.len() as int)
        &&& deps_deeper(self@, ts)
    }

    /// Builds the graph reachable from the requested root target, the root at
    /// depth zero, every dependency strictly deeper than each target that
    /// needs it, and a target reached along several chains carried at the
    /// greatest depth any chain gives it. Fails on a dependency name that no
    /// target carries, and on a dependency cycle.
    pub fn new(main_target: usize, source_targets: &Vec<BuildTarget>) -> (r: Result<
        BuildTree,
        GraphError,
    >)
        requires
            main_target < source_targets@.len(),
        ensures
            match r {
                Ok(tree) => {
                    &&& tree.wf(targets_view(source_targets@))
                    &&& tree@.contains_key(main_target)
                    &&& tree@[main_target] == 0
                },
                Err(GraphError::UnresolvedDependency(n)) => resolve(
                    targets_view(source_targets@),
                    n@,
                ) is None && exists|j: int, dd: int|
                    reaches(targets_view(source_targets@), main_target as int, j) && 0 <= j
                        < source_targets@.len() && 0 <= dd < targets_view(
                        source_targets@,
                    )[j].dependencies.len() && targets_view(source_targets@)[j].dependencies[dd]
                        == n@,
                Err(GraphError::DependencyCycle(n)) => exists|c: Seq<int>|
                    is_cyclic(targets_view(source_targets@), c) && targets_view(
                        source_targets@,
                    )[c[0]].name == n@ && reaches(
                        targets_view(source_targets@),
                        main_target as int,
                        c[0],
                    ),
            },
    {
        let ghost ts = targets_view(source_targets@);
        let mut tree = BuildTree { target_map: Vec::new() };
        let mut gray: Vec<bool> = Vec::new();
        let mut k: usize = 0;
        while k < source_targets.len()
            invariant
                k <= source_targets@.len(),
                gray@.len() == k,
                forall|j: int| 0 <= j < k ==> !gray@[j],
                count_true(gray@) == 0,
            decreases source_targets@.len() - k,
        {
            let ghost pre = gray@;
            gray.push(false);
            proof {
                assert(gray@.drop_last() =~= pre);
            }
            k = k + 1;
        }
        proof {
            assert(tree@ =~= Map::<usize, usize>::empty());
            let p0 = Seq::<int>::empty().push(main_target as int);
            assert(forall|z: int| 0 <= z < p0.len() ==> 0 <= #[trigger] p0[z] < ts.len());
            assert(dep_chain(ts, p0));
            assert forall|j: usize| (j as int) < gray@.len() implies (gray@[j as int]
                <==> Seq::<int>::empty().contains(j as int)) by {
                assert(!gray@[j as int]);
                assert(!Seq::<int>::empty().contains(j as int));
            }
        }
        proof {
            assert(Seq::<int>::empty().push(main_target as int)[0] == main_target as int);
        }
        match tree.add_branch(main_target, source_targets, 0, &mut gray, Ghost(Seq::empty())) {
            Ok(()) => {
                proof {
                    assert(!map_of(Seq::<(usize, usize)>::empty()).contains_key(main_target));
                }
                Ok(tree)
            },
            Err(e) => Err(e),
        }
    }

    /// Records the branch rooted at `index` at `depth`: its dependencies
    /// first, one deeper, then the target itself under the greatest-depth
    /// merge rule. `gray` marks the targets on the chain being walked; meeting
    /// one again is a cycle.
    fn add_branch(
        &mut self,
        index: usize,
        source_targets: &Vec<BuildTarget>,
        depth: usize,
        gray: &mut Vec<bool>,
        Ghost(path): Ghost<Seq<int>>,
    ) -> (r: Result<(), GraphError>)
        requires
            index < source_targets@.len(),
            old(gray)@.len() == source_targets@.len(),
            depth <= count_true(old(gray)@),
            dep_chain(targets_view(source_targets@), path.push(index as int)),
            forall|j: usize|
                (j as int) < old(gray)@.len() ==> (#[trigger] old(gray)@[j as int] <==> path.contains(
                    j as int,
                )),
            unique_indices(old(self).target_map@),
            keys_in_bounds(old(self)@, source_targets@.len() as int),
            deps_deeper(old(self)@, targets_view(source_targets@)),
        ensures
            match r {
                Ok(()) => {
                    &&& final(gray)@ == old(gray)@
                    &&& unique_indices(final(self).target_map@)
                    &&& keys_in_bounds(final(self)@, source_targets@.len() as int)
                    &&& deps_deeper(final(self)@, targets_view(source_targets@))
                    &&& final(self)@.contains_key(index)
                    &&& final(self)@[index] >= depth
                    &&& !old(self)@.contains_key(index) ==> final(self)@[index] == depth
                    &&& forall|j: usize|
                        #[trigger] old(self)@.contains_key(j) ==> final(self)@.contains_key(j)
                            && final(self)@[j] >= old(self)@[j]
                    &&& forall|j: usize|
                        (j as int) < old(gray)@.len() && #[trigger] old(gray)@[j as int] ==> (
                        final(self)@.contains_key(j) == old(self)@.contains_key(j) && (old(
                            self,
                        )@.contains_key(j) ==> final(self)@[j] == old(self)@[j]))
                },
                Err(GraphError::UnresolvedDependency(n)) => resolve(
                    targets_view(source_targets@),
                    n@,
                ) is None && exists|j: int, dd: int|
                    reaches(
                        targets_view(source_targets@),
                        path.push(index as int)[0],
                        j,
                    ) && 0 <= j < source_targets@.len() && 0 <= dd < targets_view(
                        source_targets@,
                    )[j].dependencies.len() && targets_view(source_targets@)[j].dependencies[dd]
                        == n@,
                Err(GraphError::DependencyCycle(n)) => exists|c: Seq<int>|
                    is_cyclic(targets_view(source_targets@), c) && targets_view(
                        source_targets@,
                    )[c[0]].name == n@ && reaches(
                        targets_view(source_targets@),
                        path.push(index as int)[0],
                        c[0],
                    ),
            },
        decreases source_targets@.len() - count_true(old(gray)@),
    {
        let ghost ts = targets_view(source_targets@);
        if gray[index] {
            proof {
                let p = path.push(index as int);
                assert(path.contains(index as int));
                let x = choose|x: int| 0 <= x < path.len() && path[x] == index as int;
                lemma_dep_chain_subrange(ts, p, x, p.len() as int);
                let c = p.subrange(x, p.len() as int);
                assert(c[0] == index as int && c[c.len() - 1] == index as int);
                assert(is_cyclic(ts, c));
                assert(ts[index as int].name == source_targets@[index as int]@.name);
                lemma_dep_chain_subrange(ts, p, 0, x + 1);
                let p2 = p.subrange(0, x + 1);
                assert(p2[0] == p[0] && p2[p2.len() - 1] == p[x]);
                assert(dep_chain(ts, p2) && p2.len() >= 1 && p2[0] == p[0] && p2[p2.len() - 1]
                    == c[0]);
                assert(reaches(ts, p[0], c[0]));
            }
            let name = copy_name(&source_targets[index].name);
            return Err(GraphError::DependencyCycle(name));
        }
        proof {
            lemma_count_true_lt(gray@, index as int);
        }
        gray.set(index, true);
        let ghost g0 = gray@;
        proof {
            lemma_count_true_update(old(gray)@, index as int, true);
            lemma_count_true_bounds(gray@);
        }
        let n_targets = source_targets.len();
        let deps_len = source_targets[index].dependencies.len();
        let ghost m0 = self@;
        proof {
            assert(source_targets@.len() <= usize::MAX);
        }
        let mut d: usize = 0;
        while d < deps_len
            invariant
                index < source_targets@.len(),
                ts == targets_view(source_targets@),
                deps_len == ts[index as int].dependencies.len(),
                d <= deps_len,
                gray@ == g0,
                g0 == old(gray)@.update(index as int, true),
                g0.len() == source_targets@.len(),
                old(gray)@.len() == g0.len(),
                g0[index as int],
                !old(gray)@[index as int],
                dep_chain(ts, path.push(index as int)),
                forall|j: usize|
                    (j as int) < old(gray)@.len() ==> (#[trigger] old(gray)@[j as int]
                        <==> path.contains(j as int)),
                depth <= count_true(old(gray)@),
                count_true(g0) == count_true(old(gray)@) + 1,
                count_true(g0) <= g0.len(),
                source_targets@.len() <= usize::MAX,
                unique_indices(self.target_map@),
                keys_in_bounds(self@, source_targets@.len() as int),
                deps_deeper(self@, ts),
                m0 == old(self)@,
                self@.contains_key(index) == m0.contains_key(index),
                m0.contains_key(index) ==> self@[index] == m0[index],
                forall|j: usize|
                    #[trigger] m0.contains_key(j) ==> self@.contains_key(j) && self@[j] >= m0[j],
                forall|j: usize|
                    (j as int) < g0.len() && #[trigger] old(gray)@[j as int] ==> (
                    self@.contains_key(j) == m0.contains_key(j) && (m0.contains_key(j)
                        ==> self@[j] == m0[j])),
                forall|dd: int|
                    0 <= dd < d ==> match resolve(ts, #[trigger] ts[index as int].dependencies[dd]) {
                        Some(u) => self@.contains_key(u as usize) && self@[u as usize] >= depth
                            + 1,
                        None => false,
                    },
            decreases deps_len - d,
        {
            let dep_name = &source_targets[index].dependencies[d];
            proof {
                assert(ts[index as int].dependencies[d as int] == dep_name@);
            }
            match crate::find_target(source_targets, dep_name) {
                None => {
                    proof {
                        let p = path.push(index as int);
                        assert(dep_chain(ts, p) && p.len() >= 1 && p[0] == p[0] && p[p.len() - 1]
                            == index as int);
                        assert(reaches(ts, p[0], index as int));
                        assert(ts[index as int].dependencies[d as int] == dep_name@);
                    }
                    let name = copy_name(dep_name);
                    return Err(GraphError::UnresolvedDependency(name));
                },
                Some(u) => {
                    proof {
                        lemma_resolve_in_bounds(ts, dep_name@);
                        lemma_count_true_bounds(gray@);
                        assert(depth + 1 <= count_true(gray@));
                        let p = path.push(index as int);
                        let p2 = p.push(u as int);
                        assert forall|z: int| 0 <= z < p2.len() implies 0 <= #[trigger] p2[z]
                            < ts.len() by {
                            if z < p.len() {
                                assert(p2[z] == p[z]);
                            } else {
                                assert(p2[z] == u as int);
                            }
                        }
                        assert forall|z: int| #![trigger p2[z]] 0 <= z < p2.len() - 1 implies chain_step(
                            ts,
                            p2[z],
                            p2[z + 1],
                        ) by {
                            if z < p.len() - 1 {
                                assert(p2[z] == p[z] && p2[z + 1] == p[z + 1]);
                                assert(chain_step(ts, p[z], p[z + 1]));
                            } else {
                                assert(p2[z] == index as int && p2[z + 1] == u as int);
                                assert(chain_step(ts, index as int, u as int)) by {
                                    assert(0 <= d < ts[index as int].dependencies.len()
                                        && resolve(
                                        ts,
                                        ts[index as int].dependencies[d as int],
                                    ) == Some(u as int));
                                }
                            }
                        }
                        assert(dep_chain(ts, p2));
                        assert forall|j: usize| (j as int) < g0.len() implies (#[trigger] g0[j as int]
                            <==> p.contains(j as int)) by {
                            if j == index {
                                assert(p[p.len() - 1] == index as int);
                                assert(p.contains(index as int));
                            } else {
                                assert(old(gray)@.update(index as int, true)[j as int] == old(
                                    gray,
                                )@[j as int]);
                                if path.contains(j as int) {
                                    let x = choose|x: int|
                                        0 <= x < path.len() && path[x] == j as int;
                                    assert(p[x] == j as int);
                                    assert(p.contains(j as int));
                                }
                                if p.contains(j as int) {
                                    let x = choose|x: int| 0 <= x < p.len() && p[x] == j as int;
                                    assert(x < path.len());
                                    assert(path[x] == j as int);
                                    assert(path.contains(j as int));
                                }
                            }
                        }
                    }
                    let ghost m_before = self@;
                    match self.add_branch(
                        u,
                        source_targets,
                        depth + 1,
                        gray,
                        Ghost(path.push(index as int)),
                    ) {
                        Ok(()) => {
                            proof {
                                assert forall|j: usize|
                                    (j as int) < g0.len() && #[trigger] old(gray)@[j as int] implies (
                                self@.contains_key(j) == m0.contains_key(j) && (m0.contains_key(j)
                                    ==> self@[j] == m0[j])) by {
                                    assert(j != index);
                                    assert(old(gray)@.update(index as int, true)[j as int]
                                        == old(gray)@[j as int]);
                                    assert(g0[j as int] == old(gray)@[j as int]);
                                    assert(self@.contains_key(j) == m_before.contains_key(j));
                                    assert(m_before.contains_key(j) == m0.contains_key(j));
                                }
                                assert(forall|dd: int|
                                    0 <= dd < d ==> match resolve(
                                        ts,
                                        #[trigger] ts[index as int].dependencies[dd],
                                    ) {
                                        Some(u2) => m_before.contains_key(u2 as usize)
                                            && m_before[u2 as usize] >= depth + 1,
                                        None => false,
                                    });
                            }
                        },
                        Err(e) => {
                            proof {
                                let p = path.push(index as int);
                                assert(p.push(u as int)[0] == p[0]);
                            }
                            return Err(e);
                        },
                    }
                },
            }
            d = d + 1;
        }
        gray.set(index, false);
        proof {
            assert(gray@ =~= old(gray)@);
        }
        let ghost m_final_pre = self@;
        self.insert_node_depth(index, depth);
        proof {
            let tsx = ts;
            assert(deps_deeper(self@, tsx)) by {
                assert forall|j: usize, dd: int|
                    self@.contains_key(j) && (j as int) < tsx.len() && 0 <= dd < tsx[j as int].dependencies.len()
                    implies dep_ok(self@, tsx, j, dd) by {
                    if j == index {
                        let dep = tsx[index as int].dependencies[dd];
                        lemma_resolve_in_bounds(tsx, dep);
                        match resolve(tsx, dep) {
                            Some(u) => {
                                assert(m_final_pre.contains_key(u as usize) && m_final_pre[u
                                    as usize] >= depth + 1);
                                assert(self@[u as usize] >= depth + 1);
                                if m_final_pre.contains_key(index) && m_final_pre[index] >= depth {
                                    assert(dep_ok(m_final_pre, tsx, j, dd));
                                } else {
                                    assert(self@[index] == depth);
                                }
                            },
                            None => {
                                assert(false);
                            },
                        }
                    } else {
                        assert(m_final_pre.contains_key(j));
                        assert(dep_ok(m_final_pre, tsx, j, dd));
                    }
                }
            }
        }
        Ok(())
    }

    /// Records `index` at `depth` under the greatest-depth merge rule: a fresh
    /// target is inserted, a recorded one is deepened if `depth` is greater
    /// and left alone otherwise.
    fn insert_node_depth(&mut self, index: usize, depth: usize)
        requires
            unique_indices(old(self).target_map@),
        ensures
            unique_indices(final(self).target_map@),
            final(self)@ == if old(self)@.contains_key(index) && old(self)@[index] >= depth {
                old(self)@
            } else {
                old(self)@.insert(index, depth)
            },
    {
        let n = self.target_map.len();
        let mut k: usize = 0;
        while k < n
            invariant
                n == self.target_map@.len(),
                k <= n,
                self.target_map@ == old(self).target_map@,
                unique_indices(self.target_map@),
                forall|a: int| 0 <= a < k ==> self.target_map@[a].0 != index,
            decreases n - k,
        {
            let (i, dep) = self.target_map[k];
            if i == index {
                proof {
                    lemma_map_of_index(self.target_map@, k as int);
                }
                if dep < depth {
                    self.target_map.set(k, (index, depth));
                    proof {
                        lemma_map_of_update(old(self).target_map@, k as int, depth);
                    }
                } else {
                    proof {
                        assert(old(self)@.contains_key(index) && old(self)@[index] >= depth);
                    }
                }
                return ;
            }
            k = k + 1;
        }
        proof {
            lemma_map_of_contains(self.target_map@, index);
            assert(!old(self)@.contains_key(index));
            lemma_map_of_push(self.target_map@, index, depth);
        }
        self.target_map.push((index, depth));
    }
}

/// Some entry among the first `bound` of `tm` records index `x` at depth `d`.
pub open spec fn entry_at_depth(tm: Seq<(usize, usize)>, bound: int, d: usize, x: usize) -> bool {
    exists|k2: int| 0 <= k2 < bound && tm[k2].0 == x && tm[k2].1 == d
}

/// The images of a stage list.
pub open spec fn stages_view(r: Seq<Vec<usize>>) -> Seq<Seq<usize>> {
    Seq::new(r.len(), |k: int| r[k]@)
}

/// Whether some stage lists the target index `i`.
pub open spec fn listed(r: Seq<Seq<usize>>, i: usize) -> bool {
    exists|k: int, a: int| 0 <= k < r.len() && 0 <= a < r[k].len() && r[k][a] == i
}

/// The stages `r` are a faithful schedule of the graph `m`: they list exactly
/// the graph's targets, once each, grouped by equal depth, deepest stage
/// first.
pub open spec fn staged(m: Map<usize, usize>, r: Seq<Seq<usize>>) -> bool {
    &&& forall|k: int, a: int|
        #![trigger r[k][a]]
        0 <= k < r.len() && 0 <= a < r[k].len() ==> m.contains_key(r[k][a])
    &&& forall|i: usize| #[trigger] m.contains_key(i) ==> listed(r, i)
    &&& forall|k: int, a: int, a2: int|
        #![trigger r[k][a], r[k][a2]]
        0 <= k < r.len() && 0 <= a < r[k].len() && 0 <= a2 < r[k].len() ==> m[r[k][a]]
            == m[r[k][a2]]
    &&& forall|k: int, a: int, k2: int, a2: int|
        #![trigger r[k][a], r[k2][a2]]
        0 <= k < k2 < r.len() && 0 <= a < r[k].len() && 0 <= a2 < r[k2].len() ==> m[r[k][a]]
            > m[r[k2][a2]]
    &&& forall|k: int, a: int, a2: int|
        #![trigger r[k][a], r[k][a2]]
        0 <= k < r.len() && 0 <= a < a2 < r[k].len() ==> r[k][a] != r[k][a2]
    &&& forall|k: int| 0 <= k < r.len() ==> #[trigger] r[k].len() > 0
}

impl BuildTree {
    /// Partitions the graph into its execution plan: stages of equal depth,
    /// ordered deepest first, the requested root's stage last. Every recorded
    /// target stands in exactly one stage; targets of one stage share no
    /// dependency relation and may run in any order or concurrently, but a
    /// stage must finish before the next stage starts.
    #[verifier::rlimit(60)]
    pub fn build(self) -> (r: Vec<Vec<usize>>)
        requires
            unique_indices(self.target_map@),
        ensures
            staged(self@, stages_view(r@)),
    {
        let ghost m = self@;
        let tm = self.target_map;
        proof {
            assert(map_of(tm@) == m);
            assert forall|k: int| 0 <= k < tm@.len() implies m.contains_key(#[trigger] tm@[k].0)
                && m[tm@[k].0] == tm@[k].1 by {
                lemma_map_of_index(tm@, k);
            }
            lemma_map_of_contains_all(tm@);
        }
        let mut stages: Vec<Vec<usize>> = Vec::new();
        if tm.len() == 0 {
            proof {
                assert(forall|i: usize| !m.contains_key(i));
            }
            return stages;
        }
        let mut maxd: usize = 0;
        let mut k: usize = 0;
        while k < tm.len()
            invariant
                k <= tm@.len(),
                forall|j: int| 0 <= j < k ==> tm@[j].1 <= maxd,
            decreases tm@.len() - k,
        {
            if tm[k].1 > maxd {
                maxd = tm[k].1;
            }
            k = k + 1;
        }
        proof {
            assert forall|i: usize| #[trigger] m.contains_key(i) implies m[i] <= maxd by {
                let j = choose|j: int| 0 <= j < tm@.len() && tm@[j].0 == i;
                assert(tm@[j].1 <= maxd);
            }
        }
        let mut d: usize = maxd;
        loop
            invariant_except_break
                forall|i: usize|
                    m.contains_key(i) ==> (listed(stages_view(stages@), i) <==> m[i] > d),
                forall|k2: int, a: int|
                    #![trigger stages_view(stages@)[k2][a]]
                    0 <= k2 < stages@.len() && 0 <= a < stages@[k2]@.len() ==> m.contains_key(
                        stages_view(stages@)[k2][a],
                    ) && m[stages_view(stages@)[k2][a]] > d,
            invariant
                unique_indices(tm@),
                m == map_of(tm@),
                d <= maxd,
                forall|k2: int|
                    0 <= k2 < tm@.len() ==> m.contains_key(#[trigger] tm@[k2].0) && m[tm@[k2].0]
                        == tm@[k2].1,
                forall|i: usize| #[trigger] m.contains_key(i) ==> exists|k2: int|
                    0 <= k2 < tm@.len() && tm@[k2].0 == i,
                forall|i: usize| #[trigger] m.contains_key(i) ==> m[i] <= maxd,
                forall|k2: int, a: int, a2: int|
                    #![trigger stages_view(stages@)[k2][a], stages_view(stages@)[k2][a2]]
                    0 <= k2 < stages@.len() && 0 <= a < stages@[k2]@.len() && 0 <= a2
                        < stages@[k2]@.len() ==> m[stages_view(stages@)[k2][a]] == m[stages_view(
                        stages@,
                    )[k2][a2]],
                forall|k2: int, a: int, k3: int, a2: int|
                    #![trigger stages_view(stages@)[k2][a], stages_view(stages@)[k3][a2]]
                    0 <= k2 < k3 < stages@.len() && 0 <= a < stages@[k2]@.len() && 0 <= a2
                        < stages@[k3]@.len() ==> m[stages_view(stages@)[k2][a]] > m[stages_view(
                        stages@,
                    )[k3][a2]],
                forall|k2: int, a: int, a2: int|
                    #![trigger stages_view(stages@)[k2][a], stages_view(stages@)[k2][a2]]
                    0 <= k2 < stages@.len() && 0 <= a < a2 < stages@[k2]@.len() ==> stages_view(
                        stages@,
                    )[k2][a] != stages_view(stages@)[k2][a2],
                forall|k2: int| 0 <= k2 < stages@.len() ==> stages@[k2]@.len() > 0,
            ensures
                forall|i: usize| #[trigger] m.contains_key(i) ==> listed(stages_view(stages@), i),
                forall|k2: int, a: int|
                    #![trigger stages_view(stages@)[k2][a]]
                    0 <= k2 < stages@.len() && 0 <= a < stages@[k2]@.len() ==> m.contains_key(
                        stages_view(stages@)[k2][a],
                    ),
            decreases d,
        {
            let ghost stages_pre = stages@;
            let mut stage: Vec<usize> = Vec::new();
            let mut k: usize = 0;
            while k < tm.len()
                invariant
                    unique_indices(tm@),
                    k <= tm@.len(),
                    forall|a: int|
                        0 <= a < stage@.len() ==> entry_at_depth(tm@, k as int, d, #[trigger] stage@[a]),
                    forall|k2: int|
                        0 <= k2 < k && #[trigger] tm@[k2].1 == d ==> exists|a: int|
                            0 <= a < stage@.len() && stage@[a] == tm@[k2].0,
                    forall|a: int, a2: int|
                        0 <= a < a2 < stage@.len() ==> stage@[a] != stage@[a2],
                decreases tm@.len() - k,
            {
                let ghost was_pushed = tm@[k as int].1 == d;
                if tm[k].1 == d {
                    let ghost stage_pre = stage@;
                    proof {
                        assert forall|a: int| 0 <= a < stage_pre.len() implies stage_pre[a]
                            != tm@[k as int].0 by {
                            assert(entry_at_depth(tm@, k as int, d, stage_pre[a]));
                            let k2 = choose|k2: int|
                                0 <= k2 < k && tm@[k2].0 == stage_pre[a] && tm@[k2].1 == d;
                            assert(tm@[k2].0 != tm@[k as int].0);
                        }
                    }
                    stage.push(tm[k].0);
                    proof {
                        assert(stage@ == stage_pre.push(tm@[k as int].0));
                        assert forall|a: int| 0 <= a < stage@.len() implies entry_at_depth(
                            tm@,
                            k + 1,
                            d,
                            #[trigger] stage@[a],
                        ) by {
                            if a < stage_pre.len() {
                                assert(entry_at_depth(tm@, k as int, d, stage_pre[a]));
                                let k2 = choose|k2: int|
                                    0 <= k2 < k && tm@[k2].0 == stage_pre[a] && tm@[k2].1 == d;
                                assert(0 <= k2 < k + 1 && tm@[k2].0 == stage@[a] && tm@[k2].1
                                    == d);
                            } else {
                                assert(stage@[a] == tm@[k as int].0);
                                assert((k as int) < k + 1 && tm@[k as int].0 == stage@[a]
                                    && tm@[k as int].1 == d);
                            }
                        }
                        assert forall|k2: int|
                            0 <= k2 < k + 1 && #[trigger] tm@[k2].1 == d implies exists|a: int|
                            0 <= a < stage@.len() && stage@[a] == tm@[k2].0 by {
                            if k2 < k {
                                let a = choose|a: int|
                                    0 <= a < stage_pre.len() && stage_pre[a] == tm@[k2].0;
                                assert(stage@[a] == tm@[k2].0);
                            } else {
                                assert(stage@[stage_pre.len() as int] == tm@[k2].0);
                            }
                        }
                    }
                }
                proof {
                    if !was_pushed {
                        assert forall|a: int| 0 <= a < stage@.len() implies entry_at_depth(
                            tm@,
                            k + 1,
                            d,
                            #[trigger] stage@[a],
                        ) by {
                            assert(entry_at_depth(tm@, k as int, d, stage@[a]));
                            let k2 = choose|k2: int|
                                0 <= k2 < k && tm@[k2].0 == stage@[a] && tm@[k2].1 == d;
                            assert(0 <= k2 < k + 1 && tm@[k2].0 == stage@[a] && tm@[k2].1 == d);
                        }
                    }
                }
                k = k + 1;
            }
            let ghost sv = stage@;
            if stage.len() > 0 {
                proof {
                    assert forall|a: int| 0 <= a < sv.len() implies m.contains_key(
                        #[trigger] sv[a],
                    ) && m[sv[a]] == d by {
                        assert(entry_at_depth(tm@, tm@.len() as int, d, sv[a]));
                        let k2 = choose|k2: int|
                            0 <= k2 < tm@.len() && tm@[k2].0 == sv[a] && tm@[k2].1 == d;
                        assert(m.contains_key(tm@[k2].0));
                    }
                }
                stages.push(stage);
                proof {
                    assert(stages@[stages_pre.len() as int]@ == sv);
                    assert(stages_view(stages@) =~= stages_view(stages_pre).push(sv));
                    let rs = stages_view(stages@);
                    let rp = stages_view(stages_pre);
                    assert forall|i: usize| m.contains_key(i) implies (listed(rs, i) <==> m[i]
                        >= d) by {
                        if m.contains_key(i) && m[i] >= d {
                            if m[i] > d {
                                let (k2, a) = choose|k2: int, a: int|
                                    0 <= k2 < rp.len() && 0 <= a < rp[k2].len() && rp[k2][a] == i;
                                assert(0 <= k2 < rs.len() && 0 <= a < rs[k2].len() && rs[k2][a]
                                    == i);
                            } else {
                                let k2 = choose|k2: int| 0 <= k2 < tm@.len() && tm@[k2].0 == i;
                                assert(tm@[k2].1 == d);
                                let a = choose|a: int| 0 <= a < sv.len() && sv[a] == tm@[k2].0;
                                assert(0 <= a < rs[rp.len() as int].len() && rs[rp.len() as int][a]
                                    == i);
                            }
                        }
                        if m.contains_key(i) && listed(rs, i) {
                            let (k2, a) = choose|k2: int, a: int|
                                0 <= k2 < rs.len() && 0 <= a < rs[k2].len() && rs[k2][a] == i;
                            if k2 < rp.len() {
                                assert(rp[k2][a] == i);
                                assert(listed(rp, i));
                            } else {
                                assert(sv[a] == i);
                            }
                        }
                    }
                }
            } else {
                proof {
                    let rs = stages_view(stages@);
                    assert forall|i: usize| m.contains_key(i) implies (listed(rs, i) <==> m[i]
                        >= d) by {
                        if m.contains_key(i) && m[i] == d {
                            let k2 = choose|k2: int| 0 <= k2 < tm@.len() && tm@[k2].0 == i;
                            assert(tm@[k2].1 == d);
                            assert(exists|a: int| 0 <= a < sv.len() && sv[a] == tm@[k2].0);
                            assert(false);
                        }
                    }
                }
            }
            proof {
                let rs = stages_view(stages@);
                let rp = stages_view(stages_pre);
                assert forall|k2: int, a: int|
                    #![trigger rs[k2][a]]
                    0 <= k2 < rs.len() && 0 <= a < rs[k2].len() implies m.contains_key(rs[k2][a])
                    && m[rs[k2][a]] >= d by {
                    if k2 < rp.len() {
                        assert(rp[k2][a] == rs[k2][a]);
                    } else {
                        assert(rs[k2] == sv);
                    }
                }
            }
            if d == 0 {
                break ;
            }
            d = d - 1;
        }
        proof {
            assert forall|i: usize| #[trigger] m.contains_key(i) implies listed(
                stages_view(stages@),
                i,
            ) by {
                assert(m[i] >= 0);
            }
        }
        stages
    }
}

proof fn lemma_map_of_contains_all(m: Seq<(usize, usize)>)
    ensures
        forall|i: usize| #[trigger] map_of(m).contains_key(i) ==> exists|k: int|
            0 <= k < m.len() && m[k].0 == i,
{
    assert forall|i: usize| #[trigger] map_of(m).contains_key(i) implies exists|k: int|
        0 <= k < m.len() && m[k].0 == i by {
        lemma_map_of_contains(m, i);
    }
}

/// A chain of direct dependency steps through the target list: each index
/// after the first is the resolved index of a dependency of the one before.
pub open spec fn dep_chain(ts: Seq<SpecTarget>, c: Seq<int>) -> bool {
    &&& forall|x: int| 0 <= x < c.len() ==> 0 <= #[trigger] c[x] < ts.len()
    &&& forall|x: int| #![trigger c[x]] 0 <= x < c.len() - 1 ==> chain_step(ts, c[x], c[x + 1])
}

/// One direct dependency step: some dependency of target `a` resolves to `b`.
pub open spec fn chain_step(ts: Seq<SpecTarget>, a: int, b: int) -> bool {
    exists|dd: int|
        0 <= dd < ts[a].dependencies.len() && resolve(ts, #[trigger] ts[a].dependencies[dd])
            == Some(b)
}

/// A dependency chain that returns to its first target: a dependency cycle.
pub open spec fn is_cyclic(ts: Seq<SpecTarget>, c: Seq<int>) -> bool {
    &&& dep_chain(ts, c)
    &&& c.len() >= 2
    &&& c[0] == c[c.len() - 1]
}

/// Some dependency chain leads from target `a` to target `b`.
pub open spec fn reaches(ts: Seq<SpecTarget>, a: int, b: int) -> bool {
    exists|p: Seq<int>| #[trigger] dep_chain(ts, p) && p.len() >= 1 && p[0] == a && p[p.len() - 1]
        == b
}

/// A contiguous piece of a dependency chain is itself a dependency chain.
proof fn lemma_dep_chain_subrange(ts: Seq<SpecTarget>, c: Seq<int>, x: int, y: int)
    requires
        dep_chain(ts, c),
        0 <= x <= y <= c.len(),
    ensures
        dep_chain(ts, c.subrange(x, y)),
{
    let s = c.subrange(x, y);
    assert forall|z: int| 0 <= z < s.len() implies 0 <= #[trigger] s[z] < ts.len() by {
        assert(s[z] == c[x + z]);
    }
    assert forall|z: int| #![trigger s[z]] 0 <= z < s.len() - 1 implies chain_step(
        ts,
        s[z],
        s[z + 1],
    ) by {
        assert(s[z] == c[x + z] && s[z + 1] == c[x + z + 1]);
        assert(chain_step(ts, c[x + z], c[x + z + 1]));
    }
    assert(dep_chain(ts, s));
}

/// Along any dependency chain out of a recorded target, every later target is
/// recorded, and the chain's end strictly deeper than its start.
pub proof fn lemma_chain_deeper(m: Map<usize, usize>, ts: Seq<SpecTarget>, c: Seq<int>)
    requires
        ts.len() <= usize::MAX,
        deps_deeper(m, ts),
        dep_chain(ts, c),
        c.len() >= 1,
        m.contains_key(c[0] as usize),
    ensures
        m.contains_key(c[c.len() - 1] as usize),
        c.len() >= 2 ==> m[c[c.len() - 1] as usize] > m[c[0] as usize],
{
    lemma_chain_deeper_at(m, ts, c, c.len() - 1);
}

proof fn lemma_chain_deeper_at(m: Map<usize, usize>, ts: Seq<SpecTarget>, c: Seq<int>, x: int)
    requires
        ts.len() <= usize::MAX,
        deps_deeper(m, ts),
        dep_chain(ts, c),
        0 <= x < c.len(),
        m.contains_key(c[0] as usize),
    ensures
        m.contains_key(c[x] as usize),
        x >= 1 ==> m[c[x] as usize] > m[c[0] as usize],
    decreases x,
{
    if x >= 1 {
        lemma_chain_deeper_at(m, ts, c, x - 1);
        let j = c[x - 1] as usize;
        assert(0 <= c[x - 1] < ts.len());
        assert(chain_step(ts, c[x - 1], c[x]));
        let dd = choose|dd: int|
            0 <= dd < ts[c[x - 1]].dependencies.len() && resolve(
                ts,
                #[trigger] ts[c[x - 1]].dependencies[dd],
            ) == Some(c[x]);
        assert(m.contains_key(j));
        assert(ts[j as int].dependencies[dd] == ts[c[x - 1]].dependencies[dd]);
        assert(dep_ok(m, ts, j, dd));
        assert(m.contains_key(c[x] as usize) && m[c[x] as usize] > m[j]);
    }
}

/// Scheduler ordering: when one target is a, possibly transitive, dependency
/// of another, its stage comes strictly earlier in the execution plan than
/// the stage of the target that needs it.
pub proof fn lemma_dependencies_scheduled_first(
    m: Map<usize, usize>,
    ts: Seq<SpecTarget>,
    r: Seq<Seq<usize>>,
    c: Seq<int>,
    kb: int,
    ab: int,
    ka: int,
    aa: int,
)
    requires
        ts.len() <= usize::MAX,
        deps_deeper(m, ts),
        staged(m, r),
        dep_chain(ts, c),
        c.len() >= 2,
        m.contains_key(c[0] as usize),
        0 <= kb < r.len(),
        0 <= ab < r[kb].len(),
        r[kb][ab] == c[0] as usize,
        0 <= ka < r.len(),
        0 <= aa < r[ka].len(),
        r[ka][aa] == c[c.len() - 1] as usize,
    ensures
        ka < kb,
{
    lemma_chain_deeper(m, ts, c);
    if ka == kb {
        assert(m[r[kb][ab]] == m[r[ka][aa]]);
    } else if ka > kb {
        assert(m[r[kb][ab]] > m[r[ka][aa]]);
    }
}

/// Copies a target or dependency name for an error report.
fn copy_name(v: &Vec<char>) -> (r: Vec<char>)
    ensures
        r@ == v@,
{
    let r = slice_chars(v, 0, v.len());
    proof {
        assert(v@.subrange(0, v@.len() as int) =~= v@);
    }
    r
}

} // verus!
