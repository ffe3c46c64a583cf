//! A minimal declarative build tool: a build file names targets, each with
//! dependency targets and shell instruction lines; building a target runs the
//! instructions of every reachable target, dependencies first.
//!
//! The library holds the verified core: the build-file parser and variable
//! substitution engine, the depth-layered dependency graph builder, and the
//! staged scheduler that orders execution. Running shell commands (evaluating
//! `export` lines and executing instructions) is left to the caller: the
//! parser hands out each command to run and takes its captured output back,
//! and the scheduler hands out an ordered execution plan.

use vstd::prelude::*;

pub mod subst;
pub mod parser;
pub mod graph;

verus! {

use crate::subst::BuildInstruction;

/// One named build target: its dependency names and its fully expanded
/// instruction command strings, in file order.
pub struct BuildTarget {
    pub name: Vec<char>,
    pub dependencies: Vec<Vec<char>>,
    pub build_commands: Vec<BuildInstruction>,
}

/// Mathematical image of a `BuildTarget`.
pub struct SpecTarget {
    pub name: Seq<char>,
    pub dependencies: Seq<Seq<char>>,
    pub build_commands: Seq<Seq<char>>,
}

impl View for BuildTarget {
    type V = SpecTarget;

    open spec fn view(&self) -> SpecTarget {
        SpecTarget {
            name: self.name@,
            dependencies: Seq::new(self.dependencies@.len(), |i: int| self.dependencies@[i]@),
            build_commands: Seq::new(
                self.build_commands@.len(),
                |i: int| self.build_commands@[i].command_string@,
            ),
        }
    }
}

/// The targets of a parsed file, viewed as a sequence of their images.
pub open spec fn targets_view(ts: Seq<BuildTarget>) -> Seq<SpecTarget> {
    Seq::new(ts.len(), |i: int| ts[i]@)
}

/// The index a target name resolves to: the last target with that name, so a
/// later duplicate definition shadows an earlier one.
pub open spec fn resolve(ts: Seq<SpecTarget>, name: Seq<char>) -> Option<int>
    decreases ts.len(),
{
    if ts.len() == 0 {
        None
    } else if ts[ts.len() - 1].name == name {
        Some(ts.len() - 1)
    } else {
        resolve(ts.drop_last(), name)
    }
}

pub proof fn lemma_resolve_in_bounds(ts: Seq<SpecTarget>, name: Seq<char>)
    ensures
        match resolve(ts, name) {
            Some(i) => 0 <= i < ts.len() && ts[i].name == name,
            None => forall|i: int| 0 <= i < ts.len() ==> ts[i].name != name,
        },
    decreases ts.len(),
{
    if ts.len() > 0 {
        lemma_resolve_in_bounds(ts.drop_last(), name);
        if ts[ts.len() - 1].name != name {
            assert(forall|i: int|
                0 <= i < ts.len() - 1 ==> ts.drop_last()[i] == ts[i]);
        }
    }
}

/// Looks a target up by name: the last target with that name, so a later
/// duplicate definition shadows an earlier one.
pub fn find_target(targets: &Vec<BuildTarget>, name: &Vec<char>) -> (r: Option<usize>)
    ensures
        match r {
            Some(i) => resolve(targets_view(targets@), name@) == Some(i as int),
            None => resolve(targets_view(targets@), name@) is None,
        },
{
    let ghost ts = targets_view(targets@);
    proof {
        assert(ts.take(targets@.len() as int) =~= ts);
    }
    let mut i: usize = targets.len();
    while i > 0
        invariant
            i <= targets.len(),
            ts == targets_view(targets@),
            forall|j: int| i <= j < targets.len() ==> ts[j].name != name@,
            resolve(ts, name@) == resolve(ts.take(i as int), name@),
        decreases i,
    {
        i = i - 1;
        if eq_chars(&targets[i].name, name) {
            proof {
                lemma_resolve_take_hit(ts, name@, i as int);
            }
            return Some(i);
        }
        proof {
            assert(ts.take(i as int + 1).drop_last() =~= ts.take(i as int));
            assert(ts.take(i as int + 1)[i as int] == ts[i as int]);
        }
    }
    proof {
        assert(ts.take(0) =~= Seq::<SpecTarget>::empty());
    }
    None
}

proof fn lemma_resolve_take_hit(ts: Seq<SpecTarget>, name: Seq<char>, i: int)
    requires
        0 <= i < ts.len(),
        ts[i].name == name,
        resolve(ts, name) == resolve(ts.take(i + 1), name),
    ensures
        resolve(ts, name) == Some(i),
{
    assert(ts.take(i + 1).len() == i + 1);
    assert(ts.take(i + 1)[i] == ts[i]);
}

/// Character-sequence equality, usable on names and command strings.
pub fn eq_chars(a: &Vec<char>, b: &Vec<char>) -> (r: bool)
    ensures
        r <==> a@ == b@,
{
    if a.len() != b.len() {
        assert(a@.len() != b@.len());
        return false;
    }
    let mut i: usize = 0;
    while i < a.len()
        invariant
            i <= a.len(),
            a@.len() == b@.len(),
            forall|j: int| 0 <= j < i ==> a@[j] == b@[j],
        decreases a.len() - i,
    {
        if a[i] != b[i] {
            return false;
        }
        i = i + 1;
    }
    proof {
        assert(a@ =~= b@);
    }
    true
}

} // verus!
