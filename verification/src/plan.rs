//! The execution plan of a target: its resolved environment, and one
//! command list per target to run — each direct dependency in declaration
//! order first, then the requested target itself.  The environment is
//! resolved once, from the requested target's name, and reused for every
//! dependency's commands as well as the target's own.

use crate::env::EnvMap;
use crate::model::{
    all_deps_resolve, deps_seq, doc_map, dot_join, has_reserved, prefixes_resolve, reserved_key,
    resolved_env, segments, tree_node, TargetV,
};
use crate::yake::{clone_opt_strings, distinct_seq, strings_view, Yake, YakeError};
use vstd::pervasive::unreached;
use vstd::prelude::*;

verus! {

/// Abstract value of an optional command list; absence is kept apart from
/// an empty list, since only a declared list is announced when it runs.
pub open spec fn opt_cmds_view(o: Option<Vec<String>>) -> Option<Seq<Seq<char>>> {
    match o {
        Some(v) => Some(strings_view(v@)),
        None => None,
    }
}

/// Abstract value of a sequence of optional command lists.
pub open spec fn groups_view(gs: Seq<Option<Vec<String>>>) -> Seq<Option<Seq<Seq<char>>>> {
    gs.map_values(|g: Option<Vec<String>>| opt_cmds_view(g))
}

/// The command lists an execution of a target runs: those of its direct
/// dependencies in declaration order, then the target's own.
pub open spec fn plan_groups(deps: Seq<TargetV>, t: TargetV) -> Seq<Option<Seq<Seq<char>>>> {
    deps.push(t).map_values(|x: TargetV| x.commands)
}

/// What an execution of a target runs, fully resolved: the environment to
/// hand every command, and the command lists in execution order.
pub struct ExecutionPlan {
    /// The requested target's resolved environment, reused for every
    /// command of the plan
    pub env: EnvMap,
    /// One optional command list per target: each direct dependency in
    /// declaration order, then the requested target itself
    pub groups: Vec<Option<Vec<String>>>,
}

impl Yake {
    /// Computes the execution plan of a callable target: resolves its
    /// direct dependencies and its environment, and lays the command lists
    /// out in execution order — dependencies first, in declaration order,
    /// then the target's own commands.
    pub fn execution_plan(&self, target_name: &str) -> (res: Result<ExecutionPlan, YakeError>)
        ensures
            res is Ok <==> (doc_map(self@).contains_key(target_name@) && doc_map(
                self@,
            )[target_name@].typ is Callable && all_deps_resolve(doc_map(self@))
                && prefixes_resolve(
                self@,
                segments(target_name@),
                segments(target_name@).len() as int,
            ) && !has_reserved(resolved_env(self@, target_name@))),
            match res {
                Ok(plan) => {
                    &&& plan.env@ == resolved_env(self@, target_name@)
                    &&& groups_view(plan.groups@) == plan_groups(
                        deps_seq(doc_map(self@), doc_map(self@)[target_name@].depends),
                        doc_map(self@)[target_name@],
                    )
                },
                Err(e) => match e {
                    YakeError::UnknownDependency { dependency, target } => {
                        &&& doc_map(self@).contains_key(target@)
                        &&& doc_map(self@)[target@].typ is Callable
                        &&& doc_map(self@)[target@].depends.contains(dependency@)
                        &&& !doc_map(self@).contains_key(dependency@)
                    },
                    YakeError::UnknownTarget { name, known } => {
                        &&& ((name@ == target_name@ && !(doc_map(self@).contains_key(target_name@)
                            && doc_map(self@)[target_name@].typ is Callable)) || (doc_map(
                            self@,
                        ).contains_key(target_name@) && exists|i: int|
                            1 <= i <= segments(target_name@).len() && name@ == dot_join(
                                #[trigger] segments(target_name@).take(i),
                            ) && tree_node(self@.targets, segments(target_name@).take(i)) is None))
                        &&& distinct_seq(strings_view(known@))
                        &&& (forall|k: Seq<char>|
                            #[trigger] strings_view(known@).contains(k) <==> (doc_map(
                                self@,
                            ).contains_key(k) && doc_map(self@)[k].typ is Callable))
                    },
                    YakeError::ReservedEnvironmentVariable { keys } => {
                        &&& doc_map(self@).contains_key(target_name@)
                        &&& has_reserved(resolved_env(self@, target_name@))
                        &&& distinct_seq(strings_view(keys@))
                        &&& (forall|k: Seq<char>|
                            #[trigger] strings_view(keys@).contains(k) <==> (resolved_env(
                                self@,
                                target_name@,
                            ).dom().contains(k) && reserved_key(k)))
                    },
                },
            },
    {
        let ghost m = doc_map(self@);
        let deps = match self.get_dependencies_by_name(target_name) {
            Ok(v) => v,
            Err(e) => {
                return Err(e);
            },
        };
        let envm = match self.get_target_env_vars(target_name) {
            Ok(x) => x,
            Err(e) => {
                proof {
                    if e is ReservedEnvironmentVariable {
                        assert(has_reserved(resolved_env(self@, target_name@)));
                    }
                }
                return Err(e);
            },
        };
        let target = match self.get_target_by_name(target_name) {
            Some(t) => t,
            None => unreached(),
        };
        let ghost dv = crate::deps::targets_view(deps@);
        let mut groups: Vec<Option<Vec<String>>> = Vec::new();
        let mut j: usize = 0;
        proof {
            assert(groups_view(groups@) =~= dv.take(0).map_values(|x: TargetV| x.commands));
        }
        while j < deps.len()
            invariant
                j <= deps@.len(),
                dv == crate::deps::targets_view(deps@),
                dv.len() == deps@.len(),
                forall|q: int| 0 <= q < deps@.len() ==> dv[q] == deps@[q]@,
                groups_view(groups@) == dv.take(j as int).map_values(|x: TargetV| x.commands),
            decreases deps@.len() - j,
        {
            let g = clone_opt_strings(&deps[j].commands);
            let ghost prev = groups@;
            proof {
                assert(opt_cmds_view(g) == dv[j as int].commands);
                assert(dv.take(j as int + 1) =~= dv.take(j as int).push(dv[j as int]));
                assert(groups_view(prev.push(g)) =~= groups_view(prev).push(opt_cmds_view(g)));
                assert(dv.take(j as int + 1).map_values(|x: TargetV| x.commands) =~= dv.take(
                    j as int,
                ).map_values(|x: TargetV| x.commands).push(dv[j as int].commands));
            }
            groups.push(g);
            j += 1;
        }
        let ghost prev = groups@;
        let g = clone_opt_strings(&target.commands);
        proof {
            assert(dv.take(dv.len() as int) =~= dv);
            assert(opt_cmds_view(g) == target@.commands);
            assert(groups_view(prev.push(g)) =~= groups_view(prev).push(opt_cmds_view(g)));
            assert(dv.push(target@).map_values(|x: TargetV| x.commands) =~= dv.map_values(
                |x: TargetV| x.commands,
            ).push(target@.commands));
        }
        groups.push(g);
        Ok(ExecutionPlan { env: envm, groups })
    }
}

} // verus!
