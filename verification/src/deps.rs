//! Dependency resolution: for every callable target of the flattened map,
//! the list of targets its declared dependency names resolve to, in
//! declaration order.  Only direct dependencies are resolved: a
//! dependency's own dependency list is not followed.

use crate::model::{
    all_deps_resolve, dep_map_of, deps_resolve, deps_seq, distinct_names, doc_map, map_of, TargetV,
};
use crate::model::{
    lemma_dep_map_of, lemma_map_of_contains, lemma_map_of_distinct_index, lemma_map_of_push,
};
use crate::yake::{
    distinct_seq, entries_view, lemma_entries_view, strings_view, target_view, Yake, YakeError,
    YakeTarget, YakeTargetType,
};
use vstd::prelude::*;

verus! {

/// Abstract value of a sequence of targets.
pub open spec fn targets_view(s: Seq<YakeTarget>) -> Seq<TargetV> {
    s.map_values(|t: YakeTarget| target_view(t))
}

/// One callable target's name and its resolved direct dependencies.
#[derive(Debug)]
pub struct DepEntry {
    /// The target's qualified name
    pub name: String,
    /// The targets its `depends` names resolve to, in declaration order
    pub deps: Vec<YakeTarget>,
}

/// Abstract value of a sequence of dependency entries.
pub open spec fn dep_entries_view(s: Seq<DepEntry>) -> Seq<(Seq<char>, Seq<TargetV>)> {
    s.map_values(|e: DepEntry| (e.name@, targets_view(e.deps@)))
}

/// The resolved dependency map: one entry per callable target of the
/// flattened map, with pairwise distinct names.
#[derive(Debug)]
pub struct DepMap {
    entries: Vec<DepEntry>,
}

impl View for DepMap {
    type V = Map<Seq<char>, Seq<TargetV>>;

    closed spec fn view(&self) -> Map<Seq<char>, Seq<TargetV>> {
        map_of(dep_entries_view(self.entries@))
    }
}

impl DepMap {
    /// The names of the underlying entries are pairwise distinct.
    #[verifier::type_invariant]
    spec fn wf(&self) -> bool {
        distinct_names(dep_entries_view(self.entries@))
    }

    /// The number of callable targets in the mapping.
    pub fn len(&self) -> (n: usize)
        ensures
            n as nat == self@.dom().len(),
    {
        proof {
            use_type_invariant(self);
            crate::env::lemma_map_of_dom_len(dep_entries_view(self.entries@));
            assert(dep_entries_view(self.entries@).len() == self.entries@.len());
        }
        self.entries.len()
    }

    /// Looks the dependency list of a callable target up by name.
    pub fn get(&self, name: &str) -> (res: Option<&Vec<YakeTarget>>)
        ensures
            match res {
                Some(v) => self@.contains_key(name@) && targets_view(v@) == self@[name@],
                None => !self@.contains_key(name@),
            },
    {
        proof {
            use_type_invariant(self);
        }
        let k = name.to_owned();
        let mut i: usize = 0;
        let ghost dv = dep_entries_view(self.entries@);
        proof {
            assert(dv.len() == self.entries@.len());
            assert(forall|j: int| 0 <= j < dv.len() ==> dv[j] == (self.entries@[j].name@,
            targets_view(self.entries@[j].deps@)));
        }
        while i < self.entries.len()
            invariant
                i <= self.entries@.len(),
                dv == dep_entries_view(self.entries@),
                dv.len() == self.entries@.len(),
                forall|j: int|
                    0 <= j < dv.len() ==> dv[j] == (self.entries@[j].name@, targets_view(
                        self.entries@[j].deps@,
                    )),
                distinct_names(dv),
                k@ == name@,
                forall|j: int| 0 <= j < i ==> self.entries@[j].name@ != name@,
            decreases self.entries@.len() - i,
        {
            if self.entries[i].name == k {
                proof {
                    lemma_map_of_distinct_index(dv, i as int);
                }
                return Some(&self.entries[i].deps);
            }
            i += 1;
        }
        proof {
            lemma_map_of_contains(dv);
        }
        None
    }
}

/// Clones a list of targets, keeping its abstract value.
fn clone_targets(v: &Vec<YakeTarget>) -> (res: Vec<YakeTarget>)
    ensures
        targets_view(res@) == targets_view(v@),
{
    let c = v.clone();
    proof {
        assert(targets_view(c@) =~= targets_view(v@));
    }
    c
}

impl Yake {
    /// Resolves the direct dependencies of every callable target of the
    /// flattened map: each entry holds the targets its declared dependency
    /// names resolve to, in declaration order; a name that does not resolve
    /// is a fatal configuration error naming both the missing dependency
    /// and the target that declares it.
    pub fn get_all_dependencies(&self) -> (res: Result<DepMap, YakeError>)
        ensures
            res is Ok <==> all_deps_resolve(doc_map(self@)),
            match res {
                Ok(d) => {
                    &&& forall|k: Seq<char>|
                        #![trigger d@.contains_key(k)]
                        #![trigger doc_map(self@).contains_key(k)]
                        d@.contains_key(k) <==> (doc_map(self@).contains_key(k) && doc_map(
                            self@,
                        )[k].typ is Callable)
                    &&& forall|k: Seq<char>|
                        #[trigger] d@.contains_key(k) ==> d@[k] == deps_seq(
                            doc_map(self@),
                            doc_map(self@)[k].depends,
                        )
                },
                Err(e) => match e {
                    YakeError::UnknownDependency { dependency, target } => {
                        &&& doc_map(self@).contains_key(target@)
                        &&& doc_map(self@)[target@].typ is Callable
                        &&& doc_map(self@)[target@].depends.contains(dependency@)
                        &&& !doc_map(self@).contains_key(dependency@)
                    },
                    _ => false,
                },
            },
    {
        let ghost m = doc_map(self@);
        let all = self.get_all_targets();
        let ghost av = entries_view(all@);
        proof {
            lemma_entries_view(all@);
        }
        let mut entries: Vec<DepEntry> = Vec::new();
        let mut i: usize = 0;
        proof {
            assert(dep_entries_view(entries@) =~= Seq::<(Seq<char>, Seq<TargetV>)>::empty());
            assert(av.take(0) =~= Seq::<(Seq<char>, TargetV)>::empty());
        }
        while i < all.len()
            invariant
                i <= all@.len(),
                m == doc_map(self@),
                av == entries_view(all@),
                av.len() == all@.len(),
                forall|j: int| 0 <= j < av.len() ==> av[j] == (all@[j].name@, all@[j].target@),
                distinct_names(av),
                map_of(av) == m,
                distinct_names(dep_entries_view(entries@)),
                map_of(dep_entries_view(entries@)) == dep_map_of(m, av.take(i as int)),
                forall|j: int|
                    0 <= j < i && (#[trigger] av[j]).1.typ is Callable ==> deps_resolve(
                        m,
                        av[j].1.depends,
                    ),
            decreases all@.len() - i,
        {
            let e = &all[i];
            let is_callable = match e.target.meta.target_type {
                YakeTargetType::Callable => true,
                YakeTargetType::Group => false,
            };
            proof {
                let t1 = av.take(i as int + 1);
                assert(t1.drop_last() =~= av.take(i as int));
                assert(t1.last() == av[i as int]);
            }
            if is_callable {
                let mut ds: Vec<YakeTarget> = Vec::new();
                let ghost depsv = av[i as int].1.depends;
                match &e.target.meta.depends {
                    Some(names) => {
                        proof {
                            assert(depsv == strings_view(names@));
                        }
                        let mut j: usize = 0;
                        proof {
                            assert(targets_view(ds@) =~= deps_seq(m, depsv.take(0)));
                        }
                        while j < names.len()
                            invariant
                                j <= names@.len(),
                                m == doc_map(self@),
                                depsv == strings_view(names@),
                                depsv.len() == names@.len(),
                                forall|q: int| 0 <= q < names@.len() ==> depsv[q] == names@[q]@,
                                av == entries_view(all@),
                                av.len() == all@.len(),
                                i < av.len(),
                                forall|q: int|
                                    0 <= q < av.len() ==> av[q] == (all@[q].name@, all@[q].target@),
                                distinct_names(av),
                                map_of(av) == m,
                                av[i as int].1.typ is Callable,
                                av[i as int].1.depends == depsv,
                                e.name@ == av[i as int].0,
                                targets_view(ds@) == deps_seq(m, depsv.take(j as int)),
                                forall|q: int|
                                    0 <= q < j ==> m.contains_key(#[trigger] depsv[q]),
                            decreases names@.len() - j,
                        {
                            let dep_name = &names[j];
                            match self.get_target_by_name(dep_name.as_str()) {
                                Some(t) => {
                                    let ghost prev = ds@;
                                    ds.push(t);
                                    proof {
                                        assert(depsv.take(j as int + 1) =~= depsv.take(
                                            j as int,
                                        ).push(depsv[j as int]));
                                        assert(targets_view(ds@) =~= targets_view(prev).push(
                                            ds@.last()@,
                                        ));
                                        assert(targets_view(ds@) =~= deps_seq(
                                            m,
                                            depsv.take(j as int + 1),
                                        ));
                                    }
                                },
                                None => {
                                    proof {
                                        assert(!m.contains_key(depsv[j as int]));
                                        lemma_map_of_distinct_index(av, i as int);
                                        assert(m.contains_key(av[i as int].0));
                                        assert(m[av[i as int].0] == av[i as int].1);
                                        assert(av[i as int].1.depends.contains(depsv[j as int]));
                                        assert(!all_deps_resolve(m)) by {
                                            assert(m.contains_key(av[i as int].0)
                                                && m[av[i as int].0].typ is Callable);
                                            assert(!deps_resolve(m, m[av[i as int].0].depends));
                                        }
                                    }
                                    return Err(
                                        YakeError::UnknownDependency {
                                            dependency: dep_name.clone(),
                                            target: e.name.clone(),
                                        },
                                    );
                                },
                            }
                            j += 1;
                        }
                        proof {
                            assert(depsv.take(names@.len() as int) =~= depsv);
                        }
                    },
                    None => {
                        proof {
                            assert(depsv =~= Seq::<Seq<char>>::empty());
                            assert(targets_view(ds@) =~= deps_seq(m, depsv));
                        }
                    },
                }
                let ghost pv = dep_entries_view(entries@);
                let de = DepEntry { name: e.name.clone(), deps: ds };
                proof {
                    assert(dep_entries_view(entries@.push(de)) =~= pv.push(
                        (de.name@, targets_view(de.deps@)),
                    ));
                    lemma_map_of_push(pv, (de.name@, targets_view(de.deps@)));
                    lemma_map_of_contains(av.take(i as int));
                }
                entries.push(de);
                proof {
                    let nv = dep_entries_view(entries@);
                    lemma_map_of_contains(pv);
                    assert forall|p: int, q: int| 0 <= p < q < nv.len() implies nv[p].0
                        != nv[q].0 by {
                        if q == nv.len() - 1 {
                            assert(map_of(pv).contains_key(pv[p].0));
                            assert(dep_map_of(m, av.take(i as int)).contains_key(pv[p].0));
                            lemma_dep_map_of(m, av.take(i as int));
                            lemma_map_of_contains(av.take(i as int));
                            let w = choose|w: int|
                                0 <= w < av.take(i as int).len() && av.take(i as int)[w].0
                                    == pv[p].0;
                            assert(av[w].0 != av[i as int].0);
                            assert(nv[q].0 == av[i as int].0);
                        }
                    }
                }
            }
            i += 1;
        }
        proof {
            assert(av.take(av.len() as int) =~= av);
            lemma_dep_map_of(m, av);
            let d = map_of(dep_entries_view(entries@));
            assert forall|k: Seq<char>| #[trigger] m.contains_key(k)
                && m[k].typ is Callable implies deps_resolve(m, m[k].depends) by {
                lemma_map_of_contains(av);
                let w = choose|w: int| 0 <= w < av.len() && av[w].0 == k;
                lemma_map_of_distinct_index(av, w);
                assert(av[w].1 == m[k]);
            }
        }
        Ok(DepMap { entries })
    }

    /// Resolves the direct dependency list of one callable target by name;
    /// the whole dependency map is computed first, so a dangling dependency
    /// anywhere in the document is reported even when another target was
    /// asked for.
    pub fn get_dependencies_by_name(&self, target_name: &str) -> (res: Result<
        Vec<YakeTarget>,
        YakeError,
    >)
        ensures
            res is Ok <==> (all_deps_resolve(doc_map(self@)) && doc_map(self@).contains_key(
                target_name@,
            ) && doc_map(self@)[target_name@].typ is Callable),
            match res {
                Ok(v) => targets_view(v@) == deps_seq(
                    doc_map(self@),
                    doc_map(self@)[target_name@].depends,
                ),
                Err(e) => match e {
                    YakeError::UnknownDependency { dependency, target } => {
                        &&& doc_map(self@).contains_key(target@)
                        &&& doc_map(self@)[target@].typ is Callable
                        &&& doc_map(self@)[target@].depends.contains(dependency@)
                        &&& !doc_map(self@).contains_key(dependency@)
                    },
                    YakeError::UnknownTarget { name, known } => {
                        &&& name@ == target_name@
                        &&& all_deps_resolve(doc_map(self@))
                        &&& !(doc_map(self@).contains_key(target_name@) && doc_map(
                            self@,
                        )[target_name@].typ is Callable)
                        &&& distinct_seq(strings_view(known@))
                        &&& (forall|k: Seq<char>|
                            #[trigger] strings_view(known@).contains(k) <==> (doc_map(
                                self@,
                            ).contains_key(k) && doc_map(self@)[k].typ is Callable))
                    },
                    _ => false,
                },
            },
    {
        match self.get_all_dependencies() {
            Err(e) => Err(e),
            Ok(d) => match d.get(target_name) {
                Some(v) => Ok(clone_targets(v)),
                None => Err(
                    YakeError::UnknownTarget {
                        name: target_name.to_owned(),
                        known: self.get_target_names(),
                    },
                ),
            },
        }
    }
}

} // verus!
