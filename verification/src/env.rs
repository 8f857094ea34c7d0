//! Environment resolution: merging the environment entries of a target's
//! ancestor chain into one mapping, and the rejection rule for reserved
//! variable names.

use crate::model::{
    chain_env, distinct_names, doc_map, dot_join, has_reserved, map_of, prefixes_resolve,
    reserved_key, resolved_env, segments, tree_node, TargetV,
};
use crate::model::{
    lemma_empty_union, lemma_map_of_contains, lemma_map_of_last_index, lemma_map_of_push,
    lemma_map_of_update, lemma_segments_no_dot, lemma_segments_nonempty,
    lemma_segments_split_at_dot, lemma_tree_node_push, lemma_union_empty, lemma_union_insert,
};
use crate::yake::{
    distinct_seq, entries_view, env_entries_view, find_name, join_dot, lemma_entries_view,
    lemma_strings_view_push, strings_view, EnvEntry, TargetEntry, Yake, YakeError,
};
use vstd::prelude::*;
use vstd::string::StrSliceExecFns;
use vstd::string::StringExecFns;

verus! {

/// `env_entries_view` is a pointwise map: it keeps the length and
/// abstracts each entry in place.
pub proof fn lemma_env_entries_view(v: Seq<EnvEntry>)
    ensures
        env_entries_view(v).len() == v.len(),
        forall|i: int| 0 <= i < v.len() ==> env_entries_view(v)[i] == (v[i].key@, v[i].value@),
{
    assert forall|i: int| 0 <= i < v.len() implies env_entries_view(v)[i] == (
        v[i].key@,
        v[i].value@,
    ) by {
        assert(env_entries_view(v)[i] == (v[i].key@, v[i].value@));
    }
}

/// `env_entries_view` maps `push` to `push`.
pub proof fn lemma_env_entries_view_push(s: Seq<EnvEntry>, e: EnvEntry)
    ensures
        env_entries_view(s.push(e)) == env_entries_view(s).push((e.key@, e.value@)),
{
    assert(env_entries_view(s.push(e)) =~= env_entries_view(s).push((e.key@, e.value@)));
}

/// `env_entries_view` maps an in-place update to an in-place update.
pub proof fn lemma_env_entries_view_update(s: Seq<EnvEntry>, i: int, e: EnvEntry)
    requires
        0 <= i < s.len(),
    ensures
        env_entries_view(s.update(i, e)) == env_entries_view(s).update(i, (e.key@, e.value@)),
{
    assert(env_entries_view(s.update(i, e)) =~= env_entries_view(s).update(
        i,
        (e.key@, e.value@),
    ));
}

/// Finds the position of the last entry that carries a key, if any.
fn env_find(v: &Vec<EnvEntry>, key: &String) -> (res: Option<usize>)
    ensures
        match res {
            Some(i) => i < v@.len() && v@[i as int].key@ == key@ && (forall|j: int|
                i < j < v@.len() ==> v@[j].key@ != key@),
            None => forall|j: int| 0 <= j < v@.len() ==> v@[j].key@ != key@,
        },
{
    let mut i: usize = v.len();
    while i > 0
        invariant
            i <= v.len(),
            forall|j: int| i <= j < v@.len() ==> v@[j].key@ != key@,
        decreases i,
    {
        i = i - 1;
        if v[i].key == *key {
            return Some(i);
        }
    }
    None
}

/// Inserts one variable into an association list with distinct keys: the
/// entry that already carries the key is replaced, otherwise the pair is
/// appended.  The denoted map gains exactly this pair.
fn env_insert(out: &mut Vec<EnvEntry>, key: String, value: String)
    requires
        distinct_names(env_entries_view(old(out)@)),
    ensures
        distinct_names(env_entries_view(final(out)@)),
        map_of(env_entries_view(final(out)@)) == map_of(env_entries_view(old(out)@)).insert(
            key@,
            value@,
        ),
{
    let ghost svec = out@;
    proof {
        lemma_env_entries_view(svec);
    }
    match env_find(out, &key) {
        Some(i) => {
            let e = EnvEntry { key, value };
            proof {
                lemma_env_entries_view_update(svec, i as int, e);
                lemma_map_of_update(env_entries_view(svec), i as int, e.value@);
                assert(env_entries_view(svec)[i as int].0 == e.key@);
            }
            out[i] = e;
            proof {
                let nv = env_entries_view(out@);
                let ov = env_entries_view(svec);
                assert(nv == ov.update(i as int, (e.key@, e.value@)));
                assert forall|p: int, q: int| 0 <= p < q < nv.len() implies nv[p].0 != nv[q].0 by {
                    assert(ov[p].0 != ov[q].0);
                    assert(nv[p].0 == ov[p].0);
                    assert(nv[q].0 == ov[q].0);
                }
            }
        },
        None => {
            let e = EnvEntry { key, value };
            proof {
                lemma_env_entries_view_push(svec, e);
                lemma_map_of_push(env_entries_view(svec), (e.key@, e.value@));
            }
            out.push(e);
            proof {
                let nv = env_entries_view(out@);
                let ov = env_entries_view(svec);
                lemma_env_entries_view(out@);
                assert forall|p: int, q: int| 0 <= p < q < nv.len() implies nv[p].0 != nv[q].0 by {
                    assert(nv[p].0 == out@[p].key@);
                    assert(nv[q].0 == out@[q].key@);
                    if q < nv.len() - 1 {
                        assert(ov[p].0 != ov[q].0);
                    }
                }
            }
        },
    }
}

/// Merges a list of variables into an association list with distinct keys,
/// entry by entry in order, later entries overriding earlier ones.
fn env_extend(out: &mut Vec<EnvEntry>, src: &Vec<EnvEntry>)
    requires
        distinct_names(env_entries_view(old(out)@)),
    ensures
        distinct_names(env_entries_view(final(out)@)),
        map_of(env_entries_view(final(out)@)) == map_of(
            env_entries_view(old(out)@),
        ).union_prefer_right(map_of(env_entries_view(src@))),
{
    let ghost m0 = map_of(env_entries_view(old(out)@));
    let mut j: usize = 0;
    proof {
        lemma_union_empty(m0);
        assert(env_entries_view(src@).take(0) =~= Seq::empty());
    }
    while j < src.len()
        invariant
            j <= src.len(),
            distinct_names(env_entries_view(out@)),
            map_of(env_entries_view(out@)) == m0.union_prefer_right(
                map_of(env_entries_view(src@).take(j as int)),
            ),
        decreases src.len() - j,
    {
        proof {
            lemma_env_entries_view(src@);
        }
        let key = src[j].key.clone();
        let value = src[j].value.clone();
        proof {
            let sv = env_entries_view(src@);
            assert(sv.take(j as int + 1) =~= sv.take(j as int).push(sv[j as int]));
            lemma_map_of_push(sv.take(j as int), sv[j as int]);
            lemma_union_insert(m0, map_of(sv.take(j as int)), sv[j as int].0, sv[j as int].1);
        }
        env_insert(out, key, value);
        j += 1;
    }
    proof {
        lemma_env_entries_view(src@);
        assert(env_entries_view(src@).take(src@.len() as int) =~= env_entries_view(src@));
    }
}

/// Splits a qualified name into its dot-separated segments.
pub fn split_name(name: &str) -> (res: Vec<String>)
    ensures
        strings_view(res@) == segments(name@),
        res@.len() >= 1,
{
    let n = name.unicode_len();
    let mut out: Vec<String> = Vec::new();
    let mut start: usize = 0;
    let mut i: usize = 0;
    proof {
        assert(name@.subrange(0, n as int) =~= name@);
        assert(strings_view(out@) + segments(name@) =~= segments(name@));
    }
    while i < n
        invariant
            start <= i <= n,
            n == name@.len(),
            strings_view(out@) + segments(name@.subrange(start as int, n as int)) == segments(
                name@,
            ),
            forall|j: int| start <= j < i ==> name@[j] != '.',
        decreases n - i,
    {
        if name.get_char(i) == '.' {
            let seg = name.substring_char(start, i).to_owned();
            proof {
                let rem = name@.subrange(start as int, n as int);
                lemma_segments_split_at_dot(rem, i - start as int);
                assert(rem.subrange(0, i - start as int) =~= name@.subrange(
                    start as int,
                    i as int,
                ));
                assert(rem.subrange(i - start as int + 1, rem.len() as int) =~= name@.subrange(
                    i as int + 1,
                    n as int,
                ));
                lemma_strings_view_push(out@, seg);
                assert(strings_view(out@).push(seg@) =~= strings_view(out@) + seq![seg@]);
                assert((strings_view(out@) + seq![seg@]) + segments(
                    name@.subrange(i as int + 1, n as int),
                ) =~= strings_view(out@) + (seq![seg@] + segments(
                    name@.subrange(i as int + 1, n as int),
                )));
            }
            out.push(seg);
            start = i + 1;
        }
        i += 1;
    }
    let seg = name.substring_char(start, n).to_owned();
    proof {
        let rem = name@.subrange(start as int, n as int);
        lemma_segments_no_dot(rem);
        lemma_strings_view_push(out@, seg);
        assert(strings_view(out@).push(seg@) =~= strings_view(out@) + seq![seg@]);
        assert(strings_view(out@) + seq![seg@] =~= strings_view(out@) + segments(rem));
    }
    out.push(seg);
    proof {
        lemma_segments_nonempty(name@);
    }
    out
}

/// Decides whether a variable name is one of the reserved names.
fn is_reserved(k: &String) -> (b: bool)
    ensures
        b == reserved_key(k@),
{
    let term: String = String::from_str("TERM");
    let tz: String = String::from_str("TZ");
    let lang: String = String::from_str("LANG");
    let path: String = String::from_str("PATH");
    let home: String = String::from_str("HOME");
    *k == term || *k == tz || *k == lang || *k == path || *k == home
}

/// With distinct keys, the denoted map has exactly one key per entry.
pub proof fn lemma_map_of_dom_len<V>(s: Seq<(Seq<char>, V)>)
    requires
        distinct_names(s),
    ensures
        map_of(s).dom().finite(),
        map_of(s).dom().len() == s.len(),
    decreases s.len(),
{
    if s.len() > 0 {
        assert(distinct_names(s.drop_last()));
        lemma_map_of_dom_len(s.drop_last());
        lemma_map_of_contains(s.drop_last());
        assert(!map_of(s.drop_last()).contains_key(s.last().0));
        assert(map_of(s).dom() =~= map_of(s.drop_last()).dom().insert(s.last().0));
    }
}

/// A resolved environment: a mapping from variable names to values with
/// pairwise distinct keys.
pub struct EnvMap {
    entries: Vec<EnvEntry>,
}

impl View for EnvMap {
    type V = Map<Seq<char>, Seq<char>>;

    closed spec fn view(&self) -> Map<Seq<char>, Seq<char>> {
        map_of(env_entries_view(self.entries@))
    }
}

impl EnvMap {
    /// The keys of the underlying entries are pairwise distinct.
    #[verifier::type_invariant]
    spec fn wf(&self) -> bool {
        distinct_names(env_entries_view(self.entries@))
    }

    /// The number of variables in the mapping.
    pub fn len(&self) -> (n: usize)
        ensures
            n as nat == self@.dom().len(),
    {
        proof {
            use_type_invariant(self);
            lemma_env_entries_view(self.entries@);
            lemma_map_of_dom_len(env_entries_view(self.entries@));
        }
        self.entries.len()
    }

    /// Looks a variable up by name.
    pub fn get(&self, key: &str) -> (res: Option<&String>)
        ensures
            match res {
                Some(v) => self@.contains_key(key@) && v@ == self@[key@],
                None => !self@.contains_key(key@),
            },
    {
        proof {
            use_type_invariant(self);
            lemma_env_entries_view(self.entries@);
        }
        let k = key.to_owned();
        match env_find(&self.entries, &k) {
            Some(i) => {
                proof {
                    lemma_map_of_last_index(env_entries_view(self.entries@), i as int);
                }
                Some(&self.entries[i].value)
            },
            None => {
                proof {
                    let ev = env_entries_view(self.entries@);
                    lemma_map_of_contains(ev);
                    assert forall|j: int| 0 <= j < ev.len() implies ev[j].0 != key@ by {
                        assert(ev[j].0 == self.entries@[j].key@);
                    }
                }
                None
            },
        }
    }

    /// The variables as a list of entries, in insertion order.
    pub fn items(&self) -> (res: &Vec<EnvEntry>)
        ensures
            map_of(env_entries_view(res@)) == self@,
            distinct_names(env_entries_view(res@)),
    {
        proof {
            use_type_invariant(self);
        }
        &self.entries
    }
}

/// Whether one of the first `n` entries carries the key `k`.
pub open spec fn keyed_among(ev: Seq<(Seq<char>, Seq<char>)>, n: int, k: Seq<char>) -> bool {
    exists|j: int| 0 <= j < n && (#[trigger] ev[j]).0 == k
}

/// A key carried among the first `n` entries stays so among more.
pub proof fn lemma_keyed_among_mono(ev: Seq<(Seq<char>, Seq<char>)>, n: int, m: int, k: Seq<char>)
    requires
        keyed_among(ev, n, k),
        n <= m,
    ensures
        keyed_among(ev, m, k),
{
    let j = choose|j: int| 0 <= j < n && (#[trigger] ev[j]).0 == k;
    assert(0 <= j < m && ev[j].0 == k);
}

impl Yake {
    /// Resolves the full environment of a target: the document root's
    /// variables, every ancestor prefix's variables shallow to deep, and
    /// the target's own variables last, later layers overriding earlier
    /// ones for the same key; the result is rejected when it contains a
    /// reserved variable name, whichever layer introduced it.
    pub fn get_target_env_vars(&self, target_name: &str) -> (res: Result<EnvMap, YakeError>)
        ensures
            res is Ok <==> (doc_map(self@).contains_key(target_name@) && prefixes_resolve(
                self@,
                segments(target_name@),
                segments(target_name@).len() as int,
            ) && !has_reserved(resolved_env(self@, target_name@))),
            match res {
                Ok(env) => env@ == resolved_env(self@, target_name@),
                Err(e) => match e {
                    YakeError::UnknownTarget { name, known } => {
                        &&& (!doc_map(self@).contains_key(target_name@) ==> name@ == target_name@)
                        &&& (doc_map(self@).contains_key(target_name@) ==> exists|i: int|
                            1 <= i <= segments(target_name@).len() && name@ == dot_join(
                                #[trigger] segments(target_name@).take(i),
                            ) && tree_node(self@.targets, segments(target_name@).take(i)) is None)
                        &&& distinct_seq(strings_view(known@))
                        &&& (forall|k: Seq<char>|
                            #[trigger] strings_view(known@).contains(k) <==> (doc_map(
                                self@,
                            ).contains_key(k) && doc_map(self@)[k].typ is Callable))
                    },
                    YakeError::ReservedEnvironmentVariable { keys } => {
                        &&& doc_map(self@).contains_key(target_name@)
                        &&& prefixes_resolve(
                            self@,
                            segments(target_name@),
                            segments(target_name@).len() as int,
                        )
                        &&& distinct_seq(strings_view(keys@))
                        &&& (forall|k: Seq<char>|
                            #[trigger] strings_view(keys@).contains(k) <==> (resolved_env(
                                self@,
                                target_name@,
                            ).dom().contains(k) && reserved_key(k)))
                    },
                    YakeError::UnknownDependency { .. } => false,
                },
            },
    {
        let ghost y = self@;
        let ghost segsv = segments(target_name@);
        let target = match self.get_target_by_name(target_name) {
            Some(t) => t,
            None => {
                return Err(
                    YakeError::UnknownTarget {
                        name: target_name.to_owned(),
                        known: self.get_target_names(),
                    },
                );
            },
        };
        let segs = split_name(target_name);
        let mut acc: Vec<EnvEntry> = Vec::new();
        match &self.env {
            Some(v) => {
                proof {
                    lemma_empty_union(map_of(env_entries_view(v@)));
                }
                env_extend(&mut acc, v);
            },
            None => {
                proof {
                    assert(env_entries_view(acc@) =~= Seq::<(Seq<char>, Seq<char>)>::empty());
                    assert(y.env =~= Seq::<(Seq<char>, Seq<char>)>::empty());
                }
            },
        }
        let empty_children: Vec<TargetEntry> = Vec::new();
        let mut children: &Vec<TargetEntry> = &self.targets;
        let mut cur_prefix: String = String::new();
        let mut i: usize = 0;
        proof {
            assert(segsv.take(0) =~= Seq::<Seq<char>>::empty());
            assert(entries_view(empty_children@) =~= Seq::<(Seq<char>, TargetV)>::empty());
        }
        while i < segs.len()
            invariant
                i <= segs.len(),
                strings_view(segs@) == segsv,
                segsv.len() == segs@.len(),
                y == self@,
                segsv == segments(target_name@),
                doc_map(y).contains_key(target_name@),
                entries_view(empty_children@) == Seq::<(Seq<char>, TargetV)>::empty(),
                distinct_names(env_entries_view(acc@)),
                map_of(env_entries_view(acc@)) == chain_env(y, segsv, i as int),
                prefixes_resolve(y, segsv, i as int),
                i >= 1 ==> cur_prefix@ == dot_join(segsv.take(i as int)),
                i == 0 ==> entries_view(children@) == y.targets,
                i >= 1 ==> tree_node(y.targets, segsv.take(i as int)) is Some && entries_view(
                    children@,
                ) == tree_node(y.targets, segsv.take(i as int))->Some_0.children,
            decreases segs.len() - i,
        {
            let seg = &segs[i];
            proof {
                assert(strings_view(segs@)[i as int] == segs@[i as int]@);
            }
            let new_prefix = if i == 0 {
                let p = seg.clone();
                proof {
                    assert(segsv.take(1) =~= seq![segsv[0]]);
                }
                p
            } else {
                let p = join_dot(&cur_prefix, seg);
                proof {
                    let t1 = segsv.take(i as int + 1);
                    assert(t1.drop_last() =~= segsv.take(i as int));
                    assert(t1.last() == segsv[i as int]);
                }
                p
            };
            proof {
                assert(new_prefix@ == dot_join(segsv.take(i as int + 1)));
            }
            match find_name(children, seg) {
                Some(idx) => {
                    let ghost cv = entries_view(children@);
                    proof {
                        lemma_entries_view(children@);
                        lemma_map_of_last_index(cv, idx as int);
                        assert(map_of(cv).contains_key(segsv[i as int]));
                        assert(map_of(cv)[segsv[i as int]] == children@[idx as int].target@);
                        if i == 0 {
                            assert(segsv.take(1) =~= seq![segsv[0]]);
                            assert(tree_node(y.targets, segsv.take(1)) == Some(
                                children@[idx as int].target@,
                            ));
                        } else {
                            lemma_tree_node_push(y.targets, segsv.take(i as int), segsv[i as int]);
                            assert(segsv.take(i as int).push(segsv[i as int]) =~= segsv.take(
                                i as int + 1,
                            ));
                            assert(tree_node(y.targets, segsv.take(i as int + 1)) == Some(
                                children@[idx as int].target@,
                            ));
                        }
                        assert forall|j: int| 1 <= j <= i + 1 implies tree_node(
                            y.targets,
                            #[trigger] segsv.take(j),
                        ) is Some by {
                            if j <= i as int {
                                assert(prefixes_resolve(y, segsv, i as int));
                            }
                        }
                    }
                    let t = &children[idx].target;
                    match &t.env {
                        Some(v) => {
                            env_extend(&mut acc, v);
                        },
                        None => {
                            proof {
                                assert(children@[idx as int].target@.env
                                    =~= Seq::<(Seq<char>, Seq<char>)>::empty());
                                lemma_union_empty(map_of(env_entries_view(acc@)));
                            }
                        },
                    }
                    children = match &t.targets {
                        Some(v) => v,
                        None => {
                            proof {
                                assert(children@[idx as int].target@.children =~= Seq::<
                                    (Seq<char>, TargetV),
                                >::empty());
                            }
                            &empty_children
                        },
                    };
                },
                None => {
                    proof {
                        let cv = entries_view(children@);
                        lemma_entries_view(children@);
                        lemma_map_of_contains(cv);
                        assert forall|j: int| 0 <= j < cv.len() implies cv[j].0
                            != segsv[i as int] by {
                            assert(cv[j].0 == children@[j].name@);
                        }
                        assert(!map_of(cv).contains_key(segsv[i as int]));
                        if i == 0 {
                            assert(segsv.take(1) =~= seq![segsv[0]]);
                            assert(tree_node(y.targets, segsv.take(1)) is None);
                        } else {
                            lemma_tree_node_push(y.targets, segsv.take(i as int), segsv[i as int]);
                            assert(segsv.take(i as int).push(segsv[i as int]) =~= segsv.take(
                                i as int + 1,
                            ));
                            assert(tree_node(y.targets, segsv.take(i as int + 1)) is None);
                        }
                        assert(!prefixes_resolve(y, segsv, segsv.len() as int));
                        let w = i as int + 1;
                        assert(1 <= w <= segsv.len() && new_prefix@ == dot_join(segsv.take(w))
                            && tree_node(y.targets, segsv.take(w)) is None);
                    }
                    return Err(
                        YakeError::UnknownTarget {
                            name: new_prefix,
                            known: self.get_target_names(),
                        },
                    );
                },
            }
            cur_prefix = new_prefix;
            i += 1;
        }
        match &target.env {
            Some(v) => {
                env_extend(&mut acc, v);
            },
            None => {
                proof {
                    assert(target@.env =~= Seq::<(Seq<char>, Seq<char>)>::empty());
                    lemma_union_empty(map_of(env_entries_view(acc@)));
                }
            },
        }
        let ghost menv = resolved_env(y, target_name@);
        proof {
            assert(map_of(env_entries_view(acc@)) == menv);
        }
        let ghost ev = env_entries_view(acc@);
        let mut bad: Vec<String> = Vec::new();
        let mut j: usize = 0;
        proof {
            lemma_env_entries_view(acc@);
        }
        while j < acc.len()
            invariant
                j <= acc.len(),
                ev == env_entries_view(acc@),
                ev.len() == acc@.len(),
                forall|q: int| 0 <= q < acc@.len() ==> ev[q] == (acc@[q].key@, acc@[q].value@),
                distinct_names(ev),
                distinct_seq(strings_view(bad@)),
                forall|p: int|
                    0 <= p < bad@.len() ==> reserved_key(#[trigger] strings_view(bad@)[p])
                        && keyed_among(ev, j as int, strings_view(bad@)[p]),
                forall|q: int|
                    0 <= q < j && reserved_key((#[trigger] ev[q]).0) ==> strings_view(
                        bad@,
                    ).contains(ev[q].0),
            decreases acc.len() - j,
        {
            if is_reserved(&acc[j].key) {
                let ghost prev = bad@;
                let k = acc[j].key.clone();
                proof {
                    lemma_strings_view_push(prev, k);
                }
                bad.push(k);
                proof {
                    let sv = strings_view(bad@);
                    let pv = strings_view(prev);
                    assert(sv == pv.push(ev[j as int].0));
                    assert(sv[sv.len() - 1] == ev[j as int].0);
                    assert forall|p: int, q: int| 0 <= p < q < sv.len() implies sv[p] != sv[q] by {
                        if q == sv.len() - 1 {
                            assert(keyed_among(ev, j as int, pv[p]));
                            let w = choose|w: int| 0 <= w < j && (#[trigger] ev[w]).0 == pv[p];
                            assert(ev[w].0 != ev[j as int].0);
                        }
                    }
                    assert forall|p: int| 0 <= p < bad@.len() implies reserved_key(
                        #[trigger] strings_view(bad@)[p],
                    ) && keyed_among(ev, j as int + 1, strings_view(bad@)[p]) by {
                        if p < sv.len() - 1 {
                            assert(sv[p] == pv[p]);
                            lemma_keyed_among_mono(ev, j as int, j as int + 1, sv[p]);
                        } else {
                            assert(0 <= j < j + 1 && ev[j as int].0 == sv[p]);
                        }
                    }
                    assert forall|q: int|
                        0 <= q < j + 1 && reserved_key((#[trigger] ev[q]).0) implies strings_view(
                        bad@,
                    ).contains(ev[q].0) by {
                        if q < j as int {
                            let p = choose|p: int| 0 <= p < pv.len() && pv[p] == ev[q].0;
                            assert(sv[p] == ev[q].0);
                        } else {
                            assert(sv[sv.len() - 1] == ev[q].0);
                        }
                    }
                }
            } else {
                proof {
                    assert forall|p: int| 0 <= p < bad@.len() implies reserved_key(
                        #[trigger] strings_view(bad@)[p],
                    ) && keyed_among(ev, j as int + 1, strings_view(bad@)[p]) by {
                        lemma_keyed_among_mono(ev, j as int, j as int + 1, strings_view(bad@)[p]);
                    }
                }
            }
            j += 1;
        }
        proof {
            lemma_map_of_contains(ev);
        }
        if bad.len() > 0 {
            proof {
                let sv = strings_view(bad@);
                assert forall|k: Seq<char>| sv.contains(k) implies (menv.dom().contains(k)
                    && reserved_key(k)) by {
                    let p = choose|p: int| 0 <= p < sv.len() && sv[p] == k;
                    assert(keyed_among(ev, ev.len() as int, sv[p]));
                    let w = choose|w: int| 0 <= w < ev.len() && (#[trigger] ev[w]).0 == sv[p];
                    assert(menv.contains_key(ev[w].0));
                }
                assert forall|k: Seq<char>| (menv.dom().contains(k) && reserved_key(
                    k,
                )) implies sv.contains(k) by {
                    let w = choose|w: int| 0 <= w < ev.len() && ev[w].0 == k;
                    assert(reserved_key(ev[w].0));
                    assert(sv.contains(ev[w].0));
                }
                assert(sv[0] == strings_view(bad@)[0]);
                assert(menv.dom().contains(sv[0]) && reserved_key(sv[0]));
                assert(has_reserved(menv));
            }
            Err(YakeError::ReservedEnvironmentVariable { keys: bad })
        } else {
            proof {
                assert forall|k: Seq<char>| #[trigger]
                    menv.dom().contains(k) implies !reserved_key(k) by {
                    let w = choose|w: int| 0 <= w < ev.len() && ev[w].0 == k;
                    if reserved_key(ev[w].0) {
                        assert(strings_view(bad@).contains(ev[w].0));
                    }
                }
                assert(!has_reserved(menv));
            }
            Ok(EnvMap { entries: acc })
        }
    }
}

impl Default for EnvMap {
    /// The empty mapping.
    fn default() -> (res: Self)
        ensures
            res@ == Map::<Seq<char>, Seq<char>>::empty(),
    {
        EnvMap { entries: Vec::new() }
    }
}

} // verus!
