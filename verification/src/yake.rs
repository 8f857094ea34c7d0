//! The configuration data types: a document, its metadata, and the tree of
//! targets, together with their abstraction functions into the model and
//! value-preserving `Clone` implementations.

use crate::model::{
    distinct_names, doc_map, extend_prefix, flat_of, map_of, opt_qualify, qualify, TargetV, YakeV,
};
use crate::model::{
    lemma_all_map_push, lemma_flat_of_push, lemma_map_of_contains, lemma_map_of_distinct_index,
    lemma_map_of_push, lemma_map_of_update, lemma_union_empty, lemma_union_insert,
};
use vstd::prelude::*;
use vstd::string::StringExecFns;

verus! {

/// The role of a target: a group is a pure namespace, a callable carries
/// the commands that can be run.
#[derive(Clone, Copy, Debug, PartialEq, Eq, Structural)]
pub enum YakeTargetType {
    /// A group has no own commands, just sub-targets.
    Group,
    /// A callable has commands and is addressable for execution.
    Callable,
}

/// One environment variable: a key and its value.
#[derive(Debug, PartialEq)]
pub struct EnvEntry {
    /// Variable name
    pub key: String,
    /// Variable value
    pub value: String,
}

/// One named target in a target mapping.  Mappings are kept in declaration
/// order; a later entry with the same name overrides an earlier one.
#[derive(Debug, PartialEq)]
pub struct TargetEntry {
    /// The target's name (one path segment, or a full qualified name at the
    /// top level of a composed document)
    pub name: String,
    /// The target itself
    pub target: YakeTarget,
}

/// Meta data of a whole document.  All fields except
/// `include_recursively` are required by the document schema.
#[derive(Debug, PartialEq)]
pub struct YakeMeta {
    /// Documentation information
    pub doc: String,
    /// Version information
    pub version: String,
    /// Whether documents of subfolders are to be included
    pub include_recursively: Option<bool>,
}

/// Meta data of a single target.
#[derive(Debug, PartialEq)]
pub struct YakeTargetMeta {
    /// Documentation information
    pub doc: String,
    /// Role of the target
    pub target_type: YakeTargetType,
    /// Names of the targets this one depends on (qualified names)
    pub depends: Option<Vec<String>>,
}

/// A target: a node of the configuration tree.  A group uses `targets` to
/// hold its children; a callable uses `commands` to hold its shell command
/// lines.  Either field may be present on either role, but only callable
/// targets are addressable below the top level and only their commands are
/// ever planned for execution.
#[derive(Debug, PartialEq)]
pub struct YakeTarget {
    /// Target meta data
    pub meta: YakeTargetMeta,
    /// Subordinate targets
    pub targets: Option<Vec<TargetEntry>>,
    /// Environment variables declared on this target
    pub env: Option<Vec<EnvEntry>>,
    /// Shell command lines to execute
    pub commands: Option<Vec<String>>,
}

/// A whole configuration document: meta data, the root environment and the
/// top-level targets.
#[derive(Debug, PartialEq)]
pub struct Yake {
    /// Meta data
    pub meta: YakeMeta,
    /// Root environment variables
    pub env: Option<Vec<EnvEntry>>,
    /// Top-level targets
    pub targets: Vec<TargetEntry>,
}

/// An error of the resolution engine.  Every error is fatal to the run
/// that raised it; none is retried.
#[derive(Debug)]
pub enum YakeError {
    /// A requested name, or an ancestor prefix of one, that does not
    /// resolve; carries the full list of callable names to aid correction.
    UnknownTarget { name: String, known: Vec<String> },
    /// A declared dependency name that does not resolve, together with the
    /// target that declares it.
    UnknownDependency { dependency: String, target: String },
    /// Reserved variable names found in a resolved environment.
    ReservedEnvironmentVariable { keys: Vec<String> },
}

/// Abstract value of a sequence of strings.
pub open spec fn strings_view(v: Seq<String>) -> Seq<Seq<char>> {
    v.map_values(|s: String| s@)
}

/// Abstract value of an optional list of strings; an absent list and an
/// empty one mean the same.
pub open spec fn opt_strings_view(o: Option<Vec<String>>) -> Seq<Seq<char>> {
    match o {
        Some(v) => strings_view(v@),
        None => Seq::empty(),
    }
}

/// Abstract value of a list of environment entries.
pub open spec fn env_entries_view(v: Seq<EnvEntry>) -> Seq<(Seq<char>, Seq<char>)> {
    v.map_values(|e: EnvEntry| (e.key@, e.value@))
}

/// Abstract value of an optional list of environment entries; an absent
/// list and an empty one mean the same.
pub open spec fn opt_env_view(o: Option<Vec<EnvEntry>>) -> Seq<(Seq<char>, Seq<char>)> {
    match o {
        Some(v) => env_entries_view(v@),
        None => Seq::empty(),
    }
}

/// Abstract value of one target node.
pub open spec fn target_view(t: YakeTarget) -> TargetV
    decreases t,
{
    TargetV {
        doc: t.meta.doc@,
        typ: t.meta.target_type,
        depends: opt_strings_view(t.meta.depends),
        children: match t.targets {
            Some(v) => entries_view(v@),
            None => Seq::empty(),
        },
        env: opt_env_view(t.env),
        commands: match t.commands {
            Some(v) => Some(strings_view(v@)),
            None => None,
        },
    }
}

/// Abstract value of a sequence of named targets.
pub open spec fn entries_view(v: Seq<TargetEntry>) -> Seq<(Seq<char>, TargetV)>
    decreases v,
{
    if v.len() == 0 {
        Seq::empty()
    } else {
        entries_view(v.drop_last()).push((v.last().name@, target_view(v.last().target)))
    }
}

/// `entries_view` is a pointwise map: it keeps the length and abstracts
/// each entry in place.
pub proof fn lemma_entries_view(v: Seq<TargetEntry>)
    ensures
        entries_view(v).len() == v.len(),
        forall|i: int|
            0 <= i < v.len() ==> entries_view(v)[i] == (v[i].name@, target_view(v[i].target)),
    decreases v.len(),
{
    if v.len() > 0 {
        lemma_entries_view(v.drop_last());
    }
}

impl View for YakeTarget {
    type V = TargetV;

    open spec fn view(&self) -> TargetV {
        target_view(*self)
    }
}

impl View for Yake {
    type V = YakeV;

    open spec fn view(&self) -> YakeV {
        YakeV {
            doc: self.meta.doc@,
            version: self.meta.version@,
            include_recursively: self.meta.include_recursively,
            env: opt_env_view(self.env),
            targets: entries_view(self.targets@),
        }
    }
}

impl Clone for EnvEntry {
    /// Cloning keeps the entry's value.
    fn clone(&self) -> (res: Self)
        ensures
            res == *self,
    {
        EnvEntry { key: self.key.clone(), value: self.value.clone() }
    }
}

impl Clone for YakeMeta {
    /// Cloning keeps the metadata's value.
    fn clone(&self) -> (res: Self)
        ensures
            res == *self,
    {
        YakeMeta {
            doc: self.doc.clone(),
            version: self.version.clone(),
            include_recursively: self.include_recursively,
        }
    }
}

/// Clones an optional list of strings, keeping its abstract value and its
/// presence.
pub(crate) fn clone_opt_strings(o: &Option<Vec<String>>) -> (res: Option<Vec<String>>)
    ensures
        res is Some == *o is Some,
        opt_strings_view(res) == opt_strings_view(*o),
{
    match o {
        Some(v) => {
            let c = v.clone();
            proof {
                assert(c@ =~= v@);
            }
            Some(c)
        },
        None => None,
    }
}

impl Clone for YakeTargetMeta {
    /// Cloning keeps the metadata's abstract value.
    fn clone(&self) -> (res: Self)
        ensures
            res.doc == self.doc,
            res.target_type == self.target_type,
            opt_strings_view(res.depends) == opt_strings_view(self.depends),
    {
        YakeTargetMeta {
            doc: self.doc.clone(),
            target_type: self.target_type,
            depends: clone_opt_strings(&self.depends),
        }
    }
}

/// `entries_view` maps `push` to `push`.
pub proof fn lemma_entries_view_push(s: Seq<TargetEntry>, e: TargetEntry)
    ensures
        entries_view(s.push(e)) == entries_view(s).push((e.name@, target_view(e.target))),
{
    assert(s.push(e).drop_last() =~= s);
    assert(s.push(e).last() == e);
}

/// Clones a list of named targets, keeping its abstract value.
fn clone_entries(v: &Vec<TargetEntry>) -> (res: Vec<TargetEntry>)
    ensures
        entries_view(res@) == entries_view(v@),
    decreases *v,
{
    let mut res: Vec<TargetEntry> = Vec::new();
    let mut i: usize = 0;
    while i < v.len()
        invariant
            i <= v.len(),
            entries_view(res@) == entries_view(v@.take(i as int)),
        decreases v.len() - i,
    {
        proof {
            assert(decreases_to!(*v => v@[i as int]));
        }
        let ghost prev = res@;
        let e = (&v[i]).clone();
        proof {
            lemma_entries_view_push(prev, e);
            lemma_entries_view_push(v@.take(i as int), v@[i as int]);
            assert(v@.take(i as int + 1) =~= v@.take(i as int).push(v@[i as int]));
        }
        res.push(e);
        i += 1;
    }
    proof {
        assert(v@.take(v@.len() as int) =~= v@);
    }
    res
}

impl Clone for YakeTarget {
    /// Cloning keeps the target's abstract value.
    fn clone(&self) -> (res: Self)
        ensures
            res@ == self@,
        decreases *self,
    {
        let res = YakeTarget {
            meta: self.meta.clone(),
            targets: match &self.targets {
                Some(v) => Some(clone_entries(v)),
                None => None,
            },
            env: match &self.env {
                Some(v) => {
                    let c = v.clone();
                    proof {
                        assert(c@ =~= v@);
                    }
                    Some(c)
                },
                None => None,
            },
            commands: clone_opt_strings(&self.commands),
        };
        proof {
            assert(res@ =~= self@);
        }
        res
    }
}

impl Clone for TargetEntry {
    /// Cloning keeps the entry's abstract value.
    fn clone(&self) -> (res: Self)
        ensures
            res.name@ == self.name@,
            res.target@ == self.target@,
        decreases *self,
    {
        TargetEntry { name: self.name.clone(), target: self.target.clone() }
    }
}

/// Abstract value of an optional name.
pub open spec fn opt_name_view(o: Option<String>) -> Option<Seq<char>> {
    match o {
        Some(s) => Some(s@),
        None => None,
    }
}

/// `entries_view` maps an in-place update to an in-place update.
pub proof fn lemma_entries_view_update(s: Seq<TargetEntry>, i: int, e: TargetEntry)
    requires
        0 <= i < s.len(),
    ensures
        entries_view(s.update(i, e)) == entries_view(s).update(
            i,
            (e.name@, target_view(e.target)),
        ),
{
    lemma_entries_view(s.update(i, e));
    lemma_entries_view(s);
    assert(entries_view(s.update(i, e)) =~= entries_view(s).update(
        i,
        (e.name@, target_view(e.target)),
    ));
}

/// Joins an ancestor path and a child name with a dot.
pub(crate) fn join_dot(prefix: &String, name: &String) -> (res: String)
    ensures
        res@ == qualify(prefix@, name@),
{
    let mut s = prefix.clone();
    s.append(".");
    s.append(name.as_str());
    proof {
        reveal_strlit(".");
        assert(("."@).len() == 1);
        assert(s@ =~= qualify(prefix@, name@));
    }
    s
}

/// Finds the position of the last entry that carries a name, if any.
pub(crate) fn find_name(v: &Vec<TargetEntry>, name: &String) -> (res: Option<usize>)
    ensures
        match res {
            Some(i) => i < v@.len() && v@[i as int].name@ == name@ && (forall|j: int|
                i < j < v@.len() ==> v@[j].name@ != name@),
            None => forall|j: int| 0 <= j < v@.len() ==> v@[j].name@ != name@,
        },
{
    let mut i: usize = v.len();
    while i > 0
        invariant
            i <= v.len(),
            forall|j: int| i <= j < v@.len() ==> v@[j].name@ != name@,
        decreases i,
    {
        i = i - 1;
        if v[i].name == *name {
            return Some(i);
        }
    }
    None
}

/// Inserts one named target into an association list with distinct names:
/// the entry that already carries the name is replaced, otherwise the pair
/// is appended.  The denoted map gains exactly this pair.
fn insert_entry(out: &mut Vec<TargetEntry>, name: String, target: YakeTarget)
    requires
        distinct_names(entries_view(old(out)@)),
    ensures
        distinct_names(entries_view(final(out)@)),
        map_of(entries_view(final(out)@)) == map_of(entries_view(old(out)@)).insert(
            name@,
            target@,
        ),
{
    let ghost svec = out@;
    proof {
        lemma_entries_view(svec);
    }
    match find_name(out, &name) {
        Some(i) => {
            let e = TargetEntry { name, target };
            proof {
                lemma_entries_view_update(svec, i as int, e);
                lemma_map_of_update(entries_view(svec), i as int, e.target@);
                assert(entries_view(svec)[i as int].0 == e.name@);
            }
            out[i] = e;
            proof {
                let nv = entries_view(out@);
                let ov = entries_view(svec);
                assert(nv == ov.update(i as int, (e.name@, e.target@)));
                assert forall|p: int, q: int| 0 <= p < q < nv.len() implies nv[p].0 != nv[q].0 by {
                    assert(ov[p].0 != ov[q].0);
                    assert(nv[p].0 == ov[p].0);
                    assert(nv[q].0 == ov[q].0);
                }
            }
        },
        None => {
            let e = TargetEntry { name, target };
            proof {
                lemma_entries_view_push(svec, e);
                lemma_map_of_push(entries_view(svec), (e.name@, e.target@));
            }
            out.push(e);
            proof {
                let nv = entries_view(out@);
                let ov = entries_view(svec);
                lemma_entries_view(out@);
                assert forall|p: int, q: int| 0 <= p < q < nv.len() implies nv[p].0 != nv[q].0 by {
                    assert(nv[p].0 == out@[p].name@);
                    assert(nv[q].0 == out@[q].name@);
                    if q < nv.len() - 1 {
                        assert(ov[p].0 != ov[q].0);
                    }
                }
            }
        },
    }
}

/// Merges a list of named targets into an association list with distinct
/// names, entry by entry in order, later entries overriding earlier ones.
fn extend_entries(out: &mut Vec<TargetEntry>, subs: &Vec<TargetEntry>)
    requires
        distinct_names(entries_view(old(out)@)),
    ensures
        distinct_names(entries_view(final(out)@)),
        map_of(entries_view(final(out)@)) == map_of(entries_view(old(out)@)).union_prefer_right(
            map_of(entries_view(subs@)),
        ),
{
    let ghost m0 = map_of(entries_view(old(out)@));
    let mut j: usize = 0;
    proof {
        lemma_union_empty(m0);
        assert(entries_view(subs@).take(0) =~= Seq::empty());
    }
    while j < subs.len()
        invariant
            j <= subs.len(),
            distinct_names(entries_view(out@)),
            map_of(entries_view(out@)) == m0.union_prefer_right(
                map_of(entries_view(subs@).take(j as int)),
            ),
        decreases subs.len() - j,
    {
        proof {
            lemma_entries_view(subs@);
        }
        let name = subs[j].name.clone();
        let target = subs[j].target.clone();
        proof {
            let sv = entries_view(subs@);
            assert(sv.take(j as int + 1) =~= sv.take(j as int).push(sv[j as int]));
            lemma_map_of_push(sv.take(j as int), sv[j as int]);
            lemma_union_insert(
                m0,
                map_of(sv.take(j as int)),
                sv[j as int].0,
                sv[j as int].1,
            );
        }
        insert_entry(out, name, target);
        j += 1;
    }
    proof {
        lemma_entries_view(subs@);
        assert(entries_view(subs@).take(subs@.len() as int) =~= entries_view(subs@));
    }
}

impl YakeTarget {
    /// Flattens this target's subtree into the lookup entries it
    /// contributes: each callable child under its (optionally prefixed)
    /// qualified name, group children dissolved into their own children
    /// under the extended prefix.
    pub fn get_sub_targets(&self, prefix: Option<String>) -> (res: Vec<TargetEntry>)
        ensures
            distinct_names(entries_view(res@)),
            map_of(entries_view(res@)) == flat_of(self@.children, opt_name_view(prefix)),
        decreases *self,
    {
        let mut out: Vec<TargetEntry> = Vec::new();
        let ghost pv = opt_name_view(prefix);
        match &self.targets {
            None => {
                proof {
                    assert(self@.children =~= Seq::<(Seq<char>, TargetV)>::empty());
                }
            },
            Some(children) => {
                let mut i: usize = 0;
                proof {
                    assert(entries_view(children@).take(0) =~= Seq::empty());
                }
                while i < children.len()
                    invariant
                        i <= children.len(),
                        distinct_names(entries_view(out@)),
                        map_of(entries_view(out@)) == flat_of(
                            entries_view(children@).take(i as int),
                            pv,
                        ),
                        pv == opt_name_view(prefix),
                        self.targets == Some(*children),
                    decreases children.len() - i,
                {
                    proof {
                        lemma_entries_view(children@);
                        let cv = entries_view(children@);
                        assert(cv.take(i as int + 1) =~= cv.take(i as int).push(cv[i as int]));
                        lemma_flat_of_push(cv.take(i as int), cv[i as int], pv);
                    }
                    let e = &children[i];
                    match e.target.meta.target_type {
                        YakeTargetType::Callable => {
                            let qname: String = match &prefix {
                                Some(p) => join_dot(p, &e.name),
                                None => e.name.clone(),
                            };
                            proof {
                                assert(qname@ == opt_qualify(pv, e.name@));
                            }
                            insert_entry(&mut out, qname, e.target.clone());
                        },
                        YakeTargetType::Group => {
                            let p2: Option<String> = match &prefix {
                                Some(p) => Some(join_dot(p, &e.name)),
                                None => None,
                            };
                            proof {
                                assert(opt_name_view(p2) == extend_prefix(pv, e.name@));
                                assert(decreases_to!(*self => self.targets));
                                assert(self.targets == Some(*children));
                                assert(decreases_to!(self.targets => self.targets->Some_0));
                                assert(decreases_to!(self.targets => *children));
                                assert(decreases_to!(*children => children@[i as int]));
                                assert(decreases_to!(
                                    children@[i as int] => children@[i as int].target
                                ));
                                assert(decreases_to!(*self => children@[i as int].target));
                            }
                            let subs = e.target.get_sub_targets(p2);
                            extend_entries(&mut out, &subs);
                        },
                    }
                    i += 1;
                }
                proof {
                    lemma_entries_view(children@);
                    assert(entries_view(children@).take(children@.len() as int) =~= entries_view(
                        children@,
                    ));
                }
            },
        }
        out
    }
}

impl Yake {
    /// Flattens the whole document into its normalized lookup entries:
    /// every top-level target under its own name, and every top-level
    /// target's subtree under that name as the prefix.
    pub fn get_all_targets(&self) -> (res: Vec<TargetEntry>)
        ensures
            distinct_names(entries_view(res@)),
            map_of(entries_view(res@)) == doc_map(self@),
    {
        let mut out: Vec<TargetEntry> = Vec::new();
        let mut i: usize = 0;
        proof {
            assert(entries_view(self.targets@).take(0) =~= Seq::empty());
        }
        while i < self.targets.len()
            invariant
                i <= self.targets.len(),
                distinct_names(entries_view(out@)),
                map_of(entries_view(out@)) == crate::model::all_map_of(
                    entries_view(self.targets@).take(i as int),
                ),
            decreases self.targets.len() - i,
        {
            proof {
                lemma_entries_view(self.targets@);
                let tv = entries_view(self.targets@);
                assert(tv.take(i as int + 1) =~= tv.take(i as int).push(tv[i as int]));
                lemma_all_map_push(tv.take(i as int), tv[i as int]);
            }
            let e = &self.targets[i];
            insert_entry(&mut out, e.name.clone(), e.target.clone());
            let subs = e.target.get_sub_targets(Some(e.name.clone()));
            extend_entries(&mut out, &subs);
            i += 1;
        }
        proof {
            lemma_entries_view(self.targets@);
            assert(entries_view(self.targets@).take(self.targets@.len() as int) =~= entries_view(
                self.targets@,
            ));
        }
        out
    }

    /// Absorbs a subordinate document: its flattened targets are inserted
    /// into this document's top-level target map under their qualified
    /// names, overwriting existing entries; metadata and the root
    /// environment stay untouched.  The top-level names must be distinct,
    /// as they are in any document read from a configuration mapping.
    pub fn add_sub_yake(&mut self, yake: Yake)
        requires
            distinct_names(entries_view(old(self).targets@)),
        ensures
            distinct_names(entries_view(final(self).targets@)),
            map_of(entries_view(final(self).targets@)) == map_of(
                entries_view(old(self).targets@),
            ).union_prefer_right(doc_map(yake@)),
            final(self).meta == old(self).meta,
            final(self).env == old(self).env,
    {
        let subs = yake.get_all_targets();
        extend_entries(&mut self.targets, &subs);
    }
}

/// `strings_view` maps `push` to `push`.
pub proof fn lemma_strings_view_push(s: Seq<String>, e: String)
    ensures
        strings_view(s.push(e)) == strings_view(s).push(e@),
{
    assert(strings_view(s.push(e)) =~= strings_view(s).push(e@));
}

/// Whether a sequence of names has pairwise distinct entries.
pub open spec fn distinct_seq(s: Seq<Seq<char>>) -> bool {
    forall|i: int, j: int| 0 <= i < j < s.len() ==> s[i] != s[j]
}

/// Whether one of the first `n` entries carries the name `k` and is
/// callable.
pub open spec fn callable_among(ev: Seq<(Seq<char>, TargetV)>, n: int, k: Seq<char>) -> bool {
    exists|j: int| 0 <= j < n && (#[trigger] ev[j]).0 == k && ev[j].1.typ is Callable
}

/// A name callable among the first `n` entries stays so among more.
pub proof fn lemma_callable_among_mono(
    ev: Seq<(Seq<char>, TargetV)>,
    n: int,
    m: int,
    k: Seq<char>,
)
    requires
        callable_among(ev, n, k),
        n <= m,
    ensures
        callable_among(ev, m, k),
{
    let j = choose|j: int| 0 <= j < n && (#[trigger] ev[j]).0 == k && ev[j].1.typ is Callable;
    assert(0 <= j < m && ev[j].0 == k && ev[j].1.typ is Callable);
}

impl Yake {
    /// Lists the qualified names of all callable targets: every name is in
    /// the list exactly once, and a name is listed exactly when the
    /// flattened map holds a callable target under it.
    pub fn get_target_names(&self) -> (res: Vec<String>)
        ensures
            distinct_seq(strings_view(res@)),
            forall|k: Seq<char>|
                strings_view(res@).contains(k) <==> (doc_map(self@).contains_key(k) && doc_map(
                    self@,
                )[k].typ is Callable),
    {
        let all = self.get_all_targets();
        let ghost ev = entries_view(all@);
        proof {
            lemma_entries_view(all@);
            lemma_map_of_contains(ev);
        }
        let mut out: Vec<String> = Vec::new();
        let mut i: usize = 0;
        while i < all.len()
            invariant
                i <= all.len(),
                ev == entries_view(all@),
                distinct_names(ev),
                map_of(ev) == doc_map(self@),
                ev.len() == all@.len(),
                forall|j: int| 0 <= j < ev.len() ==> ev[j] == (all@[j].name@, all@[j].target@),
                distinct_seq(strings_view(out@)),
                forall|j: int|
                    0 <= j < i && ev[j].1.typ is Callable ==> strings_view(out@).contains(ev[j].0),
                forall|p: int|
                    0 <= p < out@.len() ==> callable_among(
                        ev,
                        i as int,
                        #[trigger] strings_view(out@)[p],
                    ),
            decreases all.len() - i,
        {
            let callable = match all[i].target.meta.target_type {
                YakeTargetType::Callable => true,
                YakeTargetType::Group => false,
            };
            if callable {
                let ghost prev = out@;
                let n = all[i].name.clone();
                proof {
                    lemma_strings_view_push(prev, n);
                }
                out.push(n);
                proof {
                    let sv = strings_view(out@);
                    let pv = strings_view(prev);
                    assert(sv == pv.push(ev[i as int].0));
                    assert(sv[sv.len() - 1] == ev[i as int].0);
                    assert forall|p: int, q: int| 0 <= p < q < sv.len() implies sv[p] != sv[q] by {
                        if q == sv.len() - 1 {
                            assert(callable_among(ev, i as int, pv[p]));
                            let j = choose|j: int|
                                0 <= j < i && (#[trigger] ev[j]).0 == pv[p]
                                    && ev[j].1.typ is Callable;
                            assert(ev[j].0 != ev[i as int].0);
                        }
                    }
                    assert forall|j: int|
                        0 <= j < i + 1 && ev[j].1.typ is Callable implies strings_view(
                        out@,
                    ).contains(ev[j].0) by {
                        if j < i {
                            let p = choose|p: int| 0 <= p < pv.len() && pv[p] == ev[j].0;
                            assert(sv[p] == ev[j].0);
                        } else {
                            assert(sv[sv.len() - 1] == ev[j].0);
                        }
                    }
                    assert(ev[i as int].1.typ is Callable);
                    assert forall|p: int| 0 <= p < out@.len() implies callable_among(
                        ev,
                        i + 1,
                        #[trigger] strings_view(out@)[p],
                    ) by {
                        if p < sv.len() - 1 {
                            assert(sv[p] == strings_view(prev)[p]);
                            assert(callable_among(ev, i as int, sv[p]));
                            lemma_callable_among_mono(ev, i as int, i + 1, sv[p]);
                        } else {
                            assert(0 <= i < i + 1 && ev[i as int].0 == sv[p]
                                && ev[i as int].1.typ is Callable);
                        }
                    }
                }
            } else {
                proof {
                    assert forall|p: int| 0 <= p < out@.len() implies callable_among(
                        ev,
                        i + 1,
                        #[trigger] strings_view(out@)[p],
                    ) by {
                        lemma_callable_among_mono(ev, i as int, i + 1, strings_view(out@)[p]);
                    }
                }
            }
            i += 1;
        }
        proof {
            let sv = strings_view(out@);
            assert forall|k: Seq<char>| sv.contains(k) implies (doc_map(self@).contains_key(k)
                && doc_map(self@)[k].typ is Callable) by {
                let p = choose|p: int| 0 <= p < sv.len() && sv[p] == k;
                assert(callable_among(ev, all@.len() as int, sv[p]));
                let j = choose|j: int|
                    0 <= j < all@.len() && (#[trigger] ev[j]).0 == sv[p]
                        && ev[j].1.typ is Callable;
                lemma_map_of_distinct_index(ev, j);
            }
            assert forall|k: Seq<char>| (doc_map(self@).contains_key(k) && doc_map(
                self@,
            )[k].typ is Callable) implies sv.contains(k) by {
                let j = choose|j: int| 0 <= j < ev.len() && ev[j].0 == k;
                lemma_map_of_distinct_index(ev, j);
                assert(ev[j].1.typ is Callable);
                assert(sv.contains(ev[j].0));
            }
        }
        out
    }

    /// Looks a target up in the flattened map by its qualified name.
    pub fn get_target_by_name(&self, target_name: &str) -> (res: Option<YakeTarget>)
        ensures
            match res {
                Some(t) => doc_map(self@).contains_key(target_name@) && t@ == doc_map(
                    self@,
                )[target_name@],
                None => !doc_map(self@).contains_key(target_name@),
            },
    {
        let all = self.get_all_targets();
        let name = target_name.to_owned();
        proof {
            lemma_entries_view(all@);
            lemma_map_of_contains(entries_view(all@));
        }
        match find_name(&all, &name) {
            Some(i) => {
                proof {
                    lemma_map_of_distinct_index(entries_view(all@), i as int);
                }
                Some(all[i].target.clone())
            },
            None => {
                proof {
                    let ev = entries_view(all@);
                    assert forall|j: int| 0 <= j < ev.len() implies ev[j].0 != target_name@ by {
                        assert(ev[j].0 == all@[j].name@);
                    }
                }
                None
            },
        }
    }

    /// Checks whether a qualified target name exists in the flattened map;
    /// if it does not, the full list of callable names is handed back to
    /// aid correction.
    pub fn has_target_name(&self, target_name: &str) -> (res: Result<(), Vec<String>>)
        ensures
            res is Ok <==> doc_map(self@).contains_key(target_name@),
            match res {
                Ok(u) => true,
                Err(names) => distinct_seq(strings_view(names@)) && (forall|k: Seq<char>|
                    strings_view(names@).contains(k) <==> (doc_map(self@).contains_key(k)
                        && doc_map(self@)[k].typ is Callable)),
            },
    {
        if self.get_target_by_name(target_name).is_some() {
            Ok(())
        } else {
            Err(self.get_target_names())
        }
    }
}

impl Clone for Yake {
    /// Cloning keeps the document's abstract value.
    fn clone(&self) -> (res: Self)
        ensures
            res@ == self@,
    {
        let res = Yake {
            meta: self.meta.clone(),
            env: match &self.env {
                Some(v) => {
                    let c = v.clone();
                    proof {
                        assert(c@ =~= v@);
                    }
                    Some(c)
                },
                None => None,
            },
            targets: clone_entries(&self.targets),
        };
        proof {
            assert(res@ =~= self@);
        }
        res
    }
}

} // verus!
