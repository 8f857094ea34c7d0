//! The mathematical model of a configuration document: abstract target
//! trees, the flattened qualified-name map, environment merging, and
//! dependency resolution, all as spec functions over sequences and maps.

use crate::yake::YakeTargetType;
use vstd::prelude::*;

verus! {

/// Abstract value of one target node: its documentation string, role,
/// declared dependency names, named children (in declaration order),
/// environment entries (in declaration order, later entries override
/// earlier ones for the same key), and optional command list.
#[verifier::ext_equal]
pub struct TargetV {
    pub doc: Seq<char>,
    pub typ: YakeTargetType,
    pub depends: Seq<Seq<char>>,
    pub children: Seq<(Seq<char>, TargetV)>,
    pub env: Seq<(Seq<char>, Seq<char>)>,
    pub commands: Option<Seq<Seq<char>>>,
}

/// Abstract value of a whole document: metadata, the root environment
/// entries and the top-level named targets.
#[verifier::ext_equal]
pub struct YakeV {
    pub doc: Seq<char>,
    pub version: Seq<char>,
    pub include_recursively: Option<bool>,
    pub env: Seq<(Seq<char>, Seq<char>)>,
    pub targets: Seq<(Seq<char>, TargetV)>,
}

/// The map denoted by an association list of named values: a later entry
/// with the same name overrides an earlier one.
pub open spec fn map_of<V>(entries: Seq<(Seq<char>, V)>) -> Map<Seq<char>, V>
    decreases entries.len(),
{
    if entries.len() == 0 {
        Map::empty()
    } else {
        map_of(entries.drop_last()).insert(entries.last().0, entries.last().1)
    }
}

/// A qualified name: the ancestor path joined to a child name with a dot.
pub open spec fn qualify(prefix: Seq<char>, name: Seq<char>) -> Seq<char> {
    prefix + seq!['.'] + name
}

/// A child name under an optional prefix: qualified when a prefix exists,
/// the bare name otherwise.
pub open spec fn opt_qualify(prefix: Option<Seq<char>>, name: Seq<char>) -> Seq<char> {
    match prefix {
        Some(p) => qualify(p, name),
        None => name,
    }
}

/// The prefix for a group child's own children: the group's qualified name
/// when a prefix exists; without one the group stays anonymous and its
/// children keep their bare names.
pub open spec fn extend_prefix(prefix: Option<Seq<char>>, name: Seq<char>) -> Option<Seq<char>> {
    match prefix {
        Some(p) => Some(qualify(p, name)),
        None => None,
    }
}

/// The flattened lookup entries contributed by a sequence of child nodes
/// under an optional name prefix.  A callable child is emitted under its
/// qualified name; a group child is transparent: it is not emitted, and its
/// own children are flattened under the extended prefix.  Later entries
/// override earlier ones.
pub open spec fn flat_of(
    children: Seq<(Seq<char>, TargetV)>,
    prefix: Option<Seq<char>>,
) -> Map<Seq<char>, TargetV>
    decreases children,
{
    if children.len() == 0 {
        Map::empty()
    } else {
        let e = children.last();
        let rest = flat_of(children.drop_last(), prefix);
        if e.1.typ is Callable {
            rest.insert(opt_qualify(prefix, e.0), e.1)
        } else {
            rest.union_prefer_right(flat_of(e.1.children, extend_prefix(prefix, e.0)))
        }
    }
}

/// The full flattened map of a document: every top-level target is
/// addressable under its own name regardless of its role, and every
/// top-level target's subtree is flattened under that name as the prefix.
pub open spec fn all_map_of(targets: Seq<(Seq<char>, TargetV)>) -> Map<Seq<char>, TargetV>
    decreases targets,
{
    if targets.len() == 0 {
        Map::empty()
    } else {
        let e = targets.last();
        all_map_of(targets.drop_last()).insert(e.0, e.1).union_prefer_right(
            flat_of(e.1.children, Some(e.0)),
        )
    }
}

/// The flattened map of a whole document.
pub open spec fn doc_map(y: YakeV) -> Map<Seq<char>, TargetV> {
    all_map_of(y.targets)
}

/// Whether an association list of named values has pairwise distinct names.
pub open spec fn distinct_names<V>(s: Seq<(Seq<char>, V)>) -> bool {
    forall|i: int, j: int| 0 <= i < j < s.len() ==> s[i].0 !== s[j].0
}

/// Appending one entry inserts its pair into the denoted map.
pub proof fn lemma_map_of_push<V>(s: Seq<(Seq<char>, V)>, e: (Seq<char>, V))
    ensures
        map_of(s.push(e)) == map_of(s).insert(e.0, e.1),
{
    assert(s.push(e).drop_last() =~= s);
}

/// A name is in the denoted map exactly when some entry carries it.
pub proof fn lemma_map_of_contains<V>(s: Seq<(Seq<char>, V)>)
    ensures
        forall|k: Seq<char>|
            map_of(s).contains_key(k) <==> (exists|i: int| 0 <= i < s.len() && s[i].0 == k),
    decreases s.len(),
{
    if s.len() > 0 {
        lemma_map_of_contains(s.drop_last());
        assert forall|k: Seq<char>| map_of(s).contains_key(k) implies (exists|i: int|
            0 <= i < s.len() && s[i].0 == k) by {
            if s.last().0 == k {
                assert(s[s.len() - 1].0 == k);
            } else {
                assert(map_of(s.drop_last()).contains_key(k));
                let i = choose|i: int| 0 <= i < s.drop_last().len() && s.drop_last()[i].0 == k;
                assert(s.drop_last()[i] == s[i]);
                assert(s[i].0 == k);
            }
        }
        assert forall|k: Seq<char>| (exists|i: int| 0 <= i < s.len() && s[i].0 == k) implies map_of(
            s,
        ).contains_key(k) by {
            let i = choose|i: int| 0 <= i < s.len() && s[i].0 == k;
            if i < s.len() - 1 {
                assert(s.drop_last()[i].0 == k);
                assert(map_of(s.drop_last()).contains_key(k));
            } else {
                assert(s.last().0 == k);
            }
        }
    }
}

/// With distinct names, each entry's pair is what the denoted map holds.
pub proof fn lemma_map_of_distinct_index<V>(s: Seq<(Seq<char>, V)>, i: int)
    requires
        distinct_names(s),
        0 <= i < s.len(),
    ensures
        map_of(s).contains_key(s[i].0),
        map_of(s)[s[i].0] == s[i].1,
    decreases s.len(),
{
    if i < s.len() - 1 {
        assert(distinct_names(s.drop_last()));
        assert(s.drop_last()[i] == s[i]);
        lemma_map_of_distinct_index(s.drop_last(), i);
    }
}

/// With distinct names, replacing the target of the entry that carries a
/// name is an insertion into the denoted map.
pub proof fn lemma_map_of_update<V>(s: Seq<(Seq<char>, V)>, i: int, v: V)
    requires
        distinct_names(s),
        0 <= i < s.len(),
    ensures
        map_of(s.update(i, (s[i].0, v))) == map_of(s).insert(s[i].0, v),
    decreases s.len(),
{
    let k = s[i].0;
    let t = s.update(i, (k, v));
    if i == s.len() - 1 {
        assert(t.drop_last() =~= s.drop_last());
        assert(map_of(t) =~= map_of(s).insert(k, v));
    } else {
        assert(distinct_names(s.drop_last()));
        assert(s.drop_last()[i] == s[i]);
        lemma_map_of_update(s.drop_last(), i, v);
        assert(t.drop_last() =~= s.drop_last().update(i, (k, v)));
        assert(t.last() == s.last());
        assert(map_of(t) =~= map_of(s).insert(k, v));
    }
}

/// Unfolds the flattened entries of a child list extended by one child.
pub proof fn lemma_flat_of_push(
    children: Seq<(Seq<char>, TargetV)>,
    e: (Seq<char>, TargetV),
    prefix: Option<Seq<char>>,
)
    ensures
        flat_of(children.push(e), prefix) == (if e.1.typ is Callable {
            flat_of(children, prefix).insert(opt_qualify(prefix, e.0), e.1)
        } else {
            flat_of(children, prefix).union_prefer_right(
                flat_of(e.1.children, extend_prefix(prefix, e.0)),
            )
        }),
{
    assert(children.push(e).drop_last() =~= children);
}

/// Unfolds the flattened map of a top-level target list extended by one
/// target.
pub proof fn lemma_all_map_push(targets: Seq<(Seq<char>, TargetV)>, e: (Seq<char>, TargetV))
    ensures
        all_map_of(targets.push(e)) == all_map_of(targets).insert(e.0, e.1).union_prefer_right(
            flat_of(e.1.children, Some(e.0)),
        ),
{
    assert(targets.push(e).drop_last() =~= targets);
}

/// Inserting into the right-hand side of a preferring union inserts into
/// the union.
pub proof fn lemma_union_insert<V>(
    m1: Map<Seq<char>, V>,
    m2: Map<Seq<char>, V>,
    k: Seq<char>,
    v: V,
)
    ensures
        m1.union_prefer_right(m2.insert(k, v)) == m1.union_prefer_right(m2).insert(k, v),
{
    assert(m1.union_prefer_right(m2.insert(k, v)) =~= m1.union_prefer_right(m2).insert(k, v));
}

/// A preferring union with the empty map on the right is the left map.
pub proof fn lemma_union_empty<V>(m: Map<Seq<char>, V>)
    ensures
        m.union_prefer_right(Map::empty()) == m,
{
    assert(m.union_prefer_right(Map::<Seq<char>, V>::empty()) =~= m);
}

/// A preferring union with the empty map on the left is the right map.
pub proof fn lemma_empty_union<V>(m: Map<Seq<char>, V>)
    ensures
        Map::empty().union_prefer_right(m) == m,
{
    assert(Map::<Seq<char>, V>::empty().union_prefer_right(m) =~= m);
}

/// The last entry that carries a name decides what the denoted map holds
/// under it, whether or not earlier entries repeat the name.
pub proof fn lemma_map_of_last_index<V>(s: Seq<(Seq<char>, V)>, i: int)
    requires
        0 <= i < s.len(),
        forall|j: int| i < j < s.len() ==> s[j].0 != s[i].0,
    ensures
        map_of(s).contains_key(s[i].0),
        map_of(s)[s[i].0] == s[i].1,
    decreases s.len(),
{
    if i < s.len() - 1 {
        assert(s.drop_last()[i] == s[i]);
        lemma_map_of_last_index(s.drop_last(), i);
    }
}


/// The reserved environment variable names: these are inherited from the
/// host process and must not be overridden by configuration.
pub open spec fn reserved_key(k: Seq<char>) -> bool {
    ||| k == "TERM"@
    ||| k == "TZ"@
    ||| k == "LANG"@
    ||| k == "PATH"@
    ||| k == "HOME"@
}

/// Whether a resolved environment holds any reserved variable name.
pub open spec fn has_reserved(m: Map<Seq<char>, Seq<char>>) -> bool {
    exists|k: Seq<char>| #[trigger] m.dom().contains(k) && reserved_key(k)
}

/// The segments of a name split on dots.  An empty name has one empty
/// segment; every dot separates two (possibly empty) segments.
pub open spec fn segments(s: Seq<char>) -> Seq<Seq<char>>
    decreases s.len(),
{
    if s.len() == 0 {
        seq![Seq::empty()]
    } else if s[0] == '.' {
        seq![Seq::<char>::empty()] + segments(s.drop_first())
    } else {
        let r = segments(s.drop_first());
        seq![seq![s[0]] + r[0]] + r.drop_first()
    }
}

/// A name always has at least one segment.
pub proof fn lemma_segments_nonempty(s: Seq<char>)
    ensures
        segments(s).len() >= 1,
    decreases s.len(),
{
    if s.len() > 0 {
        lemma_segments_nonempty(s.drop_first());
    }
}

/// A name without a dot is its own single segment.
pub proof fn lemma_segments_no_dot(s: Seq<char>)
    requires
        forall|j: int| 0 <= j < s.len() ==> s[j] != '.',
    ensures
        segments(s) == seq![s],
    decreases s.len(),
{
    if s.len() == 0 {
        assert(segments(s) =~~= seq![s]);
    } else {
        assert(forall|j: int| 0 <= j < s.drop_first().len() ==> s.drop_first()[j] != '.');
        lemma_segments_no_dot(s.drop_first());
        assert(seq![s[0]] + s.drop_first() =~= s);
        assert(segments(s) =~~= seq![s]);
    }
}

/// Splitting at the first dot: the part before it is the first segment and
/// the rest is split on its own.
pub proof fn lemma_segments_split_at_dot(s: Seq<char>, d: int)
    requires
        0 <= d < s.len(),
        s[d] == '.',
        forall|j: int| 0 <= j < d ==> s[j] != '.',
    ensures
        segments(s) == seq![s.subrange(0, d)] + segments(s.subrange(d + 1, s.len() as int)),
    decreases d,
{
    if d == 0 {
        assert(s.subrange(0, 0) =~= Seq::<char>::empty());
        assert(s.subrange(1, s.len() as int) =~= s.drop_first());
        assert(segments(s) =~~= seq![s.subrange(0, 0)] + segments(
            s.subrange(1, s.len() as int),
        ));
    } else {
        let r = s.drop_first();
        assert(r[d - 1] == '.');
        assert(forall|j: int| 0 <= j < d - 1 ==> r[j] != '.');
        lemma_segments_split_at_dot(r, d - 1);
        assert(seq![s[0]] + r.subrange(0, d - 1) =~= s.subrange(0, d));
        assert(r.subrange(d, r.len() as int) =~= s.subrange(d + 1, s.len() as int));
        assert(segments(s) =~~= seq![s.subrange(0, d)] + segments(
            s.subrange(d + 1, s.len() as int),
        ));
    }
}

/// Joins a sequence of segments with dots.
pub open spec fn dot_join(segs: Seq<Seq<char>>) -> Seq<char>
    decreases segs.len(),
{
    if segs.len() == 0 {
        Seq::empty()
    } else if segs.len() == 1 {
        segs[0]
    } else {
        qualify(dot_join(segs.drop_last()), segs.last())
    }
}

/// Looks a path of segments up in a target tree: the first segment in the
/// given entries, every further segment among the children of the node
/// found so far.
pub open spec fn tree_node(
    ts: Seq<(Seq<char>, TargetV)>,
    segs: Seq<Seq<char>>,
) -> Option<TargetV>
    decreases segs.len(),
{
    if segs.len() == 0 {
        None
    } else if !map_of(ts).contains_key(segs[0]) {
        None
    } else if segs.len() == 1 {
        Some(map_of(ts)[segs[0]])
    } else {
        tree_node(map_of(ts)[segs[0]].children, segs.drop_first())
    }
}

/// Descending one more segment from a resolved node looks the segment up
/// among that node's children.
pub proof fn lemma_tree_node_push(ts: Seq<(Seq<char>, TargetV)>, segs: Seq<Seq<char>>, x: Seq<char>)
    requires
        segs.len() >= 1,
    ensures
        tree_node(ts, segs.push(x)) == (match tree_node(ts, segs) {
            Some(t) => {
                if map_of(t.children).contains_key(x) {
                    Some(map_of(t.children)[x])
                } else {
                    None
                }
            },
            None => None,
        }),
    decreases segs.len(),
{
    let p = segs.push(x);
    assert(p[0] == segs[0]);
    if map_of(ts).contains_key(segs[0]) {
        if segs.len() == 1 {
            assert(p.drop_first() =~= seq![x]);
        } else {
            assert(p.drop_first() =~= segs.drop_first().push(x));
            lemma_tree_node_push(map_of(ts)[segs[0]].children, segs.drop_first(), x);
        }
    }
}

/// The environment entries of a possibly missing node.
pub open spec fn env_of_opt(o: Option<TargetV>) -> Map<Seq<char>, Seq<char>> {
    match o {
        Some(t) => map_of(t.env),
        None => Map::empty(),
    }
}

/// The environment accumulated from the document root through the first
/// `i` ancestor prefixes of a path: the root environment first, then each
/// prefix's own environment merged on top, shallow to deep.
pub open spec fn chain_env(y: YakeV, segs: Seq<Seq<char>>, i: int) -> Map<Seq<char>, Seq<char>>
    decreases i,
{
    if i <= 0 {
        map_of(y.env)
    } else {
        chain_env(y, segs, i - 1).union_prefer_right(env_of_opt(tree_node(y.targets, segs.take(i))))
    }
}

/// Whether every prefix of the path, up to length `n`, resolves to a node
/// of the target tree.
pub open spec fn prefixes_resolve(y: YakeV, segs: Seq<Seq<char>>, n: int) -> bool {
    forall|i: int| 1 <= i <= n ==> tree_node(y.targets, #[trigger] segs.take(i)) is Some
}

/// The fully merged environment of a target: the root environment, each
/// ancestor's environment shallow to deep, and the target's own environment
/// last, later layers overriding earlier ones for the same key.
pub open spec fn resolved_env(y: YakeV, name: Seq<char>) -> Map<Seq<char>, Seq<char>> {
    let segs = segments(name);
    chain_env(y, segs, segs.len() as int).union_prefer_right(map_of(doc_map(y)[name].env))
}


/// The targets that a list of dependency names resolves to, in declaration
/// order (meaningful when every name resolves).
pub open spec fn deps_seq(m: Map<Seq<char>, TargetV>, names: Seq<Seq<char>>) -> Seq<TargetV> {
    names.map_values(|n: Seq<char>| m[n])
}

/// Whether every name of a dependency list resolves in the flattened map.
pub open spec fn deps_resolve(m: Map<Seq<char>, TargetV>, names: Seq<Seq<char>>) -> bool {
    forall|i: int| 0 <= i < names.len() ==> m.contains_key(#[trigger] names[i])
}

/// Whether every callable target's dependency list resolves.
pub open spec fn all_deps_resolve(m: Map<Seq<char>, TargetV>) -> bool {
    forall|k: Seq<char>|
        #[trigger] m.contains_key(k) && m[k].typ is Callable ==> deps_resolve(m, m[k].depends)
}

/// The dependency map induced by the entries of a flattened map: one entry
/// per callable target, holding its resolved direct dependencies.
pub open spec fn dep_map_of(
    m: Map<Seq<char>, TargetV>,
    s: Seq<(Seq<char>, TargetV)>,
) -> Map<Seq<char>, Seq<TargetV>>
    decreases s.len(),
{
    if s.len() == 0 {
        Map::empty()
    } else {
        let rest = dep_map_of(m, s.drop_last());
        let e = s.last();
        if e.1.typ is Callable {
            rest.insert(e.0, deps_seq(m, e.1.depends))
        } else {
            rest
        }
    }
}

/// With distinct names, the dependency map holds exactly the callable
/// names, each with the dependencies its entry declares.
pub proof fn lemma_dep_map_of(m: Map<Seq<char>, TargetV>, s: Seq<(Seq<char>, TargetV)>)
    requires
        distinct_names(s),
    ensures
        forall|k: Seq<char>|
            #![trigger dep_map_of(m, s).contains_key(k)]
            #![trigger map_of(s).contains_key(k)]
            dep_map_of(m, s).contains_key(k) <==> (map_of(s).contains_key(k) && map_of(
                s,
            )[k].typ is Callable),
        forall|k: Seq<char>|
            #[trigger] dep_map_of(m, s).contains_key(k) ==> dep_map_of(m, s)[k] == deps_seq(
                m,
                map_of(s)[k].depends,
            ),
    decreases s.len(),
{
    if s.len() > 0 {
        let dl = s.drop_last();
        let e = s.last();
        assert(distinct_names(dl));
        lemma_dep_map_of(m, dl);
        lemma_map_of_contains(dl);
        assert forall|j: int| 0 <= j < s.len() - 1 implies s[j].0 != e.0 by {}
        assert(!map_of(dl).contains_key(e.0));
        assert forall|k: Seq<char>|
            dep_map_of(m, s).contains_key(k) == (map_of(s).contains_key(k) && map_of(
                s,
            )[k].typ is Callable) by {
            if k != e.0 {
                assert(dep_map_of(m, dl).contains_key(k) == (map_of(dl).contains_key(k) && map_of(
                    dl,
                )[k].typ is Callable));
            }
        }
        assert forall|k: Seq<char>| #[trigger]
            dep_map_of(m, s).contains_key(k) implies dep_map_of(m, s)[k] == deps_seq(
            m,
            map_of(s)[k].depends,
        ) by {
            if k != e.0 {
                assert(dep_map_of(m, dl).contains_key(k));
            }
        }
    }
}

} // verus!
