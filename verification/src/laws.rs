//! The general laws of the resolution engine, stated and proved against
//! the model: the override order of environment merging, the rejection of
//! reserved variable names whatever layer introduced them, the shape of a
//! resolved dependency list, and the override behaviour of composing a
//! subordinate document into a root document.

use crate::model::{
    all_map_of, chain_env, deps_seq, doc_map, dot_join, env_of_opt, extend_prefix, flat_of,
    has_reserved, map_of, qualify, reserved_key, resolved_env, segments, tree_node, TargetV, YakeV,
};
use crate::model::{distinct_names, lemma_map_of_contains};
use vstd::prelude::*;

verus! {

/// One layer of the environment merge of a target, shallow to deep: layer
/// `0` is the document root's environment, layer `i` for `1 <= i <= n` is
/// the environment of the ancestor prefix of length `i` (of `n` segments in
/// all), and layer `n + 1` is the target's own environment.
pub open spec fn env_layer(y: YakeV, name: Seq<char>, i: int) -> Map<Seq<char>, Seq<char>> {
    if i <= 0 {
        map_of(y.env)
    } else if i <= segments(name).len() {
        env_of_opt(tree_node(y.targets, segments(name).take(i)))
    } else {
        map_of(doc_map(y)[name].env)
    }
}

/// The number of layers above the root: the ancestor prefixes and the
/// target's own environment.
pub open spec fn env_layer_count(name: Seq<char>) -> int {
    segments(name).len() as int + 1
}

/// A key is in the accumulated ancestor-chain environment exactly when
/// some layer of the chain holds it.
proof fn lemma_chain_env_dom(y: YakeV, name: Seq<char>, n: int, k: Seq<char>)
    requires
        0 <= n <= segments(name).len(),
    ensures
        chain_env(y, segments(name), n).dom().contains(k) <==> (exists|i: int|
            0 <= i <= n && #[trigger] env_layer(y, name, i).dom().contains(k)),
    decreases n,
{
    if n == 0 {
        assert(env_layer(y, name, 0) == chain_env(y, segments(name), 0));
    } else {
        lemma_chain_env_dom(y, name, n - 1, k);
        assert(env_layer(y, name, n) == env_of_opt(tree_node(y.targets, segments(name).take(n))));
        if chain_env(y, segments(name), n).dom().contains(k) {
            if env_layer(y, name, n).dom().contains(k) {
            } else {
                assert(chain_env(y, segments(name), n - 1).dom().contains(k));
            }
        }
        if exists|i: int| 0 <= i <= n && #[trigger] env_layer(y, name, i).dom().contains(k) {
            let i = choose|i: int| 0 <= i <= n && #[trigger] env_layer(y, name, i).dom().contains(
                k,
            );
            if i < n {
                assert(chain_env(y, segments(name), n - 1).dom().contains(k));
            }
        }
    }
}

/// In the accumulated ancestor chain, the deepest layer that holds a key
/// decides its value.
proof fn lemma_chain_env_value(y: YakeV, name: Seq<char>, n: int, i: int, k: Seq<char>)
    requires
        0 <= i <= n <= segments(name).len(),
        env_layer(y, name, i).dom().contains(k),
        forall|j: int| i < j <= n ==> !(#[trigger] env_layer(y, name, j).dom().contains(k)),
    ensures
        chain_env(y, segments(name), n).dom().contains(k),
        chain_env(y, segments(name), n)[k] == env_layer(y, name, i)[k],
    decreases n,
{
    if n == 0 {
        assert(env_layer(y, name, 0) == chain_env(y, segments(name), 0));
    } else {
        assert(env_layer(y, name, n) == env_of_opt(tree_node(y.targets, segments(name).take(n))));
        if i == n {
            lemma_chain_env_dom(y, name, n, k);
        } else {
            lemma_chain_env_value(y, name, n - 1, i, k);
        }
    }
}

/// THE ENVIRONMENT MERGE ORDER.  The resolved environment of a target is
/// layered: the document root's environment, each ancestor's environment
/// shallow to deep, and the target's own environment last.  A key is
/// present exactly when some layer declares it, and the deepest layer that
/// declares it decides its value — the target's own environment overrides
/// every ancestor, a deeper ancestor overrides a shallower one, and every
/// layer overrides the root; keys declared by one layer only accumulate.
pub proof fn lemma_env_merge_order(y: YakeV, name: Seq<char>, i: int, k: Seq<char>)
    requires
        0 <= i <= env_layer_count(name),
        env_layer(y, name, i).dom().contains(k),
        forall|j: int|
            i < j <= env_layer_count(name) ==> !(#[trigger] env_layer(y, name, j).dom().contains(
                k,
            )),
    ensures
        resolved_env(y, name).dom().contains(k),
        resolved_env(y, name)[k] == env_layer(y, name, i)[k],
{
    let n = segments(name).len() as int;
    let own = map_of(doc_map(y)[name].env);
    assert(env_layer(y, name, n + 1) == own);
    if i == n + 1 {
    } else {
        lemma_chain_env_value(y, name, n, i, k);
        assert(!own.dom().contains(k));
    }
}

/// A key that no layer declares is absent from the resolved environment,
/// and a key some layer declares is present.
pub proof fn lemma_env_merge_dom(y: YakeV, name: Seq<char>, k: Seq<char>)
    ensures
        resolved_env(y, name).dom().contains(k) <==> (exists|i: int|
            0 <= i <= env_layer_count(name) && #[trigger] env_layer(y, name, i).dom().contains(k)),
{
    let n = segments(name).len() as int;
    let own = map_of(doc_map(y)[name].env);
    assert(env_layer(y, name, n + 1) == own);
    lemma_chain_env_dom(y, name, n, k);
    if resolved_env(y, name).dom().contains(k) {
        if own.dom().contains(k) {
            assert(env_layer(y, name, n + 1).dom().contains(k));
        } else {
            let i = choose|i: int|
                0 <= i <= n && #[trigger] env_layer(y, name, i).dom().contains(k);
            assert(0 <= i <= n + 1 && env_layer(y, name, i).dom().contains(k));
        }
    }
    if exists|i: int|
        0 <= i <= env_layer_count(name) && #[trigger] env_layer(y, name, i).dom().contains(k) {
        let i = choose|i: int|
            0 <= i <= env_layer_count(name) && #[trigger] env_layer(y, name, i).dom().contains(k);
        if i <= n {
            assert(chain_env(y, segments(name), n).dom().contains(k));
        }
    }
}

/// THE RESERVED-NAME REJECTION.  A reserved variable name declared by any
/// layer of the merge — the root, any ancestor, or the target itself — is
/// present in the resolved environment, which therefore counts as
/// containing a reserved name and is rejected, regardless of which layer
/// introduced it.
pub proof fn lemma_reserved_any_layer(y: YakeV, name: Seq<char>, i: int, k: Seq<char>)
    requires
        reserved_key(k),
        0 <= i <= env_layer_count(name),
        env_layer(y, name, i).dom().contains(k),
    ensures
        has_reserved(resolved_env(y, name)),
{
    lemma_env_merge_dom(y, name, k);
    assert(resolved_env(y, name).dom().contains(k));
}

/// THE SHAPE OF A DEPENDENCY LIST.  A resolved dependency list has one
/// entry per declared name, in declaration order, each the target that the
/// flattened map holds under that name; a target that declares no
/// dependencies resolves to the empty list.
pub proof fn lemma_dependencies_shape(m: Map<Seq<char>, TargetV>, names: Seq<Seq<char>>)
    ensures
        deps_seq(m, names).len() == names.len(),
        forall|i: int| 0 <= i < names.len() ==> deps_seq(m, names)[i] == m[#[trigger] names[i]],
        names.len() == 0 ==> deps_seq(m, names) == Seq::<TargetV>::empty(),
{
    if names.len() == 0 {
        assert(deps_seq(m, names) =~= Seq::<TargetV>::empty());
    }
}

/// THE COMPOSER OVERRIDE.  Merging a subordinate document into a root
/// document maps every qualified name: one present in both ends up with
/// the subordinate's target, one present only in the subordinate is added,
/// and one present only in the root is untouched.
pub proof fn lemma_compose_override(root: Map<Seq<char>, TargetV>, sub: Map<Seq<char>, TargetV>)
    ensures
        forall|k: Seq<char>|
            #[trigger] root.union_prefer_right(sub).dom().contains(k) <==> (root.dom().contains(k)
                || sub.dom().contains(k)),
        forall|k: Seq<char>|
            sub.dom().contains(k) ==> #[trigger] root.union_prefer_right(sub)[k] == sub[k],
        forall|k: Seq<char>|
            root.dom().contains(k) && !sub.dom().contains(k)
                ==> #[trigger] root.union_prefer_right(sub)[k] == root[k],
{
}


/// Whether a list of named trees is well formed: the names are pairwise
/// distinct, at this level and in every subtree, as they are in any
/// document read from nested configuration mappings.
pub open spec fn children_wf(children: Seq<(Seq<char>, TargetV)>) -> bool
    decreases children,
{
    &&& distinct_names(children)
    &&& children.len() > 0 ==> {
        &&& children_wf(children.drop_last())
        &&& children_wf(children.last().1.children)
    }
}

/// A path addressed by the flattener below the top level: every segment
/// resolves among the children of the node so far, every intermediate node
/// is a group, and the final node is callable.
pub open spec fn group_path(children: Seq<(Seq<char>, TargetV)>, segs: Seq<Seq<char>>) -> bool
    decreases segs.len(),
{
    &&& segs.len() >= 1
    &&& map_of(children).contains_key(segs[0])
    &&& {
        let t = map_of(children)[segs[0]];
        if segs.len() == 1 {
            t.typ is Callable
        } else {
            t.typ is Group && group_path(t.children, segs.drop_first())
        }
    }
}

/// A path the whole document addresses: a bare top-level name (of either
/// role), or a top-level name followed by a group path through that
/// target's subtree.
pub open spec fn doc_addresses(targets: Seq<(Seq<char>, TargetV)>, segs: Seq<Seq<char>>) -> bool {
    &&& segs.len() >= 1
    &&& map_of(targets).contains_key(segs[0])
    &&& (segs.len() == 1 || group_path(
        map_of(targets)[segs[0]].children,
        segs.drop_first(),
    ))
}

/// Some entry carries a contained name together with the value the map
/// holds under it (the last entry with that name).
proof fn lemma_map_of_witness<V>(s: Seq<(Seq<char>, V)>, k: Seq<char>)
    requires
        map_of(s).contains_key(k),
    ensures
        exists|i: int| 0 <= i < s.len() && #[trigger] s[i] == (k, map_of(s)[k]),
    decreases s.len(),
{
    if s.len() > 0 {
        if s.last().0 == k {
            assert(s[s.len() - 1] == (k, map_of(s)[k]));
        } else {
            lemma_map_of_witness(s.drop_last(), k);
            let i = choose|i: int|
                0 <= i < s.drop_last().len() && #[trigger] s.drop_last()[i] == (
                k,
                map_of(s.drop_last())[k],
            );
            assert(s[i] == (k, map_of(s)[k]));
        }
    }
}

/// Prepending a segment to a joined path qualifies the joined rest.
proof fn lemma_dot_join_cons(x: Seq<char>, s: Seq<Seq<char>>)
    requires
        s.len() >= 1,
    ensures
        dot_join(seq![x] + s) == qualify(x, dot_join(s)),
    decreases s.len(),
{
    let w = seq![x] + s;
    if s.len() == 1 {
        assert(w.len() == 2);
        assert(w.drop_last() =~= seq![x]);
        assert(dot_join(seq![x]) == x);
        assert(w.last() == s[0]);
        assert(dot_join(w) == qualify(x, s[0]));
        assert(dot_join(s) == s[0]);
    } else {
        assert(w.drop_last() =~= seq![x] + s.drop_last());
        lemma_dot_join_cons(x, s.drop_last());
        assert(w.last() == s.last());
        assert(qualify(qualify(x, dot_join(s.drop_last())), s.last()) =~= qualify(
            x,
            qualify(dot_join(s.drop_last()), s.last()),
        ));
    }
}

/// The flattened entries of a child list cover each child: a callable
/// child's qualified name is a key, and every key contributed by a group
/// child's subtree is a key.
proof fn lemma_flat_of_covers(
    children: Seq<(Seq<char>, TargetV)>,
    prefix: Option<Seq<char>>,
    i: int,
)
    requires
        0 <= i < children.len(),
    ensures
        children[i].1.typ is Callable ==> flat_of(children, prefix).contains_key(
            crate::model::opt_qualify(prefix, children[i].0),
        ),
        children[i].1.typ is Group ==> (forall|k: Seq<char>|
            #[trigger] flat_of(children[i].1.children, extend_prefix(prefix, children[i].0)).contains_key(k)
                ==> flat_of(children, prefix).contains_key(k)),
    decreases children.len(),
{
    if i < children.len() - 1 {
        assert(children.drop_last()[i] == children[i]);
        lemma_flat_of_covers(children.drop_last(), prefix, i);
    }
}

/// Completeness of the flattener below the top level: every group path is
/// a key of the flattened entries, under the prefix-qualified dot-joined
/// name.
proof fn lemma_flat_complete(
    children: Seq<(Seq<char>, TargetV)>,
    p: Seq<char>,
    segs: Seq<Seq<char>>,
)
    requires
        group_path(children, segs),
    ensures
        flat_of(children, Some(p)).contains_key(qualify(p, dot_join(segs))),
    decreases segs.len(),
{
    lemma_map_of_witness(children, segs[0]);
    let i = choose|i: int|
        0 <= i < children.len() && #[trigger] children[i] == (segs[0], map_of(children)[segs[0]]);
    let t = map_of(children)[segs[0]];
    lemma_flat_of_covers(children, Some(p), i);
    if segs.len() == 1 {
        assert(dot_join(segs) == segs[0]);
    } else {
        let rest = segs.drop_first();
        lemma_flat_complete(t.children, qualify(p, segs[0]), rest);
        assert(segs =~= seq![segs[0]] + rest);
        lemma_dot_join_cons(segs[0], rest);
        assert(qualify(qualify(p, segs[0]), dot_join(rest)) =~= qualify(
            p,
            qualify(segs[0], dot_join(rest)),
        ));
    }
}

/// Replacing the child list by one with one more entry of a fresh name
/// keeps every group path that does not start with that name.
proof fn lemma_group_path_extend(
    children: Seq<(Seq<char>, TargetV)>,
    segs: Seq<Seq<char>>,
)
    requires
        children.len() > 0,
        group_path(children.drop_last(), segs),
        distinct_names(children),
    ensures
        group_path(children, segs),
{
    let dl = children.drop_last();
    lemma_map_of_contains(dl);
    let w = choose|w: int| 0 <= w < dl.len() && dl[w].0 == segs[0];
    assert(children[w].0 == segs[0]);
    assert(children[w].0 != children.last().0);
    assert(map_of(children) == map_of(dl).insert(children.last().0, children.last().1));
    assert(map_of(children)[segs[0]] == map_of(dl)[segs[0]]);
}

/// Soundness of the flattener below the top level: in a well-formed tree,
/// every key of the flattened entries is the prefix-qualified dot-joined
/// name of a group path.
proof fn lemma_flat_sound(children: Seq<(Seq<char>, TargetV)>, p: Seq<char>, k: Seq<char>)
    requires
        children_wf(children),
        flat_of(children, Some(p)).contains_key(k),
    ensures
        exists|segs: Seq<Seq<char>>|
            #[trigger] group_path(children, segs) && k == qualify(p, dot_join(segs)),
    decreases children,
{
    let e = children.last();
    let dl = children.drop_last();
    let q = qualify(p, e.0);
    if e.1.typ is Callable {
        if k == crate::model::opt_qualify(Some(p), e.0) {
            let segs = seq![e.0];
            assert(map_of(children)[e.0] == e.1);
            assert(group_path(children, segs));
            assert(dot_join(segs) == e.0);
        } else {
            lemma_flat_sound(dl, p, k);
            let segs = choose|segs: Seq<Seq<char>>|
                #[trigger] group_path(dl, segs) && k == qualify(p, dot_join(segs));
            lemma_group_path_extend(children, segs);
        }
    } else {
        if flat_of(e.1.children, extend_prefix(Some(p), e.0)).contains_key(k) {
            lemma_flat_sound(e.1.children, q, k);
            let segs0 = choose|segs: Seq<Seq<char>>|
                #[trigger] group_path(e.1.children, segs) && k == qualify(q, dot_join(segs));
            let segs = seq![e.0] + segs0;
            assert(map_of(children)[e.0] == e.1);
            assert(segs.drop_first() =~= segs0);
            assert(group_path(children, segs));
            lemma_dot_join_cons(e.0, segs0);
            assert(qualify(p, dot_join(segs)) =~= qualify(q, dot_join(segs0)));
            assert(k == qualify(p, dot_join(segs)));
        } else {
            lemma_flat_sound(dl, p, k);
            let segs = choose|segs: Seq<Seq<char>>|
                #[trigger] group_path(dl, segs) && k == qualify(p, dot_join(segs));
            lemma_group_path_extend(children, segs);
        }
    }
}

/// Every top-level name is a key of the flattened map.
proof fn lemma_all_map_top(targets: Seq<(Seq<char>, TargetV)>, n: Seq<char>)
    requires
        map_of(targets).contains_key(n),
    ensures
        all_map_of(targets).contains_key(n),
    decreases targets.len(),
{
    if targets.len() > 0 {
        if targets.last().0 != n {
            lemma_all_map_top(targets.drop_last(), n);
        }
    }
}

/// Every key contributed by a top-level target's flattened subtree is a
/// key of the flattened map.
proof fn lemma_all_map_covers(targets: Seq<(Seq<char>, TargetV)>, i: int)
    requires
        0 <= i < targets.len(),
    ensures
        forall|k: Seq<char>|
            #[trigger] flat_of(targets[i].1.children, Some(targets[i].0)).contains_key(k)
                ==> all_map_of(targets).contains_key(k),
    decreases targets.len(),
{
    if i < targets.len() - 1 {
        assert(targets.drop_last()[i] == targets[i]);
        lemma_all_map_covers(targets.drop_last(), i);
    }
}

/// THE FLATTENING LAW, completeness.  Every path the document addresses —
/// every top-level target under its bare name, whatever its role, and
/// every callable node reached from a top-level target through group nodes
/// — appears in the flattened map under its full dot-joined ancestor path.
pub proof fn lemma_flatten_complete(y: YakeV, segs: Seq<Seq<char>>)
    requires
        doc_addresses(y.targets, segs),
    ensures
        doc_map(y).contains_key(dot_join(segs)),
{
    let targets = y.targets;
    if segs.len() == 1 {
        lemma_all_map_top(targets, segs[0]);
        assert(dot_join(segs) == segs[0]);
    } else {
        lemma_map_of_witness(targets, segs[0]);
        let i = choose|i: int|
            0 <= i < targets.len() && #[trigger] targets[i] == (
            segs[0],
            map_of(targets)[segs[0]],
        );
        let rest = segs.drop_first();
        assert(targets[i].0 == segs[0]);
        assert(targets[i].1 == map_of(targets)[segs[0]]);
        lemma_flat_complete(targets[i].1.children, segs[0], rest);
        lemma_all_map_covers(targets, i);
        assert(flat_of(targets[i].1.children, Some(targets[i].0)).contains_key(
            qualify(segs[0], dot_join(rest)),
        ));
        assert(all_map_of(targets).contains_key(qualify(segs[0], dot_join(rest))));
        assert(segs =~= seq![segs[0]] + rest);
        lemma_dot_join_cons(segs[0], rest);
        assert(dot_join(segs) == qualify(segs[0], dot_join(rest)));
    }
}

/// Replacing the top-level list by one with one more entry of a fresh name
/// keeps every addressed path that does not start with that name.
proof fn lemma_doc_addresses_extend(targets: Seq<(Seq<char>, TargetV)>, segs: Seq<Seq<char>>)
    requires
        targets.len() > 0,
        doc_addresses(targets.drop_last(), segs),
        distinct_names(targets),
    ensures
        doc_addresses(targets, segs),
{
    let dl = targets.drop_last();
    lemma_map_of_contains(dl);
    let w = choose|w: int| 0 <= w < dl.len() && dl[w].0 == segs[0];
    assert(targets[w].0 == segs[0]);
    assert(targets[w].0 != targets.last().0);
    assert(map_of(targets)[segs[0]] == map_of(dl)[segs[0]]);
}

/// THE FLATTENING LAW, soundness.  In a well-formed document, nothing else
/// appears: every key of the flattened map is the dot-joined name of an
/// addressed path — a bare top-level name, or a path whose intermediate
/// nodes are groups and whose final node is callable.  In particular, no
/// group below the top level is ever a key.
pub proof fn lemma_flatten_sound(y: YakeV, k: Seq<char>)
    requires
        children_wf(y.targets),
        doc_map(y).contains_key(k),
    ensures
        exists|segs: Seq<Seq<char>>|
            #[trigger] doc_addresses(y.targets, segs) && k == dot_join(segs),
    decreases y.targets.len(),
{
    lemma_flatten_sound_rec(y.targets, k);
}

/// The recursive core of soundness, over the top-level list.
proof fn lemma_flatten_sound_rec(targets: Seq<(Seq<char>, TargetV)>, k: Seq<char>)
    requires
        children_wf(targets),
        all_map_of(targets).contains_key(k),
    ensures
        exists|segs: Seq<Seq<char>>|
            #[trigger] doc_addresses(targets, segs) && k == dot_join(segs),
    decreases targets.len(),
{
    let e = targets.last();
    let dl = targets.drop_last();
    if flat_of(e.1.children, Some(e.0)).contains_key(k) {
        lemma_flat_sound(e.1.children, e.0, k);
        let segs0 = choose|segs: Seq<Seq<char>>|
            #[trigger] group_path(e.1.children, segs) && k == qualify(e.0, dot_join(segs));
        let segs = seq![e.0] + segs0;
        assert(map_of(targets)[e.0] == e.1);
        assert(segs.drop_first() =~= segs0);
        assert(doc_addresses(targets, segs));
        lemma_dot_join_cons(e.0, segs0);
        assert(k == dot_join(segs));
    } else if k == e.0 {
        let segs = seq![e.0];
        assert(map_of(targets).contains_key(e.0));
        assert(doc_addresses(targets, segs));
        assert(dot_join(segs) == e.0);
    } else {
        lemma_flatten_sound_rec(dl, k);
        let segs = choose|segs: Seq<Seq<char>>|
            #[trigger] doc_addresses(dl, segs) && k == dot_join(segs);
        lemma_doc_addresses_extend(targets, segs);
    }
}

} // verus!
