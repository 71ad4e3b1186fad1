use vstd::prelude::*;
use vstd::multiset::Multiset;
use crate::text::{contains_text, text_less, text_lt, views};

verus! {

/// A vertex of a dependency graph: an id and the ids it depends on.
#[derive(Clone, Debug, PartialEq, Eq)]
pub struct Node {
    pub id: String,
    pub dependencies: Vec<String>,
}

/// All dependencies of `n` are among `done`.
pub open spec fn ready(n: Node, done: Seq<Seq<char>>) -> bool {
    forall|j: int| 0 <= j < n.dependencies@.len() ==> done.contains(#[trigger] n.dependencies@[j]@)
}

/// `s` with `n` placed after every node whose id is not greater than its own.
pub open spec fn insert_by_id(s: Seq<Node>, n: Node) -> Seq<Node>
    decreases s.len(),
{
    if s.len() == 0 {
        seq![n]
    } else if text_lt(n.id@, s.last().id@) {
        insert_by_id(s.drop_last(), n).push(s.last())
    } else {
        s.push(n)
    }
}

/// The nodes in ascending id order; nodes with equal ids keep their order.
pub open spec fn sort_by_id(s: Seq<Node>) -> Seq<Node>
    decreases s.len(),
{
    if s.len() == 0 {
        seq![]
    } else {
        insert_by_id(sort_by_id(s.drop_last()), s.last())
    }
}

/// The first step: nodes without dependencies are emitted in order, the others remain.
pub open spec fn split_leaves(s: Seq<Node>) -> (Seq<Node>, Seq<Seq<char>>)
    decreases s.len(),
{
    if s.len() == 0 {
        (seq![], seq![])
    } else {
        let (kept, done) = split_leaves(s.drop_last());
        let n = s.last();
        if n.dependencies@.len() == 0 {
            (kept, done.push(n.id@))
        } else {
            (kept.push(n), done)
        }
    }
}

/// One pass over the remaining nodes, in order: a node whose dependencies are all
/// emitted (also earlier in this pass) is emitted, the others remain.
pub open spec fn pass(rest: Seq<Node>, done: Seq<Seq<char>>) -> (Seq<Node>, Seq<Seq<char>>)
    decreases rest.len(),
{
    if rest.len() == 0 {
        (seq![], done)
    } else {
        let (kept, d) = pass(rest.drop_last(), done);
        let n = rest.last();
        if ready(n, d) {
            (kept, d.push(n.id@))
        } else {
            (kept.push(n), d)
        }
    }
}

/// Passes are repeated while one of them emits a node.
pub open spec fn peel(rest: Seq<Node>, done: Seq<Seq<char>>) -> Seq<Seq<char>>
    decreases rest.len(),
{
    if rest.len() == 0 {
        done
    } else {
        let (kept, d) = pass(rest, done);
        if kept.len() < rest.len() {
            peel(kept, d)
        } else {
            d
        }
    }
}

/// The ids in the order in which `sort_deps` emits them.
pub open spec fn dependency_order(nodes: Seq<Node>) -> Seq<Seq<char>> {
    let (rest, done) = split_leaves(sort_by_id(nodes));
    peel(rest, done)
}

proof fn lemma_insert_at(s: Seq<Node>, n: Node, j: int)
    requires
        0 <= j <= s.len(),
        forall|k: int| j <= k < s.len() ==> text_lt(n.id@, #[trigger] s[k].id@),
        j > 0 ==> !text_lt(n.id@, s[j - 1].id@),
    ensures
        insert_by_id(s, n) == s.insert(j, n),
    decreases s.len(),
{
    if s.len() == 0 {
        assert(s.insert(j, n) =~= seq![n]);
    } else if j == s.len() {
        assert(s.insert(j, n) =~= s.push(n));
    } else {
        lemma_insert_at(s.drop_last(), n, j);
        assert(s.drop_last().insert(j, n).push(s.last()) =~= s.insert(j, n));
    }
}

proof fn lemma_pass_len(rest: Seq<Node>, done: Seq<Seq<char>>)
    ensures
        pass(rest, done).0.len() <= rest.len(),
        pass(rest, done).0.len() == rest.len() ==> pass(rest, done).1 == done,
        pass(rest, done).0.len() == rest.len() ==> forall|k: int| 0 <= k < rest.len() ==> !ready(#[trigger] rest[k], done),
    decreases rest.len(),
{
    if rest.len() > 0 {
        lemma_pass_len(rest.drop_last(), done);
        let (kept, d) = pass(rest.drop_last(), done);
        if pass(rest, done).0.len() == rest.len() {
            assert forall|k: int| 0 <= k < rest.len() implies !ready(#[trigger] rest[k], done) by {
                if k < rest.len() - 1 {
                    assert(rest[k] == rest.drop_last()[k]);
                }
            }
        }
    }
}


/// The ids of a sequence of nodes, counted.
pub open spec fn id_counts(s: Seq<Node>) -> Multiset<Seq<char>> {
    s.map_values(|n: Node| n.id@).to_multiset()
}

/// No two nodes share an id.
pub open spec fn distinct_ids(nodes: Seq<Node>) -> bool {
    forall|i: int, j: int|
        0 <= i < nodes.len() && 0 <= j < nodes.len() && i != j ==> nodes[i].id@ != nodes[j].id@
}

/// Every dependency names the id of some node.
pub open spec fn closed(nodes: Seq<Node>) -> bool {
    forall|i: int, j: int|
        0 <= i < nodes.len() && 0 <= j < nodes[i].dependencies@.len() ==> exists|k: int|
            0 <= k < nodes.len() && nodes[k].id@ == #[trigger] nodes[i].dependencies@[j]@
}

/// `rank` strictly decreases along every dependency, so the graph has no cycle.
pub open spec fn ranked(nodes: Seq<Node>, rank: spec_fn(Seq<char>) -> nat) -> bool {
    forall|i: int, j: int|
        0 <= i < nodes.len() && 0 <= j < nodes[i].dependencies@.len() ==> rank(
            #[trigger] nodes[i].dependencies@[j]@,
        ) < rank(nodes[i].id@)
}

/// Each emitted id belongs to a node all of whose dependencies were emitted before it.
pub open spec fn deps_before(all: Seq<Node>, out: Seq<Seq<char>>) -> bool {
    forall|i: int|
        0 <= i < out.len() ==> exists|k: int|
            0 <= k < all.len() && all[k].id@ == #[trigger] out[i] && ready(all[k], out.take(i))
}

/// A node whose dependencies were all emitted has its id emitted.
pub open spec fn saturated(all: Seq<Node>, out: Seq<Seq<char>>) -> bool {
    forall|k: int| 0 <= k < all.len() && ready(#[trigger] all[k], out) ==> out.contains(all[k].id@)
}

/// What holds of the state between passes.
spec fn state_core(all: Seq<Node>, rest: Seq<Node>, done: Seq<Seq<char>>) -> bool {
    &&& forall|k: int| 0 <= k < rest.len() ==> all.contains(#[trigger] rest[k])
    &&& deps_before(all, done)
    &&& id_counts(rest).add(done.to_multiset()).subset_of(id_counts(all))
}

spec fn covers(all: Seq<Node>, rest: Seq<Node>, done: Seq<Seq<char>>) -> bool {
    forall|k: int| 0 <= k < all.len() ==> rest.contains(#[trigger] all[k]) || done.contains(all[k].id@)
}

proof fn lemma_id_counts_push(s: Seq<Node>, n: Node)
    ensures
        id_counts(s.push(n)) == id_counts(s).insert(n.id@),
{
    broadcast use vstd::seq_lib::group_to_multiset_ensures;
    assert(s.push(n).map_values(|n: Node| n.id@) =~= s.map_values(|n: Node| n.id@).push(n.id@));
}

proof fn lemma_deps_before_push(all: Seq<Node>, done: Seq<Seq<char>>, k: int)
    requires
        deps_before(all, done),
        0 <= k < all.len(),
        ready(all[k], done),
    ensures
        deps_before(all, done.push(all[k].id@)),
{
    let d2 = done.push(all[k].id@);
    assert forall|i: int| 0 <= i < d2.len() implies exists|k2: int|
        0 <= k2 < all.len() && all[k2].id@ == #[trigger] d2[i] && ready(all[k2], d2.take(i)) by {
        if i < done.len() {
            assert(d2.take(i) =~= done.take(i));
            assert(d2[i] == done[i]);
        } else {
            assert(d2.take(i) =~= done);
        }
    }
}

proof fn lemma_pass_state(all: Seq<Node>, rest: Seq<Node>, done: Seq<Seq<char>>)
    requires
        state_core(all, rest, done),
    ensures
        state_core(all, pass(rest, done).0, pass(rest, done).1),
        forall|x: Seq<char>| done.contains(x) ==> #[trigger] pass(rest, done).1.contains(x),
        forall|k: int|
            0 <= k < rest.len() ==> pass(rest, done).0.contains(#[trigger] rest[k]) || pass(
                rest,
                done,
            ).1.contains(rest[k].id@),
        id_counts(pass(rest, done).0).add(pass(rest, done).1.to_multiset()) == id_counts(rest).add(
            done.to_multiset(),
        ),
    decreases rest.len(),
{
    broadcast use vstd::seq_lib::group_to_multiset_ensures;
    broadcast use vstd::multiset::group_multiset_axioms;
    if rest.len() == 0 {
    } else {
        let pre = rest.drop_last();
        let n = rest.last();
        assert(pre.push(n) =~= rest);
        lemma_id_counts_push(pre, n);
        assert(state_core(all, pre, done)) by {
            assert forall|k: int| 0 <= k < pre.len() implies all.contains(#[trigger] pre[k]) by {
                assert(pre[k] == rest[k]);
            }
            assert forall|x: Seq<char>| id_counts(pre).add(done.to_multiset()).count(x) <= id_counts(all).count(x) by {
                assert(id_counts(rest).add(done.to_multiset()).count(x) <= id_counts(all).count(x));
            }
        }
        lemma_pass_state(all, pre, done);
        let (kept, d) = pass(pre, done);
        assert(all.contains(n)) by {
            assert(rest[rest.len() - 1] == n);
        }
        let kn = choose|kn: int| 0 <= kn < all.len() && all[kn] == n;
        if ready(n, d) {
            lemma_deps_before_push(all, d, kn);
            let d2 = d.push(n.id@);
            assert(d2.to_multiset() == d.to_multiset().insert(n.id@));
            assert(id_counts(kept).add(d2.to_multiset()) =~= id_counts(rest).add(done.to_multiset()));
            assert forall|x: Seq<char>| d.contains(x) implies #[trigger] d2.contains(x) by {
                let j = choose|j: int| 0 <= j < d.len() && d[j] == x;
                assert(d2[j] == x);
            }
            assert forall|k: int| 0 <= k < rest.len() implies kept.contains(#[trigger] rest[k]) || d2.contains(rest[k].id@) by {
                if k < pre.len() {
                    assert(rest[k] == pre[k]);
                } else {
                    assert(d2[d.len() as int] == n.id@);
                }
            }
        } else {
            let k2 = kept.push(n);
            lemma_id_counts_push(kept, n);
            assert(id_counts(k2).add(d.to_multiset()) =~= id_counts(rest).add(done.to_multiset()));
            assert forall|k: int| 0 <= k < k2.len() implies all.contains(#[trigger] k2[k]) by {
                if k < kept.len() {
                    assert(k2[k] == kept[k]);
                }
            }
            assert forall|k: int| 0 <= k < rest.len() implies k2.contains(#[trigger] rest[k]) || d.contains(rest[k].id@) by {
                if k < pre.len() {
                    assert(rest[k] == pre[k]);
                    if kept.contains(pre[k]) {
                        let j = choose|j: int| 0 <= j < kept.len() && kept[j] == pre[k];
                        assert(k2[j] == pre[k]);
                    }
                } else {
                    assert(k2[kept.len() as int] == n);
                }
            }
        }
    }
}

proof fn lemma_peel_state(all: Seq<Node>, rest: Seq<Node>, done: Seq<Seq<char>>)
    requires
        state_core(all, rest, done),
        covers(all, rest, done),
    ensures
        deps_before(all, peel(rest, done)),
        saturated(all, peel(rest, done)),
        peel(rest, done).to_multiset().subset_of(id_counts(all)),
    decreases rest.len(),
{
    broadcast use vstd::seq_lib::group_to_multiset_ensures;
    broadcast use vstd::multiset::group_multiset_axioms;
    if rest.len() == 0 {
        assert(id_counts(rest) =~= Multiset::empty());
        assert(id_counts(rest).add(done.to_multiset()) =~= done.to_multiset());
        assert forall|k: int| 0 <= k < all.len() && ready(#[trigger] all[k], done) implies done.contains(all[k].id@) by {
            assert(!rest.contains(all[k]));
        }
    } else {
        lemma_pass_state(all, rest, done);
        lemma_pass_len(rest, done);
        let (kept, d) = pass(rest, done);
        assert forall|k: int| 0 <= k < all.len() implies kept.contains(#[trigger] all[k]) || d.contains(all[k].id@) by {
            if rest.contains(all[k]) {
                let j = choose|j: int| 0 <= j < rest.len() && rest[j] == all[k];
                assert(kept.contains(rest[j]) || d.contains(rest[j].id@));
            } else {
                assert(done.contains(all[k].id@));
            }
        }
        if kept.len() < rest.len() {
            lemma_peel_state(all, kept, d);
        } else {
            assert forall|x: Seq<char>| d.to_multiset().count(x) <= id_counts(all).count(x) by {
                assert(id_counts(kept).add(d.to_multiset()).count(x) <= id_counts(all).count(x));
            }
            assert forall|k: int| 0 <= k < all.len() && ready(#[trigger] all[k], d) implies d.contains(all[k].id@) by {
                if rest.contains(all[k]) {
                    let j = choose|j: int| 0 <= j < rest.len() && rest[j] == all[k];
                    assert(!ready(rest[j], done));
                }
            }
        }
    }
}

proof fn lemma_split_leaves(s: Seq<Node>)
    ensures
        id_counts(split_leaves(s).0).add(split_leaves(s).1.to_multiset()) == id_counts(s),
        forall|j: int|
            0 <= j < s.len() ==> split_leaves(s).0.contains(#[trigger] s[j]) || split_leaves(
                s,
            ).1.contains(s[j].id@),
        forall|j: int| 0 <= j < split_leaves(s).0.len() ==> s.contains(#[trigger] split_leaves(s).0[j]),
        deps_before(s, split_leaves(s).1),
    decreases s.len(),
{
    broadcast use vstd::seq_lib::group_to_multiset_ensures;
    broadcast use vstd::multiset::group_multiset_axioms;
    if s.len() == 0 {
        assert(id_counts(s) =~= Multiset::empty());
        assert(id_counts(seq![]) =~= Multiset::empty());
    } else {
        let pre = s.drop_last();
        let n = s.last();
        assert(pre.push(n) =~= s);
        lemma_split_leaves(pre);
        lemma_id_counts_push(pre, n);
        let (kept, done) = split_leaves(pre);
        assert forall|i: int| 0 <= i < done.len() implies exists|k: int|
            0 <= k < s.len() && s[k].id@ == #[trigger] done[i] && ready(s[k], done.take(i)) by {
            let k = choose|k: int| 0 <= k < pre.len() && pre[k].id@ == done[i] && ready(pre[k], done.take(i));
            assert(s[k] == pre[k]);
        }
        if n.dependencies@.len() == 0 {
            let d2 = done.push(n.id@);
            assert(id_counts(kept).add(d2.to_multiset()) =~= id_counts(s));
            lemma_deps_before_push(s, done, s.len() - 1);
            assert forall|j: int| 0 <= j < s.len() implies kept.contains(#[trigger] s[j]) || d2.contains(s[j].id@) by {
                if j < pre.len() {
                    assert(s[j] == pre[j]);
                    if done.contains(pre[j].id@) {
                        let i = choose|i: int| 0 <= i < done.len() && done[i] == pre[j].id@;
                        assert(d2[i] == done[i]);
                    }
                } else {
                    assert(d2[done.len() as int] == n.id@);
                }
            }
            assert forall|j: int| 0 <= j < kept.len() implies s.contains(#[trigger] kept[j]) by {
                let i = choose|i: int| 0 <= i < pre.len() && pre[i] == kept[j];
                assert(s[i] == pre[i]);
            }
        } else {
            let k2 = kept.push(n);
            lemma_id_counts_push(kept, n);
            assert(id_counts(k2).add(done.to_multiset()) =~= id_counts(s));
            assert forall|j: int| 0 <= j < s.len() implies k2.contains(#[trigger] s[j]) || done.contains(s[j].id@) by {
                if j < pre.len() {
                    assert(s[j] == pre[j]);
                    if kept.contains(pre[j]) {
                        let i = choose|i: int| 0 <= i < kept.len() && kept[i] == pre[j];
                        assert(k2[i] == kept[i]);
                    }
                } else {
                    assert(k2[kept.len() as int] == n);
                }
            }
            assert forall|j: int| 0 <= j < k2.len() implies s.contains(#[trigger] k2[j]) by {
                if j < kept.len() {
                    assert(k2[j] == kept[j]);
                    let i = choose|i: int| 0 <= i < pre.len() && pre[i] == kept[j];
                    assert(s[i] == pre[i]);
                } else {
                    assert(s[s.len() - 1] == n);
                }
            }
        }
    }
}

proof fn lemma_insert_by_id_counts(s: Seq<Node>, n: Node)
    ensures
        insert_by_id(s, n).to_multiset() == s.to_multiset().insert(n),
        id_counts(insert_by_id(s, n)) == id_counts(s).insert(n.id@),
    decreases s.len(),
{
    broadcast use vstd::seq_lib::group_to_multiset_ensures;
    broadcast use vstd::multiset::group_multiset_axioms;
    if s.len() == 0 {
        assert(seq![n] =~= Seq::<Node>::empty().push(n));
        lemma_id_counts_push(Seq::<Node>::empty(), n);
        assert(s =~= Seq::<Node>::empty());
    } else if text_lt(n.id@, s.last().id@) {
        let pre = s.drop_last();
        assert(pre.push(s.last()) =~= s);
        lemma_insert_by_id_counts(pre, n);
        lemma_id_counts_push(insert_by_id(pre, n), s.last());
        lemma_id_counts_push(pre, s.last());
        assert(insert_by_id(s, n).to_multiset() =~= s.to_multiset().insert(n));
        assert(id_counts(insert_by_id(s, n)) =~= id_counts(s).insert(n.id@));
    } else {
        lemma_id_counts_push(s, n);
    }
}

proof fn lemma_sort_counts(s: Seq<Node>)
    ensures
        sort_by_id(s).to_multiset() == s.to_multiset(),
        id_counts(sort_by_id(s)) == id_counts(s),
    decreases s.len(),
{
    broadcast use vstd::seq_lib::group_to_multiset_ensures;
    if s.len() > 0 {
        let pre = s.drop_last();
        assert(pre.push(s.last()) =~= s);
        lemma_sort_counts(pre);
        lemma_insert_by_id_counts(sort_by_id(pre), s.last());
        lemma_id_counts_push(pre, s.last());
    } else {
        assert(sort_by_id(s) =~= s);
    }
}

/// For every input: each emitted id belongs to a node whose dependencies were
/// all emitted before it; a node whose dependencies are all emitted is emitted
/// itself; and no id is emitted more often than nodes carry it.
pub proof fn lemma_order_sound(nodes: Seq<Node>)
    ensures
        deps_before(nodes, dependency_order(nodes)),
        saturated(nodes, dependency_order(nodes)),
        dependency_order(nodes).to_multiset().subset_of(id_counts(nodes)),
{
    broadcast use vstd::seq_lib::group_to_multiset_ensures;
    broadcast use vstd::multiset::group_multiset_axioms;
    let sorted = sort_by_id(nodes);
    lemma_sort_counts(nodes);
    lemma_split_leaves(sorted);
    let (rest, done) = split_leaves(sorted);
    assert forall|j: int| 0 <= j < rest.len() implies sorted.contains(#[trigger] rest[j]) by {}
    lemma_peel_state(sorted, rest, done);
    let out = peel(rest, done);
    assert forall|i: int| 0 <= i < out.len() implies exists|k: int|
        0 <= k < nodes.len() && nodes[k].id@ == #[trigger] out[i] && ready(nodes[k], out.take(i)) by {
        let k = choose|k: int| 0 <= k < sorted.len() && sorted[k].id@ == out[i] && ready(sorted[k], out.take(i));
        assert(sorted.to_multiset().contains(sorted[k]));
        assert(nodes.contains(sorted[k]));
    }
    assert forall|k: int| 0 <= k < nodes.len() && ready(#[trigger] nodes[k], out) implies out.contains(nodes[k].id@) by {
        assert(nodes.to_multiset().contains(nodes[k]));
        assert(sorted.contains(nodes[k]));
        let j = choose|j: int| 0 <= j < sorted.len() && sorted[j] == nodes[k];
        assert(ready(sorted[j], out));
    }
}

proof fn lemma_ranked_emitted(nodes: Seq<Node>, rank: spec_fn(Seq<char>) -> nat, out: Seq<Seq<char>>, k: int)
    requires
        closed(nodes),
        ranked(nodes, rank),
        saturated(nodes, out),
        0 <= k < nodes.len(),
    ensures
        out.contains(nodes[k].id@),
    decreases rank(nodes[k].id@),
{
    assert forall|j: int| 0 <= j < nodes[k].dependencies@.len() implies out.contains(#[trigger] nodes[k].dependencies@[j]@) by {
        let m = choose|m: int| 0 <= m < nodes.len() && nodes[m].id@ == nodes[k].dependencies@[j]@;
        lemma_ranked_emitted(nodes, rank, out, m);
    }
    assert(ready(nodes[k], out));
}

/// For a graph with distinct ids, whose dependencies all name nodes, and with no
/// cycle (some rank strictly decreases along each dependency), every id is
/// emitted exactly once, after the ids of all of its dependencies.
pub proof fn lemma_order_complete(nodes: Seq<Node>, rank: spec_fn(Seq<char>) -> nat)
    requires
        distinct_ids(nodes),
        closed(nodes),
        ranked(nodes, rank),
    ensures
        dependency_order(nodes).no_duplicates(),
        forall|k: int| 0 <= k < nodes.len() ==> dependency_order(nodes).contains(#[trigger] nodes[k].id@),
        deps_before(nodes, dependency_order(nodes)),
{
    broadcast use vstd::seq_lib::group_to_multiset_ensures;
    broadcast use vstd::multiset::group_multiset_axioms;
    let out = dependency_order(nodes);
    lemma_order_sound(nodes);
    assert forall|k: int| 0 <= k < nodes.len() implies out.contains(#[trigger] nodes[k].id@) by {
        lemma_ranked_emitted(nodes, rank, out, k);
    }
    let ids = nodes.map_values(|n: Node| n.id@);
    assert(ids.no_duplicates()) by {
        assert forall|i: int, j: int| 0 <= i < ids.len() && 0 <= j < ids.len() && i != j implies ids[i] != ids[j] by {
            assert(nodes[i].id@ != nodes[j].id@);
        }
    }
    ids.lemma_multiset_has_no_duplicates();
    assert forall|x: Seq<char>| out.to_multiset().contains(x) implies out.to_multiset().count(x) == 1 by {
        assert(out.to_multiset().count(x) <= id_counts(nodes).count(x));
    }
    out.lemma_multiset_has_no_duplicates_conv();
}

/// Whether every id of `deps` is among `done`.
fn all_emitted(deps: &Vec<String>, done: &Vec<String>) -> (r: bool)
    ensures
        r == (forall|j: int| 0 <= j < deps@.len() ==> views(done@).contains(#[trigger] deps@[j]@)),
{
    let mut i: usize = 0;
    while i < deps.len()
        invariant
            i <= deps@.len(),
            forall|j: int| 0 <= j < i ==> views(done@).contains(#[trigger] deps@[j]@),
        decreases deps@.len() - i,
    {
        if !contains_text(done.as_slice(), deps[i].as_str()) {
            return false;
        }
        i = i + 1;
    }
    true
}

/// Places `n` into `sorted` after every node whose id is not greater.
fn insert_sorted(sorted: &mut Vec<Node>, n: Node)
    ensures
        final(sorted)@ == insert_by_id(old(sorted)@, n),
{
    let mut j: usize = sorted.len();
    while j > 0 && text_less(n.id.as_str(), sorted[j - 1].id.as_str())
        invariant
            j <= sorted@.len(),
            sorted@ == old(sorted)@,
            forall|k: int| j <= k < sorted@.len() ==> text_lt(n.id@, #[trigger] sorted@[k].id@),
        decreases j,
    {
        j = j - 1;
    }
    proof {
        lemma_insert_at(sorted@, n, j as int);
    }
    sorted.insert(j, n);
}

/// Orders the ids so that each node comes after the nodes it depends on.
///
/// Nodes are taken in ascending id order. Nodes without dependencies come
/// first; then passes over the remaining nodes emit each node whose
/// dependencies have all been emitted. Nodes on a cycle, or depending on one
/// or on an id that no node has, are left out.
pub fn sort_deps(nodes: Vec<Node>) -> (r: Vec<String>)
    ensures
        views(r@) == dependency_order(nodes@),
        deps_before(nodes@, views(r@)),
        saturated(nodes@, views(r@)),
        views(r@).to_multiset().subset_of(id_counts(nodes@)),
{
    let ghost input = nodes@;
    let mut pending = nodes;
    let total = pending.len();
    // ascending id order
    let mut by_id: Vec<Node> = Vec::new();
    let mut i: usize = 0;
    while pending.len() > 0
        invariant
            input.len() == total,
            input == nodes@,
            i <= input.len(),
            pending@ == input.skip(i as int),
            by_id@ == sort_by_id(input.take(i as int)),
        decreases pending@.len(),
    {
        let n = pending.remove(0);
        proof {
            assert(input.take(i + 1).drop_last() =~= input.take(i as int));
            assert(input.take(i + 1).last() == n);
        }
        insert_sorted(&mut by_id, n);
        assert(input.skip(i as int).remove(0) =~= input.skip(i + 1));
        i = i + 1;
    }
    assert(input.take(i as int) =~= input);
    let ghost ordered = by_id@;
    let total = by_id.len();
    // nodes without dependencies
    let mut sorted: Vec<String> = Vec::new();
    let mut rest: Vec<Node> = Vec::new();
    let mut i: usize = 0;
    while by_id.len() > 0
        invariant
            ordered.len() == total,
            input == nodes@,
            ordered == sort_by_id(input),
            i <= ordered.len(),
            by_id@ == ordered.skip(i as int),
            (rest@, views(sorted@)) == split_leaves(ordered.take(i as int)),
        decreases by_id@.len(),
    {
        let n = by_id.remove(0);
        proof {
            assert(ordered.take(i + 1).drop_last() =~= ordered.take(i as int));
            assert(ordered.take(i + 1).last() == n);
        }
        if n.dependencies.len() == 0 {
            sorted.push(n.id);
            assert(views(sorted@) =~= split_leaves(ordered.take(i + 1)).1);
        } else {
            rest.push(n);
        }
        assert(ordered.skip(i as int).remove(0) =~= ordered.skip(i + 1));
        i = i + 1;
    }
    assert(ordered.take(i as int) =~= ordered);
    // repeated passes
    while rest.len() > 0
        invariant
            peel(rest@, views(sorted@)) == dependency_order(input),
            input == nodes@,
        decreases rest@.len(),
    {
        let ghost start = rest@;
        let ghost done0 = views(sorted@);
        let before = rest.len();
        let mut kept: Vec<Node> = Vec::new();
        let mut i: usize = 0;
        while rest.len() > 0
            invariant
                start.len() == before,
                before > 0,
                peel(start, done0) == dependency_order(input),
                input == nodes@,
                i <= start.len(),
                rest@ == start.skip(i as int),
                (kept@, views(sorted@)) == pass(start.take(i as int), done0),
            decreases rest@.len(),
        {
            let n = rest.remove(0);
            proof {
                assert(start.take(i + 1).drop_last() =~= start.take(i as int));
                assert(start.take(i + 1).last() == n);
            }
            if all_emitted(&n.dependencies, &sorted) {
                sorted.push(n.id);
                assert(views(sorted@) =~= pass(start.take(i + 1), done0).1);
            } else {
                kept.push(n);
            }
            assert(start.skip(i as int).remove(0) =~= start.skip(i + 1));
            i = i + 1;
        }
        assert(start.take(i as int) =~= start);
        proof {
            lemma_pass_len(start, done0);
        }
        if kept.len() == before {
            assert(pass(start, done0).0.len() == start.len());
            assert(pass(start, done0).1 == views(sorted@));
            assert(peel(start, done0) == pass(start, done0).1);
            proof {
                lemma_order_sound(nodes@);
            }
            return sorted;
        }
        rest = kept;
    }
    proof {
        lemma_order_sound(nodes@);
    }
    sorted
}

/// The nodes are in ascending id order (equal ids allowed).
pub open spec fn ascending(s: Seq<Node>) -> bool {
    forall|i: int, j: int| 0 <= i < j < s.len() ==> !text_lt(#[trigger] s[j].id@, #[trigger] s[i].id@)
}

proof fn lemma_not_lt_transitive(a: Seq<char>, b: Seq<char>, c: Seq<char>)
    requires
        !text_lt(b, a),
        !text_lt(c, b),
    ensures
        !text_lt(c, a),
{
    crate::text::lemma_text_lt_total(a, b);
    crate::text::lemma_text_lt_total(b, c);
    if text_lt(c, a) {
        if a == b {
        } else if b == c {
        } else {
            crate::text::lemma_text_lt_transitive(a, b, c);
            crate::text::lemma_text_lt_total(a, c);
        }
    }
}

proof fn lemma_insert_ascending(s: Seq<Node>, n: Node)
    requires
        ascending(s),
    ensures
        ascending(insert_by_id(s, n)),
    decreases s.len(),
{
    broadcast use vstd::seq_lib::group_to_multiset_ensures;
    if s.len() > 0 {
        let pre = s.drop_last();
        let last = s.last();
        if text_lt(n.id@, last.id@) {
            assert(ascending(pre)) by {
                assert forall|i: int, j: int| 0 <= i < j < pre.len() implies !text_lt(#[trigger] pre[j].id@, #[trigger] pre[i].id@) by {
                    assert(pre[i] == s[i] && pre[j] == s[j]);
                }
            }
            lemma_insert_ascending(pre, n);
            lemma_insert_by_id_counts(pre, n);
            let t = insert_by_id(pre, n);
            let r = t.push(last);
            assert forall|i: int, j: int| 0 <= i < j < r.len() implies !text_lt(#[trigger] r[j].id@, #[trigger] r[i].id@) by {
                if j < t.len() {
                    assert(r[i] == t[i] && r[j] == t[j]);
                } else {
                    assert(r[j] == last);
                    assert(r[i] == t[i]);
                    assert(t.to_multiset().contains(t[i]));
                    if t[i] == n {
                        crate::text::lemma_text_lt_total(n.id@, last.id@);
                    } else {
                        assert(pre.to_multiset().contains(t[i]));
                        let k = choose|k: int| 0 <= k < pre.len() && pre[k] == t[i];
                        assert(s[k] == pre[k]);
                        assert(s[s.len() - 1] == last);
                    }
                }
            }
        } else {
            let r = s.push(n);
            assert forall|i: int, j: int| 0 <= i < j < r.len() implies !text_lt(#[trigger] r[j].id@, #[trigger] r[i].id@) by {
                if j < s.len() {
                    assert(r[i] == s[i] && r[j] == s[j]);
                } else if i < s.len() - 1 {
                    assert(r[i] == s[i]);
                    assert(s[s.len() - 1] == last);
                    lemma_not_lt_transitive(s[i].id@, last.id@, n.id@);
                } else {
                    assert(r[i] == last);
                }
            }
        }
    }
}

proof fn lemma_sort_ascending(s: Seq<Node>)
    ensures
        ascending(sort_by_id(s)),
    decreases s.len(),
{
    if s.len() > 0 {
        lemma_sort_ascending(s.drop_last());
        lemma_insert_ascending(sort_by_id(s.drop_last()), s.last());
    }
}

proof fn lemma_sorted_unique(s1: Seq<Node>, s2: Seq<Node>)
    requires
        ascending(s1),
        ascending(s2),
        distinct_ids(s1),
        distinct_ids(s2),
        s1.to_multiset() == s2.to_multiset(),
    ensures
        s1 == s2,
    decreases s1.len(),
{
    broadcast use vstd::seq_lib::group_to_multiset_ensures;
    broadcast use vstd::multiset::group_multiset_axioms;
    assert(s1.to_multiset().len() == s1.len());
    assert(s2.to_multiset().len() == s2.len());
    if s1.len() == 0 {
        assert(s2.len() == 0);
        assert(s1 =~= s2);
    } else {
        assert(s2.len() == s1.len());
        let x = s1[0];
        let y = s2[0];
        assert(s2.to_multiset().contains(x));
        assert(s1.to_multiset().contains(y));
        let k = choose|k: int| 0 <= k < s2.len() && s2[k] == x;
        let m = choose|m: int| 0 <= m < s1.len() && s1[m] == y;
        if k != 0 {
            assert(x.id@ != y.id@);
            assert(!text_lt(s2[k].id@, s2[0].id@));
            crate::text::lemma_text_lt_total(x.id@, y.id@);
            if m == 0 {
                assert(y == x);
            } else {
                assert(!text_lt(s1[m].id@, s1[0].id@));
            }
        }
        assert(x == y);
        let t1 = s1.drop_first();
        let t2 = s2.drop_first();
        vstd::seq_lib::to_multiset_remove(s1, 0);
        vstd::seq_lib::to_multiset_remove(s2, 0);
        assert(s1.remove(0) =~= t1);
        assert(s2.remove(0) =~= t2);
        assert(ascending(t1)) by {
            assert forall|i: int, j: int| 0 <= i < j < t1.len() implies !text_lt(#[trigger] t1[j].id@, #[trigger] t1[i].id@) by {
                assert(t1[i] == s1[i + 1] && t1[j] == s1[j + 1]);
            }
        }
        assert(ascending(t2)) by {
            assert forall|i: int, j: int| 0 <= i < j < t2.len() implies !text_lt(#[trigger] t2[j].id@, #[trigger] t2[i].id@) by {
                assert(t2[i] == s2[i + 1] && t2[j] == s2[j + 1]);
            }
        }
        assert(distinct_ids(t1)) by {
            assert forall|i: int, j: int| 0 <= i < t1.len() && 0 <= j < t1.len() && i != j implies t1[i].id@ != t1[j].id@ by {
                assert(t1[i] == s1[i + 1] && t1[j] == s1[j + 1]);
            }
        }
        assert(distinct_ids(t2)) by {
            assert forall|i: int, j: int| 0 <= i < t2.len() && 0 <= j < t2.len() && i != j implies t2[i].id@ != t2[j].id@ by {
                assert(t2[i] == s2[i + 1] && t2[j] == s2[j + 1]);
            }
        }
        lemma_sorted_unique(t1, t2);
        assert(s1 =~= s2) by {
            assert forall|i: int| 0 <= i < s1.len() implies s1[i] == s2[i] by {
                if i > 0 {
                    assert(s1[i] == t1[i - 1] && s2[i] == t2[i - 1]);
                }
            }
        }
    }
}

/// The order does not depend on the order of the input: two inputs holding
/// the same nodes, with distinct ids, give the same order.
pub proof fn lemma_order_ignores_input_order(a: Seq<Node>, b: Seq<Node>)
    requires
        a.to_multiset() == b.to_multiset(),
        distinct_ids(a),
        distinct_ids(b),
    ensures
        dependency_order(a) == dependency_order(b),
{
    lemma_sort_counts(a);
    lemma_sort_counts(b);
    lemma_sort_ascending(a);
    lemma_sort_ascending(b);
    lemma_distinct_sorted(a);
    lemma_distinct_sorted(b);
    lemma_sorted_unique(sort_by_id(a), sort_by_id(b));
}

proof fn lemma_distinct_sorted(s: Seq<Node>)
    requires
        distinct_ids(s),
    ensures
        distinct_ids(sort_by_id(s)),
{
    broadcast use vstd::seq_lib::group_to_multiset_ensures;
    lemma_sort_counts(s);
    let t = sort_by_id(s);
    let ids = s.map_values(|n: Node| n.id@);
    assert(ids.no_duplicates()) by {
        assert forall|i: int, j: int| 0 <= i < ids.len() && 0 <= j < ids.len() && i != j implies ids[i] != ids[j] by {
            assert(s[i].id@ != s[j].id@);
        }
    }
    ids.lemma_multiset_has_no_duplicates();
    let tids = t.map_values(|n: Node| n.id@);
    assert forall|x: Seq<char>| tids.to_multiset().contains(x) implies tids.to_multiset().count(x) == 1 by {
        assert(id_counts(t) == id_counts(s));
    }
    tids.lemma_multiset_has_no_duplicates_conv();
    assert forall|i: int, j: int| 0 <= i < t.len() && 0 <= j < t.len() && i != j implies t[i].id@ != t[j].id@ by {
        assert(tids[i] == t[i].id@ && tids[j] == t[j].id@);
    }
}


/// The node with id `x` lists `y` among its dependencies.
pub open spec fn depends(nodes: Seq<Node>, x: Seq<char>, y: Seq<char>) -> bool {
    exists|k: int| 0 <= k < nodes.len() && nodes[k].id@ == x && #[trigger] views(nodes[k].dependencies@).contains(y)
}

/// `x` depends on `y` through a chain of `n` dependencies.
pub open spec fn depends_within(nodes: Seq<Node>, x: Seq<char>, y: Seq<char>, n: nat) -> bool
    decreases n,
{
    if n == 0 {
        false
    } else if n == 1 {
        depends(nodes, x, y)
    } else {
        exists|z: Seq<char>| #[trigger] depends(nodes, x, z) && depends_within(nodes, z, y, (n - 1) as nat)
    }
}

/// With distinct ids, an emitted id comes after everything it depends on,
/// directly or through other nodes.
pub proof fn lemma_order_transitive(nodes: Seq<Node>, x: Seq<char>, y: Seq<char>, n: nat, i: int)
    requires
        distinct_ids(nodes),
        depends_within(nodes, x, y, n),
        0 <= i < dependency_order(nodes).len(),
        dependency_order(nodes)[i] == x,
    ensures
        exists|i2: int| 0 <= i2 < i && dependency_order(nodes)[i2] == y,
    decreases n,
{
    let out = dependency_order(nodes);
    lemma_order_sound(nodes);
    let k = choose|k: int| 0 <= k < nodes.len() && nodes[k].id@ == #[trigger] out[i] && ready(nodes[k], out.take(i));
    if n == 1 {
        let m = choose|m: int| 0 <= m < nodes.len() && nodes[m].id@ == x && #[trigger] views(nodes[m].dependencies@).contains(y);
        assert(m == k);
        let d = choose|d: int| 0 <= d < views(nodes[m].dependencies@).len() && views(nodes[m].dependencies@)[d] == y;
        assert(nodes[m].dependencies@[d]@ == y);
        assert(out.take(i).contains(y));
        let i2 = choose|i2: int| 0 <= i2 < out.take(i).len() && out.take(i)[i2] == y;
        assert(out[i2] == y);
    } else {
        let z = choose|z: Seq<char>| #[trigger] depends(nodes, x, z) && depends_within(nodes, z, y, (n - 1) as nat);
        let m = choose|m: int| 0 <= m < nodes.len() && nodes[m].id@ == x && #[trigger] views(nodes[m].dependencies@).contains(z);
        assert(m == k);
        let d = choose|d: int| 0 <= d < views(nodes[m].dependencies@).len() && views(nodes[m].dependencies@)[d] == z;
        assert(nodes[m].dependencies@[d]@ == z);
        assert(out.take(i).contains(z));
        let i1 = choose|i1: int| 0 <= i1 < out.take(i).len() && out.take(i)[i1] == z;
        assert(out[i1] == z);
        lemma_order_transitive(nodes, z, y, (n - 1) as nat, i1);
    }
}


/// Two nodes with the same id and the same dependencies, in any order.
pub open spec fn same_node(a: Node, b: Node) -> bool {
    a.id@ == b.id@ && views(a.dependencies@).to_multiset() == views(b.dependencies@).to_multiset()
}

/// Two sequences of nodes that differ at most in the order of each node's dependencies.
pub open spec fn same_nodes(s: Seq<Node>, t: Seq<Node>) -> bool {
    s.len() == t.len() && forall|i: int| 0 <= i < s.len() ==> #[trigger] same_node(s[i], t[i])
}

proof fn lemma_ready_same(a: Node, b: Node, done: Seq<Seq<char>>)
    requires
        same_node(a, b),
    ensures
        ready(a, done) == ready(b, done),
        a.dependencies@.len() == b.dependencies@.len(),
{
    broadcast use vstd::seq_lib::group_to_multiset_ensures;
    let va = views(a.dependencies@);
    let vb = views(b.dependencies@);
    assert(va.to_multiset().len() == va.len());
    assert(vb.to_multiset().len() == vb.len());
    if ready(a, done) {
        assert forall|j: int| 0 <= j < b.dependencies@.len() implies done.contains(#[trigger] b.dependencies@[j]@) by {
            assert(vb[j] == b.dependencies@[j]@);
            assert(vb.to_multiset().contains(vb[j]));
            assert(va.contains(vb[j]));
            let k = choose|k: int| 0 <= k < va.len() && va[k] == vb[j];
            assert(a.dependencies@[k]@ == va[k]);
        }
    }
    if ready(b, done) {
        assert forall|j: int| 0 <= j < a.dependencies@.len() implies done.contains(#[trigger] a.dependencies@[j]@) by {
            assert(va[j] == a.dependencies@[j]@);
            assert(va.to_multiset().contains(va[j]));
            assert(vb.contains(va[j]));
            let k = choose|k: int| 0 <= k < vb.len() && vb[k] == va[j];
            assert(b.dependencies@[k]@ == vb[k]);
        }
    }
}

proof fn lemma_same_prefix(s: Seq<Node>, t: Seq<Node>)
    requires
        same_nodes(s, t),
        s.len() > 0,
    ensures
        same_nodes(s.drop_last(), t.drop_last()),
        same_node(s.last(), t.last()),
{
    assert forall|i: int| 0 <= i < s.len() - 1 implies #[trigger] same_node(s.drop_last()[i], t.drop_last()[i]) by {
        assert(same_node(s[i], t[i]));
    }
    assert(same_node(s[s.len() - 1], t[t.len() - 1]));
}

proof fn lemma_same_push(s: Seq<Node>, t: Seq<Node>, a: Node, b: Node)
    requires
        same_nodes(s, t),
        same_node(a, b),
    ensures
        same_nodes(s.push(a), t.push(b)),
{
    assert forall|i: int| 0 <= i < s.len() + 1 implies #[trigger] same_node(s.push(a)[i], t.push(b)[i]) by {
        if i < s.len() {
            assert(same_node(s[i], t[i]));
        }
    }
}

proof fn lemma_insert_same(s: Seq<Node>, t: Seq<Node>, a: Node, b: Node)
    requires
        same_nodes(s, t),
        same_node(a, b),
    ensures
        same_nodes(insert_by_id(s, a), insert_by_id(t, b)),
    decreases s.len(),
{
    if s.len() == 0 {
        lemma_same_push(s, t, a, b);
        assert(seq![a] =~= s.push(a));
        assert(seq![b] =~= t.push(b));
    } else {
        lemma_same_prefix(s, t);
        if text_lt(a.id@, s.last().id@) {
            lemma_insert_same(s.drop_last(), t.drop_last(), a, b);
            lemma_same_push(insert_by_id(s.drop_last(), a), insert_by_id(t.drop_last(), b), s.last(), t.last());
        } else {
            lemma_same_push(s, t, a, b);
        }
    }
}

proof fn lemma_sort_same(s: Seq<Node>, t: Seq<Node>)
    requires
        same_nodes(s, t),
    ensures
        same_nodes(sort_by_id(s), sort_by_id(t)),
    decreases s.len(),
{
    if s.len() > 0 {
        lemma_same_prefix(s, t);
        lemma_sort_same(s.drop_last(), t.drop_last());
        lemma_insert_same(sort_by_id(s.drop_last()), sort_by_id(t.drop_last()), s.last(), t.last());
    }
}

proof fn lemma_split_same(s: Seq<Node>, t: Seq<Node>)
    requires
        same_nodes(s, t),
    ensures
        same_nodes(split_leaves(s).0, split_leaves(t).0),
        split_leaves(s).1 == split_leaves(t).1,
    decreases s.len(),
{
    if s.len() > 0 {
        lemma_same_prefix(s, t);
        lemma_split_same(s.drop_last(), t.drop_last());
        lemma_ready_same(s.last(), t.last(), seq![]);
        if s.last().dependencies@.len() != 0 {
            lemma_same_push(split_leaves(s.drop_last()).0, split_leaves(t.drop_last()).0, s.last(), t.last());
        }
    }
}

proof fn lemma_pass_same(s: Seq<Node>, t: Seq<Node>, done: Seq<Seq<char>>)
    requires
        same_nodes(s, t),
    ensures
        same_nodes(pass(s, done).0, pass(t, done).0),
        pass(s, done).1 == pass(t, done).1,
    decreases s.len(),
{
    if s.len() > 0 {
        lemma_same_prefix(s, t);
        lemma_pass_same(s.drop_last(), t.drop_last(), done);
        let d = pass(s.drop_last(), done).1;
        lemma_ready_same(s.last(), t.last(), d);
        if !ready(s.last(), d) {
            lemma_same_push(pass(s.drop_last(), done).0, pass(t.drop_last(), done).0, s.last(), t.last());
        }
    }
}

proof fn lemma_peel_same(s: Seq<Node>, t: Seq<Node>, done: Seq<Seq<char>>)
    requires
        same_nodes(s, t),
    ensures
        peel(s, done) == peel(t, done),
    decreases s.len(),
{
    if s.len() > 0 {
        lemma_pass_same(s, t, done);
        let (k1, d) = pass(s, done);
        if k1.len() < s.len() {
            lemma_peel_same(k1, pass(t, done).0, d);
        }
    }
}

/// The order depends on each node's dependencies as a collection, not on the
/// order in which they are listed.
pub proof fn lemma_order_ignores_dependency_order(a: Seq<Node>, b: Seq<Node>)
    requires
        same_nodes(a, b),
    ensures
        dependency_order(a) == dependency_order(b),
{
    lemma_sort_same(a, b);
    lemma_split_same(sort_by_id(a), sort_by_id(b));
    lemma_peel_same(split_leaves(sort_by_id(a)).0, split_leaves(sort_by_id(b)).0, split_leaves(sort_by_id(a)).1);
}

} // verus!
