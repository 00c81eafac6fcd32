//! The node hierarchy as a forest.

use crate::gltf::error::{yields, GltfError, Outcome};
use crate::gltf::node::{node_models, GltfNode, NodeModel};
use vstd::prelude::*;

verus! {

/// The children of each node.
pub open spec fn children_of(nodes: Seq<NodeModel>) -> Seq<Seq<usize>> {
    Seq::new(nodes.len(), |i: int| nodes[i].children)
}

/// The parents that are known once the children of `parent` from `index` on are claimed.
pub open spec fn claim_from(
    children: Seq<usize>,
    index: int,
    parent: usize,
    parents: Seq<Option<usize>>,
) -> Outcome<Seq<Option<usize>>>
    decreases children.len() - index,
{
    if !(0 <= index < children.len()) {
        Ok(parents)
    } else {
        let child = children[index];
        if child >= parents.len() {
            Err("node child index is out of range"@)
        } else if parents[child as int] is Some {
            Err("node hierarchy has multiple parents"@)
        } else {
            claim_from(children, index + 1, parent, parents.update(child as int, Some(parent)))
        }
    }
}

/// The parents that are known once the nodes from `node` on have claimed their children.
pub open spec fn parents_from(kids: Seq<Seq<usize>>, node: int, parents: Seq<Option<usize>>) -> Outcome<
    Seq<Option<usize>>,
>
    decreases kids.len() - node,
{
    if !(0 <= node < kids.len()) {
        Ok(parents)
    } else {
        match claim_from(kids[node], 0, node as usize, parents) {
            Err(message) => Err(message),
            Ok(next) => parents_from(kids, node + 1, next),
        }
    }
}

/// The parent of each node. Every child must exist and have one parent.
pub open spec fn parents_of(kids: Seq<Seq<usize>>) -> Outcome<Seq<Option<usize>>> {
    parents_from(kids, 0, Seq::new(kids.len(), |i: int| None::<usize>))
}

/// Whether going up from `node` reaches a root in at most `steps` steps.
pub open spec fn reaches_root(parents: Seq<Option<usize>>, node: int, steps: nat) -> bool
    decreases steps,
{
    if !(0 <= node < parents.len()) {
        false
    } else {
        match parents[node] {
            None => true,
            Some(parent) => steps > 0 && reaches_root(parents, parent as int, (steps - 1) as nat),
        }
    }
}

/// Whether every node lies below a root.
pub open spec fn acyclic(parents: Seq<Option<usize>>) -> bool {
    forall|node: int|
        0 <= node < parents.len() ==> #[trigger] reaches_root(parents, node, parents.len())
}

/// The parent of each node of a forest.
pub open spec fn forest_of(kids: Seq<Seq<usize>>) -> Outcome<Seq<Option<usize>>> {
    match parents_of(kids) {
        Err(message) => Err(message),
        Ok(parents) => if acyclic(parents) {
            Ok(parents)
        } else {
            Err("node hierarchy contains a cycle"@)
        },
    }
}

/// What holds while nodes claim their children: a node has a parent exactly where some node
/// before `node`, or `node` itself up to child `index`, has it as its child, and only once.
pub open spec fn claimed(
    kids: Seq<Seq<usize>>,
    node: int,
    index: int,
    parents: Seq<Option<usize>>,
) -> bool {
    &&& parents.len() == kids.len()
    &&& forall|c: int|
        0 <= c < parents.len() ==> (#[trigger] parents[c] matches Some(p) ==> p < kids.len()
            && kids[p as int].contains(c as usize) && p <= node && (p == node ==> kids[node].take(
            index,
        ).contains(c as usize)))
    &&& forall|i: int, k: int|
        0 <= i < kids.len() && 0 <= k < kids[i].len() && (i < node || (i == node && k < index))
            ==> (#[trigger] kids[i][k]) < parents.len() && parents[kids[i][k] as int] == Some(
            i as usize,
        )
    &&& forall|i: int, k: int, l: int|
        0 <= i < kids.len() && 0 <= k < l < kids[i].len() && (i < node || (i == node && l < index))
            ==> #[trigger] kids[i][k] != #[trigger] kids[i][l]
}

proof fn lemma_claim_step(
    kids: Seq<Seq<usize>>,
    node: int,
    index: int,
    parents: Seq<Option<usize>>,
)
    requires
        kids.len() <= usize::MAX,
        0 <= node < kids.len(),
        0 <= index < kids[node].len(),
        claimed(kids, node, index, parents),
        kids[node][index] < parents.len(),
        parents[kids[node][index] as int] is None,
    ensures
        claimed(
            kids,
            node,
            index + 1,
            parents.update(kids[node][index] as int, Some(node as usize)),
        ),
{
    let child = kids[node][index];
    let next = parents.update(child as int, Some(node as usize));
    assert forall|c: int| 0 <= c < next.len() implies (#[trigger] next[c] matches Some(p) ==> p
        < kids.len() && kids[p as int].contains(c as usize) && p <= node && (p == node
        ==> kids[node].take(index + 1).contains(c as usize))) by {
        if c == child {
            assert(kids[node].take(index + 1)[index] == child);
        } else {
            assert(next[c] == parents[c]);
            if next[c] is Some && next[c]->0 == node {
                let k = choose|k: int|
                    0 <= k < index && kids[node].take(index)[k] == c as usize;
                assert(kids[node].take(index + 1)[k] == c as usize);
            }
        }
    }
    assert forall|i: int, k: int|
        0 <= i < kids.len() && 0 <= k < kids[i].len() && (i < node || (i == node && k < index
            + 1)) implies (#[trigger] kids[i][k]) < next.len() && next[kids[i][k] as int] == Some(
        i as usize,
    ) by {
        if i == node && k == index {
        } else {
            assert(parents[kids[i][k] as int] == Some(i as usize));
        }
    }
    assert forall|i: int, k: int, l: int|
        0 <= i < kids.len() && 0 <= k < l < kids[i].len() && (i < node || (i == node && l < index
            + 1)) implies #[trigger] kids[i][k] != #[trigger] kids[i][l] by {
        if i == node && l == index {
            assert(parents[kids[i][k] as int] == Some(i as usize));
        }
    }
}

/// A list without duplicates of numbers below a bound is no longer than the bound.
pub proof fn lemma_distinct_is_short(list: Seq<usize>, bound: nat)
    requires
        list.no_duplicates(),
        forall|i: int| 0 <= i < list.len() ==> #[trigger] list[i] < bound,
    ensures
        list.len() <= bound,
    decreases bound,
{
    if bound == 0 {
        if list.len() > 0 {
            assert(list[0] < bound);
        }
    } else {
        let top = (bound - 1) as usize;
        if list.contains(top) {
            let at = choose|i: int| 0 <= i < list.len() && list[i] == top;
            let rest = list.remove(at);
            assert forall|i: int| 0 <= i < rest.len() implies #[trigger] rest[i] < bound - 1 by {
                if i < at {
                    assert(rest[i] == list[i]);
                } else {
                    assert(rest[i] == list[i + 1]);
                }
            }
            assert(rest.no_duplicates());
            lemma_distinct_is_short(rest, (bound - 1) as nat);
        } else {
            assert forall|i: int| 0 <= i < list.len() implies #[trigger] list[i] < bound - 1 by {
                assert(list.contains(list[i]));
            }
            lemma_distinct_is_short(list, (bound - 1) as nat);
        }
    }
}

/// A list that holds every number below a bound is at least as long as the bound.
pub proof fn lemma_complete_is_long(list: Seq<usize>, bound: nat)
    requires
        bound <= usize::MAX + 1,
        forall|c: int| 0 <= c < bound ==> #[trigger] list.contains(c as usize),
    ensures
        list.len() >= bound,
    decreases bound,
{
    if bound > 0 {
        let top = (bound - 1) as usize;
        assert(list.contains((bound - 1) as usize));
        let at = choose|i: int| 0 <= i < list.len() && list[i] == top;
        let rest = list.remove(at);
        assert forall|c: int| 0 <= c < bound - 1 implies #[trigger] rest.contains(c as usize) by {
            assert(list.contains(c as usize));
            let i = choose|i: int| 0 <= i < list.len() && list[i] == c as usize;
            if i < at {
                assert(rest[i] == c as usize);
            } else {
                assert(rest[i - 1] == c as usize);
            }
        }
        lemma_complete_is_long(rest, (bound - 1) as nat);
    }
}

fn find_parents(nodes: &[GltfNode]) -> (result: Result<Vec<Option<usize>>, GltfError>)
    ensures
        yields(
            result,
            parents_of(children_of(node_models(nodes@))),
            |parents: Vec<Option<usize>>| parents@,
        ),
        result matches Ok(parents) ==> claimed(
            children_of(node_models(nodes@)),
            nodes@.len() as int,
            0,
            parents@,
        ),
        nodes@.len() <= usize::MAX,
{
    let ghost kids = children_of(node_models(nodes@));
    let mut parents: Vec<Option<usize>> = Vec::new();
    let mut i: usize = 0;
    while i < nodes.len()
        invariant
            i <= nodes@.len(),
            parents@ =~= Seq::new(i as nat, |j: int| None::<usize>),
        decreases nodes@.len() - i,
    {
        parents.push(None);
        i += 1;
    }
    let mut node: usize = 0;
    while node < nodes.len()
        invariant
            node <= nodes@.len() <= usize::MAX,
            kids == children_of(node_models(nodes@)),
            parents@.len() == nodes@.len(),
            claimed(kids, node as int, 0, parents@),
            parents_of(kids) == parents_from(kids, node as int, parents@),
        decreases nodes@.len() - node,
    {
        let children: &Vec<usize> = &nodes[node].children;
        assert(kids[node as int] == children@);
        let ghost start = parents@;
        let mut index: usize = 0;
        while index < children.len()
            invariant
                node < nodes@.len() <= usize::MAX,
                index <= children@.len(),
                kids == children_of(node_models(nodes@)),
                kids[node as int] == children@,
                parents@.len() == nodes@.len(),
                claimed(kids, node as int, index as int, parents@),
                parents_of(kids) == parents_from(kids, node as int, start),
                claim_from(children@, 0, node, start) == claim_from(
                    children@,
                    index as int,
                    node,
                    parents@,
                ),
            decreases children@.len() - index,
        {
            let child: usize = children[index];
            if child >= parents.len() {
                return Err(GltfError::new("node child index is out of range"));
            }
            if parents[child].is_some() {
                return Err(GltfError::new("node hierarchy has multiple parents"));
            }
            proof {
                lemma_claim_step(kids, node as int, index as int, parents@);
            }
            parents.set(child, Some(node));
            index += 1;
        }
        proof {
            assert(kids[node as int].take(index as int) =~= kids[node as int]);
            assert(claimed(kids, node + 1, 0, parents@)) by {
                assert forall|c: int| 0 <= c < parents@.len() implies (
                #[trigger] parents@[c] matches Some(p) ==> p < kids.len()
                    && kids[p as int].contains(c as usize) && p <= node + 1 && (p == node + 1
                    ==> kids[node + 1].take(0).contains(c as usize))) by {}
            }
        }
        node += 1;
    }
    Ok(parents)
}

/// Whether `order` lists nodes without repetition, each root among them, each after its parent.
pub open spec fn parents_first(order: Seq<usize>, parents: Seq<Option<usize>>) -> bool {
    &&& order.no_duplicates()
    &&& forall|k: int| 0 <= k < order.len() ==> #[trigger] order[k] < parents.len()
    &&& forall|k: int|
        0 <= k < order.len() ==> (parents[#[trigger] order[k] as int] matches Some(p)
            ==> order.take(k).contains(p))
}

/// Whether every node is listed.
pub open spec fn lists_all(order: Seq<usize>, count: nat) -> bool {
    forall|c: int| 0 <= c < count ==> #[trigger] order.contains(c as usize)
}

/// What holds while the order is made: the roots are in it, and so are the children of its first
/// `done` entries and the first `index` children of the next.
spec fn order_in_progress(
    kids: Seq<Seq<usize>>,
    parents: Seq<Option<usize>>,
    order: Seq<usize>,
    done: int,
    index: int,
) -> bool {
    &&& parents_first(order, parents)
    &&& forall|c: int|
        0 <= c < parents.len() && #[trigger] parents[c] is None ==> order.contains(c as usize)
    &&& forall|j: int, k: int|
        0 <= j < order.len() && 0 <= k < kids[order[j] as int].len() && (j < done || (j == done
            && k < index)) ==> order.contains(#[trigger] kids[order[j] as int][k])
    &&& forall|k: int|
        0 <= k < order.len() ==> (parents[#[trigger] order[k] as int] matches Some(p) ==> exists|
            j: int|
            #![trigger order[j]]
            0 <= j < order.len() && order[j] == p && (j < done || (j == done && kids[p as int].take(
                index,
            ).contains(order[k]))))
}

proof fn lemma_order_step(
    kids: Seq<Seq<usize>>,
    parents: Seq<Option<usize>>,
    order: Seq<usize>,
    done: int,
    index: int,
)
    requires
        kids.len() <= usize::MAX,
        claimed(kids, kids.len() as int, 0, parents),
        0 <= done < order.len(),
        order_in_progress(kids, parents, order, done, index),
        0 <= index < kids[order[done] as int].len(),
    ensures
        order_in_progress(
            kids,
            parents,
            order.push(kids[order[done] as int][index]),
            done,
            index + 1,
        ),
{
    let node = order[done];
    let child = kids[node as int][index];
    let next = order.push(child);
    assert(parents[child as int] == Some(node as usize));
    assert(!order.contains(child)) by {
        if order.contains(child) {
            let at = choose|k: int| 0 <= k < order.len() && order[k] == child;
            assert(parents[order[at] as int] == Some(node));
            let j = choose|j: int|
                #![trigger order[j]]
                0 <= j < order.len() && order[j] == node && (j < done || (j == done
                    && kids[node as int].take(index).contains(order[at])));
            assert(j == done);
            let l = choose|l: int| 0 <= l < index && kids[node as int].take(index)[l] == child;
            assert(kids[node as int][l] == child);
            assert(kids[node as int][l] != kids[node as int][index]);
        }
    }
    assert forall|k: int| 0 <= k < next.len() implies #[trigger] next[k] < parents.len() by {
        if k < order.len() {
            assert(next[k] == order[k]);
        }
    }
    assert forall|k: int| 0 <= k < next.len() implies (
    parents[#[trigger] next[k] as int] matches Some(p) ==> next.take(k).contains(p)) by {
        if k < order.len() {
            assert(next[k] == order[k]);
            assert(next.take(k) =~= order.take(k));
        } else {
            assert(next.take(k) =~= order);
            assert(order.contains(node));
        }
    }
    assert forall|c: int|
        0 <= c < parents.len() && #[trigger] parents[c] is None implies next.contains(
        c as usize,
    ) by {
        let k = choose|k: int| 0 <= k < order.len() && order[k] == c as usize;
        assert(next[k] == c as usize);
    }
    assert forall|j: int, k: int|
        0 <= j < next.len() && 0 <= k < kids[next[j] as int].len() && (j < done || (j == done && k
            < index + 1)) implies next.contains(#[trigger] kids[next[j] as int][k]) by {
        assert(next[j] == order[j]);
        if j == done && k == index {
            assert(next[order.len() as int] == child);
        } else {
            assert(order.contains(kids[order[j] as int][k]));
            let at = choose|at: int| 0 <= at < order.len() && order[at] == kids[order[j] as int][k];
            assert(next[at] == kids[next[j] as int][k]);
        }
    }
    assert forall|k: int| 0 <= k < next.len() implies (
    parents[#[trigger] next[k] as int] matches Some(p) ==> exists|j: int|
        #![trigger next[j]]
        0 <= j < next.len() && next[j] == p && (j < done || (j == done && kids[p as int].take(
            index + 1,
        ).contains(next[k])))) by {
        if k < order.len() {
            assert(next[k] == order[k]);
            if let Some(p) = parents[order[k] as int] {
                let j = choose|j: int|
                    #![trigger order[j]]
                    0 <= j < order.len() && order[j] == p && (j < done || (j == done
                        && kids[p as int].take(index).contains(order[k])));
                assert(next[j] == p);
                if j == done {
                    let l = choose|l: int|
                        0 <= l < index && kids[p as int].take(index)[l] == order[k];
                    assert(kids[p as int].take(index + 1)[l] == order[k]);
                }
            }
        } else {
            assert(next[done] == node);
            assert(kids[node as int].take(index + 1)[index] == child);
        }
    }
}

proof fn lemma_order_node_done(
    kids: Seq<Seq<usize>>,
    parents: Seq<Option<usize>>,
    order: Seq<usize>,
    done: int,
)
    requires
        claimed(kids, kids.len() as int, 0, parents),
        0 <= done < order.len(),
        order_in_progress(kids, parents, order, done, kids[order[done] as int].len() as int),
    ensures
        order_in_progress(kids, parents, order, done + 1, 0),
{
    let count = kids[order[done] as int].len() as int;
    assert forall|k: int| 0 <= k < order.len() implies (
    parents[#[trigger] order[k] as int] matches Some(p) ==> exists|j: int|
        #![trigger order[j]]
        0 <= j < order.len() && order[j] == p && (j < done + 1 || (j == done + 1
            && kids[p as int].take(0).contains(order[k])))) by {
        if let Some(p) = parents[order[k] as int] {
            let j = choose|j: int|
                #![trigger order[j]]
                0 <= j < order.len() && order[j] == p && (j < done || (j == done
                    && kids[p as int].take(count).contains(order[k])));
            assert(order[j] == p);
        }
    }
}

/// Every listed node reaches a root in as many steps as nodes stand before it.
proof fn lemma_listed_reach_root(
    parents: Seq<Option<usize>>,
    order: Seq<usize>,
    at: int,
    steps: nat,
)
    requires
        parents_first(order, parents),
        0 <= at < order.len(),
        steps >= at,
    ensures
        reaches_root(parents, order[at] as int, steps),
    decreases at,
{
    if let Some(p) = parents[order[at] as int] {
        assert(order.take(at).contains(p));
        let j = choose|j: int| 0 <= j < at && order.take(at)[j] == p;
        assert(order[j] == p);
        lemma_listed_reach_root(parents, order, j, (steps - 1) as nat);
    }
}

/// Every node that reaches a root is listed once the order is complete.
proof fn lemma_reaching_is_listed(
    kids: Seq<Seq<usize>>,
    parents: Seq<Option<usize>>,
    order: Seq<usize>,
    node: int,
    steps: nat,
)
    requires
        kids.len() <= usize::MAX,
        claimed(kids, kids.len() as int, 0, parents),
        order_in_progress(kids, parents, order, order.len() as int, 0),
        reaches_root(parents, node, steps),
    ensures
        order.contains(node as usize),
    decreases steps,
{
    if let Some(p) = parents[node] {
        lemma_reaching_is_listed(kids, parents, order, p as int, (steps - 1) as nat);
        let j = choose|j: int| 0 <= j < order.len() && order[j] == p;
        assert(kids[p as int].contains(node as usize));
        let k = choose|k: int| 0 <= k < kids[p as int].len() && kids[p as int][k] == node as usize;
        assert(order.contains(kids[order[j] as int][k]));
    }
}

/// Lists the nodes that lie below a root, parents first.
fn list_from_roots(nodes: &[GltfNode], parents: &Vec<Option<usize>>) -> (order: Vec<usize>)
    requires
        nodes@.len() <= usize::MAX,
        claimed(children_of(node_models(nodes@)), nodes@.len() as int, 0, parents@),
    ensures
        parents_first(order@, parents@),
        order@.len() <= nodes@.len(),
        (order@.len() == nodes@.len()) == acyclic(parents@),
        order@.len() == nodes@.len() ==> lists_all(order@, nodes@.len()),
{
    let ghost kids = children_of(node_models(nodes@));
    let mut order: Vec<usize> = Vec::new();
    let mut root: usize = 0;
    while root < parents.len()
        invariant
            root <= parents@.len(),
            parents@.len() <= usize::MAX,
            forall|k: int|
                0 <= k < order@.len() ==> #[trigger] order@[k] < root && parents@[order@[k] as int] is None,
            order@.no_duplicates(),
            forall|c: int|
                0 <= c < root && #[trigger] parents@[c] is None ==> order@.contains(c as usize),
        decreases parents@.len() - root,
    {
        if parents[root].is_none() {
            let ghost before = order@;
            order.push(root);
            proof {
                assert forall|c: int|
                    0 <= c < root + 1 && #[trigger] parents@[c] is None implies order@.contains(
                    c as usize,
                ) by {
                    if c == root {
                        assert(order@[before.len() as int] == root);
                    } else {
                        let k = choose|k: int| 0 <= k < before.len() && before[k] == c as usize;
                        assert(order@[k] == c as usize);
                    }
                }
            }
        }
        root += 1;
    }
    proof {
        lemma_distinct_is_short(order@, parents@.len());
    }
    let mut done: usize = 0;
    while done < order.len()
        invariant
            nodes@.len() <= usize::MAX,
            kids == children_of(node_models(nodes@)),
            claimed(kids, kids.len() as int, 0, parents@),
            done <= order@.len() <= nodes@.len(),
            parents@.len() == nodes@.len(),
            order_in_progress(kids, parents@, order@, done as int, 0),
        decreases nodes@.len() - done,
    {
        let node: usize = order[done];
        assert(order@[done as int] < parents@.len());
        let children: &Vec<usize> = &nodes[node].children;
        assert(kids[node as int] == children@);
        let mut index: usize = 0;
        while index < children.len()
            invariant
                nodes@.len() <= usize::MAX,
                kids == children_of(node_models(nodes@)),
                claimed(kids, kids.len() as int, 0, parents@),
                done < order@.len() <= nodes@.len(),
                parents@.len() == nodes@.len(),
                node == order@[done as int],
                kids[node as int] == children@,
                index <= children@.len(),
                order_in_progress(kids, parents@, order@, done as int, index as int),
            decreases children@.len() - index,
        {
            proof {
                lemma_order_step(kids, parents@, order@, done as int, index as int);
            }
            order.push(children[index]);
            proof {
                lemma_distinct_is_short(order@, parents@.len());
            }
            index += 1;
        }
        proof {
            lemma_order_node_done(kids, parents@, order@, done as int);
        }
        done += 1;
    }
    proof {
        if order@.len() == nodes@.len() {
            assert forall|c: int| 0 <= c < nodes@.len() implies #[trigger] order@.contains(
                c as usize,
            ) by {
                if !order@.contains(c as usize) {
                    lemma_distinct_is_short(order@.push(c as usize), nodes@.len());
                }
            }
            assert forall|c: int| 0 <= c < parents@.len() implies #[trigger] reaches_root(
                parents@,
                c,
                parents@.len(),
            ) by {
                assert(order@.contains(c as usize));
                let at = choose|at: int| 0 <= at < order@.len() && order@[at] == c as usize;
                lemma_listed_reach_root(parents@, order@, at, parents@.len());
            }
        }
        if acyclic(parents@) {
            assert forall|c: int| 0 <= c < nodes@.len() implies #[trigger] order@.contains(
                c as usize,
            ) by {
                assert(reaches_root(parents@, c, parents@.len()));
                lemma_reaching_is_listed(kids, parents@, order@, c, parents@.len());
            }
            lemma_complete_is_long(order@, nodes@.len());
        }
    }
    order
}

/// The parent of each node, where the nodes make a forest.
pub fn validate_nodes(nodes: &[GltfNode]) -> (result: Result<Vec<Option<usize>>, GltfError>)
    ensures
        yields(
            result,
            forest_of(children_of(node_models(nodes@))),
            |parents: Vec<Option<usize>>| parents@,
        ),
{
    let parents: Vec<Option<usize>> = find_parents(nodes)?;
    let order: Vec<usize> = list_from_roots(nodes, &parents);
    if order.len() != nodes.len() {
        return Err(GltfError::new("node hierarchy contains a cycle"));
    }
    Ok(parents)
}

/// The nodes in an order in which every node comes after its parent, each with its parent.
pub fn hierarchy_order(nodes: &[GltfNode]) -> (result: Result<
    (Vec<usize>, Vec<Option<usize>>),
    GltfError,
>)
    ensures
        match result {
            Ok((order, parents)) => forest_of(children_of(node_models(nodes@))) == Ok::<
                Seq<Option<usize>>,
                Seq<char>,
            >(parents@) && parents_first(order@, parents@) && lists_all(order@, nodes@.len())
                && order@.len() == nodes@.len(),
            Err(error) => error.offset is None && forest_of(children_of(node_models(nodes@)))
                == Err::<Seq<Option<usize>>, Seq<char>>(error.message@),
        },
{
    let parents: Vec<Option<usize>> = find_parents(nodes)?;
    let order: Vec<usize> = list_from_roots(nodes, &parents);
    if order.len() != nodes.len() {
        return Err(GltfError::new("node hierarchy contains a cycle"));
    }
    Ok((order, parents))
}

proof fn lemma_claims(kids: Seq<Seq<usize>>, node: int, index: int, parents: Seq<Option<usize>>)
    requires
        kids.len() <= usize::MAX,
        0 <= node < kids.len(),
        0 <= index <= kids[node].len(),
        claimed(kids, node, index, parents),
    ensures
        claim_from(kids[node], index, node as usize, parents) matches Ok(next) ==> claimed(
            kids,
            node + 1,
            0,
            next,
        ),
    decreases kids[node].len() - index,
{
    if index < kids[node].len() {
        let child = kids[node][index];
        if child < parents.len() && parents[child as int] is None {
            lemma_claim_step(kids, node, index, parents);
            lemma_claims(
                kids,
                node,
                index + 1,
                parents.update(child as int, Some(node as usize)),
            );
        }
    } else {
        assert(kids[node].take(index) =~= kids[node]);
        assert forall|c: int| 0 <= c < parents.len() implies (
        #[trigger] parents[c] matches Some(p) ==> p < kids.len() && kids[p as int].contains(
            c as usize,
        ) && p <= node + 1 && (p == node + 1 ==> kids[node + 1].take(0).contains(c as usize))) by {}
    }
}

proof fn lemma_parents(kids: Seq<Seq<usize>>, node: int, parents: Seq<Option<usize>>)
    requires
        kids.len() <= usize::MAX,
        0 <= node <= kids.len(),
        claimed(kids, node, 0, parents),
    ensures
        parents_from(kids, node, parents) matches Ok(all) ==> claimed(
            kids,
            kids.len() as int,
            0,
            all,
        ),
    decreases kids.len() - node,
{
    if node < kids.len() {
        lemma_claims(kids, node, 0, parents);
        if let Ok(next) = claim_from(kids[node], 0, node as usize, parents) {
            lemma_parents(kids, node + 1, next);
        }
    }
}

/// An accepted hierarchy is a forest: a node is the child of exactly its parent, is listed there
/// once, and lies below a root.
pub proof fn law_accepted_nodes_make_a_forest(kids: Seq<Seq<usize>>)
    requires
        kids.len() <= usize::MAX,
    ensures
        forest_of(kids) matches Ok(parents) ==> {
            &&& parents.len() == kids.len()
            &&& forall|i: int, k: int|
                0 <= i < kids.len() && 0 <= k < kids[i].len() ==> (#[trigger] kids[i][k])
                    < kids.len() && parents[kids[i][k] as int] == Some(i as usize)
            &&& forall|c: int|
                0 <= c < kids.len() ==> (#[trigger] parents[c] matches Some(p) ==> p < kids.len()
                    && kids[p as int].contains(c as usize))
            &&& forall|i: int| 0 <= i < kids.len() ==> (#[trigger] kids[i]).no_duplicates()
            &&& acyclic(parents)
        },
{
    let none = Seq::new(kids.len(), |i: int| None::<usize>);
    assert(claimed(kids, 0, 0, none));
    lemma_parents(kids, 0, none);
    if let Ok(parents) = forest_of(kids) {
        assert forall|i: int| 0 <= i < kids.len() implies (#[trigger] kids[i]).no_duplicates() by {
            assert forall|k: int, l: int|
                0 <= k < kids[i].len() && 0 <= l < kids[i].len() && k != l implies kids[i][k]
                != kids[i][l] by {
                if k < l {
                    assert(kids[i][k] != kids[i][l]);
                } else {
                    assert(kids[i][l] != kids[i][k]);
                }
            }
        }
    }
}

/// A node that is its own ancestor is never accepted.
pub proof fn law_cycles_are_refused(parents: Seq<Option<usize>>, node: int, length: nat)
    requires
        0 <= node < parents.len(),
        length > 0,
        ancestor(parents, node, length) == Some(node),
    ensures
        !acyclic(parents),
{
    if acyclic(parents) {
        assert(reaches_root(parents, node, parents.len()));
        lemma_cycle_never_ends(parents, node, node, length, 0, parents.len());
    }
}

/// The node that lies `steps` steps above `node`.
pub open spec fn ancestor(parents: Seq<Option<usize>>, node: int, steps: nat) -> Option<int>
    decreases steps,
{
    if steps == 0 {
        Some(node)
    } else {
        match ancestor(parents, node, (steps - 1) as nat) {
            None => None,
            Some(above) => if 0 <= above < parents.len() {
                match parents[above] {
                    Some(parent) => Some(parent as int),
                    None => None,
                }
            } else {
                None
            },
        }
    }
}

/// Going up along a cycle, from the node `above` steps up, never reaches a root.
proof fn lemma_cycle_never_ends(
    parents: Seq<Option<usize>>,
    node: int,
    current: int,
    length: nat,
    above: nat,
    steps: nat,
)
    requires
        length > 0,
        above < length,
        ancestor(parents, node, length) == Some(node),
        ancestor(parents, node, above) == Some(current),
    ensures
        !reaches_root(parents, current, steps),
    decreases steps,
{
    lemma_lower_ancestors_exist(parents, node, above + 1, length);
    if steps > 0 && 0 <= current < parents.len() {
        let next = ancestor(parents, node, above + 1)->0;
        if above + 1 == length {
            lemma_cycle_never_ends(parents, node, next, length, 0, (steps - 1) as nat);
        } else {
            lemma_cycle_never_ends(parents, node, next, length, above + 1, (steps - 1) as nat);
        }
    }
}

proof fn lemma_lower_ancestors_exist(
    parents: Seq<Option<usize>>,
    node: int,
    low: nat,
    high: nat,
)
    requires
        low <= high,
        ancestor(parents, node, high) is Some,
    ensures
        ancestor(parents, node, low) is Some,
    decreases high,
{
    if low < high {
        lemma_lower_ancestors_exist(parents, node, low, (high - 1) as nat);
    }
}

} // verus!
