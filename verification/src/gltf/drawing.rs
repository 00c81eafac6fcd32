//! What a scene draws, and in which order.

use crate::float::Float32;
use crate::gltf::document::{AssetModel, GltfAsset};
use crate::gltf::error::{yields, GltfError, Outcome};
use crate::gltf::forest::{children_of, forest_of, law_accepted_nodes_make_a_forest};
use crate::gltf::model::GltfMesh;
use crate::gltf::node::{node_models, GltfNode};
use crate::gltf::pose::{posed_now, worlds_at};
use crate::gltf::sampling::{can_animate, can_weigh, has_sines, Sines};
use crate::math::{identity_matrix, Mat4};
use crate::mesh::{Mesh, MeshModel};
use vstd::prelude::*;

verus! {

/// One thing to draw: a posed primitive and the matrix that places it.
#[derive(Debug, PartialEq)]
pub struct GltfDraw {
    pub mesh: Mesh,
    pub model: Mat4,
    pub material: Option<usize>,
}

/// One thing to draw, as mathematics.
#[verifier::ext_equal]
pub struct DrawModel {
    pub mesh: MeshModel,
    pub model: Mat4,
    pub material: Option<usize>,
}

impl View for GltfDraw {
    type V = DrawModel;

    open spec fn view(&self) -> DrawModel {
        DrawModel { mesh: self.mesh@, model: self.model, material: self.material }
    }
}

/// The views of a list of draws.
pub open spec fn draw_models(draws: Seq<GltfDraw>) -> Seq<DrawModel> {
    Seq::new(draws.len(), |i: int| draws[i]@)
}

/// `node` and what lies up to `levels` levels below it, each node before its children.
pub open spec fn subtree(kids: Seq<Seq<usize>>, node: usize, levels: nat) -> Seq<usize>
    decreases levels, 0nat,
{
    if levels == 0 || node >= kids.len() {
        Seq::empty()
    } else {
        seq![node] + subtrees(kids, kids[node as int], (levels - 1) as nat, 0)
    }
}

/// The subtrees of a list of nodes from `index` on, one after the other.
pub open spec fn subtrees(kids: Seq<Seq<usize>>, roots: Seq<usize>, levels: nat, index: nat) -> Seq<
    usize,
>
    decreases levels, roots.len() - index + 1,
{
    if index >= roots.len() {
        Seq::empty()
    } else {
        subtree(kids, roots[index as int], levels) + subtrees(kids, roots, levels, index + 1)
    }
}

/// The order in which the nodes below a list of roots are visited.
pub open spec fn visit_order(kids: Seq<Seq<usize>>, roots: Seq<usize>) -> Seq<usize> {
    subtrees(kids, roots, kids.len(), 0)
}

/// What a stack of nodes, each with how many levels may lie below it, still visits.
spec fn pending(kids: Seq<Seq<usize>>, stack: Seq<(usize, usize)>) -> Seq<usize>
    decreases stack.len(),
{
    if stack.len() == 0 {
        Seq::empty()
    } else {
        subtree(kids, stack.last().0, stack.last().1 as nat) + pending(kids, stack.drop_last())
    }
}

/// The last `count` entries of `nodes`, the first of them on top.
spec fn stacked(nodes: Seq<usize>, levels: usize, from: int) -> Seq<(usize, usize)> {
    Seq::new((nodes.len() - from) as nat, |i: int| (nodes[nodes.len() - 1 - i], levels))
}

proof fn lemma_pending_stacked(
    kids: Seq<Seq<usize>>,
    base: Seq<(usize, usize)>,
    nodes: Seq<usize>,
    levels: usize,
    from: int,
)
    requires
        0 <= from <= nodes.len(),
    ensures
        pending(kids, base + stacked(nodes, levels, from)) == subtrees(
            kids,
            nodes,
            levels as nat,
            from as nat,
        ) + pending(kids, base),
    decreases nodes.len() - from,
{
    let whole = base + stacked(nodes, levels, from);
    if from == nodes.len() {
        assert(whole =~= base);
        assert(subtrees(kids, nodes, levels as nat, from as nat) =~= Seq::empty());
        assert(Seq::<usize>::empty() + pending(kids, base) =~= pending(kids, base));
    } else {
        assert(whole.drop_last() =~= base + stacked(nodes, levels, from + 1));
        assert(whole.last() == (nodes[from], levels));
        lemma_pending_stacked(kids, base, nodes, levels, from + 1);
        let head = subtree(kids, nodes[from], levels as nat);
        let rest = subtrees(kids, nodes, levels as nat, (from + 1) as nat);
        assert(head + (rest + pending(kids, base)) =~= (head + rest) + pending(kids, base));
    }
}

/// Visits the nodes below a list of roots.
fn visit(nodes: &[GltfNode], roots: &Vec<usize>) -> (result: Vec<usize>)
    requires
        nodes@.len() <= usize::MAX,
        forall|i: int| 0 <= i < roots@.len() ==> #[trigger] roots@[i] < nodes@.len(),
        forall|i: int, k: int|
            0 <= i < nodes@.len() && 0 <= k < nodes@[i].children@.len()
                ==> #[trigger] nodes@[i].children@[k] < nodes@.len(),
    ensures
        result@ == visit_order(children_of(node_models(nodes@)), roots@),
        forall|i: int| 0 <= i < result@.len() ==> #[trigger] result@[i] < nodes@.len(),
{
    let ghost kids = children_of(node_models(nodes@));
    let count: usize = nodes.len();
    let mut stack: Vec<(usize, usize)> = Vec::new();
    let mut at: usize = roots.len();
    while at > 0
        invariant
            at <= roots@.len(),
            forall|i: int| 0 <= i < roots@.len() ==> #[trigger] roots@[i] < nodes@.len(),
            stack@ =~= stacked(roots@, count, at as int),
            forall|i: int| 0 <= i < stack@.len() ==> (#[trigger] stack@[i]).0 < nodes@.len(),
        decreases at,
    {
        at -= 1;
        stack.push((roots[at], count));
    }
    let mut order: Vec<usize> = Vec::new();
    proof {
        lemma_pending_stacked(kids, Seq::empty(), roots@, count, 0);
        assert(Seq::<(usize, usize)>::empty() + stacked(roots@, count, 0) =~= stack@);
        assert(pending(kids, stack@) =~= visit_order(kids, roots@));
        assert(order@ + pending(kids, stack@) =~= visit_order(kids, roots@));
    }
    while stack.len() > 0
        invariant
            kids == children_of(node_models(nodes@)),
            forall|i: int| 0 <= i < stack@.len() ==> (#[trigger] stack@[i]).0 < nodes@.len(),
            forall|i: int| 0 <= i < order@.len() ==> #[trigger] order@[i] < nodes@.len(),
            forall|i: int, k: int|
                0 <= i < nodes@.len() && 0 <= k < nodes@[i].children@.len()
                    ==> #[trigger] nodes@[i].children@[k] < nodes@.len(),
            order@ + pending(kids, stack@) == visit_order(kids, roots@),
        decreases pending(kids, stack@).len(), stack@.len(),
    {
        let ghost before = stack@;
        let (node, levels): (usize, usize) = stack.pop().unwrap();
        let ghost base = stack@;
        assert(base =~= before.drop_last());
        assert(before.last() == (node, levels));
        if levels > 0 {
            let children: &Vec<usize> = &nodes[node].children;
            assert(kids[node as int] == children@);
            let ghost listed = order@;
            order.push(node);
            let mut k: usize = children.len();
            while k > 0
                invariant
                    k <= children@.len(),
                    node < nodes@.len(),
                    levels > 0,
                    children@ == nodes@[node as int].children@,
                    forall|i: int, k: int|
                        0 <= i < nodes@.len() && 0 <= k < nodes@[i].children@.len()
                            ==> #[trigger] nodes@[i].children@[k] < nodes@.len(),
                    stack@ =~= base + stacked(children@, (levels - 1) as usize, k as int),
                    forall|i: int|
                        0 <= i < stack@.len() ==> (#[trigger] stack@[i]).0 < nodes@.len(),
                decreases k,
            {
                k -= 1;
                assert(nodes@[node as int].children@[k as int] < nodes@.len());
                stack.push((children[k], levels - 1));
            }
            proof {
                lemma_pending_stacked(kids, base, children@, (levels - 1) as usize, 0);
                let below = subtrees(kids, children@, (levels - 1) as nat, 0);
                assert(stack@ =~= base + stacked(children@, (levels - 1) as usize, 0));
                assert(pending(kids, before) =~= (seq![node] + below) + pending(kids, base));
                assert(order@ + (below + pending(kids, base)) =~= listed + ((seq![node] + below)
                    + pending(kids, base)));
            }
        } else {
            assert(subtree(kids, node, 0) =~= Seq::empty());
            assert(pending(kids, before) =~= pending(kids, base));
        }
    }
    assert(pending(kids, stack@) =~= Seq::empty());
    assert(order@ + Seq::<usize>::empty() =~= order@);
    order
}

/// A moment at which a scene is drawn.
pub struct Moment {
    pub animation: Option<usize>,
    pub time: Float32,
    pub sines: Seq<Sines>,
    pub worlds: Seq<Mat4>,
}

/// The draws after those of the primitives of a mesh from `index` on. A skin places its vertices
/// in the world, so that its node does not.
pub open spec fn primitive_draws(
    asset: AssetModel,
    moment: Moment,
    node: usize,
    mesh: usize,
    index: int,
    draws: Seq<DrawModel>,
) -> Outcome<Seq<DrawModel>>
    decreases asset.meshes[mesh as int].primitives.len() - index,
{
    let primitives = asset.meshes[mesh as int].primitives;
    if !(0 <= index < primitives.len()) {
        Ok(draws)
    } else {
        match posed_now(
            asset,
            mesh,
            index as usize,
            node,
            moment.animation,
            moment.time,
            moment.sines,
        ) {
            Err(message) => Err(message),
            Ok(posed) => primitive_draws(
                asset,
                moment,
                node,
                mesh,
                index + 1,
                draws.push(
                    DrawModel {
                        mesh: posed,
                        model: if asset.nodes[node as int].skin is Some {
                            identity_matrix()
                        } else {
                            moment.worlds[node as int]
                        },
                        material: primitives[index].material,
                    },
                ),
            ),
        }
    }
}

/// The draws after those of the visited nodes from `index` on.
pub open spec fn node_draws(
    asset: AssetModel,
    moment: Moment,
    order: Seq<usize>,
    index: int,
    draws: Seq<DrawModel>,
) -> Outcome<Seq<DrawModel>>
    decreases order.len() - index,
{
    if !(0 <= index < order.len()) {
        Ok(draws)
    } else {
        match asset.nodes[order[index] as int].mesh {
            None => node_draws(asset, moment, order, index + 1, draws),
            Some(mesh) => if mesh >= asset.meshes.len() {
                Err("node mesh index is out of range"@)
            } else {
                match primitive_draws(asset, moment, order[index], mesh, 0, draws) {
                    Err(message) => Err(message),
                    Ok(next) => node_draws(asset, moment, order, index + 1, next),
                }
            },
        }
    }
}

/// The draws after those of the roots from `index` on, and of what lies below them.
pub open spec fn root_draws(
    asset: AssetModel,
    moment: Moment,
    roots: Seq<usize>,
    index: int,
    draws: Seq<DrawModel>,
) -> Outcome<Seq<DrawModel>>
    decreases roots.len() - index,
{
    if !(0 <= index < roots.len()) {
        Ok(draws)
    } else if roots[index] >= asset.nodes.len() {
        Err("node index is out of range"@)
    } else {
        let order = visit_order(children_of(asset.nodes), seq![roots[index]]);
        match node_draws(asset, moment, order, 0, draws) {
            Err(message) => Err(message),
            Ok(next) => root_draws(asset, moment, roots, index + 1, next),
        }
    }
}

/// Everything that a scene draws at some time, in order.
pub open spec fn scene_draws_at(
    asset: AssetModel,
    scene: usize,
    animation: Option<usize>,
    time: Float32,
    sines: Seq<Sines>,
) -> Outcome<Seq<DrawModel>> {
    if scene >= asset.scenes.len() {
        Err("scene index is out of range"@)
    } else {
        match worlds_at(asset, animation, time, sines) {
            Err(message) => Err(message),
            Ok(worlds) => root_draws(
                asset,
                Moment { animation, time, sines, worlds },
                asset.scenes[scene as int].nodes,
                0,
                Seq::empty(),
            ),
        }
    }
}

/// Whether an asset can be asked for the morph weights of all its nodes at some time.
pub open spec fn can_weigh_all(asset: AssetModel, animation: Option<usize>, time: Float32) -> bool {
    forall|node: usize, mesh: usize, primitive: usize|
        node < asset.nodes.len() && asset.nodes[node as int].mesh == Some(mesh)
            ==> #[trigger] can_weigh(asset, animation, time, node, mesh, primitive)
}

impl GltfAsset {
    fn push_primitives(
        &self,
        animation: Option<usize>,
        time: Float32,
        sines: &[Sines],
        worlds: &Vec<Mat4>,
        node: usize,
        mesh: usize,
        draws: &mut Vec<GltfDraw>,
    ) -> (result: Result<(), GltfError>)
        requires
            can_animate(self@, animation, time),
            has_sines(self@, animation, sines@.len()),
            can_weigh_all(self@, animation, time),
            node < self@.nodes.len(),
            self@.nodes[node as int].mesh == Some(mesh),
            worlds@.len() == self@.nodes.len(),
            mesh < self@.meshes.len(),
        ensures
            ({
                let moment = Moment { animation, time, sines: sines@, worlds: worlds@ };
                let expected = primitive_draws(
                    self@,
                    moment,
                    node,
                    mesh,
                    0,
                    draw_models(old(draws)@),
                );
                match result {
                    Ok(_) => expected == Ok::<Seq<DrawModel>, Seq<char>>(
                        draw_models(final(draws)@),
                    ),
                    Err(error) => error.offset is None && expected == Err::<
                        Seq<DrawModel>,
                        Seq<char>,
                    >(error.message@),
                }
            }),
    {
        let ghost moment = Moment { animation, time, sines: sines@, worlds: worlds@ };
        let ghost start = draw_models(draws@);
        let found: &GltfMesh = &self.meshes[mesh];
        assert(self@.meshes[mesh as int] == found@);
        assert(self@.nodes[node as int] == self.nodes@[node as int]@);
        let skinned: bool = self.nodes[node].skin.is_some();
        let mut i: usize = 0;
        while i < found.primitives.len()
            invariant
                i <= found.primitives@.len(),
                can_animate(self@, animation, time),
                has_sines(self@, animation, sines@.len()),
                can_weigh_all(self@, animation, time),
                node < self@.nodes.len(),
                self@.nodes[node as int].mesh == Some(mesh),
                worlds@.len() == self@.nodes.len(),
                mesh < self@.meshes.len(),
                self@.meshes[mesh as int] == found@,
                skinned == (self@.nodes[node as int].skin is Some),
                moment == (Moment { animation, time, sines: sines@, worlds: worlds@ }),
                start == draw_models(old(draws)@),
                primitive_draws(self@, moment, node, mesh, 0, start) == primitive_draws(
                    self@,
                    moment,
                    node,
                    mesh,
                    i as int,
                    draw_models(draws@),
                ),
            decreases found.primitives@.len() - i,
        {
            assert(found@.primitives[i as int] == found.primitives@[i as int]@);
            let posed: Mesh = match self.pose_mesh(mesh, i, node, animation, time, sines) {
                Err(error) => {
                    return Err(error);
                },
                Ok(posed) => posed,
            };
            let model: Mat4 = if skinned {
                Mat4::identity()
            } else {
                worlds[node]
            };
            let ghost before = draws@;
            draws.push(GltfDraw { mesh: posed, model, material: found.primitives[i].material });
            assert(draw_models(draws@) =~= draw_models(before).push(draws@.last()@));
            i += 1;
        }
        Ok(())
    }

    fn push_nodes(
        &self,
        animation: Option<usize>,
        time: Float32,
        sines: &[Sines],
        worlds: &Vec<Mat4>,
        order: &Vec<usize>,
        draws: &mut Vec<GltfDraw>,
    ) -> (result: Result<(), GltfError>)
        requires
            can_animate(self@, animation, time),
            has_sines(self@, animation, sines@.len()),
            can_weigh_all(self@, animation, time),
            worlds@.len() == self@.nodes.len(),
            forall|i: int| 0 <= i < order@.len() ==> #[trigger] order@[i] < self@.nodes.len(),
        ensures
            ({
                let moment = Moment { animation, time, sines: sines@, worlds: worlds@ };
                let expected = node_draws(self@, moment, order@, 0, draw_models(old(draws)@));
                match result {
                    Ok(_) => expected == Ok::<Seq<DrawModel>, Seq<char>>(
                        draw_models(final(draws)@),
                    ),
                    Err(error) => error.offset is None && expected == Err::<
                        Seq<DrawModel>,
                        Seq<char>,
                    >(error.message@),
                }
            }),
    {
        let ghost moment = Moment { animation, time, sines: sines@, worlds: worlds@ };
        let ghost start = draw_models(draws@);
        let mut i: usize = 0;
        while i < order.len()
            invariant
                i <= order@.len(),
                can_animate(self@, animation, time),
                has_sines(self@, animation, sines@.len()),
                can_weigh_all(self@, animation, time),
                worlds@.len() == self@.nodes.len(),
                forall|i: int| 0 <= i < order@.len() ==> #[trigger] order@[i] < self@.nodes.len(),
                moment == (Moment { animation, time, sines: sines@, worlds: worlds@ }),
                start == draw_models(old(draws)@),
                node_draws(self@, moment, order@, 0, start) == node_draws(
                    self@,
                    moment,
                    order@,
                    i as int,
                    draw_models(draws@),
                ),
            decreases order@.len() - i,
        {
            let node: usize = order[i];
            assert(order@[i as int] < self@.nodes.len());
            assert(self@.nodes[node as int] == self.nodes@[node as int]@);
            if let Some(mesh) = self.nodes[node].mesh {
                if mesh >= self.meshes.len() {
                    return Err(GltfError::new("node mesh index is out of range"));
                }
                match self.push_primitives(animation, time, sines, worlds, node, mesh, draws) {
                    Err(error) => {
                        return Err(error);
                    },
                    Ok(_) => {},
                }
            }
            i += 1;
        }
        Ok(())
    }

    /// Everything that a scene draws at some time, in order.
    pub fn scene_draws(
        &self,
        scene: usize,
        animation: Option<usize>,
        time: Float32,
        sines: &[Sines],
    ) -> (result: Result<Vec<GltfDraw>, GltfError>)
        requires
            scene < self@.scenes.len() ==> can_animate(self@, animation, time),
            scene < self@.scenes.len() ==> has_sines(self@, animation, sines@.len()),
            scene < self@.scenes.len() ==> can_weigh_all(self@, animation, time),
        ensures
            yields(
                result,
                scene_draws_at(self@, scene, animation, time, sines@),
                |draws: Vec<GltfDraw>| draw_models(draws@),
            ),
    {
        if scene >= self.scenes.len() {
            return Err(GltfError::new("scene index is out of range"));
        }
        assert(self@.scenes[scene as int] == self.scenes@[scene as int]@);
        let roots: &Vec<usize> = &self.scenes[scene].nodes;
        let worlds: Vec<Mat4> = match self.node_world_transforms(animation, time, sines) {
            Err(error) => {
                return Err(error);
            },
            Ok(worlds) => worlds,
        };
        let ghost moment = Moment { animation, time, sines: sines@, worlds: worlds@ };
        let ghost kids = children_of(self@.nodes);
        assert(self.nodes.len() == self.nodes@.len());
        proof {
            assert(forest_of(kids) is Ok);
            law_accepted_nodes_make_a_forest(kids);
            assert forall|i: int, k: int|
                0 <= i < self.nodes@.len() && 0 <= k
                    < self.nodes@[i].children@.len() implies #[trigger] self.nodes@[i].children@[k]
                < self.nodes@.len() by {
                assert(kids[i][k] == self.nodes@[i].children@[k]);
            }
        }
        let mut draws: Vec<GltfDraw> = Vec::new();
        assert(draw_models(draws@) =~= Seq::<DrawModel>::empty());
        let mut i: usize = 0;
        while i < roots.len()
            invariant
                i <= roots@.len(),
                can_animate(self@, animation, time),
                has_sines(self@, animation, sines@.len()),
                can_weigh_all(self@, animation, time),
                worlds@.len() == self@.nodes.len(),
                self.nodes@.len() <= usize::MAX,
                kids == children_of(self@.nodes),
                moment == (Moment { animation, time, sines: sines@, worlds: worlds@ }),
                forall|i: int, k: int|
                    0 <= i < self.nodes@.len() && 0 <= k < self.nodes@[i].children@.len()
                        ==> #[trigger] self.nodes@[i].children@[k] < self.nodes@.len(),
                scene_draws_at(self@, scene, animation, time, sines@) == root_draws(
                    self@,
                    moment,
                    roots@,
                    i as int,
                    draw_models(draws@),
                ),
            decreases roots@.len() - i,
        {
            let root: usize = roots[i];
            if root >= self.nodes.len() {
                return Err(GltfError::new("node index is out of range"));
            }
            let mut single: Vec<usize> = Vec::new();
            single.push(root);
            assert(single@ =~= seq![roots@[i as int]]);
            let order: Vec<usize> = visit(self.nodes.as_slice(), &single);
            match self.push_nodes(animation, time, sines, &worlds, &order, &mut draws) {
                Err(error) => {
                    return Err(error);
                },
                Ok(_) => {},
            }
            i += 1;
        }
        Ok(draws)
    }
}

} // verus!
