//! Instance consolidation: below a waiting root, materials and meshes of
//! the same content are made to share the handle that the traversal saw
//! first.

use vstd::prelude::*;
use std::collections::HashMap;
use crate::assets::{Assets, AssetsModel, image_digests, lemma_same_material_is_equivalence, lemma_same_material_same_digest};
use crate::scene::{Scene, SceneModel, SceneNode, all_children, names};

verus! {

/// Whether `slot` names an asset whose digest is `key`.
pub open spec fn in_bucket(digests: Seq<u64>, slot: Option<usize>, key: u64) -> bool {
    match slot {
        Some(handle) => handle < digests.len() && digests[handle as int] == key,
        None => false,
    }
}

/// The handle that stands for the bucket `key`: the first of `handles`
/// whose asset has that digest.
pub open spec fn representative(handles: Seq<Option<usize>>, digests: Seq<u64>, key: u64) -> Option<
    usize,
>
    decreases handles.len(),
{
    if handles.len() == 0 {
        None
    } else {
        match representative(handles.drop_last(), digests, key) {
            Some(first) => Some(first),
            None => if in_bucket(digests, handles.last(), key) {
                handles.last()
            } else {
                None
            },
        }
    }
}

/// The handle that `slot` may be rewritten to: the representative of the
/// bucket of its asset. None for an empty slot and for a handle that names
/// no asset.
pub open spec fn candidate(handles: Seq<Option<usize>>, digests: Seq<u64>, slot: Option<usize>)
    -> Option<usize> {
    match slot {
        Some(handle) => if handle < digests.len() {
            representative(handles, digests, digests[handle as int])
        } else {
            None
        },
        None => None,
    }
}

/// The representative of a bucket is the first handle seen in it: it
/// stands at some position, names an asset of that digest, and no handle
/// before it does.
pub proof fn lemma_representative_is_first(
    handles: Seq<Option<usize>>,
    digests: Seq<u64>,
    key: u64,
)
    ensures
        match representative(handles, digests, key) {
            Some(first) => exists|p: int|
                0 <= p < handles.len() && #[trigger] handles[p] == Some(first) && in_bucket(
                    digests,
                    Some(first),
                    key,
                ) && forall|q: int| 0 <= q < p ==> !in_bucket(digests, #[trigger] handles[q], key),
            None => forall|q: int|
                0 <= q < handles.len() ==> !in_bucket(digests, #[trigger] handles[q], key),
        },
    decreases handles.len(),
{
    if handles.len() > 0 {
        let shorter = handles.drop_last();
        lemma_representative_is_first(shorter, digests, key);
        match representative(shorter, digests, key) {
            Some(first) => {
                let p = choose|p: int|
                    0 <= p < shorter.len() && #[trigger] shorter[p] == Some(first) && in_bucket(
                        digests,
                        Some(first),
                        key,
                    ) && forall|q: int|
                        0 <= q < p ==> !in_bucket(digests, #[trigger] shorter[q], key);
                assert(handles[p] == Some(first));
                assert forall|q: int| 0 <= q < p implies !in_bucket(
                    digests,
                    #[trigger] handles[q],
                    key,
                ) by {
                    assert(handles[q] == shorter[q]);
                }
            },
            None => {
                assert forall|q: int| 0 <= q < shorter.len() implies !in_bucket(
                    digests,
                    #[trigger] handles[q],
                    key,
                ) by {
                    assert(handles[q] == shorter[q]);
                }
                if in_bucket(digests, handles.last(), key) {
                    assert(handles[handles.len() - 1] == handles.last());
                }
            },
        }
    }
}

/// Once a bucket has its representative, handles seen later do not change
/// it.
proof fn lemma_representative_stable(
    handles: Seq<Option<usize>>,
    digests: Seq<u64>,
    key: u64,
    n: int,
)
    requires
        0 <= n <= handles.len(),
        representative(handles.take(n), digests, key).is_some(),
    ensures
        representative(handles, digests, key) == representative(handles.take(n), digests, key),
    decreases handles.len() - n,
{
    if n < handles.len() {
        assert(handles.take(n + 1).drop_last() =~= handles.take(n));
        lemma_representative_stable(handles, digests, key, n + 1);
    } else {
        assert(handles.take(n) =~= handles);
    }
}

/// Finds the representative for each of `handles`, in one pass with a map
/// from digest to the first handle seen with it.
pub fn representatives(handles: &Vec<Option<usize>>, digests: &Vec<u64>) -> (reps: Vec<
    Option<usize>,
>)
    ensures
        reps.len() == handles.len(),
        forall|p: int|
            0 <= p < handles.len() ==> #[trigger] reps[p] == candidate(
                handles@,
                digests@,
                handles[p],
            ),
{
    broadcast use vstd::std_specs::hash::group_hash_axioms;

    let mut first_seen: HashMap<u64, usize> = HashMap::new();
    let mut reps: Vec<Option<usize>> = Vec::new();
    let mut i: usize = 0;
    proof {
        assert(handles@.take(0) =~= Seq::<Option<usize>>::empty());
    }
    while i < handles.len()
        invariant
            i <= handles.len(),
            reps.len() == i,
            forall|key: u64| #[trigger]
                representative(handles@.take(i as int), digests@, key) == if first_seen@.contains_key(
                    key,
                ) {
                    Some(first_seen@[key])
                } else {
                    None
                },
            forall|p: int|
                0 <= p < i ==> #[trigger] reps[p] == candidate(handles@, digests@, handles[p]),
        decreases handles.len() - i,
    {
        let ghost prefix = handles@.take(i as int);
        let ghost longer = handles@.take(i + 1);
        proof {
            assert(longer.drop_last() =~= prefix);
            assert(longer.last() == handles[i as int]);
        }
        let ghost seen = first_seen@;
        let slot = handles[i];
        let rep = match slot {
            Some(handle) => {
                if handle < digests.len() {
                    let key = digests[handle];
                    let known = match first_seen.get(&key) {
                        Some(first) => Some(*first),
                        None => None,
                    };
                    let found = match known {
                        Some(first) => first,
                        None => {
                            first_seen.insert(key, handle);
                            handle
                        },
                    };
                    proof {
                        assert(in_bucket(digests@, slot, key));
                        assert(representative(prefix, digests@, key) == if seen.contains_key(key) {
                            Some(seen[key])
                        } else {
                            None
                        });
                        assert(representative(longer, digests@, key) == Some(found));
                        lemma_representative_stable(handles@, digests@, key, i + 1);
                        assert forall|other: u64| #[trigger]
                            representative(longer, digests@, other) == if first_seen@.contains_key(
                                other,
                            ) {
                                Some(first_seen@[other])
                            } else {
                                None
                            } by {
                            assert(representative(prefix, digests@, other) == if seen.contains_key(
                                other,
                            ) {
                                Some(seen[other])
                            } else {
                                None
                            });
                            if other != key {
                                assert(!in_bucket(digests@, slot, other));
                            }
                        }
                    }
                    Some(found)
                } else {
                    proof {
                        assert forall|other: u64| #[trigger]
                            representative(longer, digests@, other) == representative(
                                prefix,
                                digests@,
                                other,
                            ) by {
                            assert(!in_bucket(digests@, slot, other));
                        }
                    }
                    None
                }
            },
            None => {
                proof {
                    assert forall|other: u64| #[trigger]
                        representative(longer, digests@, other) == representative(
                            prefix,
                            digests@,
                            other,
                        ) by {
                        assert(!in_bucket(digests@, slot, other));
                    }
                }
                None
            },
        };
        reps.push(rep);
        i += 1;
    }
    reps
}

/// The material handles of `entities`, one slot per entity.
pub open spec fn material_handles(scene: SceneModel, entities: Seq<usize>) -> Seq<Option<usize>> {
    Seq::new(entities.len(), |p: int| scene.nodes[entities[p] as int].material)
}

/// The mesh handles of `entities`, one slot per entity.
pub open spec fn mesh_handles(scene: SceneModel, entities: Seq<usize>) -> Seq<Option<usize>> {
    Seq::new(entities.len(), |p: int| scene.nodes[entities[p] as int].mesh)
}

/// The material handle that an entity of the subtree ends up with: the
/// representative of its bucket where the two materials have the same
/// content, else the handle it had.
pub open spec fn merged_material(
    assets: AssetsModel,
    handles: Seq<Option<usize>>,
    slot: Option<usize>,
) -> Option<usize> {
    picked_material(assets, candidate(handles, assets.material_digests(), slot), slot)
}

/// `first` where it and `slot` name materials of the same content, else
/// `slot`.
pub open spec fn picked_material(assets: AssetsModel, first: Option<usize>, slot: Option<usize>)
    -> Option<usize> {
    match (first, slot) {
        (Some(first), Some(handle)) => if assets.materials_match(first as int, handle as int) {
            Some(first)
        } else {
            slot
        },
        _ => slot,
    }
}

/// `first` where it and `slot` name meshes of the same content, else
/// `slot`.
pub open spec fn picked_mesh(assets: AssetsModel, first: Option<usize>, slot: Option<usize>)
    -> Option<usize> {
    match (first, slot) {
        (Some(first), Some(handle)) => if assets.meshes_match(first as int, handle as int) {
            Some(first)
        } else {
            slot
        },
        _ => slot,
    }
}

/// The mesh handle that an entity of the subtree ends up with.
pub open spec fn merged_mesh(assets: AssetsModel, handles: Seq<Option<usize>>, slot: Option<usize>)
    -> Option<usize> {
    picked_mesh(assets, candidate(handles, assets.mesh_digests(), slot), slot)
}

/// Entity `n` of the subtree visited in `order`, after consolidation.
#[verifier::opaque]
pub open spec fn consolidated_node(scene: SceneModel, assets: AssetsModel, order: Seq<usize>, n: int)
    -> SceneNode {
    SceneNode {
        material: merged_material(assets, material_handles(scene, order), scene.nodes[n].material),
        mesh: merged_mesh(assets, mesh_handles(scene, order), scene.nodes[n].mesh),
        ..scene.nodes[n]
    }
}

/// The scene after the subtree below `root` has been consolidated: the
/// entities below the root carry their merged handles, the root has lost
/// its marker, everything else is as it was. A `root` that is not waiting,
/// or not yet populated, leaves the scene as it is.
pub open spec fn consolidated_subtree(scene: SceneModel, assets: AssetsModel, root: int)
    -> SceneModel {
    if !scene.is_pending_root(root) {
        scene
    } else {
        let order = scene.descendants(root);
        SceneModel {
            nodes: Seq::new(
                scene.nodes.len(),
                |n: int|
                    if names(order, n) {
                        consolidated_node(scene, assets, order, n)
                    } else if n == root {
                        SceneNode { post_proc_scene: false, ..scene.nodes[n] }
                    } else {
                        scene.nodes[n]
                    },
            ),
            children: scene.children,
        }
    }
}

/// The scene after the subtrees of the waiting roots among the first
/// `upto` entities have been consolidated, root by root.
pub open spec fn consolidated(scene: SceneModel, assets: AssetsModel, upto: nat) -> SceneModel
    decreases upto,
{
    if upto == 0 {
        scene
    } else {
        consolidated_subtree(consolidated(scene, assets, (upto - 1) as nat), assets, upto - 1)
    }
}

proof fn lemma_candidate_valid(handles: Seq<Option<usize>>, digests: Seq<u64>, slot: Option<usize>)
    ensures
        match candidate(handles, digests, slot) {
            Some(first) => first < digests.len() && slot.is_some() && digests[first as int]
                == digests[slot.unwrap() as int],
            None => true,
        },
{
    if let Some(handle) = slot {
        if handle < digests.len() {
            lemma_representative_is_first(handles, digests, digests[handle as int]);
        }
    }
}

/// Consolidation never changes what an entity shows: a handle is only ever
/// replaced by the handle of an asset of the same content. Two materials
/// whose digests agree but whose content differs in any slot keep their
/// own handles.
pub proof fn lemma_consolidation_safe(scene: SceneModel, assets: AssetsModel, root: int, n: int)
    requires
        scene.wf(),
        0 <= n < scene.nodes.len(),
    ensures
        ({
            let before = scene.nodes[n];
            let after = consolidated_subtree(scene, assets, root).nodes[n];
            &&& after.material.is_some() == before.material.is_some()
            &&& after.mesh.is_some() == before.mesh.is_some()
            &&& after.material != before.material ==> assets.materials_match(
                after.material.unwrap() as int,
                before.material.unwrap() as int,
            )
            &&& after.mesh != before.mesh ==> assets.meshes_match(
                after.mesh.unwrap() as int,
                before.mesh.unwrap() as int,
            )
            &&& after.light == before.light
            &&& after.camera == before.camera
            &&& after.grif_light == before.grif_light
            &&& after.no_frustum_culling == before.no_frustum_culling
        }),
{
    reveal(consolidated_node);
}

/// Entities below one root whose materials have the same content end up
/// with the same handle, the representative of their bucket, unless that
/// representative is an asset of other content that merely shares their
/// digest.
pub proof fn lemma_alike_share_a_handle(
    scene: SceneModel,
    assets: AssetsModel,
    root: int,
    p: int,
    q: int,
)
    requires
        scene.wf(),
        scene.is_pending_root(root),
        0 <= p < scene.descendants(root).len(),
        0 <= q < scene.descendants(root).len(),
        scene.nodes[scene.descendants(root)[p] as int].material.is_some(),
        scene.nodes[scene.descendants(root)[q] as int].material.is_some(),
        assets.materials_match(
            scene.nodes[scene.descendants(root)[p] as int].material.unwrap() as int,
            scene.nodes[scene.descendants(root)[q] as int].material.unwrap() as int,
        ),
        ({
            let order = scene.descendants(root);
            let first = candidate(
                material_handles(scene, order),
                assets.material_digests(),
                scene.nodes[order[p] as int].material,
            );
            first.is_some() ==> assets.materials_match(
                first.unwrap() as int,
                scene.nodes[order[p] as int].material.unwrap() as int,
            )
        }),
    ensures
        ({
            let order = scene.descendants(root);
            let after = consolidated_subtree(scene, assets, root);
            let first = candidate(
                material_handles(scene, order),
                assets.material_digests(),
                scene.nodes[order[p] as int].material,
            );
            &&& first.is_some()
            &&& after.nodes[order[p] as int].material == first
            &&& after.nodes[order[q] as int].material == first
        }),
{
    reveal(consolidated_node);
    let order = scene.descendants(root);
    let handles = material_handles(scene, order);
    let digests = assets.material_digests();
    let a = order[p] as int;
    let b = order[q] as int;
    let ha = scene.nodes[a].material.unwrap();
    let hb = scene.nodes[b].material.unwrap();
    crate::scene::lemma_visit_bounds(scene, root, scene.children[root].len(), p);
    crate::scene::lemma_visit_bounds(scene, root, scene.children[root].len(), q);
    assert(names(order, a));
    assert(names(order, b));
    lemma_same_material_same_digest(assets.images, assets.materials[ha as int], assets.materials[hb as int]);
    assert(digests[ha as int] == digests[hb as int]);
    assert(handles[p] == Some(ha));
    lemma_representative_is_first(handles, digests, digests[ha as int]);
    let first = representative(handles, digests, digests[ha as int]);
    assert(first.is_some()) by {
        assert(in_bucket(digests, handles[p], digests[ha as int]));
    }
    lemma_candidate_valid(handles, digests, Some(ha));
    lemma_same_material_is_equivalence(
        assets.images,
        assets.materials[first.unwrap() as int],
        assets.materials[ha as int],
        assets.materials[hb as int],
    );
}

/// The handle that a material slot is rewritten to is the first in the
/// order of the traversal among those of its bucket, and the outcome
/// depends on nothing but the scene, the assets and the root: consolidating
/// the same subtree twice gives the same handles.
pub proof fn lemma_consolidation_deterministic(
    scene: SceneModel,
    assets: AssetsModel,
    root: int,
    first_run: SceneModel,
    second_run: SceneModel,
    p: int,
)
    requires
        scene.wf(),
        scene.is_pending_root(root),
        first_run == consolidated_subtree(scene, assets, root),
        second_run == consolidated_subtree(scene, assets, root),
        0 <= p < scene.descendants(root).len(),
    ensures
        first_run == second_run,
        ({
            let order = scene.descendants(root);
            let handles = material_handles(scene, order);
            let n = order[p] as int;
            let digests = assets.material_digests();
            &&& 0 <= n < scene.nodes.len()
            &&& first_run.nodes[n].material != scene.nodes[n].material ==> exists|q: int|
                0 <= q < p && #[trigger] handles[q] == first_run.nodes[n].material && in_bucket(
                    digests,
                    handles[q],
                    digests[scene.nodes[n].material.unwrap() as int],
                ) && forall|r: int|
                    0 <= r < q ==> !in_bucket(
                        digests,
                        #[trigger] handles[r],
                        digests[scene.nodes[n].material.unwrap() as int],
                    )
        }),
{
    reveal(consolidated_node);
    let order = scene.descendants(root);
    let handles = material_handles(scene, order);
    let n = order[p] as int;
    let digests = assets.material_digests();
    crate::scene::lemma_visit_bounds(scene, root, scene.children[root].len(), p);
    assert(names(order, n));
    if first_run.nodes[n].material != scene.nodes[n].material {
        let handle = scene.nodes[n].material.unwrap();
        let key = digests[handle as int];
        lemma_candidate_valid(handles, digests, scene.nodes[n].material);
        lemma_representative_is_first(handles, digests, key);
        let first = representative(handles, digests, key).unwrap();
        let q = choose|q: int|
            0 <= q < handles.len() && #[trigger] handles[q] == Some(first) && in_bucket(
                digests,
                Some(first),
                key,
            ) && forall|r: int| 0 <= r < q ==> !in_bucket(digests, #[trigger] handles[r], key);
        assert(handles[p] == Some(handle));
        assert(in_bucket(digests, handles[p], key));
        assert(q < p) by {
            if q >= p {
                if q > p {
                    assert(!in_bucket(digests, handles[p], key));
                }
                assert(first == handle);
            }
        }
    }
}

fn pick_material(assets: &Assets, first: Option<usize>, slot: Option<usize>) -> (picked: Option<
    usize,
>)
    ensures
        picked == picked_material(assets@, first, slot),
{
    match (first, slot) {
        (Some(first), Some(handle)) => {
            if first != handle && assets.materials_match(first, handle) {
                Some(first)
            } else {
                slot
            }
        },
        _ => slot,
    }
}

fn pick_mesh(assets: &Assets, first: Option<usize>, slot: Option<usize>) -> (picked: Option<usize>)
    ensures
        picked == picked_mesh(assets@, first, slot),
{
    match (first, slot) {
        (Some(first), Some(handle)) => {
            if first != handle && assets.meshes_match(first, handle) {
                Some(first)
            } else {
                slot
            }
        },
        _ => slot,
    }
}

/// Reads the subtree and works out what each of its entities becomes. The
/// scene is not touched.
fn plan_subtree(scene: &Scene, assets: &Assets, order: &Vec<usize>) -> (targets: Vec<SceneNode>)
    requires
        forall|j: int| 0 <= j < order.len() ==> #[trigger] order[j] < scene@.nodes.len(),
    ensures
        targets.len() == order.len(),
        forall|j: int|
            0 <= j < order.len() ==> #[trigger] targets[j] == consolidated_node(
                scene@,
                assets@,
                order@,
                order[j] as int,
            ),
{
    let mut found: Vec<SceneNode> = Vec::new();
    let mut materials: Vec<Option<usize>> = Vec::new();
    let mut meshes: Vec<Option<usize>> = Vec::new();
    let mut p: usize = 0;
    while p < order.len()
        invariant
            p <= order.len(),
            forall|j: int| 0 <= j < order.len() ==> #[trigger] order[j] < scene@.nodes.len(),
            found.len() == p,
            materials.len() == p,
            meshes.len() == p,
            forall|j: int| 0 <= j < p ==> #[trigger] found[j] == scene@.nodes[order[j] as int],
            forall|j: int| 0 <= j < p ==> #[trigger] materials[j] == found[j].material,
            forall|j: int| 0 <= j < p ==> #[trigger] meshes[j] == found[j].mesh,
        decreases order.len() - p,
    {
        let node = scene.node(order[p]).unwrap();
        found.push(node);
        materials.push(node.material);
        meshes.push(node.mesh);
        p += 1;
    }
    proof {
        assert(materials@ =~= material_handles(scene@, order@));
        assert(meshes@ =~= mesh_handles(scene@, order@));
    }
    let material_digests = assets.material_digests();
    let mesh_digests = assets.mesh_digests();
    let material_reps = representatives(&materials, &material_digests);
    let mesh_reps = representatives(&meshes, &mesh_digests);
    let mut targets: Vec<SceneNode> = Vec::new();
    let mut p: usize = 0;
    while p < order.len()
        invariant
            p <= order.len(),
            targets.len() == p,
            found.len() == order.len(),
            material_reps.len() == order.len(),
            mesh_reps.len() == order.len(),
            materials@ == material_handles(scene@, order@),
            meshes@ == mesh_handles(scene@, order@),
            material_digests@ == assets@.material_digests(),
            mesh_digests@ == assets@.mesh_digests(),
            forall|j: int|
                0 <= j < order.len() ==> #[trigger] found[j] == scene@.nodes[order[j] as int],
            forall|j: int|
                0 <= j < order.len() ==> #[trigger] material_reps[j] == candidate(
                    materials@,
                    material_digests@,
                    materials[j],
                ),
            forall|j: int|
                0 <= j < order.len() ==> #[trigger] mesh_reps[j] == candidate(
                    meshes@,
                    mesh_digests@,
                    meshes[j],
                ),
            forall|j: int|
                0 <= j < p ==> #[trigger] targets[j] == consolidated_node(
                    scene@,
                    assets@,
                    order@,
                    order[j] as int,
                ),
        decreases order.len() - p,
    {
        let node = found[p];
        proof {
            reveal(consolidated_node);
            assert(materials[p as int] == node.material);
            assert(meshes[p as int] == node.mesh);
        }
        let material = pick_material(assets, material_reps[p], node.material);
        let mesh = pick_mesh(assets, mesh_reps[p], node.mesh);
        targets.push(SceneNode { material, mesh, ..node });
        p += 1;
    }
    targets
}

/// Writes the planned components into the scene, entity by entity.
fn apply_plan(scene: &mut Scene, order: &Vec<usize>, targets: &Vec<SceneNode>)
    requires
        targets.len() == order.len(),
        forall|j: int| 0 <= j < order.len() ==> #[trigger] order[j] < old(scene)@.nodes.len(),
        forall|j: int, k: int|
            0 <= j < order.len() && 0 <= k < order.len() && order[j] == order[k] ==> targets[j]
                == targets[k],
    ensures
        final(scene)@.children == old(scene)@.children,
        final(scene)@.nodes.len() == old(scene)@.nodes.len(),
        forall|j: int|
            0 <= j < order.len() ==> final(scene)@.nodes[#[trigger] order[j] as int] == targets[j],
        forall|n: int|
            0 <= n < old(scene)@.nodes.len() && (forall|j: int|
                0 <= j < order.len() ==> #[trigger] order[j] != n) ==> #[trigger] final(scene)@.nodes[n] == old(scene)@.nodes[n],
{
    let mut p: usize = 0;
    while p < order.len()
        invariant
            p <= order.len(),
            targets.len() == order.len(),
            forall|j: int| 0 <= j < order.len() ==> #[trigger] order[j] < old(scene)@.nodes.len(),
            forall|j: int, k: int|
                0 <= j < order.len() && 0 <= k < order.len() && order[j] == order[k] ==> targets[j]
                    == targets[k],
            scene@.children == old(scene)@.children,
            scene@.nodes.len() == old(scene)@.nodes.len(),
            forall|j: int| 0 <= j < p ==> scene@.nodes[#[trigger] order[j] as int] == targets[j],
            forall|n: int|
                0 <= n < old(scene)@.nodes.len() && (forall|j: int|
                    0 <= j < p ==> #[trigger] order[j] != n) ==> #[trigger] scene@.nodes[n] == old(scene)@.nodes[n],
        decreases order.len() - p,
    {
        let ghost before = scene@;
        scene.set_node(order[p], targets[p]);
        proof {
            assert forall|j: int| 0 <= j < p + 1 implies scene@.nodes[#[trigger] order[j] as int]
                == targets[j] by {
                if order[j] != order[p as int] {
                    assert(scene@.nodes[order[j] as int] == before.nodes[order[j] as int]);
                }
            }
            assert forall|n: int|
                0 <= n < old(scene)@.nodes.len() && (forall|j: int|
                    0 <= j < p + 1 ==> #[trigger] order[j] != n) implies #[trigger] scene@.nodes[n]
                == old(scene)@.nodes[n] by {
                assert(order[p as int] != n);
                assert(scene@.nodes[n] == before.nodes[n]);
            }
        }
        p += 1;
    }
}

/// Consolidates the subtree below `root`, if `root` waits for it and has
/// been populated. Returns whether it did.
pub fn consolidate_subtree(scene: &mut Scene, assets: &Assets, root: usize) -> (done: bool)
    ensures
        done == old(scene)@.is_pending_root(root as int),
        final(scene)@ == consolidated_subtree(old(scene)@, assets@, root as int),
{
    if !scene.is_pending_root(root) {
        return false;
    }
    let order = all_children(scene, root);
    let count = scene.len();
    let ghost start = scene@;
    let ghost goal = consolidated_subtree(start, assets@, root as int);
    let targets = plan_subtree(scene, assets, &order);
    apply_plan(scene, &order, &targets);
    let ghost planned = scene@;
    let marked = scene.node(root).unwrap();
    scene.set_node(root, SceneNode { post_proc_scene: false, ..marked });
    proof {
        assert forall|n: int| 0 <= n < start.nodes.len() implies scene@.nodes[n] == goal.nodes[n] by {
            assert(n < count);
            if names(order@, n) {
                let j = choose|j: int| 0 <= j < order.len() && order[j] == n;
                assert(root < order[j]);
                assert(planned.nodes[order[j] as int] == targets[j]);
                assert(scene@.nodes[n] == planned.nodes[n]);
            } else {
                assert forall|j: int| 0 <= j < order.len() implies #[trigger] order[j] != n by {
                    if order[j] == n {
                        assert(names(order@, n));
                    }
                }
                assert(planned.nodes[n] == start.nodes[n]);
            }
        }
        assert(scene@.nodes =~= goal.nodes);
    }
    true
}

/// Consolidates the subtree of every waiting root, root by root.
pub fn consolidate(scene: &mut Scene, assets: &Assets)
    ensures
        final(scene)@ == consolidated(old(scene)@, assets@, old(scene)@.nodes.len()),
{
    let count = scene.len();
    let mut root: usize = 0;
    while root < count
        invariant
            root <= count,
            count == old(scene)@.nodes.len(),
            scene@ == consolidated(old(scene)@, assets@, root as nat),
        decreases count - root,
    {
        consolidate_subtree(scene, assets, root);
        root += 1;
    }
}

} // verus!
