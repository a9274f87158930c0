//! One processing cycle: textures first, then the tidying of the scene,
//! then consolidation, so that content is compared only once it is final.

use vstd::prelude::*;
use crate::assets::{Assets, AssetsModel, MaterialAsset};
use crate::cache::CompressionCache;
use crate::consolidate::{consolidate, consolidated, consolidated_node, consolidated_subtree};
use crate::orchestrator::{PassState, ProcessEvent, pass_fold, pass_start, pending_textures, texture_pass};
use crate::scene::{Scene, SceneModel, names};
use crate::settings::MipmapGeneratorSettings;
use crate::viewer::{SceneCommand, in_waiting_subtree, proc_scene, processed_materials, scene_commands};

verus! {

/// What a cycle did.
pub struct CycleReport {
    /// The images that were processed, in order, each with its path.
    pub events: Vec<ProcessEvent>,
    /// What the application has to carry out on its own scene.
    pub commands: Vec<SceneCommand>,
}

impl SceneModel {
    /// Whether no root waits among the first `upto` entities.
    pub open spec fn idle_upto(self, upto: int) -> bool {
        forall|n: int| 0 <= n < upto ==> !#[trigger] self.is_pending_root(n)
    }

    /// Whether no root waits: a cycle has nothing to do.
    pub open spec fn idle(self) -> bool {
        self.idle_upto(self.nodes.len() as int)
    }
}

/// Consolidation leaves no root waiting behind it: of the first `upto`
/// entities none waits any more, the others wait as before, and the tree
/// itself is as it was.
pub proof fn lemma_consolidated_clears(scene: SceneModel, assets: AssetsModel, upto: nat)
    requires
        scene.wf(),
        upto <= scene.nodes.len(),
    ensures
        consolidated(scene, assets, upto).wf(),
        consolidated(scene, assets, upto).children == scene.children,
        consolidated(scene, assets, upto).nodes.len() == scene.nodes.len(),
        consolidated(scene, assets, upto).idle_upto(upto as int),
        forall|n: int|
            0 <= n < scene.nodes.len() ==> #[trigger] consolidated(
                scene,
                assets,
                upto,
            ).nodes[n].post_proc_scene == (scene.nodes[n].post_proc_scene && !(n < upto
                && scene.children[n].len() > 0)),
    decreases upto,
{
    reveal(consolidated_node);
    if upto > 0 {
        lemma_consolidated_clears(scene, assets, (upto - 1) as nat);
        let before = consolidated(scene, assets, (upto - 1) as nat);
        let after = consolidated_subtree(before, assets, upto - 1);
        assert(after == consolidated(scene, assets, upto));
        if before.is_pending_root(upto - 1) {
            let order = before.descendants(upto - 1);
            assert forall|n: int| 0 <= n < scene.nodes.len() implies #[trigger] after.nodes[n].post_proc_scene
                == (scene.nodes[n].post_proc_scene && !(n < upto && scene.children[n].len() > 0)) by {
                if names(order, n) {
                    let i = choose|i: int| 0 <= i < order.len() && order[i] == n;
                    crate::scene::lemma_visit_bounds(
                        before,
                        upto - 1,
                        before.children[upto - 1].len(),
                        i,
                    );
                }
            }
        }
        assert forall|n: int| 0 <= n < upto implies !#[trigger] after.is_pending_root(n) by {
            if n < upto - 1 {
                assert(!before.is_pending_root(n));
            }
        }
    }
}

/// With no root waiting there is nothing to process, nothing to command,
/// and nothing to consolidate: a cycle changes nothing.
pub proof fn lemma_idle_cycle(scene: SceneModel, assets: AssetsModel, upto: nat)
    requires
        scene.idle_upto(upto as int),
    ensures
        pending_textures(scene, assets.materials, upto) == Seq::<usize>::empty(),
        scene_commands(scene, assets.materials, upto) == Seq::<SceneCommand>::empty(),
        consolidated(scene, assets, upto) == scene,
        scene.idle() ==> processed_materials(scene, assets.materials) == assets.materials,
    decreases upto,
{
    if upto > 0 {
        lemma_idle_cycle(scene, assets, (upto - 1) as nat);
        assert(!scene.is_pending_root(upto - 1));
    }
    if scene.idle() {
        assert forall|m: int| 0 <= m < assets.materials.len() implies !in_waiting_subtree(
            scene,
            m,
        ) by {
            if in_waiting_subtree(scene, m) {
                let (root, p) = choose|root: int, p: int|
                    scene.is_pending_root(root) && 0 <= p < scene.descendants(root).len()
                        && #[trigger] crate::viewer::has_material(
                        scene,
                        scene.descendants(root)[p] as int,
                        m,
                    );
                assert(!scene.is_pending_root(root));
            }
        }
        assert(processed_materials(scene, assets.materials) =~= assets.materials);
    }
}

/// Whether any populated root still waits for post-processing.
pub fn has_pending_work(scene: &Scene) -> (pending: bool)
    ensures
        pending == !scene@.idle(),
{
    let count = scene.len();
    let mut n: usize = 0;
    while n < count
        invariant
            n <= count,
            count == scene@.nodes.len(),
            scene@.idle_upto(n as int),
        decreases count - n,
    {
        if scene.is_pending_root(n) {
            return true;
        }
        n += 1;
    }
    false
}

/// Runs one cycle. Every image referred to from below a waiting root is
/// processed, once; masked materials there are softened and the commands
/// for the application are collected; then, with the content final, the
/// subtrees are consolidated and their markers cleared.
pub fn run_cycle(
    scene: &mut Scene,
    assets: &mut Assets,
    settings: &MipmapGeneratorSettings,
    cache: &mut CompressionCache,
) -> (report: CycleReport)
    ensures
        (PassState {
            images: final(assets)@.images,
            cache: final(cache)@,
            events: report.events@,
        }) == pass_fold(
            pass_start(old(assets)@.images, old(cache)@),
            *settings,
            pending_textures(old(scene)@, old(assets)@.materials, old(scene)@.nodes.len()),
        ),
        report.commands@ == scene_commands(
            old(scene)@,
            old(assets)@.materials,
            old(scene)@.nodes.len(),
        ),
        final(assets)@.materials == processed_materials(old(scene)@, old(assets)@.materials),
        final(assets)@.meshes == old(assets)@.meshes,
        final(scene)@ == consolidated(old(scene)@, final(assets)@, old(scene)@.nodes.len()),
        final(scene)@.idle(),
{
    let events = texture_pass(scene, assets, settings, cache);
    let ghost images = assets@.images;
    let ghost meshes = assets@.meshes;
    let commands = proc_scene(scene, &mut assets.materials);
    proof {
        assert(assets@.images =~= images);
        assert(assets@.meshes =~= meshes);
    }
    let count = scene.len();
    consolidate(scene, assets);
    proof {
        lemma_consolidated_clears(old(scene)@, assets@, count as nat);
    }
    CycleReport { events, commands }
}

} // verus!
