//! What the viewer decides each frame: how a freshly loaded scene is tidied
//! up, where the camera goes, and how the benchmark proceeds.

use vstd::prelude::*;
use crate::assets::{AlphaMode, MaterialAsset};
use crate::scene::{Scene, SceneModel, SceneNode, all_children, names};

verus! {

/// The diffuse transmission given to masked materials: the bits of 0.6.
pub const MASK_DIFFUSE_TRANSMISSION: u32 = 0x3f19_999a;

/// The thickness given to masked materials: the bits of 0.2.
pub const MASK_THICKNESS: u32 = 0x3e4c_cccd;

/// The fewest frames that the benchmark renders from each camera position.
pub const MIN_FRAMES_PER_STEP: u32 = 30;

/// Something for the application to do to an entity.
#[derive(Clone, Copy, PartialEq, Eq, Debug)]
pub enum SceneCommand {
    /// Let the entity receive shadows through transmissive materials.
    ReceiveTransmittedShadows(usize),
    /// Remove the entity and everything below it.
    Despawn(usize),
    /// Take the post-processing marker off the entity.
    RemoveMarker(usize),
}

/// A masked material made to let light through: foliage.
pub open spec fn softened(m: MaterialAsset) -> MaterialAsset {
    if m.alpha_mode is Mask {
        MaterialAsset {
            diffuse_transmission: MASK_DIFFUSE_TRANSMISSION,
            double_sided: true,
            cull_mode: None,
            thickness: MASK_THICKNESS,
            ..m
        }
    } else {
        m
    }
}

/// The masked material of entity `e`, if it has one.
pub open spec fn masked_material(scene: SceneModel, materials: Seq<MaterialAsset>, e: int) -> Option<
    usize,
> {
    match scene.nodes[e].material {
        Some(m) => if m < materials.len() && materials[m as int].alpha_mode is Mask {
            Some(m)
        } else {
            None
        },
        None => None,
    }
}

/// The commands for entity `e` below a waiting root: it receives
/// transmitted shadows if its material is masked, and it goes if it is a
/// light that the viewer did not place, or a camera.
pub open spec fn entity_commands(scene: SceneModel, materials: Seq<MaterialAsset>, e: int) -> Seq<
    SceneCommand,
> {
    let node = scene.nodes[e];
    let shadows = if masked_material(scene, materials, e).is_some() {
        seq![SceneCommand::ReceiveTransmittedShadows(e as usize)]
    } else {
        Seq::empty()
    };
    let light = if node.light.is_some() && !node.grif_light {
        seq![SceneCommand::Despawn(e as usize)]
    } else {
        Seq::empty()
    };
    let camera = if node.camera {
        seq![SceneCommand::Despawn(e as usize)]
    } else {
        Seq::empty()
    };
    shadows + light + camera
}

/// The commands for `entities`, entity by entity.
pub open spec fn commands_for(scene: SceneModel, materials: Seq<MaterialAsset>, entities: Seq<usize>)
    -> Seq<SceneCommand>
    decreases entities.len(),
{
    if entities.len() == 0 {
        Seq::empty()
    } else {
        commands_for(scene, materials, entities.drop_last()) + entity_commands(
            scene,
            materials,
            entities.last() as int,
        )
    }
}

/// The commands for the waiting roots among the first `upto` entities: for
/// each, the commands for everything below it in the order of the
/// traversal, then the removal of its marker.
pub open spec fn scene_commands(scene: SceneModel, materials: Seq<MaterialAsset>, upto: nat) -> Seq<
    SceneCommand,
>
    decreases upto,
{
    if upto == 0 {
        Seq::empty()
    } else {
        scene_commands(scene, materials, (upto - 1) as nat) + if scene.is_pending_root(upto - 1) {
            commands_for(scene, materials, scene.descendants(upto - 1)).push(
                SceneCommand::RemoveMarker((upto - 1) as usize),
            )
        } else {
            Seq::empty()
        }
    }
}

/// Whether `m` is the material of entity `e`.
pub open spec fn has_material(scene: SceneModel, e: int, m: int) -> bool {
    match scene.nodes[e].material {
        Some(handle) => handle == m,
        None => false,
    }
}

/// Whether `m` is the material of an entity below a waiting root.
pub open spec fn in_waiting_subtree(scene: SceneModel, m: int) -> bool {
    exists|root: int, p: int|
        scene.is_pending_root(root) && 0 <= p < scene.descendants(root).len() && #[trigger] has_material(
            scene,
            scene.descendants(root)[p] as int,
            m,
        )
}

/// The materials after post-processing: softened where they are the
/// material of an entity below a waiting root, else as they were.
pub open spec fn processed_materials(scene: SceneModel, materials: Seq<MaterialAsset>) -> Seq<
    MaterialAsset,
> {
    Seq::new(
        materials.len(),
        |m: int|
            if in_waiting_subtree(scene, m) {
                softened(materials[m])
            } else {
                materials[m]
            },
    )
}

/// Whether `m` is the material of one of the first `p` entities below the
/// waiting root `root`, or of any entity below a waiting root before it.
spec fn reached(scene: SceneModel, root: int, p: int, m: int) -> bool {
    exists|r: int, q: int|
        scene.is_pending_root(r) && 0 <= q < scene.descendants(r).len() && (r < root || (r == root
            && q < p)) && #[trigger] has_material(scene, scene.descendants(r)[q] as int, m)
}

/// Post-processes every populated subtree that still carries its marker:
/// masked materials below it are softened, and the commands that the
/// application has to carry out are returned in order. The scene itself is
/// left to the application: the markers go when it carries out the
/// commands.
pub fn proc_scene(scene: &Scene, materials: &mut Vec<MaterialAsset>) -> (commands: Vec<SceneCommand>)
    ensures
        commands@ == scene_commands(scene@, old(materials)@, scene@.nodes.len()),
        final(materials)@ == processed_materials(scene@, old(materials)@),
{
    let mut commands: Vec<SceneCommand> = Vec::new();
    let count = scene.len();
    let ghost before = materials@;
    let mut root: usize = 0;
    while root < count
        invariant
            count == scene@.nodes.len(),
            scene@.wf(),
            root <= count,
            before == old(materials)@,
            materials.len() == before.len(),
            commands@ == scene_commands(scene@, before, root as nat),
            forall|m: int|
                0 <= m < before.len() ==> #[trigger] materials[m] == if reached(
                    scene@,
                    root as int,
                    0,
                    m,
                ) {
                    softened(before[m])
                } else {
                    before[m]
                },
        decreases count - root,
    {
        if scene.is_pending_root(root) {
            let order = all_children(scene, root);
            let ghost so_far = commands@;
            let mut p: usize = 0;
            proof {
                assert(order@.take(0) =~= Seq::<usize>::empty());
                assert(commands@ =~= so_far + commands_for(scene@, before, order@.take(0)));
            }
            while p < order.len()
                invariant
                    scene@.wf(),
                    scene@.is_pending_root(root as int),
                    order@ == scene@.descendants(root as int),
                    p <= order.len(),
                    before == old(materials)@,
                    materials.len() == before.len(),
                    forall|j: int| 0 <= j < order.len() ==> #[trigger] order[j] < scene@.nodes.len(),
                    commands@ == so_far + commands_for(scene@, before, order@.take(p as int)),
                    forall|m: int|
                        0 <= m < before.len() ==> #[trigger] materials[m] == if reached(
                            scene@,
                            root as int,
                            p as int,
                            m,
                        ) {
                            softened(before[m])
                        } else {
                            before[m]
                        },
                decreases order.len() - p,
            {
                let entity = order[p];
                let node = scene.node(entity).unwrap();
                let ghost earlier = commands@;
                let ghost held = materials@;
                if let Some(m) = node.material {
                    if m < materials.len() && materials[m].alpha_mode.is_mask() {
                        let material = materials[m];
                        materials[m] = MaterialAsset {
                            diffuse_transmission: MASK_DIFFUSE_TRANSMISSION,
                            double_sided: true,
                            cull_mode: None,
                            thickness: MASK_THICKNESS,
                            ..material
                        };
                        commands.push(SceneCommand::ReceiveTransmittedShadows(entity));
                    }
                }
                if node.light.is_some() && !node.grif_light {
                    commands.push(SceneCommand::Despawn(entity));
                }
                if node.camera {
                    commands.push(SceneCommand::Despawn(entity));
                }
                proof {
                    assert(order@.take(p + 1).drop_last() =~= order@.take(p as int));
                    assert(order@.take(p + 1).last() == entity);
                    assert(masked_material(scene@, before, entity as int) == match node.material {
                        Some(m) => if m < held.len() && held[m as int].alpha_mode is Mask {
                            Some(m)
                        } else {
                            None
                        },
                        None => None,
                    });
                    assert(commands@ =~= earlier + entity_commands(scene@, before, entity as int));
                    assert forall|m: int| 0 <= m < before.len() implies #[trigger] materials[m]
                        == if reached(scene@, root as int, p + 1, m) {
                        softened(before[m])
                    } else {
                        before[m]
                    } by {
                        if has_material(scene@, entity as int, m) {
                            assert(has_material(
                                scene@,
                                scene@.descendants(root as int)[p as int] as int,
                                m,
                            ));
                            assert(reached(scene@, root as int, p + 1, m));
                        } else if reached(scene@, root as int, p + 1, m) {
                            assert(reached(scene@, root as int, p as int, m));
                        }
                    }
                }
                p += 1;
            }
            commands.push(SceneCommand::RemoveMarker(root));
            proof {
                assert(order@.take(p as int) =~= order@);
                assert forall|m: int| 0 <= m < before.len() implies (reached(
                    scene@,
                    root + 1,
                    0,
                    m,
                ) <==> reached(scene@, root as int, order.len() as int, m)) by {
                }
            }
        } else {
            proof {
                assert(commands@ + Seq::<SceneCommand>::empty() =~= commands@);
                assert forall|m: int| 0 <= m < before.len() implies (reached(
                    scene@,
                    root + 1,
                    0,
                    m,
                ) <==> reached(scene@, root as int, 0, m)) by {
                }
            }
        }
        root += 1;
    }
    proof {
        assert forall|m: int| 0 <= m < before.len() implies (reached(scene@, count as int, 0, m)
            <==> in_waiting_subtree(scene@, m)) by {
        }
        assert(materials@ =~= processed_materials(scene@, before));
    }
    commands
}

/// Marks every entity that has a material as exempt from frustum culling,
/// and returns the entities that were not marked before, in ascending
/// order.
pub fn add_no_frustum_culling(scene: &mut Scene) -> (marked: Vec<usize>)
    ensures
        final(scene)@.children == old(scene)@.children,
        final(scene)@.nodes.len() == old(scene)@.nodes.len(),
        forall|n: int|
            0 <= n < old(scene)@.nodes.len() ==> #[trigger] final(scene)@.nodes[n] == if old(
                scene,
            )@.nodes[n].material.is_some() {
                SceneNode { no_frustum_culling: true, ..old(scene)@.nodes[n] }
            } else {
                old(scene)@.nodes[n]
            },
        forall|i: int|
            0 <= i < marked.len() ==> (#[trigger] marked[i]) < old(scene)@.nodes.len() && old(
                scene,
            )@.nodes[marked[i] as int].material.is_some() && !old(
                scene,
            )@.nodes[marked[i] as int].no_frustum_culling,
        forall|i: int, j: int| 0 <= i < j < marked.len() ==> marked[i] < marked[j],
        forall|n: int|
            0 <= n < old(scene)@.nodes.len() && old(scene)@.nodes[n].material.is_some() && !old(
                scene,
            )@.nodes[n].no_frustum_culling ==> names(marked@, n),
{
    let mut marked: Vec<usize> = Vec::new();
    let count = scene.len();
    let mut n: usize = 0;
    while n < count
        invariant
            n <= count,
            count == old(scene)@.nodes.len(),
            scene@.children == old(scene)@.children,
            scene@.nodes.len() == old(scene)@.nodes.len(),
            forall|k: int|
                0 <= k < n ==> #[trigger] scene@.nodes[k] == if old(
                    scene,
                )@.nodes[k].material.is_some() {
                    SceneNode { no_frustum_culling: true, ..old(scene)@.nodes[k] }
                } else {
                    old(scene)@.nodes[k]
                },
            forall|k: int| n <= k < count ==> #[trigger] scene@.nodes[k] == old(scene)@.nodes[k],
            forall|i: int|
                0 <= i < marked.len() ==> (#[trigger] marked[i]) < n && old(
                    scene,
                )@.nodes[marked[i] as int].material.is_some() && !old(
                    scene,
                )@.nodes[marked[i] as int].no_frustum_culling,
            forall|i: int, j: int| 0 <= i < j < marked.len() ==> marked[i] < marked[j],
            forall|k: int|
                0 <= k < n && old(scene)@.nodes[k].material.is_some() && !old(
                    scene,
                )@.nodes[k].no_frustum_culling ==> names(marked@, k),
        decreases count - n,
    {
        let node = scene.node(n).unwrap();
        if node.material.is_some() && !node.no_frustum_culling {
            scene.set_node(n, SceneNode { no_frustum_culling: true, ..node });
            let ghost earlier = marked@;
            marked.push(n);
            proof {
                assert(marked@[earlier.len() as int] == n);
                assert forall|k: int|
                    0 <= k < n + 1 && old(scene)@.nodes[k].material.is_some() && !old(
                        scene,
                    )@.nodes[k].no_frustum_culling implies names(marked@, k) by {
                    if k < n {
                        assert(names(earlier, k));
                        let i = choose|i: int| 0 <= i < earlier.len() && earlier[i] == k;
                        assert(marked@[i] == k);
                    }
                }
            }
        }
        n += 1;
    }
    marked
}

/// A place that the camera can be sent to.
#[derive(Clone, Copy, PartialEq, Eq, Structural, Debug)]
pub enum CameraPreset {
    First,
    Second,
    Third,
}

/// The place that the camera goes to for the digit keys pressed this
/// frame: the highest digit wins, and no digit leaves the camera alone.
pub fn camera_for_keys(digit1: bool, digit2: bool, digit3: bool) -> (preset: Option<CameraPreset>)
    ensures
        preset == if digit3 {
            Some(CameraPreset::Third)
        } else if digit2 {
            Some(CameraPreset::Second)
        } else if digit1 {
            Some(CameraPreset::First)
        } else {
            None
        },
{
    let mut preset: Option<CameraPreset> = None;
    if digit1 {
        preset = Some(CameraPreset::First);
    }
    if digit2 {
        preset = Some(CameraPreset::Second);
    }
    if digit3 {
        preset = Some(CameraPreset::Third);
    }
    preset
}

/// What the benchmark sees of one frame.
#[derive(Clone, Copy, PartialEq, Eq, Debug)]
pub struct BenchmarkInput {
    /// The start key went down this frame.
    pub start_pressed: bool,
    /// How many frames of this frame's length fit into two seconds.
    pub frames_in_two_seconds: u32,
    /// There is exactly one camera to move.
    pub camera_present: bool,
}

/// What the application has to do after a frame of the benchmark.
#[derive(Clone, Copy, PartialEq, Eq, Debug)]
pub struct BenchmarkOutput {
    /// The benchmark began this frame, with this many frames per step:
    /// start the clock and say so.
    pub started_with: Option<u32>,
    /// Send the camera there.
    pub move_camera: Option<CameraPreset>,
    /// The benchmark ended this frame after this many frames: stop the
    /// clock and report.
    pub finished_after: Option<u64>,
}

/// The mathematical value of a [`Benchmark`].
pub struct BenchmarkModel {
    pub running: bool,
    pub frame: int,
    pub frames_per_step: int,
}

/// The number of frames per step for a frame length: as many as fit into
/// two seconds, and at least thirty.
pub open spec fn frames_per_step(frames_in_two_seconds: u32) -> int {
    if frames_in_two_seconds < MIN_FRAMES_PER_STEP {
        MIN_FRAMES_PER_STEP as int
    } else {
        frames_in_two_seconds as int
    }
}

impl BenchmarkModel {
    /// The benchmark as the frame finds it: begun this frame if the key
    /// went down while it was not running.
    pub open spec fn entered(self, input: BenchmarkInput) -> BenchmarkModel {
        if input.start_pressed && !self.running {
            BenchmarkModel {
                running: true,
                frame: 0,
                frames_per_step: frames_per_step(input.frames_in_two_seconds),
            }
        } else {
            self
        }
    }

    /// Whether this frame counts: the benchmark runs and there is a camera.
    pub open spec fn counts(self, input: BenchmarkInput) -> bool {
        self.entered(input).running && input.camera_present
    }

    /// The benchmark after the frame.
    pub open spec fn stepped(self, input: BenchmarkInput) -> BenchmarkModel {
        let now = self.entered(input);
        if !self.counts(input) {
            now
        } else if now.frame == 3 * now.frames_per_step {
            BenchmarkModel { running: false, frame: 1, ..now }
        } else {
            BenchmarkModel { frame: now.frame + 1, ..now }
        }
    }

    /// Where the camera goes this frame: to the first place at the start and
    /// at the end, to the second after one step, to the third after two.
    pub open spec fn camera(self, input: BenchmarkInput) -> Option<CameraPreset> {
        let now = self.entered(input);
        if !self.counts(input) {
            None
        } else if now.frame == 0 {
            Some(CameraPreset::First)
        } else if now.frame == now.frames_per_step {
            Some(CameraPreset::Second)
        } else if now.frame == 2 * now.frames_per_step {
            Some(CameraPreset::Third)
        } else if now.frame == 3 * now.frames_per_step {
            Some(CameraPreset::First)
        } else {
            None
        }
    }

    /// What the application is told after the frame.
    pub open spec fn output(self, input: BenchmarkInput) -> BenchmarkOutput {
        let now = self.entered(input);
        BenchmarkOutput {
            started_with: if input.start_pressed && !self.running {
                Some(now.frames_per_step as u32)
            } else {
                None
            },
            move_camera: self.camera(input),
            finished_after: if self.counts(input) && now.frame == 3 * now.frames_per_step {
                Some(now.frame as u64)
            } else {
                None
            },
        }
    }
}

/// The benchmark: three steps of equal length, one per camera position.
#[derive(Clone, Copy, Debug)]
pub struct Benchmark {
    running: bool,
    frame: u64,
    frames_per_step: u32,
}

impl View for Benchmark {
    type V = BenchmarkModel;

    closed spec fn view(&self) -> BenchmarkModel {
        BenchmarkModel {
            running: self.running,
            frame: self.frame as int,
            frames_per_step: self.frames_per_step as int,
        }
    }
}

impl Benchmark {
    #[verifier::type_invariant]
    spec fn inv(self) -> bool {
        self.running ==> self.frames_per_step >= MIN_FRAMES_PER_STEP && self.frame <= 3
            * self.frames_per_step
    }

    /// A benchmark that is not running.
    pub fn new() -> (benchmark: Benchmark)
        ensures
            benchmark@ == (BenchmarkModel { running: false, frame: 0, frames_per_step: 0 }),
    {
        Benchmark { running: false, frame: 0, frames_per_step: 0 }
    }

    /// Whether the benchmark is under way.
    pub fn is_running(&self) -> (running: bool)
        ensures
            running == self@.running,
    {
        self.running
    }

    /// The number of frames counted since the benchmark began.
    pub fn frame(&self) -> (frame: u64)
        ensures
            frame == self@.frame,
    {
        self.frame
    }

    /// The number of frames rendered from each camera position.
    pub fn frames_per_step(&self) -> (frames: u32)
        ensures
            frames == self@.frames_per_step,
    {
        self.frames_per_step
    }

    /// Advances the benchmark by one frame.
    pub fn step(&mut self, input: BenchmarkInput) -> (output: BenchmarkOutput)
        ensures
            final(self)@ == old(self)@.stepped(input),
            output == old(self)@.output(input),
    {
        proof {
            use_type_invariant(&*self);
        }
        let mut now = *self;
        let mut output = BenchmarkOutput {
            started_with: None,
            move_camera: None,
            finished_after: None,
        };
        if input.start_pressed && !now.running {
            let frames = if input.frames_in_two_seconds < MIN_FRAMES_PER_STEP {
                MIN_FRAMES_PER_STEP
            } else {
                input.frames_in_two_seconds
            };
            now = Benchmark { running: true, frame: 0, frames_per_step: frames };
            output.started_with = Some(frames);
        }
        if !now.running || !input.camera_present {
            *self = now;
            return output;
        }
        let step = now.frames_per_step as u64;
        if now.frame == 0 {
            output.move_camera = Some(CameraPreset::First);
        } else if now.frame == step {
            output.move_camera = Some(CameraPreset::Second);
        } else if now.frame == 2 * step {
            output.move_camera = Some(CameraPreset::Third);
        } else if now.frame == 3 * step {
            output.move_camera = Some(CameraPreset::First);
            output.finished_after = Some(now.frame);
            *self = Benchmark { running: false, frame: 1, frames_per_step: now.frames_per_step };
            return output;
        }
        *self = Benchmark {
            running: true,
            frame: now.frame + 1,
            frames_per_step: now.frames_per_step,
        };
        output
    }
}

} // verus!
