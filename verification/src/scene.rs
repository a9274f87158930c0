//! The scene graph as the pipeline sees it: entities in an arena, each with
//! its children, every child spawned after its parent.

use vstd::prelude::*;

verus! {

/// What kind of light an entity carries.
#[derive(Clone, Copy, PartialEq, Eq, Debug)]
pub enum LightKind {
    Point,
    Directional,
    Spot,
}

/// What the pipeline reads and writes of one entity. Handles are slots of
/// the asset store.
#[derive(Clone, Copy, PartialEq, Eq, Debug)]
pub struct SceneNode {
    pub mesh: Option<usize>,
    pub material: Option<usize>,
    /// Marks the root of a subtree that still waits for post-processing.
    pub post_proc_scene: bool,
    /// Marks a light that the viewer placed itself.
    pub grif_light: bool,
    pub light: Option<LightKind>,
    pub camera: bool,
    pub no_frustum_culling: bool,
}

impl SceneNode {
    /// An entity without components.
    pub fn empty() -> (node: SceneNode)
        ensures
            node == (SceneNode {
                mesh: None,
                material: None,
                post_proc_scene: false,
                grif_light: false,
                light: None,
                camera: false,
                no_frustum_culling: false,
            }),
    {
        SceneNode {
            mesh: None,
            material: None,
            post_proc_scene: false,
            grif_light: false,
            light: None,
            camera: false,
            no_frustum_culling: false,
        }
    }
}

/// Whether `n` is among `list`.
pub open spec fn names(list: Seq<usize>, n: int) -> bool {
    exists|i: int| 0 <= i < list.len() && #[trigger] list[i] == n
}

/// The mathematical value of a [`Scene`].
pub struct SceneModel {
    pub nodes: Seq<SceneNode>,
    pub children: Seq<Seq<usize>>,
}

impl SceneModel {
    /// Every entity has a list of children, and every child is an entity
    /// that was spawned after its parent: there are no cycles.
    pub open spec fn wf(self) -> bool {
        &&& self.nodes.len() == self.children.len()
        &&& forall|n: int, k: int|
            0 <= n < self.children.len() && 0 <= k < self.children[n].len() ==> n
                < #[trigger] self.children[n][k] < self.nodes.len()
    }

    /// What is visited for the first `k` children of `n`: for each child
    /// in order, first everything below it, then the child itself.
    pub open spec fn visit_upto(self, n: int, k: nat) -> Seq<usize>
        decreases self.nodes.len() - n, k,
    {
        if k == 0 || n < 0 || n >= self.nodes.len() || n >= self.children.len() || k
            > self.children[n].len() {
            Seq::empty()
        } else {
            let child = self.children[n][k - 1];
            let below = if n < child < self.nodes.len() && child < self.children.len() {
                self.visit_upto(child as int, self.children[child as int].len())
            } else {
                Seq::empty()
            };
            self.visit_upto(n, (k - 1) as nat) + below + seq![child]
        }
    }

    /// Everything below `n` in the order of the traversal: depth first,
    /// what is below an entity before the entity, an entity before its
    /// next sibling. Nothing for an `n` that is no entity.
    pub open spec fn descendants(self, n: int) -> Seq<usize> {
        if 0 <= n < self.children.len() {
            self.visit_upto(n, self.children[n].len())
        } else {
            Seq::empty()
        }
    }

    /// Whether `n` is the root of a subtree that waits for post-processing
    /// and has been populated.
    pub open spec fn is_pending_root(self, n: int) -> bool {
        &&& 0 <= n < self.nodes.len()
        &&& n < self.children.len()
        &&& self.nodes[n].post_proc_scene
        &&& self.children[n].len() > 0
    }

    /// This scene with the components of `n` replaced.
    pub open spec fn with_node(self, n: int, node: SceneNode) -> SceneModel {
        SceneModel { nodes: self.nodes.update(n, node), ..self }
    }
}

/// Everything visited below `n` is an entity spawned after `n`.
pub proof fn lemma_visit_bounds(scene: SceneModel, n: int, k: nat, i: int)
    requires
        scene.wf(),
        0 <= i < scene.visit_upto(n, k).len(),
    ensures
        n < scene.visit_upto(n, k)[i] < scene.nodes.len(),
    decreases scene.nodes.len() - n, k,
{
    if k == 0 || n < 0 || n >= scene.nodes.len() || k > scene.children[n].len() {
    } else {
        let child = scene.children[n][k - 1];
        let first = scene.visit_upto(n, (k - 1) as nat);
        let below = scene.visit_upto(child as int, scene.children[child as int].len());
        assert(scene.visit_upto(n, k) == first + below + seq![child]);
        if i < first.len() {
            lemma_visit_bounds(scene, n, (k - 1) as nat, i);
        } else if i < first.len() + below.len() {
            lemma_visit_bounds(
                scene,
                child as int,
                scene.children[child as int].len(),
                i - first.len(),
            );
        }
    }
}

struct Arena {
    nodes: Vec<SceneNode>,
    children: Vec<Vec<usize>>,
}

/// A scene graph.
pub struct Scene {
    arena: Arena,
}

impl View for Scene {
    type V = SceneModel;

    closed spec fn view(&self) -> SceneModel {
        SceneModel {
            nodes: self.arena.nodes@,
            children: Seq::new(self.arena.children@.len(), |n: int| self.arena.children@[n]@),
        }
    }
}

impl Scene {
    #[verifier::type_invariant]
    spec fn inv(self) -> bool {
        self@.wf()
    }

    /// A scene without entities.
    pub fn new() -> (scene: Scene)
        ensures
            scene@.nodes.len() == 0,
            scene@.wf(),
    {
        Scene { arena: Arena { nodes: Vec::new(), children: Vec::new() } }
    }

    /// The number of entities.
    pub fn len(&self) -> (n: usize)
        ensures
            n == self@.nodes.len(),
            self@.wf(),
    {
        proof {
            use_type_invariant(self);
        }
        self.arena.nodes.len()
    }

    /// Adds an entity, as the last child of `parent` where one is given.
    /// Returns the new entity, or `None`, with nothing changed, where
    /// `parent` is no entity.
    pub fn spawn(&mut self, parent: Option<usize>, node: SceneNode) -> (entity: Option<usize>)
        ensures
            final(self)@.wf(),
            match parent {
                Some(p) => entity.is_some() <==> p < old(self)@.nodes.len(),
                None => entity.is_some(),
            },
            entity.is_none() ==> final(self)@ == old(self)@,
            entity.is_some() ==> {
                &&& entity.unwrap() == old(self)@.nodes.len()
                &&& final(self)@.nodes == old(self)@.nodes.push(node)
                &&& final(self)@.children == match parent {
                    Some(p) => old(self)@.children.update(
                        p as int,
                        old(self)@.children[p as int].push(entity.unwrap()),
                    ).push(Seq::empty()),
                    None => old(self)@.children.push(Seq::empty()),
                }
            },
    {
        proof {
            use_type_invariant(&*self);
        }
        let id = self.arena.nodes.len();
        if let Some(p) = parent {
            if p >= id {
                return None;
            }
        }
        let mut arena = Arena { nodes: Vec::new(), children: Vec::new() };
        core::mem::swap(&mut self.arena, &mut arena);
        arena.nodes.push(node);
        arena.children.push(Vec::new());
        if let Some(p) = parent {
            arena.children[p].push(id);
        }
        proof {
            let before = old(self)@;
            assert forall|n: int, k: int|
                0 <= n < arena.children.len() && 0 <= k < arena.children[n].len() implies n
                < #[trigger] arena.children[n][k] < arena.nodes.len() by {
                if n < id && (parent != Some(n as usize) || k < before.children[n].len()) {
                    assert(arena.children[n][k] == before.children[n][k]);
                }
            }
        }
        core::mem::swap(&mut self.arena, &mut arena);
        proof {
            match parent {
                Some(p) => {
                    assert(self@.children =~= old(self)@.children.update(
                        p as int,
                        old(self)@.children[p as int].push(id),
                    ).push(Seq::empty()));
                },
                None => {
                    assert(self@.children =~= old(self)@.children.push(Seq::empty()));
                },
            }
        }
        Some(id)
    }

    /// The components of `entity`, or `None` where it is no entity.
    pub fn node(&self, entity: usize) -> (node: Option<SceneNode>)
        ensures
            node == if entity < self@.nodes.len() {
                Some(self@.nodes[entity as int])
            } else {
                None
            },
    {
        if entity < self.arena.nodes.len() {
            Some(self.arena.nodes[entity])
        } else {
            None
        }
    }

    /// The children of `entity` in order; none where it is no entity.
    pub fn children_of(&self, entity: usize) -> (children: Vec<usize>)
        ensures
            self@.wf(),
            children@ == if entity < self@.nodes.len() {
                self@.children[entity as int]
            } else {
                Seq::empty()
            },
    {
        proof {
            use_type_invariant(self);
        }
        if entity < self.arena.children.len() {
            self.arena.children[entity].clone()
        } else {
            Vec::new()
        }
    }

    /// Replaces the components of `entity`. Returns whether it is an entity;
    /// nothing changes where it is not.
    pub fn set_node(&mut self, entity: usize, node: SceneNode) -> (found: bool)
        ensures
            final(self)@.wf(),
            found == (entity < old(self)@.nodes.len()),
            final(self)@ == if found {
                old(self)@.with_node(entity as int, node)
            } else {
                old(self)@
            },
    {
        proof {
            use_type_invariant(&*self);
        }
        if entity < self.arena.nodes.len() {
            let mut arena = Arena { nodes: Vec::new(), children: Vec::new() };
            core::mem::swap(&mut self.arena, &mut arena);
            arena.nodes[entity] = node;
            core::mem::swap(&mut self.arena, &mut arena);
            proof {
                assert(self@.children =~= old(self)@.children);
            }
            true
        } else {
            false
        }
    }

    /// Whether `entity` is the root of a populated subtree that waits for
    /// post-processing.
    pub fn is_pending_root(&self, entity: usize) -> (pending: bool)
        ensures
            pending == self@.is_pending_root(entity as int),
    {
        proof {
            use_type_invariant(self);
        }
        entity < self.arena.nodes.len() && self.arena.nodes[entity].post_proc_scene
            && self.arena.children[entity].len() > 0
    }

    fn visit(&self, n: usize, out: &mut Vec<usize>)
        requires
            n < self@.nodes.len(),
        ensures
            final(out)@ == old(out)@ + self@.descendants(n as int),
        decreases self@.nodes.len() - n,
    {
        proof {
            use_type_invariant(self);
        }
        let mut k: usize = 0;
        assert(out@ =~= old(out)@ + self@.visit_upto(n as int, 0));
        while k < self.arena.children[n].len()
            invariant
                self@.wf(),
                n < self@.nodes.len(),
                k <= self.arena.children[n as int].len(),
                out@ == old(out)@ + self@.visit_upto(n as int, k as nat),
            decreases self.arena.children[n as int].len() - k,
        {
            let child = self.arena.children[n][k];
            let ghost before = out@;
            assert(self@.children[n as int][k as int] == child);
            self.visit(child, out);
            out.push(child);
            k += 1;
            proof {
                assert(out@ =~= old(out)@ + self@.visit_upto(n as int, k as nat));
            }
        }
    }
}

/// Everything below `entity`, depth first: what is below a child comes
/// before the child, a child before its next sibling. `entity` itself is
/// not among them. Nothing where `entity` is no entity.
pub fn all_children(scene: &Scene, entity: usize) -> (order: Vec<usize>)
    ensures
        scene@.wf(),
        order@ == scene@.descendants(entity as int),
        forall|i: int| 0 <= i < order.len() ==> entity < #[trigger] order[i] < scene@.nodes.len(),
{
    let count = scene.len();
    let mut order: Vec<usize> = Vec::new();
    if entity < count {
        scene.visit(entity, &mut order);
        proof {
            assert(order@ =~= scene@.descendants(entity as int));
            assert forall|i: int| 0 <= i < order.len() implies entity < #[trigger] order[i]
                < scene@.nodes.len() by {
                lemma_visit_bounds(scene@, entity as int, scene@.children[entity as int].len(), i);
            }
        }
    }
    order
}

} // verus!
