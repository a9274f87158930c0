//! The texture pipeline: every image that a waiting subtree refers to is
//! processed once, from the cache where the cache has it, else by generating
//! and compressing its mipmap chain.

use vstd::prelude::*;
use crate::assets::{Assets, MaterialAsset, image_models};
use crate::cache::{CacheModel, CompressionCache, decode_entry, encode_entry, entry_bytes, parsed_entry};
use crate::compress::{compress_chain, compressed_chain};
use crate::fingerprint::{fingerprint, fingerprint_value};
use crate::image::{Encoding, ImageAsset, ImageModel, PayloadModel, TexturePayload};
use crate::mipmap::{generate_chain, image_chain};
use crate::scene::{Scene, SceneModel, all_children, names};
use crate::settings::{MipmapGeneratorSettings, clamp_anisotropy, clamped_anisotropy};

verus! {

/// The way an image came by its payload.
#[derive(Clone, Copy, PartialEq, Eq, Structural, Debug)]
pub enum ProcessPath {
    /// The image has no texels: nothing was generated or fetched.
    Degenerate,
    /// The payload was read from the cache.
    CacheHit,
    /// The chain was generated, and compressed where compression is on.
    Generated,
}

/// One image that a pass has processed.
#[derive(Clone, Copy, PartialEq, Eq, Debug)]
pub struct ProcessEvent {
    pub image: usize,
    pub path: ProcessPath,
}

/// The payload that generating makes for `image`.
pub open spec fn generated_payload(image: ImageModel, settings: MipmapGeneratorSettings)
    -> PayloadModel {
    compressed_chain(image_chain(image, settings.level_limit as int), settings)
}

/// The payload that the cache holds for `image`, if it holds a readable
/// entry under the image's fingerprint.
pub open spec fn cached_payload(
    image: ImageModel,
    settings: MipmapGeneratorSettings,
    cache: CacheModel,
) -> Option<PayloadModel> {
    match cache.found(fingerprint_value(image, settings)) {
        Some(bytes) => parsed_entry(bytes),
        None => None,
    }
}

/// The path that processing takes for `image`: none for an image that is
/// processed already.
pub open spec fn path_of(image: ImageModel, settings: MipmapGeneratorSettings, cache: CacheModel)
    -> Option<ProcessPath> {
    if image.processed {
        None
    } else if image.area() == 0 {
        Some(ProcessPath::Degenerate)
    } else if cached_payload(image, settings, cache).is_some() {
        Some(ProcessPath::CacheHit)
    } else {
        Some(ProcessPath::Generated)
    }
}

/// The image after processing: unchanged if it was processed already, else
/// marked processed, with its anisotropy set and its payload installed.
pub open spec fn image_after(image: ImageModel, settings: MipmapGeneratorSettings, cache: CacheModel)
    -> ImageModel {
    match path_of(image, settings, cache) {
        None => image,
        Some(path) => image.installed(
            match path {
                ProcessPath::Degenerate => PayloadModel {
                    encoding: Encoding::Raw,
                    levels: Seq::empty(),
                },
                ProcessPath::CacheHit => cached_payload(image, settings, cache).unwrap(),
                ProcessPath::Generated => generated_payload(image, settings),
            },
            clamped_anisotropy(settings.anisotropic_filtering),
        ),
    }
}

/// The cache after processing: what was generated is stored under the
/// image's fingerprint; a hit, a degenerate image and an image processed
/// already leave the cache as it is.
pub open spec fn cache_after(image: ImageModel, settings: MipmapGeneratorSettings, cache: CacheModel)
    -> CacheModel {
    if path_of(image, settings, cache) == Some(ProcessPath::Generated) {
        cache.stored(
            fingerprint_value(image, settings),
            entry_bytes(generated_payload(image, settings)),
        )
    } else {
        cache
    }
}

/// Processing is final: a processed image is passed over, and processing
/// what has just been processed changes nothing, whatever the cache holds
/// by then.
pub proof fn lemma_processing_is_final(
    image: ImageModel,
    settings: MipmapGeneratorSettings,
    cache: CacheModel,
    later: CacheModel,
)
    ensures
        image_after(image, settings, cache).processed,
        image.processed ==> image_after(image, settings, cache) == image && cache_after(
            image,
            settings,
            cache,
        ) == cache,
        image_after(image_after(image, settings, cache), settings, later) == image_after(
            image,
            settings,
            cache,
        ),
        cache_after(image_after(image, settings, cache), settings, later) == later,
{
}

/// Processes one image unless it is processed already.
pub fn process_image(
    image: &mut ImageAsset,
    settings: &MipmapGeneratorSettings,
    cache: &mut CompressionCache,
) -> (path: Option<ProcessPath>)
    ensures
        path == path_of(old(image)@, *settings, old(cache)@),
        final(image)@ == image_after(old(image)@, *settings, old(cache)@),
        final(cache)@ == cache_after(old(image)@, *settings, old(cache)@),
{
    if image.is_processed() {
        return None;
    }
    let anisotropy = clamp_anisotropy(settings.anisotropic_filtering);
    let width = image.width();
    let height = image.height();
    proof {
        assert((width == 0 || height == 0) <==> width * height == 0) by (nonlinear_arith)
            requires
                width >= 0,
                height >= 0,
        ;
    }
    if width == 0 || height == 0 {
        image.install(TexturePayload::empty(), anisotropy);
        return Some(ProcessPath::Degenerate);
    }
    if !cache.is_enabled() {
        let chain = generate_chain(image, settings.level_limit);
        image.install(compress_chain(chain, settings), anisotropy);
        return Some(ProcessPath::Generated);
    }
    let key = fingerprint(image, settings);
    let fetched = match cache.lookup(key) {
        Some(bytes) => decode_entry(&bytes),
        None => None,
    };
    match fetched {
        Some(payload) => {
            image.install(payload, anisotropy);
            Some(ProcessPath::CacheHit)
        },
        None => {
            let chain = generate_chain(image, settings.level_limit);
            let payload = compress_chain(chain, settings);
            cache.store(key, encode_entry(&payload));
            image.install(payload, anisotropy);
            Some(ProcessPath::Generated)
        },
    }
}

/// Where a pass stands: the images, the cache, and what has been processed
/// so far.
pub struct PassState {
    pub images: Seq<ImageModel>,
    pub cache: CacheModel,
    pub events: Seq<ProcessEvent>,
}

/// A pass after it has come to `handle`: nothing changes for a handle that
/// names no image or a processed one; else the image is processed, the
/// cache follows, and the event is recorded.
#[verifier::opaque]
pub open spec fn pass_step(state: PassState, settings: MipmapGeneratorSettings, handle: usize)
    -> PassState {
    if handle >= state.images.len() {
        state
    } else {
        let image = state.images[handle as int];
        match path_of(image, settings, state.cache) {
            None => state,
            Some(path) => PassState {
                images: state.images.update(
                    handle as int,
                    image_after(image, settings, state.cache),
                ),
                cache: cache_after(image, settings, state.cache),
                events: state.events.push(ProcessEvent { image: handle, path }),
            },
        }
    }
}

/// A pass after it has come to every handle of `work` in order.
pub open spec fn pass_fold(state: PassState, settings: MipmapGeneratorSettings, work: Seq<usize>)
    -> PassState
    decreases work.len(),
{
    if work.len() == 0 {
        state
    } else {
        pass_step(pass_fold(state, settings, work.drop_last()), settings, work.last())
    }
}

/// A fresh pass over `images` and `cache`.
pub open spec fn pass_start(images: Seq<ImageModel>, cache: CacheModel) -> PassState {
    PassState { images, cache, events: Seq::empty() }
}

proof fn lemma_step(state: PassState, settings: MipmapGeneratorSettings, handle: usize)
    ensures
        ({
            let next = pass_step(state, settings, handle);
            let fresh = handle < state.images.len() && !state.images[handle as int].processed;
            &&& next.images.len() == state.images.len()
            &&& forall|k: int|
                0 <= k < state.images.len() && k != handle ==> #[trigger] next.images[k]
                    == state.images[k]
            &&& handle < state.images.len() ==> next.images[handle as int].processed
            &&& !fresh ==> next == state
            &&& fresh ==> next.events.len() == state.events.len() + 1 && next.events.last().image
                == handle && forall|i: int|
                0 <= i < state.events.len() ==> #[trigger] next.events[i] == state.events[i]
        }),
{
    reveal(pass_step);
    if handle < state.images.len() {
        lemma_processing_is_final(state.images[handle as int], settings, state.cache, state.cache);
    }
}

spec fn has_event(events: Seq<ProcessEvent>, k: int) -> bool {
    exists|i: int| 0 <= i < events.len() && (#[trigger] events[i]).image == k
}

/// What holds between the start of a pass and any later state of it.
spec fn pass_invariant(start: PassState, now: PassState) -> bool {
    &&& now.images.len() == start.images.len()
    &&& forall|k: int|
        0 <= k < start.images.len() && (#[trigger] start.images[k]).processed ==> now.images[k]
            == start.images[k]
    &&& forall|k: int|
        0 <= k < start.images.len() && now.images[k] != #[trigger] start.images[k]
            ==> now.images[k].processed
    &&& forall|i: int|
        0 <= i < now.events.len() ==> {
            let k = (#[trigger] now.events[i]).image as int;
            k < start.images.len() && !start.images[k].processed && now.images[k].processed
        }
    &&& forall|i: int, j: int|
        0 <= i < j < now.events.len() ==> (#[trigger] now.events[i]).image != (
        #[trigger] now.events[j]).image
    &&& forall|k: int|
        0 <= k < start.images.len() && !start.images[k].processed && now.images[k].processed
            ==> #[trigger] has_event(now.events, k)
}

proof fn lemma_pass_invariant(start: PassState, settings: MipmapGeneratorSettings, work: Seq<usize>)
    requires
        start.events.len() == 0,
    ensures
        pass_invariant(start, pass_fold(start, settings, work)),
        forall|w: int|
            0 <= w < work.len() && (#[trigger] work[w]) < start.images.len() ==> pass_fold(
                start,
                settings,
                work,
            ).images[work[w] as int].processed,
        forall|k: int|
            0 <= k < start.images.len() && !names(work, k) ==> #[trigger] pass_fold(
                start,
                settings,
                work,
            ).images[k] == start.images[k],
    decreases work.len(),
{
    if work.len() > 0 {
        let shorter = work.drop_last();
        let handle = work.last();
        let before = pass_fold(start, settings, shorter);
        let after = pass_fold(start, settings, work);
        lemma_pass_invariant(start, settings, shorter);
        assert(after == pass_step(before, settings, handle));
        lemma_step(before, settings, handle);
        if handle < before.images.len() && !before.images[handle as int].processed {
            assert forall|i: int| 0 <= i < after.events.len() implies {
                let k = (#[trigger] after.events[i]).image as int;
                k < start.images.len() && !start.images[k].processed && after.images[k].processed
            } by {
                if i < before.events.len() {
                    assert(after.events[i] == before.events[i]);
                }
            }
            assert forall|i: int, j: int| 0 <= i < j < after.events.len() implies (
            #[trigger] after.events[i]).image != (#[trigger] after.events[j]).image by {
                assert(after.events[i] == before.events[i]);
                if j < before.events.len() {
                    assert(after.events[j] == before.events[j]);
                }
            }
            assert forall|k: int|
                0 <= k < start.images.len() && !start.images[k].processed
                    && after.images[k].processed implies #[trigger] has_event(after.events, k) by {
                if k == handle {
                    assert(after.events[before.events.len() as int].image == k);
                } else {
                    assert(has_event(before.events, k));
                    let i = choose|i: int|
                        0 <= i < before.events.len() && (#[trigger] before.events[i]).image == k;
                    assert(after.events[i] == before.events[i]);
                }
            }
        }
        assert forall|w: int| 0 <= w < work.len() && (#[trigger] work[w])
            < start.images.len() implies after.images[work[w] as int].processed by {
            if w < shorter.len() {
                assert(shorter[w] == work[w]);
            }
        }
        assert forall|k: int|
            0 <= k < start.images.len() && !names(work, k) implies #[trigger] after.images[k]
            == start.images[k] by {
            if names(shorter, k) {
                let w = choose|w: int| 0 <= w < shorter.len() && shorter[w] == k;
                assert(work[w] == k);
            }
            assert(work[work.len() - 1] == handle);
        }
    }
}

/// Each image is processed at most once in a pass, however many handles of
/// `work` name it: the events name distinct images, each of them an image
/// that was not processed when the pass began. At the end every image that
/// `work` names is processed, an image that was processed before or that
/// `work` does not name is as it was, and every image that became
/// processed has its one event.
pub proof fn lemma_at_most_once(
    images: Seq<ImageModel>,
    cache: CacheModel,
    settings: MipmapGeneratorSettings,
    work: Seq<usize>,
)
    ensures
        ({
            let end = pass_fold(pass_start(images, cache), settings, work);
            &&& end.images.len() == images.len()
            &&& forall|i: int, j: int|
                0 <= i < j < end.events.len() ==> (#[trigger] end.events[i]).image != (
                #[trigger] end.events[j]).image
            &&& forall|i: int|
                0 <= i < end.events.len() ==> (#[trigger] end.events[i]).image < images.len()
                    && !images[end.events[i].image as int].processed
            &&& forall|w: int|
                0 <= w < work.len() && (#[trigger] work[w]) < images.len()
                    ==> end.images[work[w] as int].processed
            &&& forall|w: int|
                0 <= w < work.len() && (#[trigger] work[w]) < images.len()
                    && !images[work[w] as int].processed ==> exists|i: int|
                    0 <= i < end.events.len() && (#[trigger] end.events[i]).image == work[w]
            &&& forall|k: int|
                0 <= k < images.len() && ((#[trigger] images[k]).processed || !names(work, k)) ==> end.images[k] == images[k]
        }),
{
    let start = pass_start(images, cache);
    let end = pass_fold(start, settings, work);
    lemma_pass_invariant(start, settings, work);
    assert forall|w: int|
        0 <= w < work.len() && (#[trigger] work[w]) < images.len() && !images[work[w] as int].processed
        implies exists|i: int|
        0 <= i < end.events.len() && (#[trigger] end.events[i]).image == work[w] by {
        let k = work[w] as int;
        assert(!start.images[k].processed && end.images[k].processed);
        assert(has_event(end.events, k));
    }
    assert forall|k: int|
        0 <= k < images.len() && ((#[trigger] images[k]).processed || !names(work, k))
        implies end.images[k] == images[k] by {
        assert(start.images[k] == images[k]);
    }
}

/// Processes the images that `work` names, in order. Handles may repeat
/// and may name no image.
pub fn process_batch(
    images: &mut Vec<ImageAsset>,
    work: &Vec<usize>,
    settings: &MipmapGeneratorSettings,
    cache: &mut CompressionCache,
) -> (events: Vec<ProcessEvent>)
    ensures
        (PassState { images: image_models(final(images)@), cache: final(cache)@, events: events@ })
            == pass_fold(
            pass_start(image_models(old(images)@), old(cache)@),
            *settings,
            work@,
        ),
{
    let ghost start = pass_start(image_models(old(images)@), old(cache)@);
    let mut events: Vec<ProcessEvent> = Vec::new();
    let mut i: usize = 0;
    proof {
        assert(work@.take(0) =~= Seq::<usize>::empty());
    }
    while i < work.len()
        invariant
            i <= work.len(),
            start == pass_start(image_models(old(images)@), old(cache)@),
            (PassState { images: image_models(images@), cache: cache@, events: events@ })
                == pass_fold(start, *settings, work@.take(i as int)),
        decreases work.len() - i,
    {
        let handle = work[i];
        let ghost before = PassState {
            images: image_models(images@),
            cache: cache@,
            events: events@,
        };
        proof {
            reveal(pass_step);
            assert(work@.take(i + 1).drop_last() =~= work@.take(i as int));
            assert(work@.take(i + 1).last() == handle);
        }
        if handle < images.len() {
            let ghost old_images = images@;
            let path = process_image(&mut images[handle], settings, cache);
            proof {
                assert(before.images[handle as int] == old_images[handle as int]@);
                assert(image_models(images@) =~= before.images.update(
                    handle as int,
                    image_after(before.images[handle as int], *settings, before.cache),
                )) by {
                    assert forall|k: int| 0 <= k < images.len() implies image_models(images@)[k]
                        == before.images.update(
                        handle as int,
                        image_after(before.images[handle as int], *settings, before.cache),
                    )[k] by {
                        if k != handle {
                            assert(images@[k] == old_images[k]);
                        }
                    }
                }
            }
            if let Some(path) = path {
                events.push(ProcessEvent { image: handle, path });
            } else {
                proof {
                    assert(image_models(images@) =~= before.images);
                }
            }
        }
        i += 1;
    }
    proof {
        assert(work@.take(i as int) =~= work@);
    }
    events
}

/// The images that a material refers to, slot by slot: base colour, normal
/// map, metallic-roughness.
pub open spec fn material_textures(m: MaterialAsset) -> Seq<usize> {
    let a = match m.base_color_texture {
        Some(h) => seq![h],
        None => Seq::empty(),
    };
    let b = match m.normal_map_texture {
        Some(h) => seq![h],
        None => Seq::empty(),
    };
    let c = match m.metallic_roughness_texture {
        Some(h) => seq![h],
        None => Seq::empty(),
    };
    a + b + c
}

/// The images that the material of entity `n` refers to.
pub open spec fn node_textures(scene: SceneModel, materials: Seq<MaterialAsset>, n: int) -> Seq<
    usize,
> {
    if 0 <= n < scene.nodes.len() {
        match scene.nodes[n].material {
            Some(m) => if m < materials.len() {
                material_textures(materials[m as int])
            } else {
                Seq::empty()
            },
            None => Seq::empty(),
        }
    } else {
        Seq::empty()
    }
}

/// The images that the materials of `entities` refer to, entity by entity.
pub open spec fn textures_of(scene: SceneModel, materials: Seq<MaterialAsset>, entities: Seq<usize>)
    -> Seq<usize>
    decreases entities.len(),
{
    if entities.len() == 0 {
        Seq::empty()
    } else {
        textures_of(scene, materials, entities.drop_last()) + node_textures(
            scene,
            materials,
            entities.last() as int,
        )
    }
}

/// The images referred to from below the waiting roots among the first
/// `upto` entities, root by root, each subtree in the order of the
/// traversal.
pub open spec fn pending_textures(scene: SceneModel, materials: Seq<MaterialAsset>, upto: nat)
    -> Seq<usize>
    decreases upto,
{
    if upto == 0 {
        Seq::empty()
    } else {
        pending_textures(scene, materials, (upto - 1) as nat) + if scene.is_pending_root(upto - 1) {
            textures_of(scene, materials, scene.descendants(upto - 1))
        } else {
            Seq::empty()
        }
    }
}

/// Collects the work of a pass: the images referred to from below every
/// populated root that still carries its marker.
pub fn collect_pending_textures(scene: &Scene, materials: &Vec<MaterialAsset>) -> (work: Vec<usize>)
    ensures
        work@ == pending_textures(scene@, materials@, scene@.nodes.len()),
{
    let mut work: Vec<usize> = Vec::new();
    let count = scene.len();
    let mut root: usize = 0;
    while root < count
        invariant
            count == scene@.nodes.len(),
            root <= count,
            work@ == pending_textures(scene@, materials@, root as nat),
        decreases count - root,
    {
        if scene.is_pending_root(root) {
            let order = all_children(scene, root);
            let ghost before = work@;
            let mut i: usize = 0;
            proof {
                assert(order@.take(0) =~= Seq::<usize>::empty());
                assert(work@ =~= before + textures_of(scene@, materials@, order@.take(0)));
            }
            while i < order.len()
                invariant
                    i <= order.len(),
                    forall|j: int| 0 <= j < order.len() ==> #[trigger] order[j] < scene@.nodes.len(),
                    work@ == before + textures_of(scene@, materials@, order@.take(i as int)),
                decreases order.len() - i,
            {
                let ghost so_far = work@;
                let components = scene.node(order[i]);
                if let Some(node) = components {
                    if let Some(m) = node.material {
                        if m < materials.len() {
                            let material = &materials[m];
                            if let Some(h) = material.base_color_texture {
                                work.push(h);
                            }
                            if let Some(h) = material.normal_map_texture {
                                work.push(h);
                            }
                            if let Some(h) = material.metallic_roughness_texture {
                                work.push(h);
                            }
                        }
                    }
                }
                proof {
                    assert(order@.take(i + 1).drop_last() =~= order@.take(i as int));
                    assert(order@.take(i + 1).last() == order[i as int]);
                    assert(work@ =~= so_far + node_textures(scene@, materials@, order[i as int] as int));
                }
                i += 1;
            }
            proof {
                assert(order@.take(i as int) =~= order@);
            }
        } else {
            proof {
                assert(work@ + Seq::<usize>::empty() =~= work@);
            }
        }
        root += 1;
    }
    work
}

/// One cycle of the texture pipeline: processes every image that is
/// referred to from below a waiting root and is not processed yet, each of
/// them once. Materials, meshes and the scene stay as they are.
pub fn texture_pass(
    scene: &Scene,
    assets: &mut Assets,
    settings: &MipmapGeneratorSettings,
    cache: &mut CompressionCache,
) -> (events: Vec<ProcessEvent>)
    ensures
        final(assets)@.materials == old(assets)@.materials,
        final(assets)@.meshes == old(assets)@.meshes,
        (PassState { images: final(assets)@.images, cache: final(cache)@, events: events@ })
            == pass_fold(
            pass_start(old(assets)@.images, old(cache)@),
            *settings,
            pending_textures(scene@, old(assets)@.materials, scene@.nodes.len()),
        ),
{
    let work = collect_pending_textures(scene, &assets.materials);
    process_batch(&mut assets.images, &work, settings, cache)
}

} // verus!
