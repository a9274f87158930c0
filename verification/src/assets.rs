//! The asset store, and what it means for two materials or two meshes in
//! it to have the same content.

use vstd::prelude::*;
use crate::bytes::{le32, le64, lemma_le_len, push_le32, push_le64, same_bytes};
use crate::fingerprint::{FNV_OFFSET, absorb, digest_of, fnv_fold};
use crate::image::{ImageAsset, ImageModel};

verus! {

/// A side of a triangle.
#[derive(Clone, Copy, PartialEq, Eq, Structural, Debug)]
pub enum Face {
    Front,
    Back,
}

/// How a material's alpha is used. A cutoff is kept as the bits of its
/// 32-bit float.
#[derive(Clone, Copy, PartialEq, Eq, Structural, Debug)]
pub enum AlphaMode {
    Opaque,
    Mask(u32),
    Blend,
    Premultiplied,
    AlphaToCoverage,
    Add,
    Multiply,
}

impl AlphaMode {
    /// The byte that stands for this mode in digests.
    pub open spec fn spec_tag(self) -> u8 {
        match self {
            AlphaMode::Opaque => 0,
            AlphaMode::Mask(_) => 1,
            AlphaMode::Blend => 2,
            AlphaMode::Premultiplied => 3,
            AlphaMode::AlphaToCoverage => 4,
            AlphaMode::Add => 5,
            AlphaMode::Multiply => 6,
        }
    }

    /// The bits of the cutoff of a mask, zero for the other modes.
    pub open spec fn spec_cutoff(self) -> u32 {
        match self {
            AlphaMode::Mask(bits) => bits,
            _ => 0,
        }
    }

    /// Computes the byte that stands for this mode in digests.
    #[verifier::when_used_as_spec(spec_tag)]
    pub fn tag(self) -> (t: u8)
        ensures
            t == self.spec_tag(),
    {
        match self {
            AlphaMode::Opaque => 0,
            AlphaMode::Mask(_) => 1,
            AlphaMode::Blend => 2,
            AlphaMode::Premultiplied => 3,
            AlphaMode::AlphaToCoverage => 4,
            AlphaMode::Add => 5,
            AlphaMode::Multiply => 6,
        }
    }

    /// Reads the bits of the cutoff of a mask, zero for the other modes.
    #[verifier::when_used_as_spec(spec_cutoff)]
    pub fn cutoff(self) -> (bits: u32)
        ensures
            bits == self.spec_cutoff(),
    {
        match self {
            AlphaMode::Mask(bits) => bits,
            _ => 0,
        }
    }

    /// Whether the alpha is a mask with a cutoff.
    pub fn is_mask(self) -> (mask: bool)
        ensures
            mask == (self is Mask),
    {
        match self {
            AlphaMode::Mask(_) => true,
            _ => false,
        }
    }
}

/// A material: texture slots by name, and scalar settings. Floats are kept
/// as their bits, so that equal means bit for bit.
#[derive(Clone, Copy, PartialEq, Eq, Debug)]
pub struct MaterialAsset {
    pub base_color_texture: Option<usize>,
    pub normal_map_texture: Option<usize>,
    pub metallic_roughness_texture: Option<usize>,
    pub alpha_mode: AlphaMode,
    pub double_sided: bool,
    pub cull_mode: Option<Face>,
    pub diffuse_transmission: u32,
    pub thickness: u32,
}

/// An axis-aligned bounding box, each coordinate as the bits of its 32-bit
/// float.
#[derive(Clone, Copy, PartialEq, Eq, Debug)]
pub struct Aabb {
    pub min_x: u32,
    pub min_y: u32,
    pub min_z: u32,
    pub max_x: u32,
    pub max_y: u32,
    pub max_z: u32,
}

/// The mathematical value of a [`MeshAsset`].
pub struct MeshModel {
    pub vertices: Seq<u8>,
    pub indices: Seq<u8>,
    pub aabb: Aabb,
}

/// A mesh: its buffers as bytes, and its bounding box.
#[derive(Clone, PartialEq, Eq, Debug)]
pub struct MeshAsset {
    pub vertices: Vec<u8>,
    pub indices: Vec<u8>,
    pub aabb: Aabb,
}

impl View for MeshAsset {
    type V = MeshModel;

    open spec fn view(&self) -> MeshModel {
        MeshModel {
            vertices: self.vertices@,
            indices: self.indices@,
            aabb: self.aabb,
        }
    }
}

/// Two meshes have the same content when their buffers are equal byte for
/// byte.
pub open spec fn same_mesh(a: MeshModel, b: MeshModel) -> bool {
    a.vertices == b.vertices && a.indices == b.indices
}

/// Two texture slots have the same content when both are empty, both name
/// the same image, or both name images that are alike in everything. A
/// handle that names no image is like itself only.
pub open spec fn same_texture(images: Seq<ImageModel>, a: Option<usize>, b: Option<usize>) -> bool {
    match (a, b) {
        (None, None) => true,
        (Some(x), Some(y)) => x == y || (x < images.len() && y < images.len() && images[x as int]
            == images[y as int]),
        _ => false,
    }
}

/// Two materials have the same content when every slot has and every
/// scalar is equal.
pub open spec fn same_material(images: Seq<ImageModel>, a: MaterialAsset, b: MaterialAsset) -> bool {
    &&& same_texture(images, a.base_color_texture, b.base_color_texture)
    &&& same_texture(images, a.normal_map_texture, b.normal_map_texture)
    &&& same_texture(images, a.metallic_roughness_texture, b.metallic_roughness_texture)
    &&& a.alpha_mode == b.alpha_mode
    &&& a.double_sided == b.double_sided
    &&& a.cull_mode == b.cull_mode
    &&& a.diffuse_transmission == b.diffuse_transmission
    &&& a.thickness == b.thickness
}

/// The digest of an image: over its size, its format and its source texels.
pub open spec fn image_digest(image: ImageModel) -> u64 {
    fnv_fold(digest_of(le32(image.width) + le32(image.height) + seq![image.format.tag()]), image.data)
}

/// The digest of every image of a store, by slot.
pub open spec fn image_digests(images: Seq<ImageModel>) -> Seq<u64> {
    Seq::new(images.len(), |i: int| image_digest(images[i]))
}

/// What the digest of a material absorbs for one texture slot: the digest
/// of the image for a handle that names one, the handle itself for one that
/// names none.
pub open spec fn slot_bytes(digests: Seq<u64>, slot: Option<usize>) -> Seq<u8> {
    match slot {
        None => seq![0u8] + le64(0),
        Some(handle) => if handle < digests.len() {
            seq![1u8] + le64(digests[handle as int] as int)
        } else {
            seq![2u8] + le64(handle as int)
        },
    }
}

/// The byte that stands for a cull mode in digests.
pub open spec fn cull_tag(cull: Option<Face>) -> u8 {
    match cull {
        None => 0,
        Some(Face::Front) => 1,
        Some(Face::Back) => 2,
    }
}

/// The field values of a material, serialized for its digest.
pub open spec fn material_bytes(digests: Seq<u64>, m: MaterialAsset) -> Seq<u8> {
    slot_bytes(digests, m.base_color_texture) + slot_bytes(digests, m.normal_map_texture)
        + slot_bytes(digests, m.metallic_roughness_texture) + seq![m.alpha_mode.tag()] + le32(
        m.alpha_mode.cutoff() as int,
    ) + seq![
        if m.double_sided {
            1u8
        } else {
            0u8
        },
        cull_tag(m.cull_mode),
    ] + le32(m.diffuse_transmission as int) + le32(m.thickness as int)
}

/// The digest of a material, given the digests of the images.
pub open spec fn material_digest(digests: Seq<u64>, m: MaterialAsset) -> u64 {
    digest_of(material_bytes(digests, m))
}

/// The digest of a mesh: over the sizes of its buffers, then their bytes.
pub open spec fn mesh_digest(mesh: MeshModel) -> u64 {
    fnv_fold(
        fnv_fold(
            digest_of(le64(mesh.vertices.len() as int) + le64(mesh.indices.len() as int)),
            mesh.vertices,
        ),
        mesh.indices,
    )
}

/// Materials of the same content have the same digest, so they meet in one
/// bucket.
pub proof fn lemma_same_material_same_digest(
    images: Seq<ImageModel>,
    a: MaterialAsset,
    b: MaterialAsset,
)
    requires
        same_material(images, a, b),
    ensures
        material_digest(image_digests(images), a) == material_digest(image_digests(images), b),
{
    let digests = image_digests(images);
    assert(slot_bytes(digests, a.base_color_texture) == slot_bytes(digests, b.base_color_texture));
    assert(slot_bytes(digests, a.normal_map_texture) == slot_bytes(digests, b.normal_map_texture));
    assert(slot_bytes(digests, a.metallic_roughness_texture) == slot_bytes(
        digests,
        b.metallic_roughness_texture,
    ));
}

/// Having the same content is an equivalence: every material is like
/// itself, and likeness carries over in both directions and along chains.
pub proof fn lemma_same_material_is_equivalence(
    images: Seq<ImageModel>,
    a: MaterialAsset,
    b: MaterialAsset,
    c: MaterialAsset,
)
    ensures
        same_material(images, a, a),
        same_material(images, a, b) ==> same_material(images, b, a),
        same_material(images, a, b) && same_material(images, b, c) ==> same_material(images, a, c),
{
}

/// Meshes of the same content have the same digest.
pub proof fn lemma_same_mesh_same_digest(a: MeshModel, b: MeshModel)
    requires
        same_mesh(a, b),
    ensures
        mesh_digest(a) == mesh_digest(b),
{
}

/// The mathematical value of [`Assets`].
pub struct AssetsModel {
    pub images: Seq<ImageModel>,
    pub materials: Seq<MaterialAsset>,
    pub meshes: Seq<MeshModel>,
}

impl AssetsModel {
    /// Whether the materials in slots `a` and `b` may share one handle:
    /// both slots exist and hold the same content.
    pub open spec fn materials_match(self, a: int, b: int) -> bool {
        &&& 0 <= a < self.materials.len()
        &&& 0 <= b < self.materials.len()
        &&& same_material(self.images, self.materials[a], self.materials[b])
    }

    /// Whether the meshes in slots `a` and `b` may share one handle.
    pub open spec fn meshes_match(self, a: int, b: int) -> bool {
        &&& 0 <= a < self.meshes.len()
        &&& 0 <= b < self.meshes.len()
        &&& same_mesh(self.meshes[a], self.meshes[b])
    }

    /// The digest of every material, by slot.
    pub open spec fn material_digests(self) -> Seq<u64> {
        Seq::new(
            self.materials.len(),
            |i: int| material_digest(image_digests(self.images), self.materials[i]),
        )
    }

    /// The digest of every mesh, by slot.
    pub open spec fn mesh_digests(self) -> Seq<u64> {
        Seq::new(self.meshes.len(), |i: int| mesh_digest(self.meshes[i]))
    }
}

/// The values of a run of images.
pub open spec fn image_models(images: Seq<ImageAsset>) -> Seq<ImageModel> {
    Seq::new(images.len(), |i: int| images[i]@)
}

/// The asset store: a handle is a slot of one of these vectors.
pub struct Assets {
    pub images: Vec<ImageAsset>,
    pub materials: Vec<MaterialAsset>,
    pub meshes: Vec<MeshAsset>,
}

impl View for Assets {
    type V = AssetsModel;

    open spec fn view(&self) -> AssetsModel {
        AssetsModel {
            images: image_models(self.images@),
            materials: self.materials@,
            meshes: Seq::new(self.meshes@.len(), |i: int| self.meshes@[i]@),
        }
    }
}

fn digest_image(image: &ImageAsset) -> (digest: u64)
    ensures
        digest == image_digest(image@),
{
    let mut header: Vec<u8> = Vec::new();
    push_le32(&mut header, image.width());
    push_le32(&mut header, image.height());
    header.push(image.format().tag());
    proof {
        lemma_le_len(image@.width);
        lemma_le_len(image@.height);
        assert(header@ =~= le32(image@.width) + le32(image@.height) + seq![image@.format.tag()]);
    }
    absorb(absorb(FNV_OFFSET, &header), image.data())
}

fn push_slot(out: &mut Vec<u8>, digests: &Vec<u64>, slot: Option<usize>)
    ensures
        final(out)@ == old(out)@ + slot_bytes(digests@, slot),
{
    match slot {
        None => {
            out.push(0);
            push_le64(out, 0);
        },
        Some(handle) => {
            if handle < digests.len() {
                out.push(1);
                push_le64(out, digests[handle]);
            } else {
                out.push(2);
                push_le64(out, handle as u64);
            }
        },
    }
    assert(out@ =~= old(out)@ + slot_bytes(digests@, slot));
}

fn digest_material(digests: &Vec<u64>, m: &MaterialAsset) -> (digest: u64)
    ensures
        digest == material_digest(digests@, *m),
{
    let mut bytes: Vec<u8> = Vec::new();
    push_slot(&mut bytes, digests, m.base_color_texture);
    push_slot(&mut bytes, digests, m.normal_map_texture);
    push_slot(&mut bytes, digests, m.metallic_roughness_texture);
    bytes.push(m.alpha_mode.tag());
    push_le32(&mut bytes, m.alpha_mode.cutoff());
    bytes.push(if m.double_sided { 1 } else { 0 });
    bytes.push(
        match m.cull_mode {
            None => 0,
            Some(Face::Front) => 1,
            Some(Face::Back) => 2,
        },
    );
    push_le32(&mut bytes, m.diffuse_transmission);
    push_le32(&mut bytes, m.thickness);
    assert(bytes@ =~= material_bytes(digests@, *m));
    absorb(FNV_OFFSET, &bytes)
}

fn digest_mesh(mesh: &MeshAsset) -> (digest: u64)
    ensures
        digest == mesh_digest(mesh@),
{
    let mut header: Vec<u8> = Vec::new();
    push_le64(&mut header, mesh.vertices.len() as u64);
    push_le64(&mut header, mesh.indices.len() as u64);
    assert(header@ =~= le64(mesh.vertices.len() as int) + le64(mesh.indices.len() as int));
    absorb(absorb(absorb(FNV_OFFSET, &header), &mesh.vertices), &mesh.indices)
}

fn same_slot(images: &Vec<ImageAsset>, a: Option<usize>, b: Option<usize>) -> (same: bool)
    ensures
        same == same_texture(image_models(images@), a, b),
{
    match (a, b) {
        (None, None) => true,
        (Some(x), Some(y)) => {
            x == y || (x < images.len() && y < images.len() && images[x].same_content(&images[y]))
        },
        _ => false,
    }
}

impl Assets {
    /// A store without assets.
    pub fn new() -> (assets: Assets)
        ensures
            assets@.images.len() == 0,
            assets@.materials.len() == 0,
            assets@.meshes.len() == 0,
    {
        Assets { images: Vec::new(), materials: Vec::new(), meshes: Vec::new() }
    }

    /// Computes the digest of every image.
    pub fn image_digests(&self) -> (digests: Vec<u64>)
        ensures
            digests@ == image_digests(self@.images),
    {
        let mut digests: Vec<u64> = Vec::new();
        let mut i: usize = 0;
        while i < self.images.len()
            invariant
                i <= self.images.len(),
                digests.len() == i,
                forall|j: int| 0 <= j < i ==> digests[j] == image_digest(self.images[j]@),
            decreases self.images.len() - i,
        {
            digests.push(digest_image(&self.images[i]));
            i += 1;
        }
        assert(digests@ =~= image_digests(self@.images));
        digests
    }

    /// Computes the digest of every material.
    pub fn material_digests(&self) -> (digests: Vec<u64>)
        ensures
            digests@ == self@.material_digests(),
    {
        let images = self.image_digests();
        let mut digests: Vec<u64> = Vec::new();
        let mut i: usize = 0;
        while i < self.materials.len()
            invariant
                i <= self.materials.len(),
                images@ == image_digests(self@.images),
                digests.len() == i,
                forall|j: int|
                    0 <= j < i ==> digests[j] == material_digest(images@, self.materials[j]),
            decreases self.materials.len() - i,
        {
            digests.push(digest_material(&images, &self.materials[i]));
            i += 1;
        }
        assert(digests@ =~= self@.material_digests());
        digests
    }

    /// Computes the digest of every mesh.
    pub fn mesh_digests(&self) -> (digests: Vec<u64>)
        ensures
            digests@ == self@.mesh_digests(),
    {
        let mut digests: Vec<u64> = Vec::new();
        let mut i: usize = 0;
        while i < self.meshes.len()
            invariant
                i <= self.meshes.len(),
                digests.len() == i,
                forall|j: int| 0 <= j < i ==> digests[j] == mesh_digest(self.meshes[j]@),
            decreases self.meshes.len() - i,
        {
            digests.push(digest_mesh(&self.meshes[i]));
            i += 1;
        }
        assert(digests@ =~= self@.mesh_digests());
        digests
    }

    /// Compares the materials in slots `a` and `b` field by field, and
    /// their textures by content.
    pub fn materials_match(&self, a: usize, b: usize) -> (same: bool)
        ensures
            same == self@.materials_match(a as int, b as int),
    {
        if a >= self.materials.len() || b >= self.materials.len() {
            return false;
        }
        let x = &self.materials[a];
        let y = &self.materials[b];
        let same_cull = match (x.cull_mode, y.cull_mode) {
            (None, None) => true,
            (Some(p), Some(q)) => p == q,
            _ => false,
        };
        same_slot(&self.images, x.base_color_texture, y.base_color_texture) && same_slot(
            &self.images,
            x.normal_map_texture,
            y.normal_map_texture,
        ) && same_slot(&self.images, x.metallic_roughness_texture, y.metallic_roughness_texture)
            && x.alpha_mode == y.alpha_mode && x.double_sided == y.double_sided && same_cull
            && x.diffuse_transmission == y.diffuse_transmission && x.thickness == y.thickness
    }

    /// Compares the buffers of the meshes in slots `a` and `b`.
    pub fn meshes_match(&self, a: usize, b: usize) -> (same: bool)
        ensures
            same == self@.meshes_match(a as int, b as int),
    {
        if a >= self.meshes.len() || b >= self.meshes.len() {
            return false;
        }
        same_bytes(&self.meshes[a].vertices, &self.meshes[b].vertices) && same_bytes(
            &self.meshes[a].indices,
            &self.meshes[b].indices,
        )
    }
}

} // verus!
