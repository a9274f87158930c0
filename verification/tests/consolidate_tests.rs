use asset_pipeline::assets::{Aabb, AlphaMode, Assets, Face, MaterialAsset, MeshAsset};
use asset_pipeline::consolidate::{consolidate, consolidate_subtree, representatives};
use asset_pipeline::image::{ImageAsset, PixelFormat};
use asset_pipeline::scene::{Scene, SceneNode};

fn image(fill: u8) -> ImageAsset {
    ImageAsset::new(2, 2, PixelFormat::Rgba8Unorm, vec![fill; 16]).unwrap()
}

fn material(base: Option<usize>) -> MaterialAsset {
    MaterialAsset {
        base_color_texture: base,
        normal_map_texture: None,
        metallic_roughness_texture: None,
        alpha_mode: AlphaMode::Opaque,
        double_sided: false,
        cull_mode: Some(Face::Back),
        diffuse_transmission: 0,
        thickness: 0,
    }
}

fn mesh(vertices: Vec<u8>, indices: Vec<u8>) -> MeshAsset {
    MeshAsset {
        vertices,
        indices,
        aabb: Aabb { min_x: 0, min_y: 0, min_z: 0, max_x: 0, max_y: 0, max_z: 0 },
    }
}

fn node(mesh: Option<usize>, material: Option<usize>) -> SceneNode {
    SceneNode { mesh, material, ..SceneNode::empty() }
}

fn marked() -> SceneNode {
    SceneNode { post_proc_scene: true, ..SceneNode::empty() }
}

fn materials_of(scene: &Scene) -> Vec<Option<usize>> {
    (0..scene.len()).map(|n| scene.node(n).unwrap().material).collect()
}

fn meshes_of(scene: &Scene) -> Vec<Option<usize>> {
    (0..scene.len()).map(|n| scene.node(n).unwrap().mesh).collect()
}

#[test]
fn five_nodes_three_alike() {
    let mut assets = Assets::new();
    // A1, A2, A3 alike, B distinct
    assets.materials.push(material(None)); // 0: A1
    assets.materials.push(material(None)); // 1: A2
    assets.materials.push(material(None)); // 2: A3
    assets.materials.push(MaterialAsset { double_sided: true, ..material(None) }); // 3: B
    let mut scene = Scene::new();
    scene.spawn(None, marked());
    scene.spawn(Some(0), node(None, Some(1))); // A2 is seen first
    scene.spawn(Some(0), node(None, Some(3)));
    scene.spawn(Some(0), node(None, Some(0)));
    scene.spawn(Some(0), node(None, Some(2)));
    scene.spawn(Some(0), node(None, Some(3)));
    assert!(consolidate_subtree(&mut scene, &assets, 0));
    assert_eq!(materials_of(&scene), vec![None, Some(1), Some(3), Some(1), Some(1), Some(3)]);
    assert!(!scene.node(0).unwrap().post_proc_scene);
    // the subtree is not visited again
    assert!(!consolidate_subtree(&mut scene, &assets, 0));
    assert_eq!(materials_of(&scene), vec![None, Some(1), Some(3), Some(1), Some(1), Some(3)]);
}

#[test]
fn first_seen_is_first_in_the_traversal_not_in_the_arena() {
    let mut assets = Assets::new();
    assets.materials.push(material(None));
    assets.materials.push(material(None));
    assets.materials.push(material(None));
    let mut scene = Scene::new();
    scene.spawn(None, marked()); // 0
    scene.spawn(Some(0), node(None, Some(0))); // 1
    scene.spawn(Some(1), node(None, Some(2))); // 2: below 1, so seen before it
    scene.spawn(Some(0), node(None, Some(1))); // 3
    consolidate(&mut scene, &assets);
    assert_eq!(materials_of(&scene), vec![None, Some(2), Some(2), Some(2)]);
}

#[test]
fn two_runs_pick_the_same_handles() {
    let build = || {
        let mut assets = Assets::new();
        for i in 0..6 {
            assets.materials.push(MaterialAsset { thickness: i % 2, ..material(None) });
        }
        let mut scene = Scene::new();
        scene.spawn(None, marked());
        for m in [5, 4, 3, 2, 1, 0] {
            scene.spawn(Some(0), node(None, Some(m)));
        }
        (scene, assets)
    };
    let (mut first, assets) = build();
    let (mut second, _) = build();
    consolidate(&mut first, &assets);
    consolidate(&mut second, &assets);
    assert_eq!(materials_of(&first), materials_of(&second));
    assert_eq!(
        materials_of(&first),
        vec![None, Some(5), Some(4), Some(5), Some(4), Some(5), Some(4)]
    );
}

#[test]
fn materials_are_compared_by_the_content_of_their_textures() {
    let mut assets = Assets::new();
    assets.images.push(image(1)); // 0
    assets.images.push(image(1)); // 1: the same texels as 0
    assets.images.push(image(2)); // 2: other texels
    assets.materials.push(material(Some(0)));
    assets.materials.push(material(Some(1)));
    assets.materials.push(material(Some(2)));
    assets.materials.push(material(None));
    let mut scene = Scene::new();
    scene.spawn(None, marked());
    for m in 0..4 {
        scene.spawn(Some(0), node(None, Some(m)));
    }
    consolidate(&mut scene, &assets);
    assert_eq!(materials_of(&scene), vec![None, Some(0), Some(0), Some(2), Some(3)]);
}

#[test]
fn every_scalar_counts() {
    let base = material(None);
    let variants = vec![
        base,
        MaterialAsset { alpha_mode: AlphaMode::Blend, ..base },
        MaterialAsset { alpha_mode: AlphaMode::Mask(5), ..base },
        MaterialAsset { alpha_mode: AlphaMode::Mask(6), ..base },
        MaterialAsset { double_sided: true, ..base },
        MaterialAsset { cull_mode: None, ..base },
        MaterialAsset { cull_mode: Some(Face::Front), ..base },
        MaterialAsset { diffuse_transmission: 1, ..base },
        MaterialAsset { thickness: 1, ..base },
        MaterialAsset { normal_map_texture: Some(0), ..base },
        MaterialAsset { metallic_roughness_texture: Some(0), ..base },
    ];
    let mut assets = Assets::new();
    let mut scene = Scene::new();
    scene.spawn(None, marked());
    for (i, m) in variants.iter().enumerate() {
        assets.materials.push(*m);
        scene.spawn(Some(0), node(None, Some(i)));
    }
    let before = materials_of(&scene);
    consolidate(&mut scene, &assets);
    assert_eq!(materials_of(&scene), before);
    for a in 0..variants.len() {
        for b in 0..variants.len() {
            assert_eq!(assets.materials_match(a, b), a == b);
        }
    }
}

#[test]
fn processed_and_unprocessed_images_differ() {
    let mut assets = Assets::new();
    assets.images.push(image(1));
    assets.images.push(image(1));
    assert!(assets.images[0].same_content(&assets.images[1]));
    let settings = asset_pipeline::settings::MipmapGeneratorSettings::default();
    let mut cache = asset_pipeline::cache::CompressionCache::new(false);
    asset_pipeline::orchestrator::process_image(&mut assets.images[1], &settings, &mut cache);
    assert!(!assets.images[0].same_content(&assets.images[1]));
    assets.materials.push(material(Some(0)));
    assets.materials.push(material(Some(1)));
    assert!(!assets.materials_match(0, 1));
    assert!(assets.materials_match(1, 1));
    asset_pipeline::orchestrator::process_image(&mut assets.images[0], &settings, &mut cache);
    assert!(assets.materials_match(0, 1));
}

#[test]
fn meshes_merge_on_equal_buffers() {
    let mut assets = Assets::new();
    assets.meshes.push(mesh(vec![1, 2, 3], vec![0, 1]));
    assets.meshes.push(mesh(vec![1, 2, 3], vec![0, 1]));
    assets.meshes.push(mesh(vec![1, 2, 3], vec![0, 2]));
    assets.meshes.push(mesh(vec![1, 2], vec![3, 0, 1]));
    assets.meshes.push(mesh(vec![], vec![]));
    assets.meshes.push(mesh(vec![], vec![]));
    let mut scene = Scene::new();
    scene.spawn(None, marked());
    for m in 0..6 {
        scene.spawn(Some(0), node(Some(m), None));
    }
    consolidate(&mut scene, &assets);
    assert_eq!(
        meshes_of(&scene),
        vec![None, Some(0), Some(0), Some(2), Some(3), Some(4), Some(4)]
    );
}

#[test]
fn meshes_and_materials_are_merged_apart() {
    let mut assets = Assets::new();
    assets.materials.push(material(None));
    assets.materials.push(material(None));
    assets.meshes.push(mesh(vec![1], vec![]));
    assets.meshes.push(mesh(vec![2], vec![]));
    let mut scene = Scene::new();
    scene.spawn(None, marked());
    scene.spawn(Some(0), node(Some(0), Some(0)));
    scene.spawn(Some(0), node(Some(1), Some(1)));
    consolidate(&mut scene, &assets);
    assert_eq!(materials_of(&scene), vec![None, Some(0), Some(0)]);
    assert_eq!(meshes_of(&scene), vec![None, Some(0), Some(1)]);
}

#[test]
fn handles_that_name_nothing_are_left_alone() {
    let mut assets = Assets::new();
    assets.materials.push(material(None));
    let mut scene = Scene::new();
    scene.spawn(None, marked());
    scene.spawn(Some(0), node(Some(3), Some(7)));
    scene.spawn(Some(0), node(Some(3), Some(7)));
    scene.spawn(Some(0), node(None, Some(0)));
    consolidate(&mut scene, &assets);
    assert_eq!(materials_of(&scene), vec![None, Some(7), Some(7), Some(0)]);
    assert_eq!(meshes_of(&scene), vec![None, Some(3), Some(3), None]);
    assert!(!assets.materials_match(7, 7));
    assert!(!assets.meshes_match(0, 0));
}

#[test]
fn only_the_subtree_of_a_waiting_root_is_touched() {
    let mut assets = Assets::new();
    assets.materials.push(material(None));
    assets.materials.push(material(None));
    let mut scene = Scene::new();
    scene.spawn(None, marked()); // 0
    scene.spawn(Some(0), node(None, Some(0))); // 1
    scene.spawn(Some(0), node(None, Some(1))); // 2
    scene.spawn(None, SceneNode::empty()); // 3: not marked
    scene.spawn(Some(3), node(None, Some(0))); // 4
    scene.spawn(Some(3), node(None, Some(1))); // 5
    scene.spawn(None, SceneNode { material: Some(1), ..marked() }); // 6: not populated
    consolidate(&mut scene, &assets);
    assert_eq!(
        materials_of(&scene),
        vec![None, Some(0), Some(0), None, Some(0), Some(1), Some(1)]
    );
    assert!(!scene.node(0).unwrap().post_proc_scene);
    assert!(scene.node(6).unwrap().post_proc_scene);
}

#[test]
fn other_components_stay() {
    let mut assets = Assets::new();
    assets.materials.push(material(None));
    assets.materials.push(material(None));
    let mut scene = Scene::new();
    scene.spawn(None, marked());
    scene.spawn(Some(0), node(None, Some(0)));
    let special = SceneNode { camera: true, grif_light: true, no_frustum_culling: true, ..node(None, Some(1)) };
    scene.spawn(Some(0), special);
    consolidate(&mut scene, &assets);
    assert_eq!(scene.node(2), Some(SceneNode { material: Some(0), ..special }));
    assert_eq!(scene.children_of(0), vec![1, 2]);
}

#[test]
fn a_digest_shared_by_different_content_is_only_a_hint() {
    // handles 0..4, all in one bucket; who merges with whom is for the caller
    let digests = vec![7u64, 7, 7, 9, 7];
    let handles = vec![Some(2), None, Some(0), Some(3), Some(9), Some(4), Some(2), Some(3)];
    assert_eq!(
        representatives(&handles, &digests),
        vec![Some(2), None, Some(2), Some(3), None, Some(2), Some(2), Some(3)]
    );
    assert!(representatives(&vec![], &digests).is_empty());
}

#[test]
fn digests_agree_on_equal_content() {
    let mut assets = Assets::new();
    assets.images.push(image(1));
    assets.images.push(image(1));
    assets.images.push(image(2));
    assets.materials.push(material(Some(0)));
    assets.materials.push(material(Some(1)));
    assets.materials.push(material(Some(2)));
    assets.materials.push(material(Some(5)));
    assets.materials.push(material(Some(5)));
    assets.materials.push(material(Some(6)));
    assets.meshes.push(mesh(vec![1, 2], vec![3]));
    assets.meshes.push(mesh(vec![1, 2], vec![3]));
    assets.meshes.push(mesh(vec![1], vec![2, 3]));
    let images = assets.image_digests();
    assert_eq!(images[0], images[1]);
    assert_ne!(images[0], images[2]);
    let materials = assets.material_digests();
    assert_eq!(materials[0], materials[1]);
    assert_ne!(materials[0], materials[2]);
    assert_eq!(materials[3], materials[4]);
    assert_ne!(materials[3], materials[5]);
    let meshes = assets.mesh_digests();
    assert_eq!(meshes[0], meshes[1]);
    assert_ne!(meshes[0], meshes[2]);
}
