use terra::graph::{
    check_order, edges_of, find, Graph, GraphError, GraphFile, GraphLayer, Node, OutputKind,
};
use terra::layer::{DatasetDesc, LayerDesc, LayerId, LayerType, TextureFormat};

const CENTER: &str = "849VCWC8+R9";
const SOURCE: &str = "void main() {}";
const DEM_ID: &str = "0dec3e84fd3377bfac8fadfe7303c16624cebec89a78bc415b7b6a9da5e254b9";
const HEIGHTS_ID: &str = "e47a78fd5b654c7a5f51e29570afc997e1839dc82dd99387683bbfb75ec6cfc4";
const NORMALS_ID: &str = "55ba9dfad4a7e6d1626a1f021d0f151d49019a64b41e5bbc0d55ba7270418efe";

fn dataset(name: &str, url: &str) -> (String, Node) {
    (
        name.to_string(),
        Node::Dataset {
            url: url.to_string(),
            resolution: 512,
            file_format: 2,
            bib: "bib".to_string(),
            license: "license".to_string(),
            projection: 1,
            cache_size: 8,
        },
    )
}

fn generated(
    name: &str,
    inputs: &[(&str, &str)],
    resolution: u32,
    corner_registration: bool,
    format: TextureFormat,
    kind: OutputKind,
) -> (String, Node) {
    (
        name.to_string(),
        Node::Generated {
            inputs: inputs.iter().map(|(a, b)| (a.to_string(), b.to_string())).collect(),
            resolution,
            corner_registration,
            format,
            shader: "gen".to_string(),
            kind,
            cache_size: 16,
        },
    )
}

fn config(nodes: Vec<(String, Node)>) -> GraphFile {
    GraphFile {
        center: CENTER.to_string(),
        side_length_sectors: 4,
        shaders: vec![("gen".to_string(), SOURCE.to_string())],
        nodes,
    }
}

fn terrain() -> GraphFile {
    config(vec![
        generated(
            "normals",
            &[("base", "dem"), ("heights", "heights")],
            128,
            false,
            TextureFormat::Rgba8,
            OutputKind::NormalMap,
        ),
        generated(
            "heights",
            &[("base", "dem")],
            256,
            true,
            TextureFormat::R32F,
            OutputKind::HeightMap,
        ),
        dataset("dem", "https://example.org/dem"),
    ])
}

fn error_of(config: GraphFile) -> GraphError {
    match Graph::from_file(config) {
        Ok(_) => panic!("the description gave a graph"),
        Err(e) => e,
    }
}

fn graph_of(config: GraphFile) -> Graph {
    match Graph::from_file(config) {
        Ok(graph) => graph,
        Err(e) => panic!("no graph: {:?}", e),
    }
}

#[test]
fn digest_of_known_bytes() {
    assert_eq!(
        LayerId::of_descriptor(&vec![]).to_hex(),
        "e3b0c44298fc1c149afbf4c8996fb92427ae41e4649b934ca495991b7852b855"
    );
    assert_eq!(
        LayerId::of_descriptor(&b"abc".to_vec()).to_hex(),
        "ba7816bf8f01cfea414140de5dae2223b00361a396177a9cb410ff61f20015ad"
    );
}

#[test]
fn hex_text_round_trip() {
    let mut bytes = [0u8; 32];
    for i in 0..32 {
        bytes[i] = (i * 9 + 3) as u8;
    }
    bytes[0] = 0x0f;
    bytes[1] = 0xa0;
    let id = LayerId(bytes);
    let text = id.to_hex();
    assert_eq!(text.len(), 64);
    assert!(text.starts_with("0fa0"));
    assert_eq!(LayerId::from_hex(&text), Some(id));
    assert_eq!(LayerId::from_hex(&text.to_uppercase()), Some(id));
    assert!(id.same(&LayerId::from_hex(&text).unwrap()));
}

#[test]
fn hex_text_is_checked() {
    assert_eq!(LayerId::from_hex(""), None);
    assert_eq!(LayerId::from_hex("0fa0"), None);
    assert_eq!(LayerId::from_hex(&"0".repeat(63)), None);
    assert_eq!(LayerId::from_hex(&"0".repeat(66)), None);
    assert_eq!(LayerId::from_hex(&"g".repeat(64)), None);
    assert_eq!(LayerId::from_hex(&"é".repeat(32)), None);
    assert_eq!(LayerId::from_hex(&"0".repeat(64)), Some(LayerId([0u8; 32])));
}

#[test]
fn dataset_descriptor_bytes() {
    let desc = DatasetDesc {
        url: "https://example.org/dem".to_string(),
        projection: 1,
        resolution: 512,
        file_format: 2,
        texture_format: TextureFormat::R32F,
    };
    assert_eq!(
        desc.canonical_bytes(),
        vec![
            23, 0, 0, 0, 0, 0, 0, 0, 104, 116, 116, 112, 115, 58, 47, 47, 101, 120, 97, 109, 112,
            108, 101, 46, 111, 114, 103, 47, 100, 101, 109, 1, 0, 0, 0, 0, 2, 0, 0, 2, 0, 0, 0, 0,
            0, 0, 0
        ]
    );
    assert_eq!(desc.id().to_hex(), DEM_ID);
}

fn heights_desc(parent: LayerId, parent_name: &str) -> LayerDesc {
    LayerDesc {
        parents: vec![(parent_name.to_string(), parent)],
        resolution: 256,
        corner_registration: true,
        format: TextureFormat::R32F,
        sector_bytes: 256 * 256 * 4,
        shader: SOURCE.to_string(),
        center: CENTER.to_string(),
    }
}

#[test]
fn layer_descriptor_bytes() {
    let dem = LayerId::from_hex(DEM_ID).unwrap();
    let desc = heights_desc(dem, "dem");
    let bytes = desc.canonical_bytes();
    assert_eq!(bytes.len(), 98);
    assert_eq!(&bytes[0..8], &[1, 0, 0, 0, 0, 0, 0, 0]);
    assert_eq!(&bytes[8..40], &dem.0);
    assert_eq!(&bytes[40..44], &[0, 1, 0, 0]);
    assert_eq!(bytes[44], 1);
    assert_eq!(&bytes[45..49], &[0, 0, 0, 0]);
    assert_eq!(&bytes[49..57], &[0, 0, 4, 0, 0, 0, 0, 0]);
    assert_eq!(&bytes[57..65], &[14, 0, 0, 0, 0, 0, 0, 0]);
    assert_eq!(&bytes[65..79], SOURCE.as_bytes());
    assert_eq!(&bytes[79..87], &[11, 0, 0, 0, 0, 0, 0, 0]);
    assert_eq!(&bytes[87..98], CENTER.as_bytes());
    assert_eq!(desc.id().to_hex(), HEIGHTS_ID);
}

#[test]
fn same_descriptor_same_identity() {
    let dem = LayerId::from_hex(DEM_ID).unwrap();
    assert_eq!(heights_desc(dem, "dem").id(), heights_desc(dem, "dem").id());
}

#[test]
fn identity_ignores_the_names_of_the_parents() {
    let dem = LayerId::from_hex(DEM_ID).unwrap();
    assert_eq!(heights_desc(dem, "dem").id(), heights_desc(dem, "elevation").id());
}

#[test]
fn changed_parent_changes_identity() {
    let dem = LayerId::from_hex(DEM_ID).unwrap();
    let mut other = dem;
    other.0[31] ^= 1;
    assert_ne!(heights_desc(dem, "dem").id(), heights_desc(other, "dem").id());
    assert_ne!(
        heights_desc(dem, "dem").canonical_bytes(),
        heights_desc(other, "dem").canonical_bytes()
    );
}

#[test]
fn changed_parameter_changes_identity() {
    let dem = LayerId::from_hex(DEM_ID).unwrap();
    let mut desc = heights_desc(dem, "dem");
    desc.corner_registration = false;
    assert_ne!(desc.id(), heights_desc(dem, "dem").id());
    let mut desc = heights_desc(dem, "dem");
    desc.format = TextureFormat::Rgba8;
    assert_ne!(desc.id(), heights_desc(dem, "dem").id());
}

#[test]
fn texture_formats() {
    assert_eq!(TextureFormat::R32F.bytes_per_pixel(), 4);
    assert_eq!(TextureFormat::Rgba8.bytes_per_pixel(), 4);
    assert_eq!(TextureFormat::R32F.descriptor_tag(), 0);
    assert_eq!(TextureFormat::Rgba8.descriptor_tag(), 1);
    assert_ne!(LayerType::Heightmap, LayerType::Normalmap);
    assert_ne!(LayerType::Albedo, LayerType::Intermediate);
}

#[test]
fn find_gives_the_first_entry() {
    let entries = vec![("a".to_string(), 1), ("b".to_string(), 2), ("a".to_string(), 3)];
    assert_eq!(find(&entries, &"a".to_string()), Some(0));
    assert_eq!(find(&entries, &"b".to_string()), Some(1));
    assert_eq!(find(&entries, &"c".to_string()), None);
}

#[test]
fn parents_come_before_children() {
    let graph = graph_of(terrain());
    assert_eq!(graph.sequence, vec![2, 1, 0]);
    let hex: Vec<String> = graph.order.iter().map(|id| id.to_hex()).collect();
    assert_eq!(hex, vec![DEM_ID, HEIGHTS_ID, NORMALS_ID]);
    for (place, node) in graph.sequence.iter().enumerate() {
        if let Node::Generated { inputs, .. } = &graph.config.nodes[*node].1 {
            for (_, parent) in inputs.iter() {
                let at = find(&graph.layer_ids, parent).unwrap();
                let id = graph.layer_ids[at].1;
                assert!(graph.order[..place].contains(&id));
            }
        }
    }
}

#[test]
fn every_node_gets_its_name_and_identity() {
    let graph = graph_of(terrain());
    let named: Vec<(String, String)> =
        graph.layer_ids.iter().map(|(name, id)| (name.clone(), id.to_hex())).collect();
    assert_eq!(
        named,
        vec![
            ("normals".to_string(), NORMALS_ID.to_string()),
            ("heights".to_string(), HEIGHTS_ID.to_string()),
            ("dem".to_string(), DEM_ID.to_string()),
        ]
    );
}

#[test]
fn identity_does_not_depend_on_the_name_of_the_node() {
    let mut renamed = terrain();
    renamed.nodes[1].0 = "elevation".to_string();
    if let Node::Generated { inputs, .. } = &mut renamed.nodes[0].1 {
        inputs[1].1 = "elevation".to_string();
    }
    let a = graph_of(terrain());
    let b = graph_of(renamed);
    assert_eq!(a.order, b.order);
}

#[test]
fn layers_hold_descriptors_and_empty_caches() {
    let graph = graph_of(terrain());
    assert_eq!(graph.layers.len(), 3);
    match &graph.layers[1] {
        GraphLayer::Generated(layer) => {
            assert_eq!(layer.desc.parents.len(), 1);
            assert_eq!(layer.desc.parents[0].0, "dem");
            assert_eq!(layer.desc.parents[0].1.to_hex(), DEM_ID);
            assert_eq!(layer.desc.resolution, 256);
            assert!(layer.desc.corner_registration);
            assert_eq!(layer.desc.format, TextureFormat::R32F);
            assert_eq!(layer.desc.sector_bytes, 256 * 256 * 4);
            assert_eq!(layer.desc.shader, SOURCE);
            assert_eq!(layer.desc.center, CENTER);
            assert_eq!(layer.backing_bytes, 256 * 256 * 4 * 16);
            assert_eq!(layer.sector_cache.capacity(), 16);
            assert_eq!(layer.sector_cache.len(), 0);
            assert_eq!(layer.sector_cache.resolution(), 256);
            assert_eq!(layer.desc.id().to_hex(), HEIGHTS_ID);
        }
        GraphLayer::Dataset(_) => panic!("heights is generated"),
    }
    match &graph.layers[2] {
        GraphLayer::Dataset(dataset) => {
            assert_eq!(dataset.desc.url, "https://example.org/dem");
            assert_eq!(dataset.desc.projection, 1);
            assert_eq!(dataset.desc.resolution, 512);
            assert_eq!(dataset.desc.file_format, 2);
            assert_eq!(dataset.desc.texture_format, TextureFormat::R32F);
            assert_eq!(dataset.bib, "bib");
            assert_eq!(dataset.license, "license");
            assert_eq!(dataset.tile_cache.capacity(), 8);
            assert_eq!(dataset.tile_cache.resolution(), 512);
        }
        GraphLayer::Generated(_) => panic!("dem is a dataset"),
    }
    assert_eq!(graph.layers[0].id().to_hex(), NORMALS_ID);
}

#[test]
fn priorities_run_from_the_last_layer_to_the_first() {
    let graph = graph_of(config(vec![
        dataset("dem", "https://example.org/dem"),
        generated("a1", &[("in", "dem")], 64, false, TextureFormat::Rgba8, OutputKind::AlbedoMap),
        generated("a2", &[("in", "a1")], 64, false, TextureFormat::Rgba8, OutputKind::AlbedoMap),
        generated("h", &[("in", "dem")], 64, false, TextureFormat::R32F, OutputKind::HeightMap),
        generated("n", &[("in", "h")], 64, false, TextureFormat::Rgba8, OutputKind::NormalMap),
        generated("x", &[("in", "n")], 64, false, TextureFormat::Rgba8, OutputKind::Intermediate),
    ]));
    let id = |name: &str| graph.layer_ids[find(&graph.layer_ids, &name.to_string()).unwrap()].1;
    assert_eq!(graph.priorities.albedo, vec![id("a2"), id("a1")]);
    assert_eq!(graph.priorities.heightmap, vec![id("h")]);
    assert_eq!(graph.priorities.normalmap, vec![id("n")]);
    let place = |name: &str| graph.order.iter().position(|o| *o == id(name)).unwrap();
    assert!(place("dem") < place("a1"));
    assert!(place("a1") < place("a2"));
    assert!(place("h") < place("n"));
    assert!(place("n") < place("x"));
}

#[test]
fn invalid_center_is_refused() {
    let mut bad = terrain();
    bad.center = "not a code".to_string();
    assert_eq!(error_of(bad), GraphError::InvalidCenter);
    let mut short = terrain();
    short.center = "CWC8+R9".to_string();
    assert_eq!(error_of(short), GraphError::InvalidCenter);
}

#[test]
fn duplicate_node_is_refused() {
    let mut bad = terrain();
    bad.nodes.push(dataset("heights", "https://example.org/other"));
    assert_eq!(error_of(bad), GraphError::DuplicateNode { node: 3 });
}

#[test]
fn unknown_parent_is_refused() {
    let mut bad = terrain();
    if let Node::Generated { inputs, .. } = &mut bad.nodes[0].1 {
        inputs[1].1 = "nowhere".to_string();
    }
    assert_eq!(error_of(bad), GraphError::UnknownParent { node: 0, input: 1 });
}

#[test]
fn first_unknown_parent_is_named() {
    let mut bad = terrain();
    if let Node::Generated { inputs, .. } = &mut bad.nodes[1].1 {
        inputs[0].1 = "nowhere".to_string();
    }
    if let Node::Generated { inputs, .. } = &mut bad.nodes[0].1 {
        inputs[1].1 = "elsewhere".to_string();
    }
    assert_eq!(error_of(bad), GraphError::UnknownParent { node: 0, input: 1 });
}

#[test]
fn cycle_is_refused() {
    let bad = config(vec![
        dataset("dem", "https://example.org/dem"),
        generated("a", &[("in", "b")], 64, false, TextureFormat::R32F, OutputKind::HeightMap),
        generated("b", &[("in", "a")], 64, false, TextureFormat::R32F, OutputKind::HeightMap),
    ]);
    assert_eq!(error_of(bad), GraphError::Cycle);
    let own = config(vec![generated(
        "a",
        &[("in", "a")],
        64,
        false,
        TextureFormat::R32F,
        OutputKind::HeightMap,
    )]);
    assert_eq!(error_of(own), GraphError::Cycle);
}

#[test]
fn missing_shader_is_refused() {
    let mut bad = terrain();
    bad.shaders.clear();
    assert_eq!(error_of(bad), GraphError::MissingShader { node: 1 });
}

#[test]
fn oversized_sector_is_refused() {
    let mut bad = terrain();
    if let Node::Generated { resolution, .. } = &mut bad.nodes[0].1 {
        *resolution = 65535;
    }
    assert_eq!(error_of(bad), GraphError::SectorTooLarge { node: 0 });
    let mut fits = terrain();
    if let Node::Generated { resolution, .. } = &mut fits.nodes[0].1 {
        *resolution = 32767;
    }
    assert!(Graph::from_file(fits).is_ok());
}

#[test]
fn oversized_backing_store_is_refused() {
    let mut bad = terrain();
    bad.side_length_sectors = 4_000_000_000;
    if let Node::Generated { resolution, .. } = &mut bad.nodes[0].1 {
        *resolution = 32767;
    }
    assert_eq!(error_of(bad), GraphError::BackingTooLarge { node: 1 });
}

#[test]
fn empty_description_gives_an_empty_graph() {
    let graph = graph_of(config(vec![]));
    assert!(graph.order.is_empty());
    assert!(graph.layers.is_empty());
    assert!(graph.priorities.heightmap.is_empty());
}

#[test]
fn any_valid_order_is_accepted() {
    let nodes = || {
        config(vec![
            dataset("d1", "https://example.org/1"),
            dataset("d2", "https://example.org/2"),
            generated(
                "g",
                &[("a", "d1"), ("b", "d2")],
                64,
                false,
                TextureFormat::R32F,
                OutputKind::HeightMap,
            ),
        ])
    };
    let links = nodes().resolve().unwrap();
    assert_eq!(links, vec![vec![], vec![], vec![0, 1]]);
    assert_eq!(edges_of(&links), Some(vec![(0, 2), (1, 2)]));
    assert!(check_order(&vec![0, 1, 2], &links));
    assert!(check_order(&vec![1, 0, 2], &links));
    assert!(!check_order(&vec![0, 2, 1], &links));
    assert!(!check_order(&vec![0, 1], &links));
    assert!(!check_order(&vec![0, 1, 1], &links));
    assert!(!check_order(&vec![0, 1, 3], &links));
    let a = Graph::from_order(nodes(), links.clone(), vec![0, 1, 2]).ok().unwrap();
    let b = Graph::from_order(nodes(), links.clone(), vec![1, 0, 2]).ok().unwrap();
    assert_eq!(a.layer_ids, b.layer_ids);
    assert_eq!(a.order[2], b.order[2]);
    assert_eq!(a.order[0], b.order[1]);
    match Graph::from_order(nodes(), links, vec![2, 0, 1]) {
        Err(e) => assert_eq!(e, GraphError::Cycle),
        Ok(_) => panic!("a child came before its parent"),
    }
}
