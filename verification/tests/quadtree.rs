use terra::priority::Priority;
use terra::quadtree::{breadth_first, check_arena, Node, NodeId, QuadTree};
use terra::tile_cache::Fill;

fn leaf(layers: [Option<u32>; 3]) -> Node {
    Node { tile_indices: layers, children: [None; 4], priority: Priority::none(), visible: false }
}

fn parent(layers: [Option<u32>; 3], children: [u32; 4]) -> Node {
    Node {
        tile_indices: layers,
        children: [
            Some(NodeId(children[0])),
            Some(NodeId(children[1])),
            Some(NodeId(children[2])),
            Some(NodeId(children[3])),
        ],
        priority: Priority::none(),
        visible: false,
    }
}

const HEIGHTS: [Option<u32>; 3] = [Some(0), None, None];

fn family() -> Vec<Node> {
    vec![parent(HEIGHTS, [1, 2, 3, 4]), leaf(HEIGHTS), leaf(HEIGHTS), leaf(HEIGHTS), leaf(HEIGHTS)]
}

fn high() -> Priority {
    Priority::from_bits(2.0f32.to_bits()).unwrap()
}

fn low() -> Priority {
    Priority::from_bits(0.5f32.to_bits()).unwrap()
}

fn finish(tree: &mut QuadTree, fills: &[(usize, Fill)]) {
    for (layer, fill) in fills {
        assert!(tree.signal(*layer, fill.slot, fill.token));
    }
}

fn flags(tree: &QuadTree) -> Vec<bool> {
    tree.nodes().iter().map(|n| n.visible).collect()
}

#[test]
fn root_and_index() {
    assert_eq!(NodeId::root(), NodeId(0));
    assert_eq!(NodeId(7).index(), 7);
}

#[test]
fn arena_is_checked() {
    assert!(check_arena(&family()));
    assert!(!check_arena(&vec![]));
    assert!(!check_arena(&vec![parent(HEIGHTS, [1, 2, 3, 4])]));
    assert!(QuadTree::from_nodes(vec![]).is_none());
    assert!(QuadTree::from_nodes(vec![parent(HEIGHTS, [1, 2, 3, 9]), leaf(HEIGHTS)]).is_none());
    let tree = QuadTree::from_nodes(family()).unwrap();
    assert_eq!(tree.nodes().len(), 5);
    assert_eq!(tree.visible_nodes().len(), 0);
    assert_eq!(tree.cache(0).capacity(), 1024);
    assert_eq!(tree.cache(1).capacity(), 512);
    assert_eq!(tree.cache(2).capacity(), 96);
    assert_eq!(tree.cache(0).resolution(), 5);
    assert_eq!(tree.cache(1).resolution(), 512);
}

#[test]
fn walk_visits_level_by_level() {
    let mut nodes = vec![
        parent(HEIGHTS, [1, 2, 3, 4]),
        parent(HEIGHTS, [5, 6, 7, 8]),
        leaf(HEIGHTS),
        parent(HEIGHTS, [9, 10, 11, 12]),
        leaf(HEIGHTS),
    ];
    for _ in 5..13 {
        nodes.push(leaf(HEIGHTS));
    }
    let all = vec![true; 13];
    let order: Vec<u32> = breadth_first(&nodes, &all).iter().map(|id| id.0).collect();
    assert_eq!(order, vec![0, 1, 2, 3, 4, 5, 6, 7, 8, 9, 10, 11, 12]);
    let mut some = vec![true; 13];
    some[1] = false;
    let order: Vec<u32> = breadth_first(&nodes, &some).iter().map(|id| id.0).collect();
    assert_eq!(order, vec![0, 1, 2, 3, 4, 9, 10, 11, 12]);
    let none = vec![false; 13];
    let order: Vec<u32> = breadth_first(&nodes, &none).iter().map(|id| id.0).collect();
    assert_eq!(order, vec![0]);
}

#[test]
fn walk_visits_a_shared_child_once() {
    let nodes = vec![parent(HEIGHTS, [1, 1, 2, 0]), parent(HEIGHTS, [2, 2, 2, 2]), leaf(HEIGHTS)];
    let order: Vec<u32> = breadth_first(&nodes, &vec![true; 3]).iter().map(|id| id.0).collect();
    assert_eq!(order, vec![0, 1, 2]);
}

#[test]
fn urgent_nodes_demand_their_tiles() {
    let mut tree = QuadTree::from_nodes(family()).unwrap();
    let fills = tree.update(&vec![high(); 5]);
    let expected: Vec<(usize, Fill)> =
        (0..5).map(|i| (0usize, Fill { key: i as u64, slot: i, token: i as u64 })).collect();
    assert_eq!(fills, expected);
    assert_eq!(tree.visible_nodes().len(), 0);
    assert_eq!(flags(&tree), vec![false; 5]);
    assert_eq!(tree.nodes()[3].priority, high());
    let again = tree.update(&vec![high(); 5]);
    assert_eq!(again, vec![]);
}

#[test]
fn four_visible_children_replace_their_parent() {
    let mut tree = QuadTree::from_nodes(family()).unwrap();
    let fills = tree.update(&vec![high(); 5]);
    finish(&mut tree, &fills);
    tree.update(&vec![high(); 5]);
    assert_eq!(flags(&tree), vec![false, true, true, true, true]);
    assert_eq!(tree.visible_nodes(), &vec![NodeId(1), NodeId(2), NodeId(3), NodeId(4)]);
}

#[test]
fn parent_stays_while_a_child_is_missing() {
    let mut tree = QuadTree::from_nodes(family()).unwrap();
    let fills = tree.update(&vec![high(); 5]);
    finish(&mut tree, &fills[..4]);
    tree.update(&vec![high(); 5]);
    assert_eq!(flags(&tree), vec![true, true, true, true, false]);
    assert_eq!(tree.visible_nodes(), &vec![NodeId(0), NodeId(1), NodeId(2), NodeId(3)]);
}

#[test]
fn children_below_the_cutoff_are_left_out() {
    let mut tree = QuadTree::from_nodes(family()).unwrap();
    let priorities = vec![high(), low(), high(), high(), high()];
    let fills = tree.update(&priorities);
    let keys: Vec<u64> = fills.iter().map(|(_, fill)| fill.key).collect();
    assert_eq!(keys, vec![0, 2, 3, 4]);
    finish(&mut tree, &fills);
    tree.update(&priorities);
    assert_eq!(flags(&tree), vec![true, false, true, true, true]);
    assert_eq!(tree.visible_nodes(), &vec![NodeId(0), NodeId(2), NodeId(3), NodeId(4)]);
}

#[test]
fn nothing_below_a_root_under_the_cutoff() {
    let mut tree = QuadTree::from_nodes(family()).unwrap();
    let priorities = vec![low(), high(), high(), high(), high()];
    let fills = tree.update(&priorities);
    assert_eq!(fills, vec![]);
    assert_eq!(tree.visible_nodes().len(), 0);
    assert_eq!(flags(&tree), vec![false; 5]);
}

#[test]
fn node_at_the_cutoff_is_urgent() {
    let mut tree = QuadTree::from_nodes(vec![leaf(HEIGHTS)]).unwrap();
    let fills = tree.update(&vec![Priority::cutoff()]);
    assert_eq!(fills.len(), 1);
    finish(&mut tree, &fills);
    tree.update(&vec![Priority::cutoff()]);
    assert_eq!(tree.visible_nodes(), &vec![NodeId(0)]);
}

#[test]
fn every_needed_layer_must_be_resident() {
    let both = [Some(0), Some(0), None];
    let mut tree = QuadTree::from_nodes(vec![leaf(both)]).unwrap();
    let fills = tree.update(&vec![high()]);
    assert_eq!(
        fills,
        vec![(0, Fill { key: 0, slot: 0, token: 0 }), (1, Fill { key: 0, slot: 0, token: 0 })]
    );
    assert!(tree.signal(0, 0, 0));
    tree.update(&vec![high()]);
    assert_eq!(tree.visible_nodes().len(), 0);
    assert!(!tree.signal(1, 0, 5));
    assert!(tree.signal(1, 0, 0));
    tree.update(&vec![high()]);
    assert_eq!(tree.visible_nodes(), &vec![NodeId(0)]);
    assert!(tree.cache(1).contains(0));
    assert!(!tree.cache(2).contains(0));
}

#[test]
fn node_without_layers_is_visible_at_once() {
    let mut tree = QuadTree::from_nodes(vec![leaf([None; 3])]).unwrap();
    let fills = tree.update(&vec![high()]);
    assert_eq!(fills, vec![]);
    assert_eq!(tree.visible_nodes(), &vec![NodeId(0)]);
}

#[test]
fn passes_can_run_alone() {
    let mut tree = QuadTree::from_nodes(family()).unwrap();
    tree.update_priorities(&vec![high(); 5]);
    let fills = tree.update_cache();
    assert_eq!(fills.len(), 5);
    finish(&mut tree, &fills);
    tree.update_visibility();
    assert_eq!(tree.visible_nodes().len(), 4);
    tree.update_priorities(&vec![low(); 5]);
    tree.update_visibility();
    assert_eq!(tree.visible_nodes().len(), 0);
    assert_eq!(flags(&tree), vec![false; 5]);
}

#[test]
fn priority_pass_reaches_the_caches() {
    let mut tree = QuadTree::from_nodes(family()).unwrap();
    let fills = tree.update(&vec![high(); 5]);
    assert_eq!(fills.len(), 5);
    assert_eq!(tree.cache(0).priority_range(), None);
    let priorities = vec![high(), low(), high(), Priority::cutoff(), high()];
    tree.update_priorities(&priorities);
    assert_eq!(tree.cache(0).priority_range(), Some((low(), high())));
    assert_eq!(tree.cache(1).priority_range(), None);
    assert_eq!(tree.nodes()[1].priority, low());
    assert_eq!(tree.nodes()[3].priority, Priority::cutoff());
}
