use geo_types::Coord;
use h3ron::{H3Cell, Index};
use htree::{HTree, HTreeError, Node};

/// The ancestor at `res` of the finest cell that holds the point, so that the
/// cells of one point at different resolutions are nested.
fn cell_at(x: f64, y: f64, res: u8) -> H3Cell {
    H3Cell::from_coordinate(Coord { x, y }, 15)
        .unwrap()
        .get_parent(res)
        .unwrap()
}

fn tarpon_springs(res: u8) -> H3Cell {
    cell_at(-82.753822, 28.15215, res)
}

fn gulf_of_mexico(res: u8) -> H3Cell {
    cell_at(-83.101920, 28.128096, res)
}

fn paris(res: u8) -> H3Cell {
    cell_at(2.340340, 48.868680, res)
}

fn orlando(res: u8) -> H3Cell {
    cell_at(-81.379234, 28.538336, res)
}

/// Cells around Tarpon Springs at resolution 7, and one coarse cell at Orlando.
fn region_cells() -> Vec<H3Cell> {
    let mut cells: Vec<H3Cell> = tarpon_springs(7).grid_disk(1).unwrap().iter().collect();
    cells.push(orlando(5));
    cells
}

fn build(cells: &[H3Cell], root_res: u8) -> HTree {
    let mut tree = HTree::new(root_res);
    for cell in cells {
        assert_eq!(tree.insert(cell.h3index()), Ok(()));
    }
    tree
}

fn naive_contains(region: &[H3Cell], target: H3Cell) -> bool {
    region.iter().any(|cell| {
        cell.resolution() <= target.resolution()
            && target.get_parent(cell.resolution()).unwrap() == *cell
    })
}

#[test]
fn region_scenario() {
    let cells = region_cells();
    let root_res = cells.iter().map(|c| c.resolution()).min().unwrap();
    assert_eq!(root_res, 5);
    let tree = build(&cells, root_res);

    let inside = tarpon_springs(12);
    let near = gulf_of_mexico(12);
    let far = paris(12);
    assert_eq!(tree.contains(inside.h3index()), Ok(true));
    assert!(naive_contains(&cells, inside));
    assert_eq!(tree.contains(near.h3index()), Ok(false));
    assert!(!naive_contains(&cells, near));
    assert_eq!(tree.contains(far.h3index()), Ok(false));
    assert!(!naive_contains(&cells, far));
    assert_eq!(tree.contains(orlando(11).h3index()), Ok(true));
}

#[test]
fn order_of_insertion_does_not_matter() {
    let cells = region_cells();
    let mut reversed = cells.clone();
    reversed.reverse();
    let a = build(&cells, 5);
    let b = build(&reversed, 5);
    for probe in [tarpon_springs(12), gulf_of_mexico(12), paris(9), orlando(6), orlando(5)] {
        assert_eq!(a.contains(probe.h3index()), b.contains(probe.h3index()));
    }
}

#[test]
fn inserted_cell_is_contained_at_its_own_resolution() {
    let cell = tarpon_springs(7);
    let tree = build(&[cell], 7);
    assert_eq!(tree.contains(cell.h3index()), Ok(true));
    assert_eq!(tree.contains(tarpon_springs(15).h3index()), Ok(true));
}

#[test]
fn too_coarse_cells_are_refused() {
    let mut tree = HTree::new(7);
    assert_eq!(
        tree.insert(tarpon_springs(5).h3index()),
        Err(HTreeError::ResolutionTooCoarse)
    );
    assert_eq!(
        tree.contains(tarpon_springs(6).h3index()),
        Err(HTreeError::ResolutionTooCoarse)
    );
    assert_eq!(tree.contains(tarpon_springs(9).h3index()), Ok(false));
}

#[test]
fn empty_tree_contains_nothing() {
    let tree = HTree::new(0);
    assert_eq!(tree.contains(paris(0).h3index()), Ok(false));
    assert_eq!(tree.contains(paris(15).h3index()), Ok(false));
}

#[test]
fn query_of_a_refined_node_is_refused() {
    let tree = build(&[tarpon_springs(9)], 7);
    assert_eq!(
        tree.contains(tarpon_springs(7).h3index()),
        Err(HTreeError::ExactMatchQueriedOnRefinedNode)
    );
    assert_eq!(
        tree.contains(tarpon_springs(8).h3index()),
        Err(HTreeError::ExactMatchQueriedOnRefinedNode)
    );
    assert_eq!(tree.contains(tarpon_springs(9).h3index()), Ok(true));
    assert_eq!(tree.contains(tarpon_springs(10).h3index()), Ok(true));
}

#[test]
fn inserting_a_node_cell_coalesces_it() {
    let fine = tarpon_springs(9);
    let sibling_area = fine.get_parent(8).unwrap().get_children(9).unwrap();
    let sibling = sibling_area.iter().find(|c| *c != fine).unwrap();
    let mut tree = build(&[fine], 7);
    assert_eq!(tree.contains(sibling.h3index()), Ok(false));
    assert_eq!(tree.insert(tarpon_springs(8).h3index()), Ok(()));
    assert_eq!(tree.contains(sibling.h3index()), Ok(true));
    assert_eq!(tree.contains(tarpon_springs(8).h3index()), Ok(true));
    assert_eq!(tree.contains(tarpon_springs(7).h3index()), Err(HTreeError::ExactMatchQueriedOnRefinedNode));
}

#[test]
fn inserting_twice_is_inserting_once() {
    let cells = region_cells();
    let once = build(&cells, 5);
    let mut twice_cells = cells.clone();
    twice_cells.extend(cells.iter().copied());
    let twice = build(&twice_cells, 5);
    for probe in [tarpon_springs(12), gulf_of_mexico(12), orlando(9), tarpon_springs(7)] {
        assert_eq!(once.contains(probe.h3index()), twice.contains(probe.h3index()));
    }
}

#[test]
fn finer_cell_inside_a_leaf_replaces_it() {
    // A leaf that gets a finer cell below it is refined to that cell.
    let coarse = tarpon_springs(7);
    let fine = tarpon_springs(9);
    let other = fine.get_parent(8).unwrap().get_children(9).unwrap().iter().find(|c| *c != fine).unwrap();
    let tree = build(&[coarse, fine], 7);
    assert_eq!(tree.contains(fine.h3index()), Ok(true));
    assert_eq!(tree.contains(other.h3index()), Ok(false));
    let tree = build(&[fine, coarse], 7);
    assert_eq!(tree.contains(other.h3index()), Ok(true));
}

#[test]
fn node_reports_its_resolution() {
    assert_eq!(Node::new(tarpon_springs(7).h3index()).resolution(), 7);
    assert_eq!(Node::new(paris(0).h3index()).resolution(), 0);
    assert_eq!(Node::new(paris(15).h3index()).resolution(), 15);
}

#[test]
fn node_insert_and_contains() {
    let mut node = Node::new(tarpon_springs(6).h3index());
    node.insert(tarpon_springs(10).h3index());
    assert_eq!(node.contains(tarpon_springs(12).h3index()), Ok(true));
    assert_eq!(node.contains(gulf_of_mexico(12).h3index()), Ok(false));
    assert_eq!(node.contains(paris(12).h3index()), Ok(false));
    assert_eq!(
        node.contains(tarpon_springs(8).h3index()),
        Err(HTreeError::ExactMatchQueriedOnRefinedNode)
    );
    node.insert(tarpon_springs(6).h3index());
    assert_eq!(node.contains(tarpon_springs(8).h3index()), Ok(true));
}

#[test]
fn leaf_node_contains_its_area() {
    let node = Node::new(orlando(5).h3index());
    assert_eq!(node.contains(orlando(5).h3index()), Ok(true));
    assert_eq!(node.contains(orlando(13).h3index()), Ok(true));
    assert_eq!(node.contains(paris(13).h3index()), Ok(false));
}
