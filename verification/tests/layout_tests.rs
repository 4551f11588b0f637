use rtow::bvh::{nodes_needed, BvhChild, BvhNode};
use rtow::chapters::{rtow_improvements, rtow_tnw_fns, Chapters1_7, Chapters8_X, Render};
use rtow::lights::LightType;
use rtow::pixels::{
    average_steps, next_pixel, pixel_index, scanline_groups, scanline_order, tile_indices,
    PixelGrid,
};

fn leaves(node: &BvhNode, out: &mut Vec<usize>) {
    for child in [&node.left_ch, &node.right_ch] {
        match child {
            BvhChild::Object(id) => out.push(*id),
            BvhChild::Node(n) => leaves(n, out),
        }
    }
}

fn count_nodes(node: &BvhNode) -> i32 {
    let mut n = 1;
    for child in [&node.left_ch, &node.right_ch] {
        if let BvhChild::Node(inner) = child {
            n += count_nodes(inner);
        }
    }
    n
}

#[test]
fn bvh_single_object_fills_both_sides() {
    let mut objs = vec![(5u64, 42usize)];
    let mut num_nodes = 0;
    let node = BvhNode::new(&mut objs, &mut num_nodes);
    assert!(matches!(node.left_ch, BvhChild::Object(42)));
    assert!(matches!(node.right_ch, BvhChild::Object(42)));
    assert_eq!(num_nodes, 1);
}

#[test]
fn bvh_two_objects_ordered_by_key() {
    let mut num_nodes = 0;
    let mut objs = vec![(1u64, 0usize), (2, 1)];
    let node = BvhNode::new(&mut objs, &mut num_nodes);
    assert!(matches!((&node.left_ch, &node.right_ch), (BvhChild::Object(0), BvhChild::Object(1))));
    let mut objs = vec![(2u64, 0usize), (1, 1)];
    let node = BvhNode::new(&mut objs, &mut num_nodes);
    assert!(matches!((&node.left_ch, &node.right_ch), (BvhChild::Object(1), BvhChild::Object(0))));
    // equal keys: the first object is not strictly smaller, so it goes right
    let mut objs = vec![(3u64, 0usize), (3, 1)];
    let node = BvhNode::new(&mut objs, &mut num_nodes);
    assert!(matches!((&node.left_ch, &node.right_ch), (BvhChild::Object(1), BvhChild::Object(0))));
    assert_eq!(objs, vec![(3, 0), (3, 1)]);
    assert_eq!(num_nodes, 3);
}

#[test]
fn bvh_sorts_and_splits_at_the_middle() {
    let mut objs = vec![(50u64, 0usize), (10, 1), (40, 2), (20, 3), (30, 4)];
    let mut num_nodes = 7;
    let node = BvhNode::new(&mut objs, &mut num_nodes);
    assert_eq!(objs, vec![(10, 1), (20, 3), (30, 4), (40, 2), (50, 0)]);
    let mut ids = Vec::new();
    leaves(&node, &mut ids);
    // left half (2 objects), right half (3 objects: 1 then 2)
    assert_eq!(ids, vec![1, 3, 4, 4, 2, 0]);
    assert_eq!(num_nodes, 7 + 5);
    assert_eq!(count_nodes(&node), 5);
}

#[test]
fn bvh_reaches_every_object() {
    let mut objs: Vec<(u64, usize)> = (0..100).map(|i| (((i * 37) % 101) as u64, i)).collect();
    let mut num_nodes = 0;
    let node = BvhNode::new(&mut objs, &mut num_nodes);
    let mut ids = Vec::new();
    leaves(&node, &mut ids);
    ids.sort();
    ids.dedup();
    assert_eq!(ids, (0..100).collect::<Vec<usize>>());
    assert_eq!(num_nodes, count_nodes(&node));
    assert!(objs.windows(2).all(|w| w[0].0 <= w[1].0));
}

#[test]
fn pixel_indices_top_row_first() {
    assert_eq!(pixel_index(4, 3, 2, 0), 0);
    assert_eq!(pixel_index(4, 3, 2, 3), 3);
    assert_eq!(pixel_index(4, 3, 1, 0), 4);
    assert_eq!(pixel_index(4, 3, 0, 3), 11);
    assert_eq!(pixel_index(1200, 675, 674, 0), 0);
}

#[test]
fn scanline_order_follows_pixel_index() {
    let order = scanline_order(4, 3);
    assert_eq!(order.len(), 12);
    assert_eq!(order[0], (2, 0));
    assert_eq!(order[5], (1, 1));
    assert_eq!(order[11], (0, 3));
    for (k, &(i, j)) in order.iter().enumerate() {
        assert_eq!(pixel_index(4, 3, i, j), k);
    }
    assert!(scanline_order(0, 5).is_empty());
}

#[test]
fn scanline_groups_hold_two_rows() {
    let groups = scanline_groups(2, 5);
    assert_eq!(groups.len(), 5);
    assert_eq!(groups[0], vec![(1, 0), (1, 1), (0, 0), (0, 1)]);
    assert_eq!(groups[1], vec![(3, 0), (3, 1), (2, 0), (2, 1)]);
    assert_eq!(groups[2], vec![(4, 0), (4, 1)]);
    assert!(groups[3].is_empty());
    assert!(groups[4].is_empty());
    let groups = scanline_groups(3, 1);
    assert_eq!(groups, vec![vec![(0, 0), (0, 1), (0, 2)]]);
    assert!(scanline_groups(3, -4).is_empty());
    let groups = scanline_groups(-2, 3);
    assert_eq!(groups.len(), 3);
    assert!(groups.iter().all(|g| g.is_empty()));
}

#[test]
fn walk_moves_along_rows() {
    assert_eq!(next_pixel(5, 0, 3), (5, 1));
    assert_eq!(next_pixel(5, 2, 3), (4, 0));
    // starting at (height, 0) as the volume renderer does
    let (mut i, mut j) = (4, 0);
    for _ in 0..7 {
        let next = next_pixel(i, j, 3);
        i = next.0;
        j = next.1;
    }
    assert_eq!((i, j), (4 - 7 / 3, 7 % 3));
}

#[test]
fn pixel_grid_collects_every_pixel() {
    let mut grid = PixelGrid::new(4, 0u8);
    assert!(grid.waiting());
    for (idx, col) in [(2usize, 7u8), (0, 1), (3, 9), (1, 4)] {
        grid.receive(idx, col);
    }
    assert!(!grid.waiting());
    assert_eq!(grid.into_pixels(), vec![1, 4, 7, 9]);
}

#[test]
fn average_steps_rounds_toward_zero() {
    assert_eq!(average_steps(&vec![3, 4, 5]), 4);
    assert_eq!(average_steps(&vec![1, 2]), 1);
    assert_eq!(average_steps(&vec![-1, -2]), -1);
    assert_eq!(average_steps(&vec![10]), 10);
}

#[test]
fn tile_covers_its_block() {
    // A 600x600 image in tiles of 200 pixels: 14 columns wide, 14 rows high.
    let (gw, gh, gpw) = (14, 200 / 14, 600 / 14);
    let tile = tile_indices(1, 0, gw, gh, gpw, 600, 600);
    // rows 14 down to 0, columns 14..28
    assert_eq!(tile.len(), 15 * 14);
    assert_eq!(tile[0], 14 + 14 * 600);
    assert_eq!(tile[13], 27 + 14 * 600);
    assert_eq!(tile[14], 14 + 13 * 600);
    assert_eq!(*tile.last().unwrap(), 27);
    // the last tile row sits on the image's top edge: row 600 is kept, 601 and 602 skipped
    let tile = tile_indices(1800, 42, gw, gh, gpw, 600, 600);
    assert_eq!(tile.len(), 13 * 14);
    assert_eq!(tile[0], -84 + 600 * 600);
    // columns past the right edge are skipped
    let tile = tile_indices(42, 0, gw, gh, gpw, 600, 600);
    assert_eq!(tile.len(), 15 * 12);
    assert_eq!(tile[0], 588 + 14 * 600);
}

#[test]
fn only_point_lights_are_hit() {
    assert!(LightType::Point.is_hittable());
    assert!(!LightType::Directional.is_hittable());
    assert!(!LightType::Spotlight.is_hittable());
}

#[test]
fn default_material_never_scatters() {
    assert!(!rtow::materials::Default {}.scatter());
}

#[test]
fn chapter_entry_points() {
    assert!(Chapters1_7().is_empty());
    assert!(matches!(Chapters8_X().as_slice(), [Render::OutputMaterialsRefract]));
    assert!(matches!(rtow_improvements().as_slice(), [Render::ShadowRays]));
    assert!(matches!(rtow_tnw_fns().as_slice(), [Render::TextureMap]));
}

#[test]
fn chunked_groups_written_in_reverse_give_output_order() {
    for (w, h) in [(3, 5), (4, 4), (1, 1), (2, 7)] {
        let groups = scanline_groups(w, h);
        let written: Vec<(i32, i32)> = groups.iter().rev().flatten().copied().collect();
        assert_eq!(written, scanline_order(w, h));
    }
}

#[test]
fn nodes_needed_counts_the_built_nodes() {
    assert_eq!(nodes_needed(1), 1);
    assert_eq!(nodes_needed(2), 1);
    assert_eq!(nodes_needed(3), 3);
    assert_eq!(nodes_needed(5), 5);
    for n in 1..40usize {
        let mut objs: Vec<(u64, usize)> = (0..n).map(|i| (((i * 7) % 5) as u64, i)).collect();
        let mut counter = 3;
        let node = BvhNode::new(&mut objs, &mut counter);
        assert_eq!((counter - 3) as u64, nodes_needed(n as u64));
        assert_eq!(count_nodes(&node), counter - 3);
    }
}
