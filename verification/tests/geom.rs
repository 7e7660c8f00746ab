use sticker_packer::geom::{glue_faces, merge_faces, pairwise_reduce};

#[test]
fn two_triangles_glue_into_a_quad() {
    // (0,1,2) and (2,1,3) share the edge 1-2 (run backwards by the second)
    assert_eq!(glue_faces(&[0, 1, 2], &[2, 1, 3]), Some(vec![2, 0, 1, 3]));
}

#[test]
fn glue_uses_the_first_shared_edge() {
    // fi's edges in order: 4->5, 5->6, 6->7, 7->4; fj runs 6->5 backwards
    assert_eq!(glue_faces(&[4, 5, 6, 7], &[6, 5, 9]), Some(vec![6, 7, 4, 5, 9]));
}

#[test]
fn faces_without_a_shared_edge_do_not_glue() {
    assert_eq!(glue_faces(&[0, 1, 2], &[3, 4, 5]), None);
    // same edge in the same direction is not shared by consistently oriented faces
    assert_eq!(glue_faces(&[0, 1, 2], &[0, 1, 3]), None);
    assert_eq!(glue_faces(&[], &[0, 1]), None);
}

#[test]
fn glue_with_a_two_vertex_face_keeps_the_first() {
    assert_eq!(glue_faces(&[0, 1, 2], &[1, 0]), Some(vec![1, 2, 0]));
}

#[test]
fn two_triangles_of_a_square_merge_into_one_piece() {
    let faces = vec![vec![0, 1, 2], vec![0, 2, 3]];
    assert_eq!(merge_faces(faces, |_m: &Vec<usize>| true), vec![vec![0, 1, 2, 3]]);
}

#[test]
fn nothing_merges_when_the_test_refuses_everything() {
    let faces = vec![vec![0, 1, 2], vec![0, 2, 3], vec![0, 3, 4]];
    assert_eq!(merge_faces(faces.clone(), |_m: &Vec<usize>| false), faces);
}

#[test]
fn a_fan_merges_until_the_test_refuses() {
    // a fan of three triangles around vertex 0; only rings of at most four corners pass
    let faces = vec![vec![0, 1, 2], vec![0, 2, 3], vec![0, 3, 4]];
    let r = merge_faces(faces, |m: &Vec<usize>| m.len() <= 4);
    assert_eq!(r, vec![vec![0, 1, 2, 3], vec![0, 3, 4]]);
    // the triangle count (corners - 2, summed) and the corner set are kept
    assert_eq!(r.iter().map(|f| f.len() - 2).sum::<usize>(), 3);
}

#[test]
fn a_whole_fan_merges_into_one_piece() {
    let faces = vec![vec![0, 1, 2], vec![0, 2, 3], vec![0, 3, 4]];
    assert_eq!(merge_faces(faces, |_m: &Vec<usize>| true), vec![vec![0, 1, 2, 3, 4]]);
}

#[test]
fn faces_without_shared_edges_stay_apart() {
    let faces = vec![vec![0, 1, 2], vec![3, 4, 5]];
    assert_eq!(merge_faces(faces.clone(), |_m: &Vec<usize>| true), faces);
}

#[test]
fn merging_prefers_the_earliest_pair() {
    // face 0 shares an edge with both face 1 and face 2; it is glued to face 1 first
    let faces = vec![vec![0, 1, 2], vec![2, 1, 3], vec![0, 2, 4]];
    let r = merge_faces(faces, |m: &Vec<usize>| m.len() <= 4);
    assert_eq!(r, vec![vec![2, 0, 1, 3], vec![0, 2, 4]]);
}

#[test]
fn pairwise_reduce_of_nothing_is_none() {
    assert_eq!(pairwise_reduce(Vec::<u32>::new(), |a: u32, b: u32| a + b), None);
}

#[test]
fn pairwise_reduce_of_one_item_is_that_item() {
    assert_eq!(pairwise_reduce(vec![7u32], |a: u32, b: u32| a + b), Some(7));
}

#[test]
fn pairwise_reduce_pairs_neighbours_round_by_round() {
    // rounds: [a b c d e] -> [(ab) (cd) e] -> [((ab)(cd)) e] -> [(((ab)(cd))e)]
    let items: Vec<String> = ["a", "b", "c", "d", "e"].iter().map(|s| s.to_string()).collect();
    let r = pairwise_reduce(items, |a: String, b: String| format!("({a}{b})"));
    assert_eq!(r, Some("(((ab)(cd))e)".to_string()));
}

#[test]
fn pairwise_reduce_with_an_associative_join_is_the_plain_fold() {
    let items: Vec<u64> = (1..=11).collect();
    assert_eq!(pairwise_reduce(items, |a: u64, b: u64| a + b), Some(66));
    let sets: Vec<u32> = vec![0b0001, 0b0100, 0b0010, 0b1000, 0b0001];
    assert_eq!(pairwise_reduce(sets, |a: u32, b: u32| a | b), Some(0b1111));
}
