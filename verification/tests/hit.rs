use raytracer::hit::{first_occluder, nearest_hit};

#[test]
fn nearest_of_nothing_is_none() {
    assert_eq!(nearest_hit(&vec![]), None);
    assert_eq!(nearest_hit(&vec![None, None, None]), None);
}

#[test]
fn nearest_picks_the_smallest_distance() {
    let hits = vec![Some(50u32), None, Some(20), Some(30)];
    assert_eq!(nearest_hit(&hits), Some(2));
}

#[test]
fn nearest_keeps_the_first_on_a_tie() {
    let hits = vec![None, Some(7u32), Some(7), Some(9)];
    assert_eq!(nearest_hit(&hits), Some(1));
}

#[test]
fn nearest_with_one_hit() {
    let hits = vec![None, None, Some(u32::MAX)];
    assert_eq!(nearest_hit(&hits), Some(2));
}

#[test]
fn nearest_last_is_smallest() {
    let hits = vec![Some(3u32), Some(2), Some(1), Some(0)];
    assert_eq!(nearest_hit(&hits), Some(3));
}

#[test]
fn nearest_agrees_with_distance_order_of_floats() {
    // Distances are handed over as the bits of non-negative f32 values.
    let d = [2.5f32, 0.75, 10.0, 0.7500001];
    let hits: Vec<Option<u32>> = d.iter().map(|x| Some(x.to_bits())).collect();
    assert_eq!(nearest_hit(&hits), Some(1));
}

#[test]
fn grouped_search_matches_flat_search() {
    // Three objects with several faces each: nearest per object, then across
    // objects, finds the same face as one search over every face.
    let groups: Vec<Vec<Option<u32>>> = vec![
        vec![None, Some(40), Some(35)],
        vec![Some(12), None],
        vec![None, None],
        vec![Some(12), Some(11), Some(30)],
    ];
    let flat: Vec<Option<u32>> = groups.iter().flatten().cloned().collect();
    let per_group: Vec<Option<u32>> = groups
        .iter()
        .map(|g| nearest_hit(g).map(|i| g[i].unwrap()))
        .collect();
    let g = nearest_hit(&per_group).unwrap();
    let offset: usize = groups[..g].iter().map(|h| h.len()).sum();
    let face = nearest_hit(&groups[g]).unwrap();
    assert_eq!(nearest_hit(&flat), Some(offset + face));
    assert_eq!(nearest_hit(&flat), Some(8));
}

#[test]
fn no_occluder_when_nothing_is_hit() {
    assert_eq!(first_occluder(&vec![None, None], 10), None);
    assert_eq!(first_occluder(&vec![], 10), None);
}

#[test]
fn occluder_must_be_strictly_nearer_than_the_light() {
    assert_eq!(first_occluder(&vec![Some(10u32), Some(11)], 10), None);
    assert_eq!(first_occluder(&vec![Some(10u32), Some(9)], 10), Some(1));
}

#[test]
fn first_occluder_in_order_not_the_nearest() {
    let hits = vec![None, Some(8u32), Some(2), Some(20)];
    assert_eq!(first_occluder(&hits, 10), Some(1));
}

#[test]
fn occluder_with_light_at_zero_distance() {
    assert_eq!(first_occluder(&vec![Some(0u32)], 0), None);
}
