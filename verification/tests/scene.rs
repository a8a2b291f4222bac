use path_tracer::scalar::order_key;
use path_tracer::scene::nearest;

fn keys(hits: &[Option<f64>]) -> Vec<Option<u64>> {
    hits.iter().map(|h| h.map(|t| order_key(t.to_bits()))).collect()
}

#[test]
fn an_empty_scene_is_never_hit() {
    assert_eq!(nearest(&Vec::new()), None);
}

#[test]
fn a_ray_that_misses_everything() {
    assert_eq!(nearest(&vec![None, None, None]), None);
}

#[test]
fn a_single_hit_is_the_nearest() {
    assert_eq!(nearest(&vec![Some(7)]), Some(0));
    assert_eq!(nearest(&vec![None, None, Some(7), None]), Some(2));
}

#[test]
fn the_smallest_key_wins() {
    assert_eq!(nearest(&vec![Some(30), Some(10), Some(20)]), Some(1));
    assert_eq!(nearest(&vec![Some(10), Some(20), Some(30)]), Some(0));
    assert_eq!(nearest(&vec![Some(30), Some(20), Some(10)]), Some(2));
    assert_eq!(nearest(&vec![None, Some(30), None, Some(20), Some(25)]), Some(3));
}

#[test]
fn of_equal_keys_the_first_wins() {
    assert_eq!(nearest(&vec![Some(5), Some(5), Some(5)]), Some(0));
    assert_eq!(nearest(&vec![Some(9), Some(5), None, Some(5)]), Some(1));
}

#[test]
fn the_extreme_keys_are_told_apart() {
    assert_eq!(nearest(&vec![Some(u64::MAX), Some(0)]), Some(1));
    assert_eq!(nearest(&vec![Some(0), Some(u64::MAX)]), Some(0));
    assert_eq!(nearest(&vec![Some(u64::MAX)]), Some(0));
    assert_eq!(nearest(&vec![None, Some(0)]), Some(1));
}

#[test]
fn the_small_sphere_hides_the_ground_behind_it() {
    let hits = keys(&[Some(0.5), Some(100.0)]);
    assert_eq!(nearest(&hits), Some(0));
    let hits = keys(&[Some(100.0), Some(0.5)]);
    assert_eq!(nearest(&hits), Some(1));
}

#[test]
fn nearest_among_distances_along_a_ray() {
    let hits = keys(&[Some(12.75), None, Some(0.001), Some(3.5), None, Some(0.0011)]);
    assert_eq!(nearest(&hits), Some(2));
}

#[test]
fn nearest_agrees_with_a_fold_over_the_distances() {
    let distances = [Some(4.0), None, Some(2.5), Some(9.0), Some(2.5), None, Some(7.0), Some(1e-3)];
    for end in 0..=distances.len() {
        let part = &distances[..end];
        let mut expected: Option<usize> = None;
        for (i, hit) in part.iter().enumerate() {
            if let Some(t) = hit {
                match expected {
                    Some(j) if part[j].unwrap() <= *t => {}
                    _ => expected = Some(i),
                }
            }
        }
        assert_eq!(nearest(&keys(part)), expected);
    }
}

#[test]
fn the_order_of_the_objects_does_not_change_the_distance() {
    let orders = [
        vec![Some(40), Some(15), None, Some(90)],
        vec![Some(90), None, Some(40), Some(15)],
        vec![None, Some(15), Some(90), Some(40)],
        vec![Some(15), Some(40), Some(90), None],
    ];
    for hits in orders {
        let index = nearest(&hits).unwrap();
        assert_eq!(hits[index], Some(15));
    }
}
