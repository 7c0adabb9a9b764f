use linear_algebra::knn::nearest_groups;
use linear_algebra::nearest::select_nearest;
use linear_algebra::tally::{elect, group_labels, heaviest, LabelGroup};

fn keys_of(distances: &[f64]) -> Vec<u64> {
    distances.iter().map(|d| d.to_bits()).collect()
}

fn labels_of(names: &[&str]) -> Vec<String> {
    names.iter().map(|s| s.to_string()).collect()
}

fn distance(a: &[f64], b: &[f64]) -> f64 {
    a.iter().zip(b.iter()).map(|(x, y)| (x - y).powi(2)).sum::<f64>().sqrt()
}

/// Weighted vote as a caller runs it: `1 / d` per retained sample, a zero
/// distance weighing as one.
fn vote(k: usize, labels: &[&str], distances: &[f64]) -> Option<String> {
    let labels = labels_of(labels);
    let groups = nearest_groups(k, &labels, &keys_of(distances));
    let totals: Vec<u64> = groups
        .iter()
        .map(|g| {
            g.members
                .iter()
                .map(|&i| if distances[i] != 0.0 { 1.0 / distances[i] } else { 1.0 })
                .sum::<f64>()
                .to_bits()
        })
        .collect();
    elect(&groups, &totals)
}

#[test]
fn empty_input_selects_nothing() {
    for k in [0usize, 1, 3, 100] {
        assert!(select_nearest(k, &Vec::new()).is_empty());
        assert!(nearest_groups(k, &Vec::new(), &Vec::new()).is_empty());
        assert_eq!(vote(k, &[], &[]), None);
    }
    assert_eq!(heaviest(&Vec::new()), None);
    assert_eq!(elect(&Vec::new(), &Vec::new()), None);
}

#[test]
fn fewer_samples_than_k_all_take_part() {
    let keys = keys_of(&[2.0, 1.0, 7.5]);
    assert_eq!(select_nearest(5, &keys), vec![0, 1, 2]);
    assert_eq!(select_nearest(3, &keys), vec![0, 1, 2]);
    let groups = nearest_groups(5, &labels_of(&["a", "b", "a"]), &keys);
    assert_eq!(groups.len(), 2);
    assert_eq!(groups[0].label, "a");
    assert_eq!(groups[0].members, vec![0, 2]);
    assert_eq!(groups[1].label, "b");
    assert_eq!(groups[1].members, vec![1]);
}

#[test]
fn bounded_set_evicts_farthest() {
    let keys = keys_of(&[5.0, 3.0, 8.0, 1.0, 9.0]);
    assert_eq!(select_nearest(2, &keys), vec![1, 3]);
    assert_eq!(select_nearest(1, &keys), vec![3]);
    assert_eq!(select_nearest(4, &keys), vec![0, 1, 2, 3]);
}

#[test]
fn tie_with_farthest_does_not_evict() {
    let keys = keys_of(&[5.0, 3.0, 8.0, 1.0, 9.0, 3.0]);
    assert_eq!(select_nearest(2, &keys), vec![1, 3]);
    let keys = keys_of(&[5.0, 5.0, 3.0]);
    assert_eq!(select_nearest(2, &keys), vec![0, 2]);
    let keys = keys_of(&[4.0, 4.0, 4.0, 4.0]);
    assert_eq!(select_nearest(2, &keys), vec![0, 1]);
}

#[test]
fn zero_k_selects_nothing() {
    assert!(select_nearest(0, &keys_of(&[1.0, 2.0])).is_empty());
}

#[test]
fn closer_weights_win_the_vote() {
    assert_eq!(vote(3, &["A", "A", "B"], &[2.0, 4.0, 1.0]), Some("B".to_string()));
    assert_eq!(vote(3, &["A", "A", "B"], &[2.0, 2.0, 1.5]), Some("A".to_string()));
}

#[test]
fn zero_distance_weighs_as_one() {
    assert_eq!(vote(2, &["A", "B"], &[0.0, 1.0]), Some("A".to_string()));
    assert_eq!(vote(2, &["B", "A"], &[1.0, 0.0]), Some("B".to_string()));
    assert_eq!(vote(2, &["A", "B"], &[0.0, 0.9]), Some("B".to_string()));
}

#[test]
fn film_genres_nearest_one() {
    let samples: [(&str, [f64; 6]); 5] = [
        ("action", [1.0, 3.0, 5.0, 3.0, 4.0, 2.0]),
        ("horror", [5.0, 1.0, 1.0, 2.0, 5.0, 2.0]),
        ("comedy", [2.0, 2.0, 3.0, 3.0, 2.0, 2.0]),
        ("action", [1.0, 1.0, 4.0, 5.0, 5.0, 2.0]),
        ("comedy", [3.0, 3.0, 2.0, 4.0, 1.0, 2.0]),
    ];
    let query = [4.0, 3.0, 4.0, 2.0, 1.0, 2.0];
    let labels: Vec<&str> = samples.iter().map(|s| s.0).collect();
    let distances: Vec<f64> = samples.iter().map(|s| distance(&s.1, &query)).collect();
    assert_eq!(select_nearest(1, &keys_of(&distances)), vec![2]);
    assert_eq!(vote(1, &labels, &distances), Some("comedy".to_string()));
    assert_eq!(vote(2, &labels, &distances), Some("comedy".to_string()));
}

#[test]
fn groups_in_first_seen_order() {
    let labels = labels_of(&["x", "y", "x", "z"]);
    let groups = group_labels(&labels, &vec![3, 0, 2]);
    assert_eq!(groups.len(), 2);
    assert_eq!(groups[0].label, "z");
    assert_eq!(groups[0].members, vec![3]);
    assert_eq!(groups[1].label, "x");
    assert_eq!(groups[1].members, vec![0, 2]);
    assert!(group_labels(&labels, &Vec::new()).is_empty());
}

#[test]
fn heaviest_takes_first_of_equal() {
    assert_eq!(heaviest(&vec![3, 7, 7, 1]), Some(1));
    assert_eq!(heaviest(&vec![9]), Some(0));
    assert_eq!(heaviest(&vec![1, 2, 3]), Some(2));
}

#[test]
fn elect_returns_heaviest_label() {
    let groups = vec![
        LabelGroup { label: "p".to_string(), members: vec![0] },
        LabelGroup { label: "q".to_string(), members: vec![1] },
        LabelGroup { label: "r".to_string(), members: vec![2] },
    ];
    assert_eq!(elect(&groups, &vec![4, 6, 6]), Some("q".to_string()));
    assert_eq!(elect(&groups, &vec![8, 6, 6]), Some("p".to_string()));
}
