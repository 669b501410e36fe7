use test_prioritization::builder::calculate_distances;
use test_prioritization::prio::prioritize_distances;
use test_prioritization::ratio::Ratio;

fn docs(names: &[&str]) -> Vec<String> {
    names.iter().map(|n| n.to_string()).collect()
}

fn texts(bodies: &[&str]) -> Vec<Option<String>> {
    bodies.iter().map(|b| Some(b.to_string())).collect()
}

#[test]
fn calculate_distances_single_pair() {
    let files = docs(&["a.html", "b.html"]);
    let contents = texts(&["x y", "y z"]);
    let m = calculate_distances(&files, &contents).unwrap();
    assert_eq!(m.len(), 1);
    // token sets {x, y} and {y, z}: similarity 1/3, distance 2/3
    assert!(m.entries[0].1.eq_value(Ratio { num: 2, den: 3 }));
    assert_eq!(m.entries[0].0.0, "a.html");
    assert_eq!(m.entries[0].0.1, "b.html");
}

#[test]
fn calculate_distances_counts_all_pairs() {
    let files = docs(&["a", "b", "c", "d"]);
    let contents = texts(&["w", "x", "y", "z"]);
    let m = calculate_distances(&files, &contents).unwrap();
    // 4 documents give 4 * 3 / 2 pairs, enumerated outer-inner
    assert_eq!(m.len(), 6);
    assert_eq!(m.entries[0].0, ("a".to_string(), "b".to_string()));
    assert_eq!(m.entries[1].0, ("a".to_string(), "c".to_string()));
    assert_eq!(m.entries[2].0, ("a".to_string(), "d".to_string()));
    assert_eq!(m.entries[3].0, ("b".to_string(), "c".to_string()));
    assert_eq!(m.entries[4].0, ("b".to_string(), "d".to_string()));
    assert_eq!(m.entries[5].0, ("c".to_string(), "d".to_string()));
}

#[test]
fn calculate_distances_extraction_failure_aborts() {
    let files = docs(&["a", "b", "c"]);
    let contents = vec![Some("x".to_string()), None, Some("y".to_string())];
    let err = calculate_distances(&files, &contents).unwrap_err();
    assert_eq!(err.doc, "b");
}

#[test]
fn calculate_distances_first_failure_named() {
    let files = docs(&["a", "b", "c"]);
    let contents = vec![None, Some("x".to_string()), None];
    let err = calculate_distances(&files, &contents).unwrap_err();
    assert_eq!(err.doc, "a");
}

#[test]
fn calculate_distances_fewer_than_two_documents() {
    let files = docs(&["only"]);
    let contents = texts(&["whatever"]);
    let m = calculate_distances(&files, &contents).unwrap();
    assert_eq!(m.len(), 0);
    let m = calculate_distances(&docs(&[]), &Vec::new()).unwrap();
    assert_eq!(m.len(), 0);
}

#[test]
fn pipeline_identical_and_disjoint_texts() {
    let files = docs(&["a", "b", "c"]);
    let contents = texts(&["same text", "same text", "other words"]);
    let m = calculate_distances(&files, &contents).unwrap();
    assert_eq!(m.len(), 3);
    // identical token sets: distance 0; disjoint: distance 1
    assert!(m.entries[0].1.eq_value(Ratio { num: 0, den: 1 }));
    assert!(m.entries[1].1.eq_value(Ratio { num: 1, den: 1 }));
    let prio = prioritize_distances(&m).unwrap();
    assert_eq!(prio.len(), 3);
    // seed is the first maximum-distance pair (a, c)
    assert_eq!(prio[0], "a");
    assert_eq!(prio[1], "c");
}
