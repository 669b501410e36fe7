use test_prioritization::matrix::DistanceMatrix;
use test_prioritization::prio::prioritize_distances;
use test_prioritization::prio::SelectError;
use test_prioritization::ratio::Ratio;

fn hundredths(n: u64) -> Ratio {
    Ratio { num: n, den: 100 }
}

fn push(m: &mut DistanceMatrix, a: &str, b: &str, cents: u64) {
    m.push(a.to_string(), b.to_string(), hundredths(cents));
}

#[test]
fn prioritize_distances_valid() {
    let mut distances = DistanceMatrix::new();
    push(&mut distances, "tc1", "tc2", 57);
    push(&mut distances, "tc1", "tc3", 78);
    push(&mut distances, "tc1", "tc4", 80);
    push(&mut distances, "tc1", "tc5", 78);
    push(&mut distances, "tc2", "tc3", 75);
    push(&mut distances, "tc2", "tc4", 77);
    push(&mut distances, "tc2", "tc5", 75);
    push(&mut distances, "tc3", "tc4", 37);
    push(&mut distances, "tc3", "tc5", 69);
    push(&mut distances, "tc4", "tc5", 80);

    let prio = prioritize_distances(&distances).unwrap();

    let expected: Vec<String> = ["tc1", "tc4", "tc5", "tc2", "tc3"]
        .iter()
        .map(|x| x.to_string())
        .collect();
    assert_eq!(prio, expected);
}

#[test]
fn prioritize_distances_deterministic() {
    let mut distances = DistanceMatrix::new();
    push(&mut distances, "a", "b", 50);
    push(&mut distances, "a", "c", 50);
    push(&mut distances, "b", "c", 50);
    let first = prioritize_distances(&distances).unwrap();
    let second = prioritize_distances(&distances).unwrap();
    assert_eq!(first, second);
}

#[test]
fn prioritize_distances_empty_matrix_fails() {
    let distances = DistanceMatrix::new();
    let err = prioritize_distances(&distances).unwrap_err();
    assert_eq!(err, SelectError::EmptyMatrix);
}

#[test]
fn prioritize_seed_tie_break_first_wins() {
    // two pairs share the maximum distance; the first in matrix order seeds
    let mut distances = DistanceMatrix::new();
    push(&mut distances, "a", "b", 80);
    push(&mut distances, "a", "c", 80);
    push(&mut distances, "b", "c", 50);
    let prio = prioritize_distances(&distances).unwrap();
    assert_eq!(prio[0], "a");
    assert_eq!(prio[1], "b");
    assert_eq!(prio.len(), 3);
}

#[test]
fn prioritize_covers_all_documents() {
    let mut distances = DistanceMatrix::new();
    push(&mut distances, "a", "b", 10);
    push(&mut distances, "a", "c", 20);
    push(&mut distances, "a", "d", 30);
    push(&mut distances, "b", "c", 40);
    push(&mut distances, "b", "d", 50);
    push(&mut distances, "c", "d", 60);
    let prio = prioritize_distances(&distances).unwrap();
    assert_eq!(prio.len(), 4);
    for doc in ["a", "b", "c", "d"] {
        assert!(prio.iter().filter(|p| p.as_str() == doc).count() == 1);
    }
}

#[test]
fn prioritize_two_documents() {
    let mut distances = DistanceMatrix::new();
    push(&mut distances, "x", "y", 42);
    let prio = prioritize_distances(&distances).unwrap();
    let expected: Vec<String> = vec!["x".to_string(), "y".to_string()];
    assert_eq!(prio, expected);
}
