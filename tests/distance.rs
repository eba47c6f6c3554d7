use country_tiers::fixed::SCALE;
use country_tiers::{create_similarity_matrix, euclidean_distance, DistanceError};

fn fixed(v: &[f64]) -> Vec<i64> {
    v.iter().map(|x| (x * SCALE as f64).round() as i64).collect()
}

fn as_float(units: u64) -> f64 {
    units as f64 / SCALE as f64
}

#[test]
fn test_euclidean_distance() {
    let a = fixed(&[4.0, 3.0, 2.0, 1.0]);
    let b = fixed(&[1.0, 2.0, 3.0, 4.0]);

    let distance = as_float(euclidean_distance(&a, &b).unwrap());
    let rounded = (distance * 100.0).round() / 100.0;

    assert_eq!(rounded, 4.47);
}

#[test]
fn test_create_similarity_matrix() {
    let data = vec![fixed(&[1.0, 2.0]), fixed(&[4.0, 6.0]), fixed(&[7.0, 1.0])];

    let similarity_matrix = create_similarity_matrix(&data).unwrap();

    let expected = [
        [0.0, 5.0, 6.08276253],
        [5.0, 0.0, 5.83095189],
        [6.08276253, 5.83095189, 0.0],
    ];

    assert_eq!(similarity_matrix.size(), 3, "Matrix shape mismatch: expected 3, got {}", similarity_matrix.size());

    for i in 0..3 {
        for j in 0..3 {
            let got = as_float(similarity_matrix.get(i, j));
            assert!((got - expected[i][j]).abs() <= 1e-6, "at ({}, {}): {} vs {}", i, j, got, expected[i][j]);
        }
    }

    for i in 0..3 {
        for j in 0..3 {
            assert_eq!(
                similarity_matrix.get(i, j),
                similarity_matrix.get(j, i),
                "Matrix is not symmetric at ({}, {})",
                i,
                j
            );
        }
    }
}

#[test]
fn distance_is_exact_for_whole_results() {
    let a = vec![0, 0];
    let b = vec![3 * SCALE, 4 * SCALE];
    assert_eq!(euclidean_distance(&a, &b), Ok(5 * SCALE as u64));
}

#[test]
fn distance_rounds_down() {
    // sqrt(2) units, rounded down
    assert_eq!(euclidean_distance(&vec![0, 0], &vec![1, 1]), Ok(1));
    // sqrt(20) = 4.472135954...
    assert_eq!(
        euclidean_distance(&fixed(&[4.0, 3.0, 2.0, 1.0]), &fixed(&[1.0, 2.0, 3.0, 4.0])),
        Ok(4_472_135_954)
    );
}

#[test]
fn distance_commutes_and_vanishes_on_self() {
    let a = fixed(&[0.25, -1.5, 3.0]);
    let b = fixed(&[2.0, 0.5, -0.75]);
    assert_eq!(euclidean_distance(&a, &b), euclidean_distance(&b, &a));
    assert_eq!(euclidean_distance(&a, &a), Ok(0));
    assert_eq!(euclidean_distance(&vec![], &vec![]), Ok(0));
}

#[test]
fn distance_of_extreme_values() {
    let a = vec![i64::MIN];
    let b = vec![i64::MAX];
    assert_eq!(euclidean_distance(&a, &b), Ok(u64::MAX));
}

#[test]
fn distance_refuses_unequal_lengths() {
    assert_eq!(
        euclidean_distance(&vec![1, 2], &vec![1]),
        Err(DistanceError::DimensionMismatch)
    );
}

#[test]
fn matrix_of_no_entities_is_empty() {
    let m = create_similarity_matrix(&vec![]).unwrap();
    assert_eq!(m.size(), 0);
    assert!(m.to_rows().is_empty());
}

#[test]
fn matrix_of_one_entity_is_zero() {
    let m = create_similarity_matrix(&vec![fixed(&[0.3, 0.9])]).unwrap();
    assert_eq!(m.to_rows(), vec![vec![0]]);
}

#[test]
fn matrix_is_symmetric_with_zero_diagonal() {
    let data = vec![
        fixed(&[0.1, 0.9, 0.4]),
        fixed(&[0.7, 0.2, 0.3]),
        fixed(&[0.5, 0.5, 0.5]),
        fixed(&[0.1, 0.9, 0.4]),
    ];
    let m = create_similarity_matrix(&data).unwrap();
    let rows = m.to_rows();
    assert_eq!(rows.len(), 4);
    for i in 0..4 {
        assert_eq!(rows[i].len(), 4);
        assert_eq!(rows[i][i], 0);
        for j in 0..4 {
            assert_eq!(rows[i][j], rows[j][i]);
            if i != j {
                assert_eq!(Ok(rows[i][j]), euclidean_distance(&data[i], &data[j]));
            }
        }
    }
    assert_eq!(rows[0][3], 0);
    assert!(rows[0][1] > 0);
}

#[test]
fn matrix_refuses_inconsistent_dimensions() {
    let data = vec![vec![1, 2], vec![3, 4], vec![5], vec![6]];
    assert_eq!(
        create_similarity_matrix(&data).err(),
        Some(DistanceError::InconsistentDimension { index: 2 })
    );
}
