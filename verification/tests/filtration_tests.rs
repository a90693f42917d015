use filtration::filtration::FiltrationError;
use filtration::simplicial_complex::{is_sorted, SimplicialComplex, VecComplex};
use filtration::{BiGrade, CriticalGrade, Filtration, SingleCollapser};

type ScalarFiltration = Filtration<usize, VecComplex>;
type BiFiltration = Filtration<BiGrade, VecComplex>;

#[test]
fn empty_filtration_has_no_cells() {
    let f: ScalarFiltration = Filtration::new_empty(5, 2);
    let complex = f.simplicial_complex();
    assert_eq!(complex.max_dimension(), 2);
    assert_eq!(complex.n_cells(0), 0);
    assert_eq!(complex.n_cells(1), 0);
    assert_eq!(complex.n_cells(2), 0);
}

#[test]
fn triangle_boundary_grades_dominated() {
    let mut f: ScalarFiltration = Filtration::new_empty(5, 2);
    let g0: usize = 0;
    let g1: usize = 1;
    let g2: usize = 2;
    assert!(matches!(f.add(g0, &[0]), Ok(Some((0, 0)))));
    assert!(matches!(f.add(g0, &[1]), Ok(Some((0, 1)))));
    assert!(matches!(f.add(g0, &[2]), Ok(Some((0, 2)))));
    assert!(matches!(f.add(g1, &[0, 1]), Ok(Some((1, 0)))));
    assert!(matches!(f.add(g1, &[1, 2]), Ok(Some((1, 1)))));
    assert!(matches!(f.add(g2, &[0, 2]), Ok(Some((1, 2)))));

    assert_eq!(f.simplicial_complex().n_cells(0), 3);
    assert_eq!(f.simplicial_complex().n_cells(1), 3);
    assert_eq!(*f.value_of(1, 2), 2);

    // Every edge's grade dominates the grades of both of its vertices.
    for edge_index in 0..3 {
        let faces = f.simplicial_complex().boundary(1, edge_index);
        assert_eq!(faces.len(), 2);
        for &vertex_index in faces.iter() {
            let vertex_grade = *f.value_of(0, vertex_index);
            let edge_grade = *f.value_of(1, edge_index);
            assert!(vertex_grade.lte(&edge_grade));
        }
    }
}

#[test]
fn monotonicity_violation_is_reported_and_nothing_is_recorded() {
    let mut f: ScalarFiltration = Filtration::new_empty(5, 2);
    let g0: usize = 0;
    let g1: usize = 1;
    assert!(matches!(f.add(g0, &[0]), Ok(Some((0, 0)))));
    assert!(matches!(f.add(g1, &[1]), Ok(Some((0, 1)))));

    // The edge's grade 0 does not dominate vertex 1's grade 1.
    let outcome = f.add(g0, &[0, 1]);
    match outcome {
        Err(FiltrationError::MonotonicityViolation {
            dimension,
            face_index,
            face_grade,
            grade,
        }) => {
            assert_eq!(dimension, 1);
            assert_eq!(face_index, 1);
            assert_eq!(face_grade, 1);
            assert_eq!(grade, 0);
        }
        other => panic!("expected a monotonicity violation, got {:?}", other),
    }
    assert_eq!(f.simplicial_complex().n_cells(1), 0);

    // With a grade that dominates both vertices the edge is accepted.
    assert!(matches!(f.add(g1, &[0, 1]), Ok(Some((1, 0)))));
    assert_eq!(f.simplicial_complex().n_cells(1), 1);
}

#[test]
fn repeated_insert_reports_already_present_and_keeps_first_grade() {
    let mut f: ScalarFiltration = Filtration::new_empty(5, 2);
    let g3: usize = 3;
    let g5: usize = 5;
    assert!(matches!(f.add(g3, &[0]), Ok(Some((0, 0)))));
    assert!(matches!(f.add(g5, &[0]), Ok(None)));
    assert_eq!(f.simplicial_complex().n_cells(0), 1);
    assert_eq!(*f.value_of(0, 0), 3);
}

#[test]
fn repeated_edge_insert_changes_nothing() {
    let mut f: ScalarFiltration = Filtration::new_empty(5, 2);
    let g0: usize = 0;
    let g1: usize = 1;
    let g7: usize = 7;
    assert!(matches!(f.add(g0, &[0]), Ok(Some((0, 0)))));
    assert!(matches!(f.add(g0, &[1]), Ok(Some((0, 1)))));
    assert!(matches!(f.add(g1, &[0, 1]), Ok(Some((1, 0)))));
    assert!(matches!(f.add(g7, &[0, 1]), Ok(None)));
    assert_eq!(f.simplicial_complex().n_cells(0), 2);
    assert_eq!(f.simplicial_complex().n_cells(1), 1);
    assert_eq!(*f.value_of(1, 0), 1);
}

#[test]
fn value_of_round_trips_every_accepted_grade() {
    let mut f: ScalarFiltration = Filtration::new_empty(5, 2);
    let grades: [usize; 3] = [4, 2, 9];
    for (v, &g) in grades.iter().enumerate() {
        match f.add(g, &[v]) {
            Ok(Some((dimension, index))) => {
                assert_eq!(dimension, 0);
                assert_eq!(*f.value_of(dimension, index), g);
            }
            other => panic!("expected an accepted insertion, got {:?}", other),
        }
    }
    let g9: usize = 9;
    match f.add(g9, &[0, 1]) {
        Ok(Some((dimension, index))) => {
            assert_eq!(dimension, 1);
            assert_eq!(index, 0);
            assert_eq!(*f.value_of(dimension, index), 9);
        }
        other => panic!("expected an accepted insertion, got {:?}", other),
    }
}

#[test]
fn unsorted_and_duplicated_vertices_are_rejected() {
    let mut f: ScalarFiltration = Filtration::new_empty(5, 2);
    let g0: usize = 0;
    assert!(matches!(f.add(g0, &[0]), Ok(Some((0, 0)))));
    assert!(matches!(f.add(g0, &[1]), Ok(Some((0, 1)))));
    assert!(matches!(
        f.add(g0, &[1, 0]),
        Err(FiltrationError::UnsortedVertices)
    ));
    assert!(matches!(
        f.add(g0, &[0, 0]),
        Err(FiltrationError::UnsortedVertices)
    ));
    assert_eq!(f.simplicial_complex().n_cells(1), 0);
}

#[test]
fn dimension_above_the_bound_is_rejected() {
    let mut f: ScalarFiltration = Filtration::new_empty(5, 1);
    let g0: usize = 0;
    assert!(matches!(f.add(g0, &[0]), Ok(Some((0, 0)))));
    assert!(matches!(f.add(g0, &[1]), Ok(Some((0, 1)))));
    assert!(matches!(f.add(g0, &[2]), Ok(Some((0, 2)))));
    assert!(matches!(f.add(g0, &[0, 1]), Ok(Some((1, 0)))));
    match f.add(g0, &[0, 1, 2]) {
        Err(FiltrationError::DimensionTooLarge {
            dimension,
            max_dimension,
        }) => {
            assert_eq!(dimension, 2);
            assert_eq!(max_dimension, 1);
        }
        other => panic!("expected a dimension error, got {:?}", other),
    }
}

#[test]
fn missing_face_is_reported() {
    let mut f: ScalarFiltration = Filtration::new_empty(5, 2);
    let g0: usize = 0;
    assert!(matches!(f.add(g0, &[0]), Ok(Some((0, 0)))));
    match f.add(g0, &[0, 1]) {
        Err(FiltrationError::MissingFace { dimension, face }) => {
            assert_eq!(dimension, 1);
            assert_eq!(face, vec![1]);
        }
        other => panic!("expected a missing-face error, got {:?}", other),
    }
    assert_eq!(f.simplicial_complex().n_cells(1), 0);
}

#[test]
fn full_triangle_boundary_enumeration() {
    let mut f: ScalarFiltration = Filtration::new_empty(5, 2);
    let g0: usize = 0;
    let g1: usize = 1;
    let g2: usize = 2;
    assert!(matches!(f.add(g0, &[0]), Ok(Some((0, 0)))));
    assert!(matches!(f.add(g0, &[1]), Ok(Some((0, 1)))));
    assert!(matches!(f.add(g0, &[2]), Ok(Some((0, 2)))));
    assert!(matches!(f.add(g1, &[0, 1]), Ok(Some((1, 0)))));
    assert!(matches!(f.add(g1, &[1, 2]), Ok(Some((1, 1)))));
    assert!(matches!(f.add(g1, &[0, 2]), Ok(Some((1, 2)))));
    assert!(matches!(f.add(g2, &[0, 1, 2]), Ok(Some((2, 0)))));

    // Position p of the boundary is the facet obtained by dropping vertex p:
    // [1,2] was inserted second, [0,2] third, [0,1] first.
    let faces = f.simplicial_complex().boundary(2, 0);
    assert_eq!(faces, vec![1, 2, 0]);
    for &edge_index in faces.iter() {
        let edge_grade = *f.value_of(1, edge_index);
        let triangle_grade = *f.value_of(2, 0);
        assert!(edge_grade.lte(&triangle_grade));
    }
}

#[test]
fn wrapping_a_populated_complex_seeds_bottom_grades() {
    let mut complex = VecComplex::new(5, 1);
    assert_eq!(complex.add(0, &[0]), Some(0));
    assert_eq!(complex.add(0, &[1]), Some(1));
    assert_eq!(complex.add(1, &[0, 1]), Some(0));
    assert_eq!(complex.add(1, &[0, 1]), None);
    let f: ScalarFiltration = Filtration::new(complex);
    assert_eq!(*f.value_of(0, 0), 0);
    assert_eq!(*f.value_of(0, 1), 0);
    assert_eq!(*f.value_of(1, 0), 0);
}

#[test]
fn bigrade_order_is_partial() {
    let a = BiGrade::new(1, 0);
    let b = BiGrade::new(0, 1);
    assert!(!a.lte(&b));
    assert!(!b.lte(&a));
    assert!(a.lte(&a));
    assert!(BiGrade::min_value().lte(&a));
    assert!(BiGrade::min_value().lte(&b));
    assert_eq!(BiGrade::min_value(), BiGrade::new(0, 0));
}

#[test]
fn bigrade_filtration_detects_incomparable_grades() {
    let mut f: BiFiltration = Filtration::new_empty(5, 2);
    assert!(matches!(f.add(BiGrade::new(0, 0), &[0]), Ok(Some((0, 0)))));
    assert!(matches!(f.add(BiGrade::new(1, 0), &[1]), Ok(Some((0, 1)))));

    // (0, 1) does not dominate vertex 1's grade (1, 0): incomparable.
    match f.add(BiGrade::new(0, 1), &[0, 1]) {
        Err(FiltrationError::MonotonicityViolation {
            dimension,
            face_index,
            face_grade,
            grade,
        }) => {
            assert_eq!(dimension, 1);
            assert_eq!(face_index, 1);
            assert_eq!(face_grade, BiGrade::new(1, 0));
            assert_eq!(grade, BiGrade::new(0, 1));
        }
        other => panic!("expected a monotonicity violation, got {:?}", other),
    }
    assert_eq!(f.simplicial_complex().n_cells(1), 0);

    // (1, 1) dominates both (0, 0) and (1, 0).
    assert!(matches!(f.add(BiGrade::new(1, 1), &[0, 1]), Ok(Some((1, 0)))));
    assert_eq!(*f.value_of(1, 0), BiGrade::new(1, 1));
}

#[test]
fn sortedness_check_is_strict() {
    assert!(is_sorted(&[]));
    assert!(is_sorted(&[7]));
    assert!(is_sorted(&[0, 1, 2]));
    assert!(!is_sorted(&[1, 1]));
    assert!(!is_sorted(&[2, 1]));
    assert!(!is_sorted(&[0, 2, 2, 3]));
}

#[test]
fn grade_sequences_stay_synchronized_with_cell_counts() {
    let mut f: ScalarFiltration = Filtration::new_empty(5, 2);
    let g0: usize = 0;
    let g1: usize = 1;
    assert!(matches!(f.add(g0, &[0]), Ok(Some((0, 0)))));
    assert!(matches!(f.add(g0, &[1]), Ok(Some((0, 1)))));
    let _ = f.add(g0, &[1, 0]); // rejected: unsorted
    let _ = f.add(g1, &[0, 1]); // accepted
    let _ = f.add(g0, &[1, 2]); // rejected: missing face
    for dim in 0..3 {
        let n = f.simplicial_complex().n_cells(dim);
        // Every index the complex knows has a grade on record; none beyond.
        for idx in 0..n {
            let _ = *f.value_of(dim, idx);
        }
    }
    assert_eq!(f.simplicial_complex().n_cells(0), 2);
    assert_eq!(f.simplicial_complex().n_cells(1), 1);
    assert_eq!(f.simplicial_complex().n_cells(2), 0);
}

#[test]
fn add_iter_with_explicit_dimension() {
    let mut f: ScalarFiltration = Filtration::new_empty(5, 2);
    let g0: usize = 0;
    let g1: usize = 1;
    assert!(matches!(f.add_iter(g0, 0, &[0]), Ok(Some((0, 0)))));
    assert!(matches!(f.add_iter(g0, 0, &[1]), Ok(Some((0, 1)))));
    assert!(matches!(f.add_iter(g1, 1, &[0, 1]), Ok(Some((1, 0)))));
    assert!(matches!(f.add_iter(g1, 1, &[0, 1]), Ok(None)));
    assert_eq!(*f.value_of(1, 0), 1);
}

#[test]
fn index_lookup_in_the_complex() {
    let mut f: ScalarFiltration = Filtration::new_empty(5, 2);
    let g0: usize = 0;
    let g1: usize = 1;
    assert!(matches!(f.add(g0, &[0]), Ok(Some((0, 0)))));
    assert!(matches!(f.add(g0, &[1]), Ok(Some((0, 1)))));
    assert!(matches!(f.add(g1, &[0, 1]), Ok(Some((1, 0)))));
    let complex = f.simplicial_complex();
    assert_eq!(complex.index_of(0, &[1]), Some(1));
    assert_eq!(complex.index_of(1, &[0, 1]), Some(0));
    assert_eq!(complex.index_of(0, &[4]), None);
    assert_eq!(complex.index_of(1, &[1, 2]), None);
}

#[test]
fn collapser_command_names() {
    assert_eq!(SingleCollapser::Giotto.command_name(), "giotto_collapser");
    assert_eq!(SingleCollapser::Glisse.command_name(), "glisse_collapser");
    assert_ne!(SingleCollapser::Giotto, SingleCollapser::Glisse);
}
