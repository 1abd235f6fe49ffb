use monarch_mesh::extent::Extent;
use monarch_mesh::region::Region;
use monarch_mesh::value_mesh::CollectExactMeshExt;
use monarch_mesh::value_mesh::CollectIndexedMeshExt;
use monarch_mesh::value_mesh::CollectMeshExt;
use monarch_mesh::value_mesh::MeshError;
use monarch_mesh::value_mesh::ValueMesh;

fn region(dims: &[(&str, usize)]) -> Region {
    let labels: Vec<String> = dims.iter().map(|(l, _)| l.to_string()).collect();
    let sizes: Vec<usize> = dims.iter().map(|(_, s)| *s).collect();
    Extent::new(labels, sizes).unwrap().region()
}

#[test]
fn value_mesh_new_ok() {
    let region = region(&[("replica", 2), ("gpu", 3)]);
    let mesh = ValueMesh::new(region.clone(), (0..6).collect()).expect("new should succeed");
    assert_eq!(mesh.region().num_ranks(), 6);
    assert_eq!(mesh.values().len(), 6);
    assert_eq!(mesh.values(), vec![0, 1, 2, 3, 4, 5]);
}

#[test]
fn value_mesh_new_len_mismatch_is_error() {
    let region = region(&[("replica", 2), ("gpu", 3)]);
    let err = ValueMesh::new(region, vec![0_i32; 5]).unwrap_err();
    match err {
        MeshError::InvalidRankCardinality { expected, actual } => {
            assert_eq!(expected, 6);
            assert_eq!(actual, 5);
        }
    }
}

#[test]
fn value_mesh_transpose_ok_and_err() {
    let region_ok = region(&[("x", 2)]);

    // ok case
    let ok_mesh =
        ValueMesh::new(region_ok.clone(), vec![Ok::<_, String>(1), Ok(2)]).unwrap();
    let ok = ok_mesh.transpose().unwrap();
    assert_eq!(ok.values(), vec![1, 2]);

    // err case: propagate the user error
    #[derive(Debug, PartialEq, Clone)]
    enum E {
        Boom,
    }
    let err_mesh = ValueMesh::new(region_ok, vec![Ok(1), Err(E::Boom)]).unwrap();
    let err = err_mesh.transpose().unwrap_err();
    assert_eq!(err, E::Boom);
}

#[test]
fn collect_mesh_ok() {
    let region = region(&[("x", 2), ("y", 3)]);
    let mesh: ValueMesh<_> = (0..6)
        .collect::<Vec<_>>()
        .collect_mesh(region.clone())
        .expect("collect_mesh should succeed");

    assert_eq!(mesh.region().num_ranks(), 6);
    assert_eq!(mesh.values(), vec![0, 1, 2, 3, 4, 5]);
}

#[test]
fn collect_mesh_len_too_short_is_error() {
    let region = region(&[("x", 2), ("y", 3)]);
    let err = (0..5).collect::<Vec<_>>().collect_mesh(region).unwrap_err();

    match err {
        MeshError::InvalidRankCardinality { expected, actual } => {
            assert_eq!(expected, 6);
            assert_eq!(actual, 5);
        }
    }
}

#[test]
fn collect_mesh_len_too_long_is_error() {
    let region = region(&[("x", 2), ("y", 3)]);
    let err = (0..7).collect::<Vec<_>>().collect_mesh(region).unwrap_err();
    match err {
        MeshError::InvalidRankCardinality { expected, actual } => {
            assert_eq!(expected, 6);
            assert_eq!(actual, 7);
        }
    }
}

#[test]
fn collect_mesh_from_map_pipeline() {
    let region = region(&[("x", 2), ("y", 2)]);
    let mesh: ValueMesh<_> = (0..4)
        .map(|i| i * 10)
        .collect::<Vec<_>>()
        .collect_mesh(region.clone())
        .unwrap();

    assert_eq!(mesh.region().num_ranks(), 4);
    assert_eq!(mesh.values(), vec![0, 10, 20, 30]);
}

#[test]
fn collect_exact_mesh_ok() {
    let region = region(&[("x", 2), ("y", 3)]);
    let mesh: ValueMesh<_> = (0..6)
        .collect::<Vec<_>>()
        .collect_exact_mesh(region.clone())
        .expect("collect_exact_mesh should succeed");

    assert_eq!(mesh.region().num_ranks(), 6);
    assert_eq!(mesh.values(), vec![0, 1, 2, 3, 4, 5]);
}

#[test]
fn collect_exact_mesh_len_too_short_is_error() {
    let region = region(&[("x", 2), ("y", 3)]);
    let err = (0..5)
        .collect::<Vec<_>>()
        .collect_exact_mesh(region)
        .unwrap_err();

    match err {
        MeshError::InvalidRankCardinality { expected, actual } => {
            assert_eq!(expected, 6);
            assert_eq!(actual, 5);
        }
    }
}

#[test]
fn collect_exact_mesh_len_too_long_is_error() {
    let region = region(&[("x", 2), ("y", 3)]);
    let err = (0..7)
        .collect::<Vec<_>>()
        .collect_exact_mesh(region)
        .unwrap_err();

    match err {
        MeshError::InvalidRankCardinality { expected, actual } => {
            assert_eq!(expected, 6);
            assert_eq!(actual, 7);
        }
    }
}

#[test]
fn collect_exact_mesh_from_map_pipeline() {
    let region = region(&[("x", 2), ("y", 2)]);
    let mesh: ValueMesh<_> = (0..4)
        .map(|i| i * 10)
        .collect::<Vec<_>>()
        .collect_exact_mesh(region.clone())
        .unwrap();

    assert_eq!(mesh.region().num_ranks(), 4);
    assert_eq!(mesh.values(), vec![0, 10, 20, 30]);
}

#[test]
fn collect_indexed_ok_shuffled() {
    let region = region(&[("x", 2), ("y", 3)]);
    // (rank, value) in shuffled order; values = rank * 10
    let pairs = vec![(3, 30), (0, 0), (5, 50), (2, 20), (1, 10), (4, 40)];
    let mesh: ValueMesh<_> = pairs.collect_indexed(region.clone()).unwrap();

    assert_eq!(mesh.region().num_ranks(), 6);
    assert_eq!(mesh.values(), vec![0, 10, 20, 30, 40, 50]);
}

#[test]
fn collect_indexed_missing_rank_is_error() {
    let region = region(&[("x", 2), ("y", 2)]); // 4
    // Missing rank 3
    let pairs = vec![(0, 100), (1, 101), (2, 102)];
    let err = pairs.collect_indexed(region).unwrap_err();

    match err {
        MeshError::InvalidRankCardinality { expected, actual } => {
            assert_eq!(expected, 4);
            assert_eq!(actual, 3); // Distinct ranks seen.
        }
    }
}

#[test]
fn collect_indexed_out_of_bounds_is_error() {
    let region = region(&[("x", 2), ("y", 2)]); // 4 (valid ranks 0..=3)
    let pairs = vec![(0, 1), (4, 9)]; // 4 is out-of-bounds
    let err = pairs.collect_indexed(region).unwrap_err();

    match err {
        MeshError::InvalidRankCardinality { expected, actual } => {
            assert_eq!(expected, 4);
            assert_eq!(actual, 5); // offending index + 1
        }
    }
}

#[test]
fn collect_indexed_duplicate_last_write_wins() {
    let region = region(&[("x", 1), ("y", 3)]); // 3
    // rank 1 appears twice; last value should stick
    let pairs = vec![(0, 7), (1, 8), (1, 88), (2, 9)];
    let mesh: ValueMesh<_> = pairs.collect_indexed(region.clone()).unwrap();

    assert_eq!(mesh.values(), vec![7, 88, 9]);
}

#[test]
fn map_into_preserves_region_and_order() {
    let region = region(&[("rows", 2), ("cols", 3)]);
    let vm = ValueMesh::new_unchecked(region.clone(), vec![0, 1, 2, 3, 4, 5]);

    let doubled = vm.map_into(|x| x * 2);
    assert_eq!(doubled.region, region);
    assert_eq!(doubled.ranks, vec![0, 2, 4, 6, 8, 10]);
}

#[test]
fn map_into_ref_borrows_and_preserves() {
    let region = region(&[("n", 4)]);
    let vm = ValueMesh::new_unchecked(
        region.clone(),
        vec!["a".to_string(), "b".into(), "c".into(), "d".into()],
    );

    let lens = vm.map_into_ref(|s| s.len());
    assert_eq!(lens.region, region);
    assert_eq!(lens.ranks, vec![1, 1, 1, 1]);
}

#[test]
fn try_map_into_short_circuits_on_error() {
    let region = region(&[("n", 4)]);
    let vm = ValueMesh::new_unchecked(region, vec![1, 2, 3, 4]);

    let res: Result<ValueMesh<i32>, &'static str> =
        vm.try_map_into(|x| if x == 3 { Err("boom") } else { Ok(x + 10) });

    assert!(res.is_err());
    assert_eq!(res.unwrap_err(), "boom");
}

#[test]
fn try_map_into_ref_short_circuits_on_error() {
    let region = region(&[("n", 4)]);
    let vm = ValueMesh::new_unchecked(region, vec![1, 2, 3, 4]);

    let res: Result<ValueMesh<i32>, &'static str> =
        vm.try_map_into_ref(|x| if x == &3 { Err("boom") } else { Ok(x + 10) });

    assert!(res.is_err());
    assert_eq!(res.unwrap_err(), "boom");
}

#[test]
fn map_into_single_element_mesh() {
    let region = region(&[("n", 1)]);
    let vm = ValueMesh::new_unchecked(region.clone(), vec![7]);

    let out = vm.map_into(|x| x * x);
    assert_eq!(out.region, region);
    assert_eq!(out.ranks, vec![49]);
}

#[test]
fn subset_remaps_values() {
    let region = region(&[("x", 2), ("y", 2)]);
    let vm = ValueMesh::new(region.clone(), vec![10, 11, 12, 13]).unwrap();
    let sub_region = region
        .range("x", monarch_mesh::region::Range(1, Some(2), 1))
        .unwrap();
    let sub = vm.subset(sub_region).unwrap();
    assert_eq!(sub.values(), vec![12, 13]);
}
