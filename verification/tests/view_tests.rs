use monarch_mesh::extent::Extent;
use monarch_mesh::point::Point;
use monarch_mesh::region::Range;
use monarch_mesh::region::Region;

fn ext(dims: &[(&str, usize)]) -> Extent {
    let labels: Vec<String> = dims.iter().map(|(l, _)| l.to_string()).collect();
    let sizes: Vec<usize> = dims.iter().map(|(_, s)| *s).collect();
    Extent::new(labels, sizes).unwrap()
}

fn iter_pairs(region: &Region) -> Vec<(Point, usize)> {
    let mut out = Vec::new();
    let mut it = region.iter();
    while let Some(pv) = it.next() {
        out.push(pv);
    }
    out
}

fn check_view(view: &Region, expected_extent: &Extent, expected: &[(Vec<usize>, usize)]) {
    assert_eq!(&view.extent(), expected_extent);
    let actual = iter_pairs(view);
    assert_eq!(actual.len(), expected.len());
    for ((point, rank), (coords, want_rank)) in actual.iter().zip(expected.iter()) {
        assert_eq!(&point.coords(), coords);
        assert_eq!(rank, want_rank);
    }
}

#[test]
fn test_view_basic() {
    let extent = ext(&[("x", 4), ("y", 4)]);
    check_view(
        &extent.range("x", Range(0, Some(2), 1)).unwrap(),
        &ext(&[("x", 2), ("y", 4)]),
        &[
            (vec![0, 0], 0),
            (vec![0, 1], 1),
            (vec![0, 2], 2),
            (vec![0, 3], 3),
            (vec![1, 0], 4),
            (vec![1, 1], 5),
            (vec![1, 2], 6),
            (vec![1, 3], 7),
        ],
    );
    check_view(
        &extent
            .range("x", Range(1, Some(2), 1))
            .unwrap()
            .range("y", Range(2, None, 1))
            .unwrap(),
        &ext(&[("x", 1), ("y", 2)]),
        &[(vec![0, 0], 6), (vec![0, 1], 7)],
    );
    check_view(
        &extent.range("y", Range(0, None, 2)).unwrap(),
        &ext(&[("x", 4), ("y", 2)]),
        &[
            (vec![0, 0], 0),
            (vec![0, 1], 2),
            (vec![1, 0], 4),
            (vec![1, 1], 6),
            (vec![2, 0], 8),
            (vec![2, 1], 10),
            (vec![3, 0], 12),
            (vec![3, 1], 14),
        ],
    );
    check_view(
        &extent
            .range("y", Range(0, None, 2))
            .unwrap()
            .range("x", Range(2, None, 1))
            .unwrap(),
        &ext(&[("x", 2), ("y", 2)]),
        &[(vec![0, 0], 8), (vec![0, 1], 10), (vec![1, 0], 12), (vec![1, 1], 14)],
    );

    let extent = ext(&[("x", 10), ("y", 2)]);
    check_view(
        &extent.range("x", Range(0, None, 2)).unwrap(),
        &ext(&[("x", 5), ("y", 2)]),
        &[
            (vec![0, 0], 0),
            (vec![0, 1], 1),
            (vec![1, 0], 4),
            (vec![1, 1], 5),
            (vec![2, 0], 8),
            (vec![2, 1], 9),
            (vec![3, 0], 12),
            (vec![3, 1], 13),
            (vec![4, 0], 16),
            (vec![4, 1], 17),
        ],
    );
    check_view(
        &extent
            .range("x", Range(0, None, 2))
            .unwrap()
            .range("x", Range(2, None, 1))
            .unwrap()
            .range("y", Range(1, Some(2), 1))
            .unwrap(),
        &ext(&[("x", 3), ("y", 1)]),
        &[(vec![0, 0], 9), (vec![1, 0], 13), (vec![2, 0], 17)],
    );

    let extent = ext(&[("zone", 4), ("host", 2), ("gpu", 8)]);
    check_view(
        &extent
            .range("zone", Range(0, Some(1), 1))
            .unwrap()
            .range("gpu", Range(0, None, 2))
            .unwrap(),
        &ext(&[("zone", 1), ("host", 2), ("gpu", 4)]),
        &[
            (vec![0, 0, 0], 0),
            (vec![0, 0, 1], 2),
            (vec![0, 0, 2], 4),
            (vec![0, 0, 3], 6),
            (vec![0, 1, 0], 8),
            (vec![0, 1, 1], 10),
            (vec![0, 1, 2], 12),
            (vec![0, 1, 3], 14),
        ],
    );

    let extent = ext(&[("x", 3)]);
    check_view(
        &extent.range("x", Range(0, None, 2)).unwrap(),
        &ext(&[("x", 2)]),
        &[(vec![0], 0), (vec![1], 2)],
    );
}

#[test]
fn test_iter_subviews() {
    let extent = ext(&[("zone", 4), ("host", 4), ("gpu", 8)]);

    assert_eq!(extent.group_by("gpu").unwrap().len(), 16);
    assert_eq!(extent.group_by("zone").unwrap().len(), 1);

    let parts = extent.group_by("gpu").unwrap();
    check_view(
        &parts[0],
        &ext(&[("gpu", 8)]),
        &[
            (vec![0], 0),
            (vec![1], 1),
            (vec![2], 2),
            (vec![3], 3),
            (vec![4], 4),
            (vec![5], 5),
            (vec![6], 6),
            (vec![7], 7),
        ],
    );
    check_view(
        &parts[1],
        &ext(&[("gpu", 8)]),
        &[
            (vec![0], 8),
            (vec![1], 9),
            (vec![2], 10),
            (vec![3], 11),
            (vec![4], 12),
            (vec![5], 13),
            (vec![6], 14),
            (vec![7], 15),
        ],
    );
}

#[test]
fn test_view_values() {
    let extent = ext(&[("x", 4), ("y", 4)]);
    assert_eq!(extent.values(), (0..16).collect::<Vec<_>>());
    let region = extent.range("y", Range(1, Some(2), 1)).unwrap();
    assert_eq!(region.values(), vec![1, 5, 9, 13]);
}

#[test]
fn region_is_subset_algebra() {
    let e = ext(&[("x", 5), ("y", 4)]);
    let a = e.range("x", Range(1, Some(4), 1)).unwrap(); // 3x4
    let b = a.range("y", Range(1, Some(3), 1)).unwrap(); // 3x2, subset of a
    let c = e.range("x", Range(0, Some(2), 1)).unwrap(); // 2x4, overlaps only

    assert!(b.is_subset(&a));
    assert!(b.is_subset(&e.region()));
    assert!(a.is_subset(&e.region()));

    assert!(!c.is_subset(&a));
    assert!(c.is_subset(&e.region()));
}

#[test]
fn test_remap() {
    let region: Region = ext(&[("x", 4), ("y", 4)]).region();
    // Self-remap.
    assert_eq!(
        region.remap(&region).unwrap(),
        (0..16).collect::<Vec<_>>()
    );

    let subset = region.range("x", Range(2, None, 1)).unwrap();
    assert_eq!(subset.num_ranks(), 8);
    assert_eq!(
        region.remap(&subset).unwrap(),
        vec![8, 9, 10, 11, 12, 13, 14, 15],
    );

    let subset = subset.range("y", Range(1, Some(2), 1)).unwrap();
    assert_eq!(subset.num_ranks(), 2);
    assert_eq!(region.remap(&subset).unwrap(), vec![9, 13]);

    // Double subsetting.
    let e2 = ext(&[("replica", 8), ("gpu", 4)]);
    let replica1 = e2.range("replica", Range(1, Some(2), 1)).unwrap();
    assert_eq!(replica1.extent(), ext(&[("replica", 1), ("gpu", 4)]));
    let replica1_gpu12 = replica1.range("gpu", Range(1, Some(3), 1)).unwrap();
    assert_eq!(replica1_gpu12.extent(), ext(&[("replica", 1), ("gpu", 2)]));
    // The first rank in the narrowed view is the second rank in replica1.
    assert_eq!(replica1.remap(&replica1_gpu12).unwrap(), vec![1, 2]);
}
