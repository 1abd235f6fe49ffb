use monarch_mesh::extent::Extent;
use monarch_mesh::point::InExtent;
use monarch_mesh::text::fmt_label;
use monarch_mesh::text::is_safe_ident;

fn ext(dims: &[(&str, usize)]) -> Extent {
    let labels: Vec<String> = dims.iter().map(|(l, _)| l.to_string()).collect();
    let sizes: Vec<usize> = dims.iter().map(|(_, s)| *s).collect();
    Extent::new(labels, sizes).unwrap()
}

#[test]
fn test_is_safe_ident() {
    assert!(is_safe_ident("x"));
    assert!(is_safe_ident("gpu_0"));
    assert!(!is_safe_ident("dim/0"));
    assert!(!is_safe_ident("x y"));
    assert!(!is_safe_ident("x=y"));
}

#[test]
fn test_fmt_label() {
    assert_eq!(fmt_label("x"), "x");
    assert_eq!(fmt_label("dim/0"), "\"dim/0\"");
}

#[test]
fn test_points_basic() {
    let extent = ext(&[("x", 4), ("y", 5), ("z", 6)]);
    let _p1 = extent.point(vec![1, 2, 3]).unwrap();
    let _p2 = vec![1, 2, 3].in_(&extent).unwrap();

    assert_eq!(extent.num_ranks(), 4 * 5 * 6);

    let p3 = extent.point_of_rank(0).unwrap();
    assert_eq!(p3.coords(), &[0, 0, 0]);
    assert_eq!(p3.rank(), 0);

    let p4 = extent.point_of_rank(1).unwrap();
    assert_eq!(p4.coords(), &[0, 0, 1]);
    assert_eq!(p4.rank(), 1);

    let p5 = extent.point_of_rank(2).unwrap();
    assert_eq!(p5.coords(), &[0, 0, 2]);
    assert_eq!(p5.rank(), 2);

    let p6 = extent.point_of_rank(6 * 5 + 1).unwrap();
    assert_eq!(p6.coords(), &[1, 0, 1]);
    assert_eq!(p6.rank(), 6 * 5 + 1);
    assert_eq!(p6.coord(0), 1);
    assert_eq!(p6.coord(1), 0);
    assert_eq!(p6.coord(2), 1);

    let mut points = Vec::new();
    let mut it = extent.points();
    while let Some(p) = it.next() {
        points.push(p);
    }
    assert_eq!(points.len(), 4 * 5 * 6);
    for (rank, point) in points.iter().enumerate() {
        let c = point.coords();
        let (x, y, z) = (c[0], c[1], c[2]);
        assert_eq!(z + y * 6 + x * 6 * 5, rank);
        assert_eq!(point.rank(), rank);
    }
}

#[test]
fn test_point_indexing() {
    let extent = Extent::new(
        vec!["x".into(), "y".into(), "z".into()],
        vec![4, 5, 6],
    )
    .unwrap();
    let point = extent.point(vec![1, 2, 3]).unwrap();

    assert_eq!(point.coord(0), 1);
    assert_eq!(point.coord(1), 2);
    assert_eq!(point.coord(2), 3);
}

#[test]
fn test_point_into_iter() {
    let extent = Extent::new(
        vec!["x".into(), "y".into(), "z".into()],
        vec![4, 5, 6],
    )
    .unwrap();
    let point = extent.point(vec![1, 2, 3]).unwrap();

    let mut coords: Vec<usize> = Vec::new();
    let mut it = point.coords_iter();
    while let Some(c) = it.next() {
        coords.push(c);
    }
    assert_eq!(coords, vec![1, 2, 3]);

    let mut sum = 0;
    let mut it2 = point.coords_iter();
    while let Some(c) = it2.next() {
        sum += c;
    }
    assert_eq!(sum, 6);
}

#[test]
fn coord_iter_len_is_exact() {
    let extent = ext(&[("x", 2), ("y", 3)]);
    let point = extent.point(vec![1, 2]).unwrap();
    let mut it = point.coords_iter();
    assert_eq!(it.len(), 2);
    assert_eq!(it.size_hint(), (2, Some(2)));
    assert_eq!(it.next(), Some(1));
    assert_eq!(it.len(), 1);
    assert_eq!(it.size_hint(), (1, Some(1)));
    assert_eq!(it.next(), Some(2));
    assert_eq!(it.len(), 0);
    assert_eq!(it.size_hint(), (0, Some(0)));
    assert_eq!(it.next(), None);
    assert_eq!(it.next(), None);
    assert_eq!(it.size_hint(), (0, Some(0)));
}

#[test]
fn test_extent_basic() {
    let extent = ext(&[("x", 10), ("y", 5), ("z", 1)]);
    assert_eq!(
        extent.iter(),
        vec![
            ("x".to_string(), 10),
            ("y".to_string(), 5),
            ("z".to_string(), 1)
        ]
    );
}

#[test]
fn test_extent_display() {
    let extent = Extent::new(
        vec!["x".into(), "y".into(), "z".into()],
        vec![4, 5, 6],
    )
    .unwrap();
    assert_eq!(extent.to_string(), "{x: 4, y: 5, z: 6}");

    let extent = Extent::new(vec!["dim/0".into(), "dim/1".into()], vec![4, 5]).unwrap();
    assert_eq!(extent.to_string(), "{\"dim/0\": 4, \"dim/1\": 5}");

    let empty_extent = Extent::new(vec![], vec![]).unwrap();
    assert_eq!(empty_extent.to_string(), "{}");
}

#[test]
fn extent_label_helpers() {
    let e = ext(&[("zone", 3), ("host", 2), ("gpu", 4)]);
    for (i, (lbl, sz)) in e.iter().into_iter().enumerate() {
        assert_eq!(e.position(&lbl), Some(i));
        assert_eq!(e.size(&lbl), Some(sz));
    }
    assert_eq!(e.position("nope"), None);
    assert_eq!(e.size("nope"), None);
}

#[test]
fn test_extent_0d() {
    let e = Extent::new(vec![], vec![]).unwrap();
    assert_eq!(e.num_ranks(), 1);

    let mut points = Vec::new();
    let mut it = e.points();
    while let Some(p) = it.next() {
        points.push(p);
    }
    assert_eq!(points.len(), 1);
    assert_eq!(points[0].coords(), &[] as &[usize]);
    assert_eq!(points[0].rank(), 0);

    let mut ci = points[0].coords_iter();
    assert_eq!(ci.len(), 0);
    assert!(ci.next().is_none());
    assert!(ci.next().is_none());
}

#[test]
fn extent_unity_equiv_to_0d() {
    let e = Extent::unity();
    assert!(e.is_empty());
    assert_eq!(e.num_ranks(), 1);
    let mut pts = Vec::new();
    let mut it = e.points();
    while let Some(p) = it.next() {
        pts.push(p);
    }
    assert_eq!(pts.len(), 1);
    assert_eq!(pts[0].rank(), 0);
    assert!(pts[0].coords().is_empty());
}

#[test]
fn test_point_display() {
    let extent = Extent::new(
        vec!["x".into(), "y".into(), "z".into()],
        vec![4, 5, 6],
    )
    .unwrap();
    let point = extent.point(vec![1, 2, 3]).unwrap();
    assert_eq!(point.to_string(), "x=1/4,y=2/5,z=3/6");

    assert!(extent.point(vec![]).is_err());

    let empty_extent = Extent::new(vec![], vec![]).unwrap();
    let empty_point = empty_extent.point(vec![]).unwrap();
    assert_eq!(empty_point.to_string(), "");
}

#[test]
fn test_point_display_with_quoted_labels() {
    let ext = Extent::new(vec!["dim/0".into(), "dim,1".into()], vec![3, 5]).unwrap();

    assert_eq!(ext.to_string(), "{\"dim/0\": 3, \"dim,1\": 5}");

    let p = ext.point(vec![1, 2]).unwrap();
    assert_eq!(p.to_string(), "\"dim/0\"=1/3,\"dim,1\"=2/5");
}

#[test]
fn test_relative_point() {
    // Given a rank in the root space, the corresponding point in a view of
    // that space is recovered through the view's slice coordinates.
    let root = ext(&[("replicas", 4), ("hosts", 4), ("gpus", 4)]);
    let sliced = root
        .region()
        .range("replicas", monarch_mesh::region::Range(0, Some(4), 3))
        .unwrap()
        .range("hosts", monarch_mesh::region::Range(1, Some(4), 2))
        .unwrap()
        .range("gpus", monarch_mesh::region::Range(0, Some(4), 2))
        .unwrap();
    let ranks_on_root_mesh = &[4, 6, 12, 14, 52, 54, 60, 62];
    assert_eq!(sliced.values(), ranks_on_root_mesh.to_vec());

    let view_extent = sliced.extent();
    let ranks_on_sliced: Vec<usize> = ranks_on_root_mesh
        .iter()
        .map(|&r| {
            let coords = sliced.slice().coordinates(r).unwrap();
            view_extent.point(coords).unwrap().rank()
        })
        .collect();
    assert_eq!(ranks_on_sliced, vec![0, 1, 2, 3, 4, 5, 6, 7]);
}

#[test]
fn point_coords_roundtrip_all_points() {
    // Feeding every point's coordinates back through its extent returns the
    // same rank.
    let extent = ext(&[("zone", 3), ("host", 2), ("gpu", 4)]);
    let mut it = extent.points();
    while let Some(p) = it.next() {
        let back = extent.point(p.coords()).unwrap();
        assert_eq!(back.rank(), p.rank());
    }
}

#[test]
fn points_count_matches_num_ranks() {
    for dims in [
        vec![],
        vec![("x", 1)],
        vec![("x", 4), ("y", 5)],
        vec![("a", 2), ("b", 3), ("c", 4)],
    ] {
        let extent = ext(&dims);
        let mut count = 0;
        let mut it = extent.points();
        while let Some(_) = it.next() {
            count += 1;
        }
        assert_eq!(count, extent.num_ranks());
    }
}
