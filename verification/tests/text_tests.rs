use monarch_mesh::extent::Extent;
use monarch_mesh::region::Range;
use monarch_mesh::region::Region;

fn ext(dims: &[(&str, usize)]) -> Extent {
    let labels: Vec<String> = dims.iter().map(|(l, _)| l.to_string()).collect();
    let sizes: Vec<usize> = dims.iter().map(|(_, s)| *s).collect();
    Extent::new(labels, sizes).unwrap()
}

#[test]
fn region_quoted_label_round_trip() {
    // Quoted labels with an offset parse and print identically.
    let text = "8+\"dim/0\"=4/1,\"dim,1\"=5/4";
    let region: Region = text.parse().unwrap();
    assert_eq!(region.labels(), &["dim/0".to_string(), "dim,1".to_string()]);
    assert_eq!(region.slice().offset(), 8);
    assert_eq!(region.slice().sizes(), &[4, 5]);
    assert_eq!(region.slice().strides(), &[1, 4]);
    assert_eq!(region.to_string(), text);
}

#[test]
fn region_display_parse_round_trips() {
    let cases: Vec<Region> = vec![
        ext(&[("x", 2), ("y", 3)]).region(),
        ext(&[("x", 4), ("y", 4)])
            .region()
            .range("x", Range(2, None, 1))
            .unwrap(),
        ext(&[("x", 10), ("y", 2)])
            .region()
            .range("x", Range(1, None, 3))
            .unwrap(),
        ext(&[("zone", 4), ("host", 2), ("gpu", 8)])
            .region()
            .range("gpu", Range(0, None, 2))
            .unwrap(),
        Extent::new(vec!["dim/0".into(), "a b".into()], vec![3, 5])
            .unwrap()
            .region(),
        Extent::unity().region(),
    ];
    for region in cases {
        let text = region.to_string();
        let parsed: Region = text.parse().unwrap_or_else(|e| {
            panic!("failed to parse {text:?}: {e:?}");
        });
        assert_eq!(parsed, region, "round trip failed for {text:?}");
        assert_eq!(parsed.to_string(), text);
    }
}

#[test]
fn region_parse_basic_forms() {
    let r: Region = "x=2/1,y=3/2".parse().unwrap();
    assert_eq!(r.labels(), &["x".to_string(), "y".to_string()]);
    assert_eq!(r.slice().offset(), 0);

    let q: Region = "8+\"dim/0\"=4/1".parse().unwrap();
    assert_eq!(q.labels(), &["dim/0".to_string()]);
    assert_eq!(q.slice().offset(), 8);
}

#[test]
fn region_parse_rejects_malformed_input() {
    assert!("5".parse::<Region>().is_err());
    assert!("x=2".parse::<Region>().is_err());
    assert!("x=2/".parse::<Region>().is_err());
    assert!("x=2/1,".parse::<Region>().is_err());
    assert!("=2/1".parse::<Region>().is_err());
    assert!("x=2/1 y=3/1".parse::<Region>().is_err());
    assert!("\"x=2/1".parse::<Region>().is_err());
}

#[test]
fn escaped_labels_round_trip() {
    let tricky = vec!["with\"quote", "back\\slash", "tab\there", "line\nbreak"];
    let labels: Vec<String> = tricky.iter().map(|s| s.to_string()).collect();
    let region = Extent::new(labels, vec![2, 3, 4, 5]).unwrap().region();
    let text = region.to_string();
    let parsed: Region = text.parse().unwrap();
    assert_eq!(parsed, region);
}

#[test]
fn point_and_extent_display_agree_on_labels() {
    let e = ext(&[("replica", 2), ("gpu", 4)]);
    assert_eq!(e.to_string(), "{replica: 2, gpu: 4}");
    let p = e.point(vec![1, 3]).unwrap();
    assert_eq!(p.to_string(), "replica=1/2,gpu=3/4");
}
