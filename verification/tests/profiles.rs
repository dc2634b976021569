use ttf_rasterizer::profile::{parse_profile, RasterProfile};

#[test]
fn parses_raster_profiles() {
    assert_eq!(
        parse_profile("classic").expect("classic profile should parse"),
        RasterProfile::Classic
    );
    assert_eq!(
        parse_profile("dense").expect("dense profile should parse"),
        RasterProfile::Dense
    );
    assert!(parse_profile("unknown").is_err());
}

#[test]
fn every_name_parses_as_its_profile() {
    for p in RasterProfile::all() {
        assert_eq!(RasterProfile::from_id(p.id()), Some(*p));
        assert_eq!(parse_profile(&format!(" {}\n", p.id().to_uppercase())).unwrap(), *p);
    }
    assert_eq!(RasterProfile::from_id("Classic"), None);
}

#[test]
fn unknown_profile_names_the_choices() {
    assert_eq!(
        parse_profile(" Bold ").unwrap_err().message(),
        "unknown profile ' Bold ', expected one of: classic, dense, binary, inverted"
    );
}

#[test]
fn next_and_prev_go_round() {
    let mut p = RasterProfile::Classic;
    let mut met = Vec::new();
    for _ in 0..4 {
        met.push(p);
        assert_eq!(p.next().prev(), p);
        assert_eq!(p.prev().next(), p);
        p = p.next();
    }
    assert_eq!(p, RasterProfile::Classic);
    assert_eq!(met.as_slice(), RasterProfile::all());
    assert_eq!(RasterProfile::Classic.prev(), RasterProfile::Inverted);
}

#[test]
fn ramps() {
    assert_eq!(RasterProfile::Classic.ramp(), " .:-=+*#%@");
    assert_eq!(RasterProfile::Binary.ramp(), " #");
    assert_eq!(RasterProfile::Inverted.ramp(), "@%#*+=-:. ");
    assert_eq!(
        RasterProfile::Dense.ramp(),
        " .'`^\",:;Il!i~+_-?][}{1)(|\\/*tfjrxnuvczXYUJCLQ0OZmwqpdbkhao*#MW&8%B@$"
    );
}
