use mcl::cli::BlockArgs;
use mcl::cli::BlockEntitiesArgs;
use mcl::cli::Dimension;
use mcl::cli::ResetLightingArgs;
use mcl::parse::is_region_file_name;

#[test]
fn dimension_directories() {
    assert_eq!(Dimension::Overworld.region_subdir(), "region");
    assert_eq!(Dimension::Nether.region_subdir(), "DIM-1/region");
    assert_eq!(Dimension::End.region_subdir(), "DIM1/region");
    assert_eq!(Dimension::Overworld.entities_subdir(), "entities");
    assert_eq!(Dimension::Nether.entities_subdir(), "DIM-1/entities");
    assert_eq!(Dimension::End.entities_subdir(), "DIM1/entities");
}

#[test]
fn region_file_names() {
    assert!(is_region_file_name("r.0.0.mca"));
    assert!(is_region_file_name("/some/dir/r.-1.7.mca"));
    assert!(!is_region_file_name("r.0.0.mcc"));
    assert!(!is_region_file_name("r.0.0.mca.bak"));
    assert!(!is_region_file_name("mca"));
    assert!(!is_region_file_name(""));
}

#[test]
fn argument_bundles_carry_plain_values() {
    let b = BlockArgs {
        world: "w".to_string(),
        dimension: Dimension::Nether,
        pattern: "diamond".to_string(),
        from: (0, 0, 0),
        to: (15, 255, 15),
    };
    assert_eq!(b.pattern, "diamond");
    assert!(b.dimension == Dimension::Nether);
    let e = BlockEntitiesArgs {
        world: "w".to_string(),
        dimension: Dimension::Overworld,
        from: None,
        to: Some((1, 2, 3)),
        json: true,
    };
    assert!(e.from.is_none());
    assert_eq!(e.to, Some((1, 2, 3)));
    let r = ResetLightingArgs { region: "r.0.0.mca".to_string() };
    assert!(is_region_file_name(&r.region));
}
