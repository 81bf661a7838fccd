use crv_core::path::basic::{DepotPath, LocalPath};
use crv_core::path::engine::PathEngine;
use crv_core::workspace::entity::WorkspaceConfig;

#[test]
fn test_mapping_depot() {
    let config = WorkspaceConfig::from_specification(
        "/home/youzheyin/Tree/Chronoverse/crv-cli",
        r#"
        //crv/cli/src/... /home/youzheyin/Tree/Chronoverse/crv-cli/src
        -//crv/cli/src/~png
        -//crv/cli/somefile
        //crv/assets/... /home/youzheyin/Tree/Chronoverse/crv-cli/assets
        -//crv/assets/...~jpg
        //crv/assets/special-image/... /home/youzheyin/Tree/Chronoverse/crv-cli/assets/special-image
        "#,
    )
    .unwrap();

    let engine = PathEngine::new(config);

    let depot_file = DepotPath::parse("//crv/cli/src/main.rs").unwrap();
    let result = engine.mapping_depot_path(&depot_file).unwrap();
    assert_eq!(
        result,
        LocalPath::parse("/home/youzheyin/Tree/Chronoverse/crv-cli/src/main.rs").unwrap(),
    );
    let depot_file = DepotPath::parse("//crv/cli/src/template/logo.png").unwrap();
    let result = engine.mapping_depot_path(&depot_file).unwrap();
    assert_eq!(
        result,
        LocalPath::parse("/home/youzheyin/Tree/Chronoverse/crv-cli/src/template/logo.png")
            .unwrap(),
    );
    let depot_file = DepotPath::parse("//crv/assets/special-image/cat.jpg").unwrap();
    let result = engine.mapping_depot_path(&depot_file).unwrap();
    assert_eq!(
        result,
        LocalPath::parse(
            "/home/youzheyin/Tree/Chronoverse/crv-cli/assets/special-image/cat.jpg"
        )
        .unwrap(),
    );
    let depot_file = DepotPath::parse("//crv/assets/normal.jpg").unwrap();
    assert!(engine.mapping_depot_path(&depot_file).is_none());
    let depot_file = DepotPath::parse("//crv/assets/a/b/normal.jpg").unwrap();
    assert!(engine.mapping_depot_path(&depot_file).is_none());
    let depot_file = DepotPath::parse("//crv/cli/src/temp.png").unwrap();
    assert!(engine.mapping_depot_path(&depot_file).is_none());
    let depot_file = DepotPath::parse("//crv/cli/cargo.toml").unwrap();
    assert!(engine.mapping_depot_path(&depot_file).is_none());
}

#[test]
fn test_mapping_local() {
    let config = WorkspaceConfig::from_specification(
        "/root/test",
        r#"
        //a/...~a /root/test/a/
        //b/...~b /root/test/a/b
        -r://.*\.b
        //a/b/c/d.txt /root/test/a/d.ini
        -//a/b/c/...~txt
        //a/b/c/d/e.txt /root/test/a/e1.ini
        //a/b/c/d/e.txt /root/test/a/e.ini
        "#,
    )
    .unwrap();

    let engine = PathEngine::new(config);
    let local_path = LocalPath::parse("/root/test/a/b/z.a").unwrap();
    assert_eq!(
        engine.mapping_local_path(&local_path).unwrap(),
        DepotPath::parse("//a/b/z.a").unwrap()
    );
    let local_path = LocalPath::parse("/root/test/a/b/z.b").unwrap();
    assert!(engine.mapping_local_path(&local_path).is_none());
    let local_path = LocalPath::parse("/root/test/a/d.ini").unwrap();
    assert!(engine.mapping_local_path(&local_path).is_none());
    let local_path = LocalPath::parse("/root/test/a/e.ini").unwrap();
    assert_eq!(
        engine.mapping_local_path(&local_path).unwrap(),
        DepotPath::parse("//a/b/c/d/e.txt").unwrap()
    );
    let local_path = LocalPath::parse("/root/test/a/e1.ini").unwrap();
    assert!(engine.mapping_local_path(&local_path).is_none());
    let local_path = LocalPath::parse("/root/test/a/b/z-a").unwrap();
    assert!(engine.mapping_local_path(&local_path).is_none());
}
