use crv_core::workspace::entity::{WorkspaceConfig, WorkspaceError};

#[test]
fn test_common_prefix_end_index() {
    let a = &["1".to_string(), "2".to_string()];
    let b = &["1".to_string(), "2".to_string()];
    assert_eq!(WorkspaceConfig::common_prefix_end_index(a, b), 2);
    let a = &["1".to_string(), "3".to_string()];
    let b = &["2".to_string(), "4".to_string()];
    assert_eq!(WorkspaceConfig::common_prefix_end_index(a, b), 0);
    let a = &["1".to_string()];
    let b = &["1".to_string(), "1".to_string()];
    assert_eq!(WorkspaceConfig::common_prefix_end_index(a, b), 1);
    let a = &["1".to_string(), "1".to_string()];
    let b = &["1".to_string()];
    assert_eq!(WorkspaceConfig::common_prefix_end_index(a, b), 1);
    let a = &[];
    let b = &["1".to_string(), "1".to_string()];
    assert_eq!(WorkspaceConfig::common_prefix_end_index(a, b), 0);
    let a = &["1".to_string(), "1".to_string()];
    let b = &[];
    assert_eq!(WorkspaceConfig::common_prefix_end_index(a, b), 0);
}


#[test]
fn test_from_specification() {
    // case 0. 正常解析
    let root_dir = r#"/user"#;
    let mappings = r#"
        //a/b/c/... /user
        //a/b/c/d/... /user/d/ "#;
    let workspace_config = WorkspaceConfig::from_specification(root_dir, mappings);
    println!("case 0. 正常解析：{:?}", workspace_config);
    assert!(workspace_config.is_ok());
    let root_dir = r#"/root/workspace"#;
    let mappings = r#"
        //a/b/...~a /root/workspace/a/b
        //a/b/...~b /root/workspace/a/b
        //a/b/txt.a /root/workspace/a/b/txt.a"#;
    let workspace_config = WorkspaceConfig::from_specification(root_dir, mappings);
    println!("case 0. 正常解析：{:?}", workspace_config);
    assert!(workspace_config.is_ok());
    let root_dir = r#"/root/workspace"#;
    let mappings = r#"
        //a/b/~a /root/workspace/a/b
        //a/b/~b /root/workspace/a/b
        //a/b/txt.a /root/workspace/a/b/txt.a"#;
    let workspace_config = WorkspaceConfig::from_specification(root_dir, mappings);
    println!("case 0. 正常解析：{:?}", workspace_config);
    assert!(workspace_config.is_ok());

    let root_dir = r#"D:\temp"#;
    let mappings = r#"
        //a/b/c/... D:\temp
        //a/b/c/d/... D:\temp\d\ "#;
    let workspace_config = WorkspaceConfig::from_specification(root_dir, mappings);
    println!("case 0. 正常解析：{:?}", workspace_config);
    assert!(workspace_config.is_ok());
    // case 1. 语法错误
    // root dir 语法错误
    let root_dir = r#"C:\~"#;
    let mappings = r#"//a/b/c/... C:\User"#;
    let workspace_config = WorkspaceConfig::from_specification(root_dir, mappings);
    assert!(workspace_config.is_err());
    let workspace_config_err = workspace_config.err().unwrap();
    assert!(matches!(
        workspace_config_err,
        WorkspaceError::SyntaxError(_)
    ));
    println!("case 1. 语法错误: {:?}", workspace_config_err);
    // workspace mapping 语法错误
    let root_dir = r#"C:\User"#;
    let mappings = r#"//a/b/c/~~~ C:\User"#;
    let workspace_config = WorkspaceConfig::from_specification(root_dir, mappings);
    assert!(workspace_config.is_err());
    let workspace_config_err = workspace_config.err().unwrap();
    assert!(matches!(
        workspace_config_err,
        WorkspaceError::SyntaxError(_)
    ));
    println!("case 1. 语法错误: {:?}", workspace_config_err);
    // root dir 和 workspace mapping 均语法错误
    let root_dir = r#"C:\~"#;
    let mappings = r#"//a/b/c/~~~ C:\User"#;
    let workspace_config = WorkspaceConfig::from_specification(root_dir, mappings);
    assert!(workspace_config.is_err());
    let workspace_config_err = workspace_config.err().unwrap();
    assert!(matches!(
        workspace_config_err,
        WorkspaceError::SyntaxError(_)
    ));
    println!("case 1. 语法错误: {:?}", workspace_config_err);
    // case 2. mapping 中的 local 不在 root dir 下
    let root_dir = r#"C:\User"#;
    let mappings = r#"//a/b/c/... D:\temp"#;
    let workspace_config = WorkspaceConfig::from_specification(root_dir, mappings);
    assert!(workspace_config.is_err());
    let workspace_config_err = workspace_config.err().unwrap();
    assert!(matches!(
        workspace_config_err,
        WorkspaceError::MappingNotUnderRoot(_)
    ));
    println!("case 2. mapping 中的 local 不在 root dir 下：{:?}", workspace_config_err);
    // case 3. mapping 冲突
    let root_dir = r#"D:\temp"#;
    let mappings = r#"
        //a/b/c/... D:\temp
        //a/b/c/d/... D:\temp\e\ "#;
    let workspace_config = WorkspaceConfig::from_specification(root_dir, mappings);
    assert!(workspace_config.is_err());
    let workspace_config_err = workspace_config.err().unwrap();
    println!("case 3. mapping 冲突：{:?}", workspace_config_err);
    assert!(matches!(
        workspace_config_err,
        WorkspaceError::MappingConflictError(_)
    ));
    let root_dir = r#"D:\temp"#;
    let mappings = r#"
        //a/b/c/... D:\temp\a\b
        //a/b/d/... D:\temp\
    "#;
    let workspace_config = WorkspaceConfig::from_specification(root_dir, mappings);
    assert!(workspace_config.is_err());
    let workspace_config_err = workspace_config.err().unwrap();
    println!("case 3. mapping 冲突：{:?}", workspace_config_err);
    assert!(matches!(
        workspace_config_err,
        WorkspaceError::MappingConflictError(_)
    ));
    let root_dir = r#"/root/workspace"#;
    let mappings = r#"
        //a/b/...~a /root/workspace/a/b
        //a/b/...~b /root/workspace/a/b
        //a/b/txt.b /root/workspace/a/b/txt.a"#;
    let workspace_config = WorkspaceConfig::from_specification(root_dir, mappings);
    assert!(workspace_config.is_err());
    let workspace_config_err = workspace_config.err().unwrap();
    println!("case 3. mapping 冲突：{:?}", workspace_config_err);
    assert!(matches!(
        workspace_config_err,
        WorkspaceError::MappingConflictError(_)
    ));
    let root_dir = r#"/root/workspace"#;
    let mappings = r#"
        //a/b/~a /root/workspace/a/b
        //a/b/~b /root/workspace/a/b
        //a/b/txt.b /root/workspace/a/b/txt.a"#;
    let workspace_config = WorkspaceConfig::from_specification(root_dir, mappings);
    assert!(workspace_config.is_err());
    let workspace_config_err = workspace_config.err().unwrap();
    println!("case 3. mapping 冲突：{:?}", workspace_config_err);
    assert!(matches!(
        workspace_config_err,
        WorkspaceError::MappingConflictError(_)
    ));
}
