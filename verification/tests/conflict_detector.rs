use crv_core::workspace::conflict_detector::{ConflictDetector, FilenameFilter, PathMapping};


#[test]
fn test_simple_conflict() {
    // 测试用例：a/b/ -> z/x/, a/b/c/d/ -> z/x/y/t/
    // 规则：以 '/' 结尾的是文件夹，否则是文件（需要带后缀名）
    // 应该检测到冲突：a/b/y/t/file.txt 和 a/b/c/d/file.txt 都映射到 z/x/y/t/file.txt
    let mappings = vec![
        PathMapping::from_strings("a/b/", "z/x/"),
        PathMapping::from_strings("a/b/c/d/", "z/x/y/t/"),
    ];

    let detector = ConflictDetector::new(mappings);
    let result = detector.verify_mappings();

    assert!(result.is_err());
    println!("检测到冲突: {:?}", result.err());
}


#[test]
fn test_no_conflict() {
    // 测试用例：a/b/ -> z/x/, a/b/c/d/ -> z/x/c/d/
    // 规则：以 '/' 结尾的是文件夹
    // 不应该有冲突，因为映射是一致的
    let mappings = vec![
        PathMapping::from_strings("a/b/", "z/x/"),
        PathMapping::from_strings("a/b/c/d/", "z/x/c/d/"),
    ];

    let detector = ConflictDetector::new(mappings);
    let result = detector.verify_mappings();

    assert!(result.is_ok());
    println!("没有冲突");
}


#[test]
fn test_multiple_mappings() {
    // 测试多个映射关系
    // 规则：以 '/' 结尾的是文件夹
    // a/b/ -> local/x/
    // a/b/c/ -> local/y/
    // a/b/c/d/ -> local/x/c/d/
    // 应该没有冲突，因为映射路径不重叠
    let mappings = vec![
        PathMapping::from_strings("a/b/", "local/x/"),
        PathMapping::from_strings("a/b/c/", "local/y/"),
        PathMapping::from_strings("a/b/c/d/", "local/x/c/d/"),
    ];

    let detector = ConflictDetector::new(mappings);
    let result = detector.verify_mappings();

    assert!(result.is_ok());
    println!("多个映射：没有冲突");
}


#[test]
fn test_disjoint_mappings() {
    // 测试完全不相交的映射
    // 规则：以 '/' 结尾的是文件夹
    let mappings = vec![
        PathMapping::from_strings("a/b/", "z/x/"),
        PathMapping::from_strings("c/d/", "y/w/"),
    ];

    let detector = ConflictDetector::new(mappings);
    let result = detector.verify_mappings();

    assert!(result.is_ok());
    println!("没有冲突（不相交的映射）");
}


#[test]
fn test_nested_conflict() {
    // 测试嵌套冲突
    // 规则：以 '/' 结尾的是文件夹
    // a/ -> local/
    // a/b/c/ -> local/x/
    // 应该检测到冲突：a/x/ 和 a/b/c/ 都映射到 local/x/
    let mappings = vec![
        PathMapping::from_strings("a/", "local/"),
        PathMapping::from_strings("a/b/c/", "local/x/"),
    ];

    let detector = ConflictDetector::new(mappings);
    let result = detector.verify_mappings();

    assert!(result.is_err());
    println!("嵌套映射：检测到冲突 {:?}", result.err());
}


#[test]
fn test_only_mapped_nodes() {
    // 测试只检查有映射的节点
    // 规则：以 '/' 结尾的是文件夹
    // a/b/ -> z/x/
    // a/b/c/d/ -> z/x/y/t/ (有映射)
    // 应该检测到冲突
    let mappings = vec![
        PathMapping::from_strings("a/b/", "z/x/"),
        PathMapping::from_strings("a/b/c/d/", "z/x/y/t/"),
    ];

    let detector = ConflictDetector::new(mappings);
    let result = detector.verify_mappings();

    assert!(result.is_err());
    println!("检测到冲突（只检查有映射的节点）: {:?}", result.err());
}


#[test]
fn test_complex_scenario() {
    // 更复杂的测试场景
    // 规则：以 '/' 结尾的是文件夹
    // a/b/ -> local/x/
    // a/b/c/ -> local/y/
    // a/b/d/ -> local/z/
    // 应该没有冲突，因为映射到不同的本地路径
    let mappings = vec![
        PathMapping::from_strings("a/b/", "local/x/"),
        PathMapping::from_strings("a/b/c/", "local/y/"),
        PathMapping::from_strings("a/b/d/", "local/z/"),
    ];

    let detector = ConflictDetector::new(mappings);
    let result = detector.verify_mappings();

    assert!(result.is_ok());
    println!("复杂场景：没有冲突");
}


#[test]
fn test_non_recursive_mapping() {
    // 测试非递归映射
    // 规则：以 '/' 结尾的是文件夹
    // a/b/ -> z/x/ (非递归)
    // a/b/c/d/ -> z/x/y/t/ (递归)
    // 由于第一个映射是非递归的，它不会匹配 z/x/y/t/（深度 > 1）
    // 因此不应该有冲突
    let mappings = vec![
        PathMapping::from_strings_with_params("a/b/", "z/x/", false, FilenameFilter::All),
        PathMapping::from_strings_with_params(
            "a/b/c/d/",
            "z/x/y/t/",
            true,
            FilenameFilter::All,
        ),
    ];

    let detector = ConflictDetector::new(mappings);
    let result = detector.verify_mappings();

    println!("非递归映射结果: {:?}", result);
    assert!(result.is_ok());
}


#[test]
fn test_non_recursive_mapping_conflict() {
    // 测试非递归映射的冲突情况
    // 规则：以 '/' 结尾的是文件夹
    // a/b/ -> z/x/ (非递归)
    // a/b/c/ -> z/x/y/ (递归)
    // 无冲突
    let mappings = vec![
        PathMapping::from_strings_with_params("a/b/", "z/x/", false, FilenameFilter::All),
        PathMapping::from_strings_with_params("a/b/c/", "z/x/y/", true, FilenameFilter::All),
    ];

    let detector = ConflictDetector::new(mappings);
    let result = detector.verify_mappings();

    println!("非递归映射冲突结果: {:?}", result);
    assert!(result.is_ok());
}


#[test]
fn test_filename_filter_compatible() {
    // 测试文件名过滤器兼容的情况（应该有冲突）
    // 规则：以 '/' 结尾的是文件夹，否则是文件（需要带后缀名）
    // a/b/ -> z/x/ (匹配 .png 文件)
    // a/b/c/d/ -> z/x/y/t/ (匹配 .png 文件)
    // 两个映射都匹配 .png 文件，应该检测到冲突
    let mappings = vec![
        PathMapping::from_strings_with_params(
            "a/b/",
            "z/x/",
            true,
            FilenameFilter::Extension("png".to_string()),
        ),
        PathMapping::from_strings_with_params(
            "a/b/c/d/",
            "z/x/y/t/",
            true,
            FilenameFilter::Extension("png".to_string()),
        ),
    ];

    let detector = ConflictDetector::new(mappings);
    let result = detector.verify_mappings();

    println!("文件名过滤器兼容结果: {:?}", result);
    assert!(result.is_err());
}


#[test]
fn test_filename_filter_incompatible() {
    // 测试文件名过滤器不兼容的情况（不应该有冲突）
    // 规则：以 '/' 结尾的是文件夹，否则是文件（需要带后缀名）
    // a/b/ -> z/x/ (匹配 .png 文件)
    // a/b/c/d/ -> z/x/y/t/ (匹配 .txt 文件)
    // 两个映射匹配不同的文件类型，不应该有冲突
    let mappings = vec![
        PathMapping::from_strings_with_params(
            "a/b/",
            "z/x/",
            true,
            FilenameFilter::Extension("png".to_string()),
        ),
        PathMapping::from_strings_with_params(
            "a/b/c/d/",
            "z/x/y/t/",
            true,
            FilenameFilter::Extension("txt".to_string()),
        ),
    ];

    let detector = ConflictDetector::new(mappings);
    let result = detector.verify_mappings();

    println!("文件名过滤器不兼容结果: {:?}", result);
    assert!(result.is_ok());
}


#[test]
fn test_filename_filter_all_vs_extension() {
    // 测试 All 过滤器与特定后缀名过滤器的情况（应该有冲突）
    // 规则：以 '/' 结尾的是文件夹，否则是文件（需要带后缀名）
    // a/b/ -> z/x/ (匹配所有文件)
    // a/b/c/d/ -> z/x/y/t/ (匹配 .png 文件)
    // All 与任何过滤器都兼容，应该检测到冲突
    let mappings = vec![
        PathMapping::from_strings_with_params("a/b/", "z/x/", true, FilenameFilter::All),
        PathMapping::from_strings_with_params(
            "a/b/c/d/",
            "z/x/y/t/",
            true,
            FilenameFilter::Extension("png".to_string()),
        ),
    ];

    let detector = ConflictDetector::new(mappings);
    let result = detector.verify_mappings();

    println!("All vs Extension 结果: {:?}", result);
    assert!(result.is_err());
}


#[test]
fn test_complex_recursive_and_filter() {
    // 测试复杂场景：递归 + 文件过滤器
    // 规则：以 '/' 结尾的是文件夹，否则是文件（需要带后缀名）
    // a/b/ -> z/x/ (非递归, 匹配 .png 文件)
    // a/b/c/ -> z/x/y/ (递归, 匹配 .txt 文件)
    // a/b/d/ -> z/x/z/ (递归, 匹配 .png 文件)
    // 第一个映射是非递归的，只匹配 z/x/ 下一层的 .png 文件
    // 第二个映射匹配 .txt 文件，与第一个不冲突
    // 第三个映射匹配 .png 文件，但 z/x/z/ 深度为 2，第一个映射不会匹配
    let mappings = vec![
        PathMapping::from_strings_with_params(
            "a/b/",
            "z/x/",
            false,
            FilenameFilter::Extension("png".to_string()),
        ),
        PathMapping::from_strings_with_params(
            "a/b/c/",
            "z/x/y/",
            true,
            FilenameFilter::Extension("txt".to_string()),
        ),
        PathMapping::from_strings_with_params(
            "a/b/d/",
            "z/x/z/",
            true,
            FilenameFilter::Extension("png".to_string()),
        ),
    ];

    let detector = ConflictDetector::new(mappings);
    let result = detector.verify_mappings();

    println!("复杂递归和过滤器结果: {:?}", result);
    assert!(result.is_ok());
}


#[test]
fn test_non_recursive_with_direct_child() {
    // 测试非递归映射与直接子节点的冲突
    // 规则：以 '/' 结尾的是文件夹，否则是文件（需要带后缀名）
    // a/b/ -> z/x/ (非递归, All)
    // a/b/c/ -> z/x/y/ (递归, All)
    // 无冲突
    let mappings = vec![
        PathMapping::from_strings_with_params("a/b/", "z/x/", false, FilenameFilter::All),
        PathMapping::from_strings_with_params("a/b/c/", "z/x/y/", true, FilenameFilter::All),
    ];

    let detector = ConflictDetector::new(mappings);
    let result = detector.verify_mappings();

    println!("非递归与直接子节点结果: {:?}", result);
    assert!(result.is_ok());
}


#[test]
fn test_entity_case_1() {
    // 原始: //a/b/c/... //workspace/
    //       //a/b/c/d/... //workspace/d/
    let mappings = vec![
        PathMapping::from_strings("a/b/c/", "workspace/"),
        PathMapping::from_strings("a/b/c/d/", "workspace/d/"),
    ];
    let detector = ConflictDetector::new(mappings);
    assert!(detector.verify_mappings().is_ok());
}


#[test]
fn test_entity_case_2() {
    // 原始: //a/b/...~a //workspace/a/b/
    //       //a/b/...~b //workspace/a/b/
    //       //a/b/txt.a //workspace/a/b/txt.a
    let mappings = vec![
        PathMapping::from_strings_with_params(
            "a/b/",
            "workspace/a/b/",
            true,
            FilenameFilter::Extension("a".to_string()),
        ),
        PathMapping::from_strings_with_params(
            "a/b/",
            "workspace/a/b/",
            true,
            FilenameFilter::Extension("b".to_string()),
        ),
        PathMapping::new(
            "a/b/txt.a".to_string(),
            "workspace/a/b/txt.a".to_string(),
            false,
            FilenameFilter::Extension("a".to_string()),
        ),
    ];
    let detector = ConflictDetector::new(mappings);
    assert!(detector.verify_mappings().is_ok());
}


#[test]
fn test_entity_case_3() {
    // 原始: //a/b/txt.a //workspace/a/b/
    //       //a/b/txt.a //workspace/a/b/txt.a
    let mappings = vec![
        PathMapping::new(
            "a/b/txt.a".to_string(),
            "workspace/a/b/".to_string(),
            false,
            FilenameFilter::Extension("a".to_string()),
        ),
        PathMapping::new(
            "a/b/txt.a".to_string(),
            "workspace/a/b/txt.a".to_string(),
            false,
            FilenameFilter::Extension("a".to_string()),
        ),
    ];
    let detector = ConflictDetector::new(mappings);
    assert!(detector.verify_mappings().is_ok());
}


#[test]
fn test_entity_case_4() {
    // 原始: //a/b/~a //workspace/a/b/
    //       //a/b/~b //workspace/a/b/
    //       //a/b/txt.a //workspace/a/b/txt.a
    let mappings = vec![
        PathMapping::from_strings_with_params(
            "a/b/",
            "workspace/a/b/",
            false,
            FilenameFilter::Extension("a".to_string()),
        ),
        PathMapping::from_strings_with_params(
            "a/b/",
            "workspace/a/b/",
            false,
            FilenameFilter::Extension("b".to_string()),
        ),
        PathMapping::new(
            "a/b/txt.a".to_string(),
            "workspace/a/b/txt.a".to_string(),
            false,
            FilenameFilter::Extension("a".to_string()),
        ),
    ];
    let detector = ConflictDetector::new(mappings);
    assert!(detector.verify_mappings().is_ok());
}


#[test]
fn test_entity_conflict_1() {
    // 原始: //a/b/...     //workspace/a/b/
    //       //a/b/c/...   //workspace/a/b/c/d/
    // 无冲突
    let mappings = vec![
        PathMapping::from_strings("a/b/", "workspace/a/b/"),
        PathMapping::from_strings("a/b/c/", "workspace/a/b/c/d/"),
    ];
    let detector = ConflictDetector::new(mappings);
    assert!(detector.verify_mappings().is_ok());
}


#[test]
fn test_entity_conflict_2() {
    // 原始: //a/b/...     //workspace/a/b/
    //       //a/b/c/e/... //workspace/a/b/c/d/
    // 冲突
    let mappings = vec![
        PathMapping::from_strings("a/b/", "workspace/a/b/"),
        PathMapping::from_strings("a/b/c/e/", "workspace/a/b/c/d/"),
    ];
    let detector = ConflictDetector::new(mappings);
    assert!(detector.verify_mappings().is_err());
}


#[test]
fn test_entity_conflict_3() {
    // 原始: //a/b/...     //workspace/a/b/
    //       //a/b/c/e/    //workspace/a/b/c/d/
    // 冲突
    let mappings = vec![
        PathMapping::from_strings("a/b/", "workspace/a/b/"),
        PathMapping::from_strings_with_params(
            "a/b/c/e/",
            "workspace/a/b/c/d/",
            false,
            FilenameFilter::All,
        ),
    ];
    let detector = ConflictDetector::new(mappings);
    assert!(detector.verify_mappings().is_err());
}


#[test]
fn test_entity_conflict_4() {
    // 原始: //a/b/        //workspace/a/b/
    //       //a/b/c/e/... //workspace/a/b/c/d/
    // 无冲突
    let mappings = vec![
        PathMapping::from_strings_with_params(
            "a/b/",
            "workspace/a/b/",
            false,
            FilenameFilter::All,
        ),
        PathMapping::from_strings("a/b/c/e/", "workspace/a/b/c/d/"),
    ];
    let detector = ConflictDetector::new(mappings);
    assert!(detector.verify_mappings().is_ok());
}


#[test]
fn test_entity_conflict_5() {
    // 原始: //a/b/c/d/... //workspace/a/b/
    //       //a/b/c/...   //workspace/a/b/c/d/
    // 无冲突
    let mappings = vec![
        PathMapping::from_strings("a/b/c/d/", "workspace/a/b/"),
        PathMapping::from_strings("a/b/c/", "workspace/a/b/c/d/"),
    ];
    let detector = ConflictDetector::new(mappings);
    assert!(detector.verify_mappings().is_ok());
}


#[test]
fn test_entity_conflict_6() {
    // 原始: //a/b/c/d/... //workspace/a/b/
    //       //a/b/c/      //workspace/a/b/c/d/
    // 冲突
    let mappings = vec![
        PathMapping::from_strings("a/b/c/d/", "workspace/a/b/"),
        PathMapping::from_strings_with_params(
            "a/b/c/",
            "workspace/a/b/c/d/",
            false,
            FilenameFilter::All,
        ),
    ];
    let detector = ConflictDetector::new(mappings);
    assert!(detector.verify_mappings().is_err());
}


#[test]
fn test_entity_conflict_7() {
    // 原始: //a/b/c/d/    //workspace/a/b/
    //       //a/b/c/      //workspace/a/b/c/d/
    // 无冲突
    let mappings = vec![
        PathMapping::from_strings_with_params(
            "a/b/c/d/",
            "workspace/a/b/",
            false,
            FilenameFilter::All,
        ),
        PathMapping::from_strings_with_params(
            "a/b/c/",
            "workspace/a/b/c/d/",
            false,
            FilenameFilter::All,
        ),
    ];
    let detector = ConflictDetector::new(mappings);
    assert!(detector.verify_mappings().is_ok());
}


#[test]
fn test_entity_conflict_8() {
    // 原始: //a/b/...     //workspace/a/b/
    //       //a/b/c/d/e/... //workspace/a/b/c/d/
    // 冲突
    let mappings = vec![
        PathMapping::from_strings("a/b/", "workspace/a/b/"),
        PathMapping::from_strings("a/b/c/d/e/", "workspace/a/b/c/d/"),
    ];
    let detector = ConflictDetector::new(mappings);
    assert!(detector.verify_mappings().is_err());
}


#[test]
fn test_entity_conflict_9() {
    // 原始: //a/b/...    //workspace/a/b/
    //       //a/b/c/d/e/ //workspace/a/b/c/d/
    // 冲突
    let mappings = vec![
        PathMapping::from_strings("a/b/", "workspace/a/b/"),
        PathMapping::from_strings_with_params(
            "a/b/c/d/e/",
            "workspace/a/b/c/d/",
            false,
            FilenameFilter::All,
        ),
    ];
    let detector = ConflictDetector::new(mappings);
    assert!(detector.verify_mappings().is_err());
}


#[test]
fn test_entity_conflict_10() {
    // 原始: //a/b/       //workspace/a/b/
    //       //a/b/c/d/e/... //workspace/a/b/c/d/
    // 无冲突
    let mappings = vec![
        PathMapping::from_strings_with_params(
            "a/b/",
            "workspace/a/b/",
            false,
            FilenameFilter::All,
        ),
        PathMapping::from_strings("a/b/c/d/e/", "workspace/a/b/c/d/"),
    ];
    let detector = ConflictDetector::new(mappings);
    assert!(detector.verify_mappings().is_ok());
}


#[test]
fn test_entity_conflict_11() {
    // 原始: //a/b/d/...  //workspace/a/b/
    //       //a/b/c/...  //workspace/a/b/c/d/
    // 冲突
    let mappings = vec![
        PathMapping::from_strings("a/b/d/", "workspace/a/b/"),
        PathMapping::from_strings("a/b/c/", "workspace/a/b/c/d/"),
    ];
    let detector = ConflictDetector::new(mappings);
    assert!(detector.verify_mappings().is_err());
}


#[test]
fn test_entity_conflict_12() {
    // 原始: //a/b/d/...  //workspace/a/b/
    //       //a/b/c/     //workspace/a/b/c/d/
    // 冲突
    let mappings = vec![
        PathMapping::from_strings("a/b/d/", "workspace/a/b/"),
        PathMapping::from_strings_with_params(
            "a/b/c/",
            "workspace/a/b/c/d/",
            false,
            FilenameFilter::All,
        ),
    ];
    let detector = ConflictDetector::new(mappings);
    assert!(detector.verify_mappings().is_err());
}


#[test]
fn test_entity_conflict_13() {
    // 原始: //a/b/d/     //workspace/a/b/
    //       //a/b/c/...  //workspace/a/b/c/d/
    // 无冲突
    let mappings = vec![
        PathMapping::from_strings_with_params(
            "a/b/d/",
            "workspace/a/b/",
            false,
            FilenameFilter::All,
        ),
        PathMapping::from_strings("a/b/c/", "workspace/a/b/c/d/"),
    ];
    let detector = ConflictDetector::new(mappings);
    assert!(detector.verify_mappings().is_ok());
}


#[test]
fn test_entity_conflict_14() {
    // 原始: //a/b/d/...  //workspace/a/b/c/d/
    //       //a/b/...    //workspace/a/b/
    // 无冲突（优先级）
    let mappings = vec![
        PathMapping::from_strings("a/b/d/", "workspace/a/b/c/d/"),
        PathMapping::from_strings("a/b/", "workspace/a/b/"),
    ];
    let detector = ConflictDetector::new(mappings);
    assert!(detector.verify_mappings().is_ok());
}


#[test]
fn test_entity_conflict_15() {
    // 原始: //a/b/c/...  //workspace/a/b/c/d/
    //       //a/b/d/...  //workspace/a/b/
    // 冲突
    let mappings = vec![
        PathMapping::from_strings("a/b/c/", "workspace/a/b/c/d/"),
        PathMapping::from_strings("a/b/d/", "workspace/a/b/"),
    ];
    let detector = ConflictDetector::new(mappings);
    assert!(detector.verify_mappings().is_err());
}


#[test]
fn test_entity_conflict_16() {
    // 原始: //a/b/c/...  //workspace/a/b/c/d/
    //       //a/b/d/     //workspace/a/b/
    // 无冲突
    let mappings = vec![
        PathMapping::from_strings("a/b/c/", "workspace/a/b/c/d/"),
        PathMapping::from_strings_with_params(
            "a/b/d/",
            "workspace/a/b/",
            false,
            FilenameFilter::All,
        ),
    ];
    let detector = ConflictDetector::new(mappings);
    assert!(detector.verify_mappings().is_ok());
}


#[test]
fn test_entity_conflict_17() {
    // 原始: //a/b/...   //workspace/a/b/c/d/
    //       //a/b/d/... //workspace/a/b/
    // 冲突
    let mappings = vec![
        PathMapping::from_strings("a/b/", "workspace/a/b/c/d/"),
        PathMapping::from_strings("a/b/d/", "workspace/a/b/"),
    ];
    let detector = ConflictDetector::new(mappings);
    assert!(detector.verify_mappings().is_err());
}


#[test]
fn test_entity_conflict_18() {
    // 原始: //a/b/...   //workspace/a/b/c/d/
    //       //a/b/d/    //workspace/a/b/
    // 无冲突
    let mappings = vec![
        PathMapping::from_strings("a/b/", "workspace/a/b/c/d/"),
        PathMapping::from_strings_with_params(
            "a/b/d/",
            "workspace/a/b/",
            false,
            FilenameFilter::All,
        ),
    ];
    let detector = ConflictDetector::new(mappings);
    assert!(detector.verify_mappings().is_ok());
}


#[test]
fn test_entity_conflict_19() {
    // 原始: //a/b/c/   //workspace/a/b/
    //       //a/b/     //workspace/a/b/
    // 冲突
    let mappings = vec![
        PathMapping::from_strings_with_params(
            "a/b/c/",
            "workspace/a/b/",
            false,
            FilenameFilter::All,
        ),
        PathMapping::from_strings_with_params(
            "a/b/",
            "workspace/a/b/",
            false,
            FilenameFilter::All,
        ),
    ];
    let detector = ConflictDetector::new(mappings);
    assert!(detector.verify_mappings().is_err());
}


#[test]
fn test_entity_conflict_20() {
    // 原始: //a/b/c/... //workspace/a/b/
    //       //a/b/...  //workspace/a/b/
    // 无冲突（优先级）
    let mappings = vec![
        PathMapping::from_strings("a/b/c/", "workspace/a/b/"),
        PathMapping::from_strings("a/b/", "workspace/a/b/"),
    ];
    let detector = ConflictDetector::new(mappings);
    assert!(detector.verify_mappings().is_ok());
}


#[test]
fn test_entity_conflict_21() {
    // 原始: //a/b/c/   //workspace/a/b/
    //       //a/b/d/   //workspace/a/b/
    // 冲突
    let mappings = vec![
        PathMapping::from_strings_with_params(
            "a/b/c/",
            "workspace/a/b/",
            false,
            FilenameFilter::All,
        ),
        PathMapping::from_strings_with_params(
            "a/b/d/",
            "workspace/a/b/",
            false,
            FilenameFilter::All,
        ),
    ];
    let detector = ConflictDetector::new(mappings);
    assert!(detector.verify_mappings().is_err());
}


#[test]
fn test_entity_conflict_22() {
    // 原始: //a/b/...  //workspace/a/b/
    //       //a/b/d/   //workspace/a/b/
    // 冲突
    let mappings = vec![
        PathMapping::from_strings("a/b/", "workspace/a/b/"),
        PathMapping::from_strings_with_params(
            "a/b/d/",
            "workspace/a/b/",
            false,
            FilenameFilter::All,
        ),
    ];
    let detector = ConflictDetector::new(mappings);
    assert!(detector.verify_mappings().is_err());
}


#[test]
fn test_entity_file_mapping_1() {
    // 原始: //a/b/c/... //workspace/a/b/
    //       //a/b/d/old_name.txt //workspace/a/b/1/new_name.txt
    // 冲突
    let mappings = vec![
        PathMapping::from_strings("a/b/c/", "workspace/a/b/"),
        PathMapping::new(
            "a/b/d/old_name.txt".to_string(),
            "workspace/a/b/1/new_name.txt".to_string(),
            false,
            FilenameFilter::Extension("txt".to_string()),
        ),
    ];
    let detector = ConflictDetector::new(mappings);
    assert!(detector.verify_mappings().is_err());
}


#[test]
fn test_entity_file_mapping_2() {
    // 原始: //a/b/c/   //workspace/a/b/
    //       //a/b/d/old_name.txt //workspace/a/b/1/new_name.txt
    // 无冲突
    let mappings = vec![
        PathMapping::from_strings_with_params(
            "a/b/c/",
            "workspace/a/b/",
            false,
            FilenameFilter::All,
        ),
        PathMapping::new(
            "a/b/d/old_name.txt".to_string(),
            "workspace/a/b/1/new_name.txt".to_string(),
            false,
            FilenameFilter::Extension("txt".to_string()),
        ),
    ];
    let detector = ConflictDetector::new(mappings);
    assert!(detector.verify_mappings().is_ok());
}


#[test]
fn test_entity_file_mapping_3() {
    // 原始: //a/b/c/ //workspace/a/b/
    //       //a/b/d/old_name.txt //workspace/a/b/new_name.txt
    // 冲突
    let mappings = vec![
        PathMapping::from_strings_with_params(
            "a/b/c/",
            "workspace/a/b/",
            false,
            FilenameFilter::All,
        ),
        PathMapping::new(
            "a/b/d/old_name.txt".to_string(),
            "workspace/a/b/new_name.txt".to_string(),
            false,
            FilenameFilter::Extension("txt".to_string()),
        ),
    ];
    let detector = ConflictDetector::new(mappings);
    assert!(detector.verify_mappings().is_err());
}


#[test]
fn test_entity_file_mapping_4() {
    // 原始: //a/b/ //workspace/a/b/
    //       //a/b/file.txt //workspace/a/b/file.txt
    // 无冲突
    let mappings = vec![
        PathMapping::from_strings_with_params(
            "a/b/",
            "workspace/a/b/",
            false,
            FilenameFilter::All,
        ),
        PathMapping::new(
            "a/b/file.txt".to_string(),
            "workspace/a/b/file.txt".to_string(),
            false,
            FilenameFilter::Extension("txt".to_string()),
        ),
    ];
    let detector = ConflictDetector::new(mappings);
    assert!(detector.verify_mappings().is_ok());
}


#[test]
fn test_entity_file_mapping_5() {
    // 原始: //a/b/... //workspace/a/b/
    //       //a/b/file.txt //workspace/a/b/file.txt
    // 无冲突（优先级）
    let mappings = vec![
        PathMapping::from_strings("a/b/", "workspace/a/b/"),
        PathMapping::new(
            "a/b/file.txt".to_string(),
            "workspace/a/b/file.txt".to_string(),
            false,
            FilenameFilter::Extension("txt".to_string()),
        ),
    ];
    let detector = ConflictDetector::new(mappings);
    assert!(detector.verify_mappings().is_ok());
}


#[test]
fn test_entity_file_mapping_6() {
    // 原始: //a/b/ //workspace/a/b/
    //       //a/b/old_name.txt //workspace/a/b/new_name.txt
    // 冲突
    let mappings = vec![
        PathMapping::from_strings_with_params(
            "a/b/",
            "workspace/a/b/",
            false,
            FilenameFilter::All,
        ),
        PathMapping::new(
            "a/b/old_name.txt".to_string(),
            "workspace/a/b/new_name.txt".to_string(),
            false,
            FilenameFilter::Extension("txt".to_string()),
        ),
    ];
    let detector = ConflictDetector::new(mappings);
    assert!(detector.verify_mappings().is_err());
}


#[test]
fn test_entity_file_mapping_7() {
    // 原始: //a/b/... //workspace/a/b/
    //       //a/b/c/old_name.txt //workspace/a/b/new_name.txt
    // 冲突
    let mappings = vec![
        PathMapping::from_strings("a/b/", "workspace/a/b/"),
        PathMapping::new(
            "a/b/c/old_name.txt".to_string(),
            "workspace/a/b/new_name.txt".to_string(),
            false,
            FilenameFilter::Extension("txt".to_string()),
        ),
    ];
    let detector = ConflictDetector::new(mappings);
    assert!(detector.verify_mappings().is_err());
}


#[test]
fn test_entity_file_mapping_8() {
    // 原始: //a/b/ //workspace/a/b/
    //       //a/b/old_name.txt //workspace/a/b/c/new_name.txt
    // 无冲突
    let mappings = vec![
        PathMapping::from_strings_with_params(
            "a/b/",
            "workspace/a/b/",
            false,
            FilenameFilter::All,
        ),
        PathMapping::new(
            "a/b/old_name.txt".to_string(),
            "workspace/a/b/c/new_name.txt".to_string(),
            false,
            FilenameFilter::Extension("txt".to_string()),
        ),
    ];
    let detector = ConflictDetector::new(mappings);
    assert!(detector.verify_mappings().is_ok());
}


#[test]
fn test_entity_file_mapping_9() {
    // 原始: //a/b/d/... //workspace/a/b/c/
    //       //a/b/c/old_name.txt //workspace/a/b/new_name.txt
    // 无冲突
    let mappings = vec![
        PathMapping::from_strings("a/b/d/", "workspace/a/b/c/"),
        PathMapping::new(
            "a/b/c/old_name.txt".to_string(),
            "workspace/a/b/new_name.txt".to_string(),
            false,
            FilenameFilter::Extension("txt".to_string()),
        ),
    ];
    let detector = ConflictDetector::new(mappings);
    assert!(detector.verify_mappings().is_ok());
}


#[test]
fn test_entity_file_mapping_10() {
    // 原始: //a/b/... //workspace/a/b/c/
    //       //a/b/c/old_name.txt //workspace/a/b/new_name.txt
    // 无冲突
    let mappings = vec![
        PathMapping::from_strings("a/b/", "workspace/a/b/c/"),
        PathMapping::new(
            "a/b/c/old_name.txt".to_string(),
            "workspace/a/b/new_name.txt".to_string(),
            false,
            FilenameFilter::Extension("txt".to_string()),
        ),
    ];
    let detector = ConflictDetector::new(mappings);
    assert!(detector.verify_mappings().is_ok());
}


#[test]
fn test_entity_file_mapping_11() {
    // 原始: //a/b/old_name.txt //workspace/a/b/new_name.txt
    //       //a/b/c/ //workspace/a/b/c/
    // 无冲突
    let mappings = vec![
        PathMapping::new(
            "a/b/old_name.txt".to_string(),
            "workspace/a/b/new_name.txt".to_string(),
            false,
            FilenameFilter::Extension("txt".to_string()),
        ),
        PathMapping::from_strings_with_params(
            "a/b/c/",
            "workspace/a/b/c/",
            false,
            FilenameFilter::All,
        ),
    ];
    let detector = ConflictDetector::new(mappings);
    assert!(detector.verify_mappings().is_ok());
}


#[test]
fn test_entity_file_mapping_12() {
    // 原始: //a/b/old_name.txt //workspace/a/b/new_name.txt
    //       //a/b/... //workspace/a/b/
    // 无冲突（优先级）
    let mappings = vec![
        PathMapping::new(
            "a/b/old_name.txt".to_string(),
            "workspace/a/b/new_name.txt".to_string(),
            false,
            FilenameFilter::Extension("txt".to_string()),
        ),
        PathMapping::from_strings("a/b/", "workspace/a/b/"),
    ];
    let detector = ConflictDetector::new(mappings);
    assert!(detector.verify_mappings().is_ok());
}


#[test]
fn test_entity_file_mapping_13() {
    // 原始: //a/b/old_name.txt //workspace/a/b/new_name.txt
    //       //a/b/ //workspace/a/b/
    // 无冲突
    let mappings = vec![
        PathMapping::new(
            "a/b/old_name.txt".to_string(),
            "workspace/a/b/new_name.txt".to_string(),
            false,
            FilenameFilter::Extension("txt".to_string()),
        ),
        PathMapping::from_strings_with_params(
            "a/b/",
            "workspace/a/b/",
            false,
            FilenameFilter::All,
        ),
    ];
    let detector = ConflictDetector::new(mappings);
    assert!(detector.verify_mappings().is_ok());
}


#[test]
fn test_entity_file_mapping_14() {
    // 原始: //a/b/new_name.txt //workspace/a/b/new_name.txt
    //       //a/b/ //workspace/a/b/
    // 无冲突
    let mappings = vec![
        PathMapping::new(
            "a/b/new_name.txt".to_string(),
            "workspace/a/b/new_name.txt".to_string(),
            false,
            FilenameFilter::Extension("txt".to_string()),
        ),
        PathMapping::from_strings_with_params(
            "a/b/",
            "workspace/a/b/",
            false,
            FilenameFilter::All,
        ),
    ];
    let detector = ConflictDetector::new(mappings);
    assert!(detector.verify_mappings().is_ok());
}


#[test]
fn test_entity_file_mapping_15() {
    // 原始: //a/b/c/old_name.txt //workspace/a/b/new_name.txt
    //       //a/b/ //workspace/a/b/
    // 冲突
    let mappings = vec![
        PathMapping::new(
            "a/b/c/old_name.txt".to_string(),
            "workspace/a/b/new_name.txt".to_string(),
            false,
            FilenameFilter::Extension("txt".to_string()),
        ),
        PathMapping::from_strings_with_params(
            "a/b/",
            "workspace/a/b/",
            false,
            FilenameFilter::All,
        ),
    ];
    let detector = ConflictDetector::new(mappings);
    assert!(detector.verify_mappings().is_err());
}


#[test]
fn test_entity_file_mapping_16() {
    // 原始: //a/b/file.txt //workspace/a/b/file.txt
    //       //a/b/ //workspace/a/b/c/
    // 无冲突
    let mappings = vec![
        PathMapping::new(
            "a/b/file.txt".to_string(),
            "workspace/a/b/file.txt".to_string(),
            false,
            FilenameFilter::Extension("txt".to_string()),
        ),
        PathMapping::from_strings_with_params(
            "a/b/",
            "workspace/a/b/c/",
            false,
            FilenameFilter::All,
        ),
    ];
    let detector = ConflictDetector::new(mappings);
    assert!(detector.verify_mappings().is_ok());
}


#[test]
fn test_entity_file_mapping_17() {
    // 原始: //a/b/c/file.txt //workspace/a/b/file.txt
    //       //a/b/ //workspace/a/b/c/
    // 无冲突
    let mappings = vec![
        PathMapping::new(
            "a/b/c/file.txt".to_string(),
            "workspace/a/b/file.txt".to_string(),
            false,
            FilenameFilter::Extension("txt".to_string()),
        ),
        PathMapping::from_strings_with_params(
            "a/b/",
            "workspace/a/b/c/",
            false,
            FilenameFilter::All,
        ),
    ];
    let detector = ConflictDetector::new(mappings);
    assert!(detector.verify_mappings().is_ok());
}


#[test]
fn test_entity_file_mapping_18() {
    // 原始: //a/b/file.txt //workspace/a/b/c/file.txt
    //       //a/b/c/ //workspace/a/b/
    // 无冲突
    let mappings = vec![
        PathMapping::new(
            "a/b/file.txt".to_string(),
            "workspace/a/b/c/file.txt".to_string(),
            false,
            FilenameFilter::Extension("txt".to_string()),
        ),
        PathMapping::from_strings_with_params(
            "a/b/c/",
            "workspace/a/b/",
            false,
            FilenameFilter::All,
        ),
    ];
    let detector = ConflictDetector::new(mappings);
    assert!(detector.verify_mappings().is_ok());
}


#[test]
fn test_entity_file_mapping_19() {
    // 原始: //a/b/file.txt //workspace/a/b/c/file.txt
    //       //a/b/c/... //workspace/a/b/
    // 冲突
    let mappings = vec![
        PathMapping::new(
            "a/b/file.txt".to_string(),
            "workspace/a/b/c/file.txt".to_string(),
            false,
            FilenameFilter::Extension("txt".to_string()),
        ),
        PathMapping::from_strings("a/b/c/", "workspace/a/b/"),
    ];
    let detector = ConflictDetector::new(mappings);
    assert!(detector.verify_mappings().is_err());
}


#[test]
fn test_entity_file_mapping_20() {
    // 原始: //a/b/file.txt //workspace/a/b/file.txt
    //       //a/b/c/ //workspace/a/b/
    // 冲突
    let mappings = vec![
        PathMapping::new(
            "a/b/file.txt".to_string(),
            "workspace/a/b/file.txt".to_string(),
            false,
            FilenameFilter::Extension("txt".to_string()),
        ),
        PathMapping::from_strings_with_params(
            "a/b/c/",
            "workspace/a/b/",
            false,
            FilenameFilter::All,
        ),
    ];
    let detector = ConflictDetector::new(mappings);
    assert!(detector.verify_mappings().is_err());
}


#[test]
fn test_entity_file_mapping_21() {
    // 原始: //a/b/file.txt //workspace/a/b/file.txt
    //       //a/b/c/... //workspace/a/b/
    // 冲突
    let mappings = vec![
        PathMapping::new(
            "a/b/file.txt".to_string(),
            "workspace/a/b/file.txt".to_string(),
            false,
            FilenameFilter::Extension("txt".to_string()),
        ),
        PathMapping::from_strings("a/b/c/", "workspace/a/b/"),
    ];
    let detector = ConflictDetector::new(mappings);
    assert!(detector.verify_mappings().is_err());
}

#[test]
fn filters_sharing_a_suffix_are_compatible() {
    let tar_gz = FilenameFilter::Extension("tar.gz".to_string());
    let gz = FilenameFilter::Extension("gz".to_string());
    assert!(tar_gz.is_compatible_with(&gz));
    assert!(gz.is_compatible_with(&tar_gz));
    let png = FilenameFilter::Extension("png".to_string());
    let txt = FilenameFilter::Extension("txt".to_string());
    assert!(!png.is_compatible_with(&txt));
    assert!(png.is_compatible_with(&png));
    assert!(FilenameFilter::All.is_compatible_with(&txt));
    assert!(txt.is_compatible_with(&FilenameFilter::All));
}
