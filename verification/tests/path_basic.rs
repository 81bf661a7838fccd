use crv_core::path::basic::{DepotPath, DepotPathWildcard, LocalDir, LocalPath, LocalPathWildcard, PathError};

#[test]
fn test_depot_path_parse() {
    // 1. 正确解析
    let path = "//crv/cli/src/build.rs";
    let depot_path = DepotPath::parse(path);
    assert!(depot_path.is_ok());
    let depot_path = depot_path.unwrap();
    assert_eq!(depot_path.to_custom_string(), "//crv/cli/src/build.rs");

    let path = "//crv/cli/src/新建文本文档.txt";
    let depot_path = DepotPath::parse(path);
    assert!(depot_path.is_ok());
    let depot_path = depot_path.unwrap();
    assert_eq!(
        depot_path.to_custom_string(),
        "//crv/cli/src/新建文本文档.txt"
    );

    // 2. 语法错误
    let path = "///crv/cli/src/build.rs";
    let depot_path = DepotPath::parse(path);
    assert!(depot_path.is_err());
    let depot_path_err = depot_path.err().unwrap();
    assert!(matches!(depot_path_err, PathError::SyntaxError(_)));
    println!("{}:{:?}", path, depot_path_err);

    let path = "//crv//cli/src/build.rs";
    let depot_path = DepotPath::parse(path);
    assert!(depot_path.is_err());
    let depot_path_err = depot_path.err().unwrap();
    assert!(matches!(depot_path_err, PathError::SyntaxError(_)));
    println!("{}:{:?}", path, depot_path_err);

    let path = "/crv/cli/src/build.rs";
    let depot_path = DepotPath::parse(path);
    assert!(depot_path.is_err());
    let depot_path_err = depot_path.err().unwrap();
    assert!(matches!(depot_path_err, PathError::SyntaxError(_)));
    println!("{}:{:?}", path, depot_path_err);

    let path = "//crv/cli/src/";
    let depot_path = DepotPath::parse(path);
    assert!(depot_path.is_err());
    let depot_path_err = depot_path.err().unwrap();
    assert!(matches!(depot_path_err, PathError::SyntaxError(_)));
    println!("{}:{:?}", path, depot_path_err);

    // 3. 非法字符 `...`，已经是范围索引 depot path 的保留字
    let path = "//crv/cli/src.../build.rs";
    let depot_path = DepotPath::parse(path);
    assert!(depot_path.is_err());
    let depot_path_err = depot_path.err().unwrap();
    assert!(matches!(depot_path_err, PathError::SyntaxError(_)));
    println!("{}:{:?}", path, depot_path_err);

    let path = "//crv/cli/src/...";
    let depot_path = DepotPath::parse(path);
    assert!(depot_path.is_err());
    let depot_path_err = depot_path.err().unwrap();
    assert!(matches!(depot_path_err, PathError::SyntaxError(_)));
    println!("{}:{:?}", path, depot_path_err);

    // 文件名以空格结尾
    let path = "//crv/cli/src/新建文本文档.txt ";
    let depot_path = DepotPath::parse(path);
    assert!(depot_path.is_err());
    let depot_path_err = depot_path.err().unwrap();
    assert!(matches!(depot_path_err, PathError::SyntaxError(_)));
    println!("{}:{:?}", path, depot_path_err);

    // 4. 非法字符 `~`，已经是范围索引 depot path 的保留字
    let path = "//crv/cli/src/~build.rs";
    let depot_path = DepotPath::parse(path);
    assert!(depot_path.is_err());
    let depot_path_err = depot_path.err().unwrap();
    assert!(matches!(depot_path_err, PathError::SyntaxError(_)));
    println!("{}:{:?}", path, depot_path_err);

    // 5. 其他非法字符 `"*\|/<>?:`
    let path = "//crv/cli/s?rc/build.rs";
    let depot_path = DepotPath::parse(path);
    assert!(depot_path.is_err());
    let depot_path_err = depot_path.err().unwrap();
    assert!(matches!(depot_path_err, PathError::SyntaxError(_)));
    println!("{}:{:?}", path, depot_path_err);
}


#[test]
fn test_range_depot_wildcard_parse() {
    // 1. 正确解析
    let path = "//crv/cli/src/build.rs";
    let depot_path = DepotPathWildcard::parse(path);
    assert!(depot_path.is_ok());
    let depot_path = depot_path.unwrap();
    assert_eq!(depot_path.to_custom_string(), "//crv/cli/src/build.rs");

    let path = "//crv/cli/src/";
    let depot_path = DepotPathWildcard::parse(path);
    assert!(depot_path.is_ok());
    let depot_path = depot_path.unwrap();
    assert_eq!(depot_path.to_custom_string(), "//crv/cli/src/");

    let path = "//crv/cli/src/...";
    let depot_path = DepotPathWildcard::parse(path);
    println!("{:?}", depot_path);
    assert!(depot_path.is_ok());
    let depot_path = depot_path.unwrap();
    assert_eq!(depot_path.to_custom_string(), "//crv/cli/src/...");

    let path = "//crv/cli/src/...~txt.meta";
    let depot_path = DepotPathWildcard::parse(path);
    assert!(depot_path.is_ok());
    let depot_path = depot_path.unwrap();
    assert_eq!(depot_path.to_custom_string(), "//crv/cli/src/...~txt.meta");

    let path = "//crv/cli/src/~.meta";
    let depot_path = DepotPathWildcard::parse(path);
    assert!(depot_path.is_ok());
    let depot_path = depot_path.unwrap();
    assert_eq!(depot_path.to_custom_string(), "//crv/cli/src/~.meta");

    // 2. 语法错误
    let path = "///crv/cli/src/build.rs";
    let depot_path = DepotPathWildcard::parse(path);
    assert!(depot_path.is_err());
    let depot_path_err = depot_path.err().unwrap();
    assert!(matches!(depot_path_err, PathError::SyntaxError(_)));
    println!("{}:{:?}", path, depot_path_err);

    let path = "//crv//cli/src/build.rs";
    let depot_path = DepotPathWildcard::parse(path);
    assert!(depot_path.is_err());
    let depot_path_err = depot_path.err().unwrap();
    assert!(matches!(depot_path_err, PathError::SyntaxError(_)));
    println!("{}:{:?}", path, depot_path_err);

    let path = "/crv/cli/src/build.rs";
    let depot_path = DepotPathWildcard::parse(path);
    assert!(depot_path.is_err());
    let depot_path_err = depot_path.err().unwrap();
    assert!(matches!(depot_path_err, PathError::SyntaxError(_)));
    println!("{}:{:?}", path, depot_path_err);

    // 文件名以空格结尾
    let path = "//crv/cli/src/新建文本文档.txt ";
    let depot_path = DepotPathWildcard::parse(path);
    assert!(depot_path.is_err());
    let depot_path_err = depot_path.err().unwrap();
    assert!(matches!(depot_path_err, PathError::SyntaxError(_)));
    println!("{}:{:?}", path, depot_path_err);

    // 3. 非法字符 `...`，已经是范围索引 depot path 的保留字
    let path = "//crv/cli/src.../build.rs";
    let depot_path = DepotPathWildcard::parse(path);
    assert!(depot_path.is_err());
    let depot_path_err = depot_path.err().unwrap();
    assert!(matches!(depot_path_err, PathError::SyntaxError(_)));
    println!("{}:{:?}", path, depot_path_err);

    // 4. 非法字符 `~`，已经是范围索引 depot path 的保留字
    let path = "//crv/cli/s~c/~rs";
    let depot_path = DepotPathWildcard::parse(path);
    assert!(depot_path.is_err());
    let depot_path_err = depot_path.err().unwrap();
    assert!(matches!(depot_path_err, PathError::SyntaxError(_)));
    println!("{}:{:?}", path, depot_path_err);

    // 5. 其他非法字符 `"*\|/<>?:`
    let path = "//crv/cli/s?rc/...~rs";
    let depot_path = DepotPathWildcard::parse(path);
    assert!(depot_path.is_err());
    let depot_path_err = depot_path.err().unwrap();
    assert!(matches!(depot_path_err, PathError::SyntaxError(_)));
    println!("{}:{:?}", path, depot_path_err);
}


#[test]
fn test_regex_depot_wildcard() {
    // 1. 正确解析
    let path = r"r://\.rs$";
    let depot_path = DepotPathWildcard::parse(path);
    assert!(depot_path.is_ok());
    let depot_path = depot_path.unwrap();
    assert_eq!(depot_path.to_custom_string(), r"r://\.rs$");

    let path = r"r://^crv/cli/.*\.rs$";
    let depot_path = DepotPathWildcard::parse(path);
    assert!(depot_path.is_ok());
    let depot_path = depot_path.unwrap();
    assert_eq!(depot_path.to_custom_string(), r"r://^crv/cli/.*\.rs$");

    let path = "r:///crv/cli/src/build.rs"; // 正则表达式是 `/crv/cli/src/build.rs`，虽然什么都匹配不了，但是语法是对的
    let depot_path = DepotPathWildcard::parse(path);
    assert!(depot_path.is_ok());
    let depot_path = depot_path.unwrap();
    assert_eq!(depot_path.to_custom_string(), "r:///crv/cli/src/build.rs");

    let path = "r://crv/cli/src/build.rs "; // 正则表达式是 `crv/cli/src/build.rs `，虽然什么都匹配不了，但是语法是对的
    let depot_path = DepotPathWildcard::parse(path);
    assert!(depot_path.is_ok());
    let depot_path = depot_path.unwrap();
    assert_eq!(depot_path.to_custom_string(), "r://crv/cli/src/build.rs ");

    // 2. 语法错误
    let path = "regex://crv/cli/src/build.rs";
    let depot_path = DepotPathWildcard::parse(path);
    assert!(depot_path.is_err());
    let depot_path_err = depot_path.err().unwrap();
    assert!(matches!(depot_path_err, PathError::SyntaxError(_)));
    println!("{}:{:?}", path, depot_path_err);

    let path = "r:://crv/cli/src/build.rs";
    let depot_path = DepotPathWildcard::parse(path);
    assert!(depot_path.is_err());
    let depot_path_err = depot_path.err().unwrap();
    assert!(matches!(depot_path_err, PathError::SyntaxError(_)));
    println!("{}:{:?}", path, depot_path_err);

    let path = "r::/crv/cli/src/build.rs";
    let depot_path = DepotPathWildcard::parse(path);
    assert!(depot_path.is_err());
    let depot_path_err = depot_path.err().unwrap();
    assert!(matches!(depot_path_err, PathError::SyntaxError(_)));
    println!("{}:{:?}", path, depot_path_err);

    // 3. 正则错误
    let path = "r://[a-";
    let depot_path = DepotPathWildcard::parse(path);
    assert!(depot_path.is_err());
    let depot_path_err = depot_path.err().unwrap();
    assert!(matches!(depot_path_err, PathError::RegexError(_)));
    println!("{}:{:?}", path, depot_path_err);
}


#[test]
fn test_local_dir_parse() {
    let path = r"C:\Users/Documents/";
    let local_dir = LocalDir::parse(path);
    assert!(local_dir.is_ok());
    let local_dir = local_dir.unwrap();
    assert_eq!(local_dir.to_unix_path_string(), "/C/Users/Documents/");

    let path = r"C:\Users/Documents\";
    let local_dir = LocalDir::parse(path);
    assert!(local_dir.is_ok());
    let local_dir = local_dir.unwrap();
    assert_eq!(local_dir.to_unix_path_string(), "/C/Users/Documents/");
}


#[test]
fn test_local_path_parse_windows() {
    // 1. Windows 路径 - 基本格式
    let path = r"C:\Users\Documents\file.txt";
    let local_path = LocalPath::parse(path);
    assert!(local_path.is_ok());
    let local_path = local_path.unwrap();
    assert_eq!(local_path.dirs.0, vec!["C", "Users", "Documents"]);
    assert_eq!(local_path.file, "file.txt");
    assert_eq!(
        local_path.to_unix_path_string(),
        "/C/Users/Documents/file.txt".to_string()
    );

    // 2. Windows 路径 - 使用正斜杠
    let path = "D:/Projects/rust/main.rs";
    let local_path = LocalPath::parse(path);
    assert!(local_path.is_ok());
    let local_path = local_path.unwrap();
    assert_eq!(local_path.dirs.0, vec!["D", "Projects", "rust"]);
    assert_eq!(local_path.file, "main.rs");
    assert_eq!(
        local_path.to_unix_path_string(),
        "/D/Projects/rust/main.rs".to_string()
    );

    // 3. Windows 路径 - 混合斜杠
    let path = r"E:\Work/code\src/lib.rs";
    let local_path = LocalPath::parse(path);
    assert!(local_path.is_ok());
    let local_path = local_path.unwrap();
    assert_eq!(local_path.dirs.0, vec!["E", "Work", "code", "src"]);
    assert_eq!(local_path.file, "lib.rs");
    assert_eq!(
        local_path.to_unix_path_string(),
        "/E/Work/code/src/lib.rs".to_string()
    );

    // 4. Windows 路径 - 小写盘符
    let path = r"c:\temp\test.txt";
    let local_path = LocalPath::parse(path);
    assert!(local_path.is_ok());
    let local_path = local_path.unwrap();
    assert_eq!(local_path.dirs.0, vec!["c", "temp"]);
    assert_eq!(local_path.file, "test.txt");
    assert_eq!(
        local_path.to_unix_path_string(),
        "/c/temp/test.txt".to_string()
    );

    // 5. Windows 路径 - 根目录文件
    let path = r"Z:\readme.md";
    let local_path = LocalPath::parse(path);
    assert!(local_path.is_ok());
    let local_path = local_path.unwrap();
    assert_eq!(local_path.dirs.0, vec!["Z"]);
    assert_eq!(local_path.file, "readme.md");
    assert_eq!(local_path.to_unix_path_string(), "/Z/readme.md".to_string());

    // 6. Windows 路径 - 中文路径
    let path = r"C:\用户\文档\新建文本文档.txt";
    let local_path = LocalPath::parse(path);
    assert!(local_path.is_ok());
    let local_path = local_path.unwrap();
    assert_eq!(local_path.dirs.0, vec!["C", "用户", "文档"]);
    assert_eq!(local_path.file, "新建文本文档.txt");
    assert_eq!(
        local_path.to_unix_path_string(),
        "/C/用户/文档/新建文本文档.txt".to_string()
    );

    // 7. Windows 路径 - 带空格
    let path = r"C:\Program Files\My App\config.json";
    let local_path = LocalPath::parse(path);
    assert!(local_path.is_ok());
    let local_path = local_path.unwrap();
    assert_eq!(local_path.dirs.0, vec!["C", "Program Files", "My App"]);
    assert_eq!(local_path.file, "config.json");
    assert_eq!(
        local_path.to_unix_path_string(),
        "/C/Program Files/My App/config.json".to_string()
    );
}


#[test]
fn test_local_path_parse_unix() {
    // 1. Unix 路径 - 基本格式
    let path = "/home/user/documents/file.txt";
    let local_path = LocalPath::parse(path);
    assert!(local_path.is_ok());
    let local_path = local_path.unwrap();
    assert_eq!(local_path.dirs.0, vec!["home", "user", "documents"]);
    assert_eq!(local_path.file, "file.txt");

    // 2. Unix 路径 - 根目录文件
    let path = "/etc/hosts";
    let local_path = LocalPath::parse(path);
    assert!(local_path.is_ok());
    let local_path = local_path.unwrap();
    assert_eq!(local_path.dirs.0, vec!["etc"]);
    assert_eq!(local_path.file, "hosts");

    // 3. Unix 路径 - 深层嵌套
    let path = "/var/log/nginx/access.log";
    let local_path = LocalPath::parse(path);
    assert!(local_path.is_ok());
    let local_path = local_path.unwrap();
    assert_eq!(local_path.dirs.0, vec!["var", "log", "nginx"]);
    assert_eq!(local_path.file, "access.log");

    // 4. Unix 路径 - 带空格
    let path = "/home/user/My Documents/report.pdf";
    let local_path = LocalPath::parse(path);
    assert!(local_path.is_ok());
    let local_path = local_path.unwrap();
    assert_eq!(local_path.dirs.0, vec!["home", "user", "My Documents"]);
    assert_eq!(local_path.file, "report.pdf");

    // 5. Unix 路径 - 中文路径
    let path = "/home/用户/文档/测试.txt";
    let local_path = LocalPath::parse(path);
    assert!(local_path.is_ok());
    let local_path = local_path.unwrap();
    assert_eq!(local_path.dirs.0, vec!["home", "用户", "文档"]);
    assert_eq!(local_path.file, "测试.txt");

    // 6. Unix 路径 - 特殊字符（合法的）
    let path = "/opt/app-v1.2.3/config_prod.yaml";
    let local_path = LocalPath::parse(path);
    assert!(local_path.is_ok());
    let local_path = local_path.unwrap();
    assert_eq!(local_path.dirs.0, vec!["opt", "app-v1.2.3"]);
    assert_eq!(local_path.file, "config_prod.yaml");
}


#[test]
fn test_local_path_parse_errors() {
    // 1. 空路径
    let path = "";
    let local_path = LocalPath::parse(path);
    assert!(local_path.is_err());
    if let Err(e) = local_path {
        assert!(matches!(e, PathError::SyntaxError(_)));
        println!("Empty path: {:?}", e);
    }

    // 2. 相对路径（不是绝对路径）
    let path = "relative/path/file.txt";
    let local_path = LocalPath::parse(path);
    assert!(local_path.is_err());
    if let Err(e) = local_path {
        println!("Relative path: {:?}", e);
    }

    // 3. Windows - 无效盘符格式
    let path = "C/Users/file.txt"; // 缺少冒号
    let local_path = LocalPath::parse(path);
    assert!(local_path.is_err());
    if let Err(e) = local_path {
        println!("Invalid drive: {:?}", e);
    }

    // 4. Unix - 以目录分隔符结尾（无文件名）
    let path = "/home/user/documents/";
    let local_path = LocalPath::parse(path);
    assert!(local_path.is_err());
    if let Err(e) = local_path {
        println!("Trailing slash: {:?}", e);
    }

    // 5. Windows - 以目录分隔符结尾
    let path = r"C:\Users\Documents\";
    let local_path = LocalPath::parse(path);
    assert!(local_path.is_err());
    if let Err(e) = local_path {
        println!("Windows trailing slash: {:?}", e);
    }

    // 6. 连续的分隔符
    let path = "/home//user/file.txt";
    let local_path = LocalPath::parse(path);
    assert!(local_path.is_err());
    if let Err(e) = local_path {
        println!("Double slash: {:?}", e);
    }

    // 7. 包含保留字符 `...`
    let path = "/home/user/.../file.txt";
    let local_path = LocalPath::parse(path);
    assert!(local_path.is_err());
    if let Err(e) = local_path {
        assert!(matches!(e, PathError::SyntaxError(_)));
        println!("Reserved pattern: {:?}", e);
    }

    // 8. 包含保留字符 `~`
    let path = "/home/user/~test/file.txt";
    let local_path = LocalPath::parse(path);
    assert!(local_path.is_err());
    if let Err(e) = local_path {
        assert!(matches!(e, PathError::SyntaxError(_)));
        println!("Reserved char ~: {:?}", e);
    }

    // 9. 包含非法字符（depot path 定义的非法字符）
    let path = r"C:\Users\test|file.txt";
    let local_path = LocalPath::parse(path);
    assert!(local_path.is_err());
    if let Err(e) = local_path {
        assert!(matches!(e, PathError::SyntaxError(_)));
        println!("Illegal char |: {:?}", e);
    }

    // 10. 文件名以空格结尾
    let path = "/home/user/file.txt ";
    let local_path = LocalPath::parse(path);
    assert!(local_path.is_err());
    if let Err(e) = local_path {
        assert!(matches!(e, PathError::SyntaxError(_)));
        println!("Trailing whitespace: {:?}", e);
    }

    // 11. Windows - 文件名以空格结尾
    let path = r"C:\Users\file.txt ";
    let local_path = LocalPath::parse(path);
    assert!(local_path.is_err());
    if let Err(e) = local_path {
        assert!(matches!(e, PathError::SyntaxError(_)));
        println!("Windows trailing whitespace: {:?}", e);
    }

    // 12. 包含通配符字符
    let path = "/home/user/*.txt";
    let local_path = LocalPath::parse(path);
    assert!(local_path.is_err());
    if let Err(e) = local_path {
        assert!(matches!(e, PathError::SyntaxError(_)));
        println!("Wildcard char: {:?}", e);
    }

    // 13. Windows - 无效盘符（多个字符）
    let path = "ABC:\\file.txt";
    let local_path = LocalPath::parse(path);
    assert!(local_path.is_err());
    if let Err(e) = local_path {
        println!("Invalid drive letter: {:?}", e);
    }
}


#[test]
fn test_local_path_edge_cases() {
    // 1. 单字母文件名
    let path = "/a";
    let local_path = LocalPath::parse(path);
    assert!(local_path.is_ok());
    let local_path = local_path.unwrap();
    assert_eq!(local_path.dirs.0, Vec::<String>::new());
    assert_eq!(local_path.file, "a");

    // 2. Windows - 单字母文件名
    let path = "C:\\x";
    let local_path = LocalPath::parse(path);
    assert!(local_path.is_ok());
    let local_path = local_path.unwrap();
    assert_eq!(local_path.dirs.0, vec!["C"]);
    assert_eq!(local_path.file, "x");

    // 3. 很长的路径
    let path = "/a/b/c/d/e/f/g/h/i/j/k/l/m/n/o/p/q/r/s/t/u/v/w/x/y/z.txt";
    let local_path = LocalPath::parse(path);
    assert!(local_path.is_ok());
    let local_path = local_path.unwrap();
    assert_eq!(local_path.file, "z.txt");
    assert_eq!(local_path.dirs.0.len(), 25);

    // 4. 文件名有多个扩展名
    let path = "/home/user/archive.tar.gz";
    let local_path = LocalPath::parse(path);
    assert!(local_path.is_ok());
    let local_path = local_path.unwrap();
    assert_eq!(local_path.file, "archive.tar.gz");

    // 5. 隐藏文件（Unix）
    let path = "/home/user/.bashrc";
    let local_path = LocalPath::parse(path);
    assert!(local_path.is_ok());
    let local_path = local_path.unwrap();
    assert_eq!(local_path.file, ".bashrc");

    // 6. 没有扩展名的文件
    let path = "/usr/bin/python3";
    let local_path = LocalPath::parse(path);
    assert!(local_path.is_ok());
    let local_path = local_path.unwrap();
    assert_eq!(local_path.file, "python3");
}


#[test]
fn test_local_path_wildcard_parse() {
    // 1. 正确解析
    let path = "/crv/cli/src/build.rs";
    let depot_path = LocalPathWildcard::parse(path);
    assert!(depot_path.is_ok());
    let depot_path = depot_path.unwrap();
    assert_eq!(depot_path.to_custom_string(), "/crv/cli/src/build.rs");

    let path = "/crv/cli/src/";
    let depot_path = LocalPathWildcard::parse(path);
    assert!(depot_path.is_ok());
    let depot_path = depot_path.unwrap();
    assert_eq!(depot_path.to_custom_string(), "/crv/cli/src/");

    let path = "/crv/cli/src/...";
    let depot_path = LocalPathWildcard::parse(path);
    println!("{:?}", depot_path);
    assert!(depot_path.is_ok());
    let depot_path = depot_path.unwrap();
    assert_eq!(depot_path.to_custom_string(), "/crv/cli/src/...");

    let path = "D:\\crv/cli/src\\...~txt.meta";
    let depot_path = LocalPathWildcard::parse(path);
    assert!(depot_path.is_ok());
    let depot_path = depot_path.unwrap();
    assert_eq!(depot_path.to_custom_string(), "/D/crv/cli/src/...~txt.meta");

    let path = "/crv/cli/src/~.meta";
    let depot_path = LocalPathWildcard::parse(path);
    assert!(depot_path.is_ok());
    let depot_path = depot_path.unwrap();
    assert_eq!(depot_path.to_custom_string(), "/crv/cli/src/~.meta");

    // 2. 语法错误
    let path = "//crv/cli/src/build.rs";
    let depot_path = LocalPathWildcard::parse(path);
    assert!(depot_path.is_err());
    let depot_path_err = depot_path.err().unwrap();
    assert!(matches!(depot_path_err, PathError::SyntaxError(_)));
    println!("{}:{:?}", path, depot_path_err);

    let path = "/crv//cli/src/build.rs";
    let depot_path = LocalPathWildcard::parse(path);
    assert!(depot_path.is_err());
    let depot_path_err = depot_path.err().unwrap();
    assert!(matches!(depot_path_err, PathError::SyntaxError(_)));
    println!("{}:{:?}", path, depot_path_err);

    // 文件名以空格结尾
    let path = "/crv/cli/src/新建文本文档.txt ";
    let depot_path = LocalPathWildcard::parse(path);
    assert!(depot_path.is_err());
    let depot_path_err = depot_path.err().unwrap();
    assert!(matches!(depot_path_err, PathError::SyntaxError(_)));
    println!("{}:{:?}", path, depot_path_err);

    // 3. 非法字符 `...`，已经是范围索引 depot path 的保留字
    let path = "/crv/cli/src.../build.rs";
    let depot_path = LocalPathWildcard::parse(path);
    assert!(depot_path.is_err());
    let depot_path_err = depot_path.err().unwrap();
    assert!(matches!(depot_path_err, PathError::SyntaxError(_)));
    println!("{}:{:?}", path, depot_path_err);

    // 4. 非法字符 `~`，已经是范围索引 depot path 的保留字
    let path = "/crv/cli/s~c/~rs";
    let depot_path = LocalPathWildcard::parse(path);
    assert!(depot_path.is_err());
    let depot_path_err = depot_path.err().unwrap();
    assert!(matches!(depot_path_err, PathError::SyntaxError(_)));
    println!("{}:{:?}", path, depot_path_err);

    // 5. 其他非法字符 `"*\|/<>?:`
    let path = "/crv/cli/s?rc/...~rs";
    let depot_path = LocalPathWildcard::parse(path);
    assert!(depot_path.is_err());
    let depot_path_err = depot_path.err().unwrap();
    assert!(matches!(depot_path_err, PathError::SyntaxError(_)));
    println!("{}:{:?}", path, depot_path_err);
}

#[test]
fn local_path_in_local_form() {
    let p = LocalPath { dirs: LocalDir(vec!["a".to_string(), "b".to_string()]), file: "f.txt".to_string() };
    assert_eq!(p.to_local_path_string(), "/a/b/f.txt");
    let q = LocalPath { dirs: LocalDir(vec![]), file: "f.txt".to_string() };
    assert_eq!(q.to_local_path_string(), "/f.txt");
}

#[test]
fn syntax_error_names_the_place() {
    match DepotPath::parse("//a/b/") {
        Err(PathError::SyntaxError(m)) => assert!(m.starts_with("found ")),
        other => panic!("unexpected: {:?}", other),
    }
    match DepotPath::parse("") {
        Err(PathError::SyntaxError(m)) => assert_eq!(m, "found end of input at 0"),
        other => panic!("unexpected: {:?}", other),
    }
}

#[test]
fn windows_forms_of_local_paths() {
    let d = LocalDir(vec!["C".to_string(), "Users".to_string(), "me".to_string()]);
    assert_eq!(d.to_windows_path_string(), "C:\\Users\\me\\");
    let drive_only = LocalDir(vec!["D:".to_string()]);
    assert_eq!(drive_only.to_windows_path_string(), "D:\\");
    let p = LocalPath { dirs: LocalDir(vec!["C:".to_string(), "Users".to_string()]), file: "file.txt".to_string() };
    assert_eq!(p.to_windows_path_string(), "C:\\Users\\file.txt");
    let q = LocalPath { dirs: LocalDir(vec!["C".to_string()]), file: "file.txt".to_string() };
    assert_eq!(q.to_windows_path_string(), "C:\\file.txt");
}

#[test]
fn unix_form_of_local_dirs() {
    assert_eq!(LocalDir(vec![]).to_local_path_string(), "/");
    let d = LocalDir(vec!["a".to_string(), "b".to_string()]);
    assert_eq!(d.to_local_path_string(), "/a/b/");
    assert_eq!(d.to_local_path_string(), d.to_unix_path_string());
}
