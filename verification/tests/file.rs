use askbend::file::FsEntry;
use askbend::FileOperator;

fn entry(dirs: &[&str], file_name: &str) -> FsEntry {
    FsEntry {
        dirs: dirs.iter().map(|d| d.to_string()).collect(),
        file_name: file_name.to_string(),
    }
}

fn testdata_walk() -> Vec<FsEntry> {
    vec![
        entry(&[], "1.md"),
        entry(&[], "2.md"),
        entry(&["ignore_dir"], "3.md"),
    ]
}

#[test]
pub fn test_list() {
    let operator = FileOperator::create("tests/testdata/", "md", &[]);
    let metas = operator.list_from_entries(&testdata_walk());
    println!("{:?}", metas);
    assert!(metas.len() == 3);
    assert!(metas[0].file_name == "1.md");
    assert_eq!(metas[0].dir, "tests/testdata");
    assert_eq!(metas[0].full_path, "tests/testdata/1.md");
}

#[test]
pub fn test_list_ignore_dir() {
    let operator = FileOperator::create("tests/testdata/", "md", &["ignore_dir".to_string()]);
    let metas = operator.list_from_entries(&testdata_walk());
    println!("{:?}", metas);
    assert!(metas.len() == 2);
}

#[test]
fn list_three_direct_files() {
    let operator = FileOperator::create("tests/testdata/", "md", &[]);
    let entries = vec![entry(&[], "1.md"), entry(&[], "2.md"), entry(&[], "3.md")];
    let metas = operator.list_from_entries(&entries);
    assert_eq!(metas.len(), 3);
    assert_eq!(metas[0].file_name, "1.md");
    assert_eq!(metas[0].dir, "tests/testdata");
    assert_eq!(metas[0].full_path, "tests/testdata/1.md");
}

#[test]
fn list_sorts_by_full_path() {
    let operator = FileOperator::create("root", "md", &[]);
    let entries = vec![
        entry(&["b"], "1.md"),
        entry(&[], "z.md"),
        entry(&["a"], "2.md"),
        entry(&[], "a.md"),
    ];
    let metas = operator.list_from_entries(&entries);
    assert_eq!(metas.len(), 4);
    let paths: Vec<&str> = metas.iter().map(|m| m.full_path.as_str()).collect();
    assert_eq!(paths, vec!["root/a.md", "root/a/2.md", "root/b/1.md", "root/z.md"]);
}

#[test]
fn list_is_independent_of_walk_order() {
    let operator = FileOperator::create("root", "md", &[]);
    let forward = vec![entry(&[], "a.md"), entry(&["d"], "b.md"), entry(&[], "c.md")];
    let backward = vec![entry(&[], "c.md"), entry(&["d"], "b.md"), entry(&[], "a.md")];
    let first = operator.list_from_entries(&forward);
    let second = operator.list_from_entries(&backward);
    assert_eq!(first.len(), second.len());
    for (x, y) in first.iter().zip(second.iter()) {
        assert_eq!(x.full_path, y.full_path);
        assert_eq!(x.dir, y.dir);
        assert_eq!(x.file_name, y.file_name);
    }
}

#[test]
fn ignored_name_excludes_any_depth() {
    let operator = FileOperator::create("root", "md", &["skip".to_string()]);
    let entries = vec![
        entry(&[], "top.md"),
        entry(&["skip"], "direct.md"),
        entry(&["a", "skip"], "nested.md"),
        entry(&["a", "skip", "b"], "deeper.md"),
        entry(&["a", "b"], "kept.md"),
    ];
    let metas = operator.list_from_entries(&entries);
    let paths: Vec<&str> = metas.iter().map(|m| m.full_path.as_str()).collect();
    assert_eq!(paths, vec!["root/a/b/kept.md", "root/top.md"]);
}

#[test]
fn extension_match_is_exact_and_case_sensitive() {
    let operator = FileOperator::create("root", "md", &[]);
    let entries = vec![
        entry(&[], "plain.md"),
        entry(&[], "double.dot.md"),
        entry(&[], "upper.MD"),
        entry(&[], "suffix.md.txt"),
        entry(&[], "md"),
        entry(&[], ".md"),
        entry(&[], "notmd"),
    ];
    let metas = operator.list_from_entries(&entries);
    let names: Vec<&str> = metas.iter().map(|m| m.file_name.as_str()).collect();
    assert_eq!(names, vec!["double.dot.md", "plain.md"]);
}

#[test]
fn empty_walk_gives_empty_listing() {
    let operator = FileOperator::create("root", "md", &[]);
    let metas = operator.list_from_entries(&Vec::new());
    assert!(metas.is_empty());
}

#[test]
fn root_without_trailing_slash_is_kept_as_is() {
    let operator = FileOperator::create("docs", "md", &[]);
    let metas = operator.list_from_entries(&vec![entry(&["guide"], "intro.md")]);
    assert_eq!(metas.len(), 1);
    assert_eq!(metas[0].dir, "docs/guide");
    assert_eq!(metas[0].full_path, "docs/guide/intro.md");
}
