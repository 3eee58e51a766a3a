use dirdigest::aggregate::{aggregate, compose_request, push_record, AggregateError, FileText};
use dirdigest::ignore::{rule_from_line, IgnoreIndex, IGNORE_FILE_NAME};
use dirdigest::text::{components, split_string, strip_carriage_return, text_lines};
use dirdigest::tree::{Dir, Entry, Tree};

fn dir(path: &str, ignore_text: Option<&str>, entries: Vec<Entry>) -> Dir {
    Dir {
        path: path.to_string(),
        ignore_text: ignore_text.map(|t| t.to_string()),
        entries,
    }
}

fn file(path: &str) -> Entry {
    Entry::File(path.to_string())
}

fn plan_of(tree: &Tree) -> Vec<(String, String)> {
    assert!(tree.is_well_formed());
    let index = tree.collect_ignore_index();
    tree.files_to_read(&index)
        .into_iter()
        .map(|f| (f.dir, f.path))
        .collect()
}

fn read_all(plan: &[(String, String)], contents: &[(&str, Option<&str>)]) -> Vec<FileText> {
    plan.iter()
        .map(|(d, p)| {
            let content = contents
                .iter()
                .find(|(path, _)| *path == p.as_str())
                .map(|(_, c)| c.map(|c| c.to_string()))
                .unwrap();
            FileText { dir: d.clone(), path: p.clone(), content }
        })
        .collect()
}

fn aggregate_text(files: &Vec<FileText>) -> String {
    match aggregate(files) {
        Ok(s) => s,
        Err(AggregateError::UnreadableContent { path }) => panic!("unreadable {path}"),
    }
}

fn strings(v: &[&str]) -> Vec<String> {
    v.iter().map(|s| s.to_string()).collect()
}

#[test]
fn ignore_file_inside_the_directory_it_excludes() {
    let tree = Tree {
        dirs: vec![
            dir(".", None, vec![file("./a.txt"), Entry::Subdir(1)]),
            dir("./b", Some("b"), vec![file("./b/c.txt"), file("./b/.gitignore")]),
        ],
    };
    let index = tree.collect_ignore_index();
    assert_eq!(index.rules, strings(&["./b"]));
    let plan = plan_of(&tree);
    assert_eq!(plan, vec![(".".to_string(), "./a.txt".to_string())]);
    let files = read_all(&plan, &[("./a.txt", Some("hello")), ("./b/c.txt", Some("world"))]);
    let text = aggregate_text(&files);
    assert_eq!(text, "Directory: .\nhello\n\n");
    assert!(!text.contains("world"));
}

#[test]
fn two_files_without_ignore_files() {
    let tree = Tree { dirs: vec![dir(".", None, vec![file("./x"), file("./y")])] };
    let plan = plan_of(&tree);
    assert_eq!(plan.len(), 2);
    let files = read_all(&plan, &[("./x", Some("first")), ("./y", Some("second"))]);
    let text = aggregate_text(&files);
    assert_eq!(text, "Directory: .\nfirst\n\nDirectory: .\nsecond\n\n");
}

#[test]
fn every_file_of_a_tree_without_ignore_files() {
    let tree = Tree {
        dirs: vec![
            dir(".", None, vec![Entry::Subdir(1), file("./top"), Entry::Subdir(2)]),
            dir("./p", None, vec![file("./p/one"), Entry::Subdir(3)]),
            dir("./q", None, vec![]),
            dir("./p/r", None, vec![file("./p/r/two")]),
        ],
    };
    let plan = plan_of(&tree);
    assert_eq!(
        plan,
        vec![
            ("./p".to_string(), "./p/one".to_string()),
            ("./p/r".to_string(), "./p/r/two".to_string()),
            (".".to_string(), "./top".to_string()),
        ]
    );
}

#[test]
fn later_ignore_file_suppresses_earlier_directory() {
    let tree = Tree {
        dirs: vec![
            dir(".", None, vec![Entry::Subdir(1), Entry::Subdir(2)]),
            dir("./a", None, vec![file("./a/f")]),
            dir("./z", Some("a\n"), vec![file("./z/g")]),
        ],
    };
    let plan = plan_of(&tree);
    assert_eq!(plan, vec![("./z".to_string(), "./z/g".to_string())]);
}

#[test]
fn excluded_subtree_is_skipped_whole() {
    let tree = Tree {
        dirs: vec![
            dir(".", Some("build"), vec![Entry::Subdir(1), file("./keep")]),
            dir("./build", None, vec![Entry::Subdir(2), file("./build/out")]),
            dir("./build/deep", None, vec![file("./build/deep/x")]),
        ],
    };
    let plan = plan_of(&tree);
    assert_eq!(plan, vec![(".".to_string(), "./keep".to_string())]);
}

#[test]
fn rule_matches_whole_components_only() {
    let mut index = IgnoreIndex::new();
    index.add_ignore_text("b");
    assert!(index.excludes("./b"));
    assert!(index.excludes("./b/c"));
    assert!(index.excludes("./b/"));
    assert!(!index.excludes("./bc"));
    assert!(!index.excludes("."));
    assert!(!index.excludes("/b"));
}

#[test]
fn blank_line_rule_excludes_everything() {
    let mut index = IgnoreIndex::new();
    index.add_ignore_text("x\n\ny");
    assert_eq!(index.rules, strings(&["./x", "./", "./y"]));
    assert!(index.excludes("."));
    assert!(index.excludes("./anything/else"));
}

#[test]
fn empty_index_excludes_nothing() {
    let index = IgnoreIndex::new();
    assert!(!index.excludes("."));
    assert!(!index.excludes(""));
}

#[test]
fn ignore_rules_keep_order_and_duplicates() {
    let mut index = IgnoreIndex::new();
    index.add_ignore_text("target\r\nlogs\n");
    index.add_ignore_text("target");
    assert_eq!(index.rules, strings(&["./target", "./logs", "./target"]));
}

#[test]
fn rule_from_line_is_rooted() {
    assert_eq!(rule_from_line(&"src/gen".to_string()), "./src/gen");
    assert_eq!(rule_from_line(&String::new()), "./");
}

#[test]
fn lines_follow_line_endings() {
    assert_eq!(text_lines("a\r\nb\n"), strings(&["a", "b"]));
    assert_eq!(text_lines(""), Vec::<String>::new());
    assert_eq!(text_lines("\n"), strings(&[""]));
    assert_eq!(text_lines("a\n\nb"), strings(&["a", "", "b"]));
    assert_eq!(text_lines("a\r"), strings(&["a\r"]));
    for t in ["x\ny\r\n", "", "\r\n\r\n", "tail\r", "é\nü"] {
        let expected: Vec<String> = t.lines().map(|l| l.to_string()).collect();
        assert_eq!(text_lines(t), expected);
    }
}

#[test]
fn split_keeps_empty_pieces() {
    assert_eq!(split_string("a//b/", '/'), strings(&["a", "", "b", ""]));
    assert_eq!(split_string("", '/'), strings(&[""]));
}

#[test]
fn strip_carriage_return_only_at_end() {
    assert_eq!(strip_carriage_return(&"a\r".to_string()), "a");
    assert_eq!(strip_carriage_return(&"\ra".to_string()), "\ra");
}

#[test]
fn path_components_like_std_paths() {
    assert_eq!(components("./b/"), strings(&[".", "b"]));
    assert_eq!(components("/x//y/."), strings(&["/", "x", "y"]));
    assert_eq!(components("a/./b"), strings(&["a", "b"]));
    assert_eq!(components(""), Vec::<String>::new());
    assert_eq!(components("."), strings(&["."]));
    for p in ["./b/", "/x//y/.", "a/./b", ".", "./../c", "//a"] {
        let expected: Vec<String> = std::path::Path::new(p)
            .components()
            .map(|c| c.as_os_str().to_string_lossy().into_owned())
            .collect();
        assert_eq!(components(p), expected);
    }
}

#[test]
fn unreadable_file_fails_the_whole_run() {
    let files = vec![
        FileText { dir: ".".to_string(), path: "./ok".to_string(), content: Some("fine".to_string()) },
        FileText { dir: ".".to_string(), path: "./bin".to_string(), content: None },
        FileText { dir: ".".to_string(), path: "./bin2".to_string(), content: None },
    ];
    match aggregate(&files) {
        Ok(_) => panic!("expected an error"),
        Err(AggregateError::UnreadableContent { path }) => assert_eq!(path, "./bin"),
    }
}

#[test]
fn aggregate_of_nothing_is_empty() {
    assert_eq!(aggregate_text(&Vec::new()), "");
}

#[test]
fn aggregation_repeats_on_same_tree() {
    let tree = Tree {
        dirs: vec![
            dir(".", Some("skip"), vec![file("./k"), Entry::Subdir(1)]),
            dir("./skip", None, vec![file("./skip/s")]),
        ],
    };
    let contents = [("./k", Some("kept")), ("./skip/s", Some("gone"))];
    let first = aggregate_text(&read_all(&plan_of(&tree), &contents));
    let second = aggregate_text(&read_all(&plan_of(&tree), &contents));
    assert_eq!(first, second);
    assert_eq!(first, "Directory: .\nkept\n\n");
}

#[test]
fn push_record_appends_one_record() {
    let mut acc = "start".to_string();
    push_record(&mut acc, "./d", "body");
    assert_eq!(acc, "startDirectory: ./d\nbody\n\n");
}

#[test]
fn compose_request_joins_with_separator() {
    assert_eq!(
        compose_request("ctx", "do it"),
        "ctx\n:**and this is the directive**  => do it"
    );
}

#[test]
fn tree_well_formedness() {
    let ok = Tree { dirs: vec![dir(".", None, vec![Entry::Subdir(1)]), dir("./a", None, vec![])] };
    assert!(ok.is_well_formed());
    let backwards = Tree { dirs: vec![dir(".", None, vec![Entry::Subdir(0)])] };
    assert!(!backwards.is_well_formed());
    let missing = Tree { dirs: vec![dir(".", None, vec![Entry::Subdir(5)])] };
    assert!(!missing.is_well_formed());
    assert!(!Tree { dirs: vec![] }.is_well_formed());
}

#[test]
fn ignore_file_name_is_gitignore() {
    assert_eq!(IGNORE_FILE_NAME, ".gitignore");
}
