use tonic_include_protos::builder::{build_tree, TreeError};
use tonic_include_protos::emit::{emit, generate};
use tonic_include_protos::order::{name_lt, same_name, sorted_names};
use tonic_include_protos::segments::split_segments;
use tonic_include_protos::tree::TreeEntry;

fn names(list: &[&str]) -> Vec<String> {
    list.iter().map(|s| s.to_string()).collect()
}

fn leaf(dir: &str, file: &str) -> String {
    format!("splice!(\"{}/{}\");", dir, file)
}

#[test]
fn single_segment_name_gets_one_namespace() {
    let out = generate(&names(&["root.rs"]), "/out", "splice").unwrap();
    assert_eq!(out, format!("pub mod root {{{}}}", leaf("/out", "root.rs")));
    assert_eq!(out.matches("pub mod").count(), 1);
}

#[test]
fn deep_name_nests_four_levels() {
    let out = generate(&names(&["a.b.c.d.rs"]), "/out", "splice").unwrap();
    assert_eq!(
        out,
        format!(
            "pub mod a {{pub mod b {{pub mod c {{pub mod d {{{}}}}}}}}}",
            leaf("/out", "a.b.c.d.rs")
        )
    );
}

#[test]
fn shared_prefix_shares_namespaces() {
    let out = generate(&names(&["a.b.x.rs", "a.b.y.rs"]), "/out", "splice").unwrap();
    assert_eq!(
        out,
        format!(
            "pub mod a {{pub mod b {{pub mod x {{{}}}pub mod y {{{}}}}}}}",
            leaf("/out", "a.b.x.rs"),
            leaf("/out", "a.b.y.rs")
        )
    );
    assert_eq!(out.matches("pub mod a ").count(), 1);
    assert_eq!(out.matches("pub mod b ").count(), 1);
}

#[test]
fn prefix_path_collides_in_either_order() {
    for list in [["a.b.rs", "a.b.c.rs"], ["a.b.c.rs", "a.b.rs"]] {
        match generate(&names(&list), "/out", "splice") {
            Err(TreeError::Collision(n)) => assert!(n == "a.b.rs" || n == "a.b.c.rs"),
            other => panic!("expected a collision, got {:?}", other),
        }
    }
}

#[test]
fn every_file_gets_one_directive() {
    let files = ["google.api.http.rs", "google.api.annotations.rs", "google.logging.v2.rs", "grpc.health.v1.rs"];
    let out = generate(&names(&files), "/gen", "splice").unwrap();
    for f in files {
        assert_eq!(out.matches(&leaf("/gen", f)).count(), 1);
    }
    assert_eq!(out.matches("splice!").count(), files.len());
    assert_eq!(out.matches('{').count(), out.matches('}').count());
}

#[test]
fn input_order_does_not_change_output() {
    let a = generate(&names(&["x.b.rs", "a.c.rs", "x.a.rs", "a.b.rs"]), "/d", "splice").unwrap();
    let b = generate(&names(&["a.b.rs", "x.a.rs", "a.c.rs", "x.b.rs"]), "/d", "splice").unwrap();
    let c = generate(&names(&["a.c.rs", "a.b.rs", "x.b.rs", "x.a.rs"]), "/d", "splice").unwrap();
    assert_eq!(a, b);
    assert_eq!(b, c);
    assert_eq!(
        a,
        format!(
            "pub mod a {{pub mod b {{{}}}pub mod c {{{}}}}}pub mod x {{pub mod a {{{}}}pub mod b {{{}}}}}",
            leaf("/d", "a.b.rs"),
            leaf("/d", "a.c.rs"),
            leaf("/d", "x.a.rs"),
            leaf("/d", "x.b.rs")
        )
    );
}

#[test]
fn repeated_name_counts_once() {
    let out = generate(&names(&["a.rs", "a.rs"]), "/d", "splice").unwrap();
    assert_eq!(out, format!("pub mod a {{{}}}", leaf("/d", "a.rs")));
}

#[test]
fn empty_directory_gives_empty_text() {
    assert_eq!(generate(&Vec::new(), "/d", "splice").unwrap(), "");
}

#[test]
fn name_without_rs_segment_is_malformed() {
    match generate(&names(&["a.rs", "descriptor.bin"]), "/d", "splice") {
        Err(TreeError::Malformed(n)) => assert_eq!(n, "descriptor.bin"),
        other => panic!("expected malformed, got {:?}", other),
    }
    assert!(matches!(build_tree(&names(&["rs"])), Err(TreeError::Malformed(_))));
    assert!(matches!(build_tree(&names(&["a.rs.x"])), Err(TreeError::Malformed(_))));
}

#[test]
fn inner_rs_segment_is_a_namespace() {
    let out = generate(&names(&["foo.rs.bar.rs"]), "/d", "splice").unwrap();
    assert_eq!(
        out,
        format!("pub mod foo {{pub mod rs {{pub mod bar {{{}}}}}}}", leaf("/d", "foo.rs.bar.rs"))
    );
}

#[test]
fn split_keeps_empty_segments() {
    assert_eq!(split_segments("a.b.rs"), names(&["a", "b", "rs"]));
    assert_eq!(split_segments("a..b"), names(&["a", "", "b"]));
    assert_eq!(split_segments(""), names(&[""]));
    assert_eq!(split_segments(".x."), names(&["", "x", ""]));
    assert_eq!(split_segments("plain"), names(&["plain"]));
}

#[test]
fn names_sort_and_dedup() {
    let s = sorted_names(&names(&["b", "ab", "a", "b", "aa"]));
    assert_eq!(s, names(&["a", "aa", "ab", "b"]));
    assert!(name_lt("a", "ab"));
    assert!(!name_lt("ab", "a"));
    assert!(name_lt("A", "a"));
    assert!(!name_lt("a", "a"));
    assert!(same_name("abc", "abc"));
    assert!(!same_name("abc", "abd"));
}

#[test]
fn tree_children_by_name() {
    let mut t = TreeEntry::Branch(Vec::new());
    assert!(t.get("a").is_none());
    t.insert("a".to_string(), TreeEntry::Branch(Vec::new()));
    t.insert("b".to_string(), TreeEntry::Node("b.rs".to_string()));
    assert!(t.get("a").unwrap().is_branch());
    assert!(!t.get("b").unwrap().is_branch());
    if let Some(child) = t.get_mut("a") {
        child.insert("c".to_string(), TreeEntry::Node("a.c.rs".to_string()));
    }
    assert!(t.get_mut("z").is_none());
    t.insert("b".to_string(), TreeEntry::Node("other.rs".to_string()));
    assert_eq!(
        emit(&t, "m", "/o"),
        "pub mod a {pub mod c {m!(\"/o/a.c.rs\");}}pub mod b {m!(\"/o/other.rs\");}"
    );
}

#[test]
fn children_come_out_in_name_order() {
    let mut t = TreeEntry::Branch(Vec::new());
    t.insert("zeta".to_string(), TreeEntry::Node("zeta.rs".to_string()));
    t.insert("alpha".to_string(), TreeEntry::Node("alpha.rs".to_string()));
    t.insert("mid".to_string(), TreeEntry::Node("mid.rs".to_string()));
    assert_eq!(
        emit(&t, "m", "/o"),
        "pub mod alpha {m!(\"/o/alpha.rs\");}pub mod mid {m!(\"/o/mid.rs\");}pub mod zeta {m!(\"/o/zeta.rs\");}"
    );
}

#[test]
fn built_tree_follows_the_segments() {
    let t = build_tree(&names(&["a.b.rs", "a.c.d.rs", "e.rs"])).unwrap();
    let a = t.get("a").unwrap();
    assert!(a.is_branch());
    match a.get("b").unwrap() {
        TreeEntry::Node(f) => assert_eq!(f, "a.b.rs"),
        other => panic!("expected a leaf, got {:?}", other),
    }
    match a.get("c").unwrap().get("d").unwrap() {
        TreeEntry::Node(f) => assert_eq!(f, "a.c.d.rs"),
        other => panic!("expected a leaf, got {:?}", other),
    }
    assert!(!t.get("e").unwrap().is_branch());
    assert!(t.get("b").is_none());
}

#[test]
fn leaf_emits_directive() {
    let t = TreeEntry::Node("x.y.rs".to_string());
    assert_eq!(emit(&t, "splice", "/p/q"), "splice!(\"/p/q/x.y.rs\");");
}
