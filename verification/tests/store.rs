//! Path and store behaviour.

use leafpaths::Leaf;
use leafpaths::LeafPaths;
use leafpaths::SchemaPath;
use leafpaths::Step;
use leafpaths::split_slash_path;

#[test]
fn path_string() {
    let path = SchemaPath(vec![
        Step::Key("uno".into()),
        Step::Key("due".into()),
        Step::Key("tre".into()),
    ]);
    assert_eq!(path.to_string(), "uno/due/tre");
}

#[test]
fn listpaths() {
    let path = SchemaPath(vec![
        Step::Key("uno".into()),
        Step::Key("due".into()),
        Step::Key("tre".into()),
    ]);
    let mut leaf_paths = LeafPaths::new();
    leaf_paths.insert(path, Leaf::String("empty not empty".into()));

    assert_eq!(leaf_paths.listpaths(), vec!["uno/due/tre"]);
    assert_eq!(
        leaf_paths.get("uno/due/tre".into()),
        Some("empty not empty".into())
    );
}

#[test]
fn get() {
    let mut leaf_paths = LeafPaths::new();
    leaf_paths.insert(
        SchemaPath(vec![Step::Key("wut".into())]),
        Leaf::String("empty not empty".into()),
    );

    assert_eq!(leaf_paths.listpaths(), vec!["wut"]);
    assert_eq!(leaf_paths.get("wut".into()), Some("empty not empty".into()));
}

#[test]
fn basic_subtree_order() {
    let path1 = SchemaPath(split_slash_path("top"));
    let path2 = SchemaPath(vec![Step::Key("top".into()), Step::Key("next".into())]);
    let path3 = SchemaPath(vec![
        Step::Key("top".into()),
        Step::Key("next".into()),
        Step::Key("innter".into()),
    ]);

    assert!(path1 < path2);
    assert!(path2 < path3);
    assert!(path1 < path3);

    assert!(!(path1 == path2));
    assert!(!(path2 == path3));
    assert!(!(path1 == path3));
}

#[test]
fn split_indices() {
    // a purely numeric segment is an index, anything else a key
    let steps = split_slash_path("root/things/3/name/first");
    assert_eq!(
        steps,
        vec![
            Step::Key("root".into()),
            Step::Key("things".into()),
            Step::Index(3),
            Step::Key("name".into()),
            Step::Key("first".into()),
        ]
    );
}

#[test]
fn split_empty_and_odd_segments() {
    // the empty text is a single empty-name key
    assert_eq!(split_slash_path(""), vec![Step::Key("".into())]);
    // a digit segment too large for the machine stays a key
    let steps = split_slash_path("a/18446744073709551616");
    assert_eq!(
        steps,
        vec![
            Step::Key("a".into()),
            Step::Key("18446744073709551616".into()),
        ]
    );
    // a signed or mixed segment is a key
    assert_eq!(split_slash_path("+3"), vec![Step::Key("+3".into())]);
    assert_eq!(split_slash_path("3x"), vec![Step::Key("3x".into())]);
}

#[test]
fn index_display_round_trip() {
    let path = SchemaPath(split_slash_path("things/2/name"));
    assert_eq!(path.to_string(), "things/2/name");
    let path = SchemaPath(vec![Step::Index(0), Step::Index(907)]);
    assert_eq!(path.to_string(), "0/907");
}

#[test]
fn add_then_get_returns_display() {
    // for all paths and values: add(p, v) then get(p) yields v
    let mut leaf_paths = LeafPaths::new();
    leaf_paths.add("some/path/3".into(), "a value".into());
    assert_eq!(leaf_paths.get("some/path/3".into()), Some("a value".into()));

    leaf_paths.add("some/path/3".into(), "replaced".into());
    assert_eq!(leaf_paths.get("some/path/3".into()), Some("replaced".into()));
}

#[test]
fn listpaths_sorted_keys_before_indices() {
    let mut leaf_paths = LeafPaths::new();
    leaf_paths.add("b".into(), "2".into());
    leaf_paths.add("a/3".into(), "idx".into());
    leaf_paths.add("a/zz".into(), "key".into());
    leaf_paths.add("a".into(), "1".into());
    // ascending path order: a prefix sorts first, and at one position every
    // key sorts before every index
    assert_eq!(leaf_paths.listpaths(), vec!["a", "a/zz", "a/3", "b"]);
}

#[test]
fn delete_then_get_absent() {
    let mut leaf_paths = LeafPaths::new();
    leaf_paths.add("here".into(), "x".into());
    leaf_paths.delete("here".into());
    assert_eq!(leaf_paths.get("here".into()), None);

    // deleting what was never there is not an error
    leaf_paths.delete("never/was".into());
    assert_eq!(leaf_paths.get("never/was".into()), None);
    assert_eq!(leaf_paths.listpaths(), Vec::<String>::new());
}

#[test]
fn empty_path_text_is_a_key() {
    let mut leaf_paths = LeafPaths::new();
    leaf_paths.add("".into(), "at the empty key".into());
    assert_eq!(leaf_paths.get("".into()), Some("at the empty key".into()));
    assert_eq!(leaf_paths.listpaths(), vec![""]);
}

#[test]
fn get_leaf_keeps_variant() {
    let mut leaf_paths = LeafPaths::new();
    leaf_paths.add("p".into(), "5".into());
    // added text is a string leaf, even when it looks numeric
    assert_eq!(
        leaf_paths.get_leaf(&SchemaPath(split_slash_path("p"))),
        Some(Leaf::String("5".into()))
    );
    assert_eq!(leaf_paths.get_leaf(&SchemaPath(split_slash_path("q"))), None);
}
