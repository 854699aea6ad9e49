//! Flattening documents in and rebuilding subtrees out.

use leafpaths::Collector;
use leafpaths::LeafPaths;
use leafpaths::SchemaPath;
use leafpaths::Step;
use leafpaths::split_slash_path;

fn json(text: &str) -> serde_json::Value {
    serde_json::from_str(text).unwrap()
}

#[test]
fn addtree_obj() {
    let doc = r#"{
      "top": "this",
      "next": {
        "inner": "some value"
      }
    }"#;

    let mut leaf_paths = LeafPaths::new();
    leaf_paths.addtree("uno/due/tre".into(), doc.into()).unwrap();

    let expected_path_one = SchemaPath(split_slash_path("uno/due/tre/next/inner"));
    let expected_path_two = SchemaPath(split_slash_path("uno/due/tre/top"));
    let expected_value_one = leafpaths::Leaf::String("some value".to_string());
    let expected_value_two = leafpaths::Leaf::String("this".to_string());

    assert_eq!(leaf_paths.get_leaf(&expected_path_one).unwrap(), expected_value_one);
    assert_eq!(leaf_paths.get_leaf(&expected_path_two).unwrap(), expected_value_two);
}

#[test]
fn addtree_singular() {
    let doc = r#""singular""#;

    let mut leaf_paths = LeafPaths::new();
    leaf_paths.addtree("uno/due/tre".into(), doc.into()).unwrap();

    let expected_path_one = SchemaPath(split_slash_path("uno/due/tre"));
    let expected_value_one = leafpaths::Leaf::String("singular".to_string());

    assert_eq!(leaf_paths.get_leaf(&expected_path_one).unwrap(), expected_value_one);
}

#[test]
fn addtree() {
    let doc = r#"{
      "top": "this",
      "next": {
        "inner": "some value"
      }
    }"#;

    let mut leaf_paths = LeafPaths::new();
    leaf_paths.addtree("uno/due/tre".into(), doc.into()).unwrap();

    let expected_path_one = SchemaPath(split_slash_path("uno/due/tre/next/inner"));
    let expected_value_one = leafpaths::Leaf::String("some value".to_string());
    let expected_path_two = SchemaPath(split_slash_path("uno/due/tre/top"));
    let expected_value_two = leafpaths::Leaf::String("this".to_string());

    assert_eq!(leaf_paths.get_leaf(&expected_path_one).unwrap(), expected_value_one);
    assert_eq!(leaf_paths.get_leaf(&expected_path_two).unwrap(), expected_value_two);
}

#[test]
fn bad() {
    let doc = r#""singular": "bad bad json"#;

    let mut leaf_paths = LeafPaths::new();
    let err = leaf_paths.addtree("uno/due/tre".into(), doc.into()).unwrap_err();

    assert_eq!(
        err.to_string(),
        "Error(\"trailing characters\", line: 1, column: 11)"
    );
    // nothing from the failed call was committed
    assert_eq!(leaf_paths.listpaths(), Vec::<String>::new());
}

#[test]
fn subtree_paths() {
    let doc = r#"{
      "top": "this",
      "next": {
        "inner": "some value"
      }
    }"#;

    let mut leaf_paths = LeafPaths::new();
    leaf_paths.addtree("root".into(), doc.into()).unwrap();
    // the converse case - this should be excluded when checking root
    leaf_paths
        .addtree("another".into(), r#""singular""#.into())
        .unwrap();

    // small subtree
    let paths = leaf_paths.subtree_paths(SchemaPath(split_slash_path("root/next")));
    assert_eq!(paths.len(), 1);
    assert_eq!(paths[0].0.to_string(), "root/next/inner");

    // bigger subtree
    let paths = leaf_paths.subtree_paths(SchemaPath(split_slash_path("root")));
    assert_eq!(paths.len(), 2);
    assert_eq!(paths[0].0.to_string(), "root/next/inner");
    assert_eq!(paths[1].0.to_string(), "root/top");

    // and finally, the whole tree
    let paths = leaf_paths.subtree_paths(SchemaPath(vec![]));
    assert_eq!(paths.len(), 3);
    assert_eq!(paths[0].0.to_string(), "another");
    assert_eq!(paths[1].0.to_string(), "root/next/inner");
    assert_eq!(paths[2].0.to_string(), "root/top");
}

#[test]
fn subtree_traverse() {
    let doc = r#"{
      "top": "this",
      "next": {
        "inner": "some value"
      },
      "wut": null,
      "stuff": [9,8,7,6,5]
    }"#;

    let mut leaf_paths = LeafPaths::new();
    leaf_paths.addtree("root".into(), doc.to_string()).unwrap();
    let paths = leaf_paths.subtree_paths(SchemaPath(split_slash_path("root")));
    let mut subtree = Collector::Empty;
    for (schema_path, value) in paths {
        LeafPaths::traverse_tree(&schema_path.0, &value, &mut subtree).unwrap();
    }

    let expected = json(
        r#"{"root":{"top":"this","next":{"inner":"some value"},"wut":null,"stuff":[9,8,7,6,5]}}"#,
    );
    assert_eq!(subtree.to_json().unwrap(), expected);
}

#[test]
fn gettree() {
    let doc = r#"{
      "top": "this",
      "next": {
        "inner": "some value"
      },
      "wut": null,
      "stuff": [9,8,7,6,5],
      "things": [
        {"name": "one"},
        {"name": "two"},
        {"name": "tre"}
      ]
    }"#;

    let mut leaf_paths = LeafPaths::new();
    leaf_paths.addtree("root".into(), doc.into()).unwrap();
    let subtree = leaf_paths.gettree("root".into()).unwrap();
    let out = subtree.to_json().unwrap();
    assert_eq!(
        out.to_string(),
        r#"{"root":{"next":{"inner":"some value"},"stuff":[9,8,7,6,5],"things":[{"name":"one"},{"name":"two"},{"name":"tre"}],"top":"this","wut":null}}"#
    );

    let subtree = leaf_paths.gettree("root/things".into()).unwrap();
    assert_eq!(
        subtree.to_json().unwrap(),
        json(r#"{"root":{"things":[{"name":"one"},{"name":"two"},{"name":"tre"}]}}"#)
    );

    let subtree = leaf_paths.gettree("root/things/1".into()).unwrap();
    assert_eq!(
        subtree.to_json().unwrap(),
        json(r#"{"root":{"things":[{"name":"two"}]}}"#)
    );

    let subtree = leaf_paths.gettree("does/not/exist/5/really".into()).unwrap();
    assert_eq!(subtree, Collector::Empty);
}

#[test]
fn big_gettree() {
    let doc = r#"{
      "top": "this",
      "next": [{
        "inner": "some value",
        "tweede": "'n ander waarde",
        "third": "stone from the sun"
      }],
      "wut": null,
      "stuff": [9,8,7,6,5],
      "things": [
        {"name": "one"},
        {"name": "two"},
        {"name": "tre"}
      ]
    }"#;

    let mut leaf_paths = LeafPaths::new();
    leaf_paths.addtree("root".into(), doc.into()).unwrap();

    let subtree = leaf_paths.gettree("root/next".into()).unwrap();
    let expected = json(
        r#"{"root":{"next":[{"inner":"some value","third":"stone from the sun","tweede":"'n ander waarde"}]}}"#,
    );
    assert_eq!(subtree.to_json().unwrap(), expected);

    let subtree = leaf_paths.gettree("root/things".into()).unwrap();
    assert_eq!(
        subtree.to_json().unwrap().to_string(),
        r#"{"root":{"things":[{"name":"one"},{"name":"two"},{"name":"tre"}]}}"#
    );

    let subtree = leaf_paths.gettree("root/things/1".into()).unwrap();
    assert_eq!(
        subtree.to_json().unwrap().to_string(),
        r#"{"root":{"things":[{"name":"two"}]}}"#
    );

    let subtree = leaf_paths.gettree("does/not/exist/5/really".into()).unwrap();
    assert_eq!(subtree.to_json().unwrap(), serde_json::Value::Null);
}

#[test]
// This exercises the construction of the sparse array of the Collector
fn sample_gettree() {
    let sample_json_str = r#"{"web-app": {
      "servlet": [
        {
          "servlet-name": "cofaxCDS",
          "servlet-class": "org.cofax.cds.CDSServlet",
          "init-param": {
            "configGlossary:installationAt": "Philadelphia, PA",
            "templateProcessorClass": "org.cofax.WysiwygTemplate",
            "cachePackageTagsTrack": 200,
            "useJSP": false
          }
        },
        {
          "servlet-name": "cofaxEmail",
          "servlet-class": "org.cofax.cds.EmailServlet",
          "init-param": {
            "mailHost": "mail1",
            "mailHostOverride": "mail2"
          }
        },
        {
          "servlet-name": "cofaxAdmin",
          "servlet-class": "org.cofax.cds.AdminServlet"
        },
        {
          "servlet-name": "fileServlet",
          "servlet-class": "org.cofax.cds.FileServlet"
        },
        {
          "servlet-name": "cofaxTools",
          "servlet-class": "org.cofax.cms.CofaxToolsServlet",
          "init-param": {
            "templatePath": "toolstemplates/",
            "log": 1,
            "dataLog": 1,
            "removePageCache": "/content/admin/remove?cache=pages&id="
          }
        }
      ],
      "servlet-mapping": {
        "cofaxCDS": "/",
        "cofaxEmail": "/cofaxutil/aemail/*",
        "cofaxAdmin": "/admin/*"
      },
      "taglib": {
        "taglib-uri": "cofax.tld",
        "taglib-location": "/WEB-INF/tlds/cofax.tld"
      }
    }}"#;
    let mut leaf_paths = LeafPaths::new();
    leaf_paths
        .addtree("root".into(), sample_json_str.into())
        .unwrap();

    let subtree = leaf_paths.gettree("root/web-app/servlet/2".into()).unwrap();
    let expected = json(
        r#"{
      "root": {
        "web-app": {
          "servlet": [
            {
              "servlet-class": "org.cofax.cds.AdminServlet",
              "servlet-name": "cofaxAdmin"
            }
          ]
        }
      }
    }"#,
    );
    assert_eq!(subtree.to_json().unwrap(), expected);
}

#[test]
fn subtree_isolation_via_gettree() {
    let mut leaf_paths = LeafPaths::new();
    leaf_paths
        .addtree("root".into(), r#"{"a": 1, "b": [true, null]}"#.into())
        .unwrap();
    leaf_paths
        .addtree("another".into(), r#"{"a": "other"}"#.into())
        .unwrap();

    let under_root = leaf_paths.gettree("root".into()).unwrap();
    assert_eq!(
        under_root.to_json().unwrap(),
        json(r#"{"root":{"a":1,"b":[true,null]}}"#)
    );
    let under_another = leaf_paths.gettree("another".into()).unwrap();
    assert_eq!(
        under_another.to_json().unwrap(),
        json(r#"{"another":{"a":"other"}}"#)
    );
}

#[test]
fn number_texts_kept_and_reread() {
    let mut leaf_paths = LeafPaths::new();
    leaf_paths
        .addtree("n".into(), r#"{"a": 1.5, "b": -7, "c": 2e3}"#.into())
        .unwrap();
    // the stored leaf keeps the parser's decimal text
    assert_eq!(leaf_paths.get("n/a".into()), Some("1.5".into()));
    assert_eq!(leaf_paths.get("n/b".into()), Some("-7".into()));
    let out = leaf_paths.gettree("n".into()).unwrap().to_json().unwrap();
    assert_eq!(out, json(r#"{"n":{"a":1.5,"b":-7,"c":2000.0}}"#));
}

#[test]
fn collector_number_text_must_be_numeric() {
    // a hand-built collector with a non-numeric number text cannot convert
    let c = Collector::Number("not a number".into());
    assert!(c.to_json().is_err());
    assert_eq!(
        Collector::Number("12".into()).to_json().unwrap(),
        json("12")
    );
}

#[test]
fn shape_conflict_is_reported() {
    // one stored path implies an object where another implies an array
    let mut leaf_paths = LeafPaths::new();
    leaf_paths.add("root/a/0".into(), "as array".into());
    leaf_paths.add("root/a/k".into(), "as object".into());
    let err = leaf_paths.gettree("root".into()).unwrap_err();
    // the diagnostic names the offending path: keys sort before indices, so
    // the object shape is seen first and the index entry is the one in
    // conflict
    assert_eq!(
        err.to_string(),
        "path shape conflicts with the collected tree: root/a/0"
    );
}

#[test]
fn sparse_indices_compact_in_order() {
    // indices {0, 2} come out as a two-element array, no null padding
    let mut leaf_paths = LeafPaths::new();
    leaf_paths.add("ary/2".into(), "late".into());
    leaf_paths.add("ary/0".into(), "early".into());
    let out = leaf_paths.gettree("ary".into()).unwrap().to_json().unwrap();
    assert_eq!(out, json(r#"{"ary":["early","late"]}"#));
}

#[test]
fn gettree_of_single_leaf() {
    let mut leaf_paths = LeafPaths::new();
    leaf_paths
        .addtree("uno/due".into(), r#""singular""#.into())
        .unwrap();
    let out = leaf_paths.gettree("uno/due".into()).unwrap();
    assert_eq!(out.to_json().unwrap(), json(r#"{"uno":{"due":"singular"}}"#));
}

#[test]
fn empty_subtree_yields_empty_collector() {
    let leaf_paths = LeafPaths::new();
    let out = leaf_paths.gettree("nothing/here".into()).unwrap();
    assert_eq!(out, Collector::Empty);
    assert_eq!(out.to_json().unwrap(), serde_json::Value::Null);
}

#[test]
fn traverse_tree_builds_leaf_collectors() {
    let mut subtree = Collector::Empty;
    let path = vec![Step::Key("k".into()), Step::Index(4)];
    LeafPaths::traverse_tree(&path, &leafpaths::Leaf::Boolean(true), &mut subtree).unwrap();
    assert_eq!(subtree.to_json().unwrap(), json(r#"{"k":[true]}"#));

    // a conflicting second insertion fails loudly
    let path2 = vec![Step::Key("k".into()), Step::Key("x".into())];
    let r = LeafPaths::traverse_tree(&path2, &leafpaths::Leaf::Null, &mut subtree);
    assert!(r.is_err());
}
