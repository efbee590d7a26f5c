use rcc::json::{to_text, Json};
use rcc::yang::builder::SchemaError;
use rcc::yang::json_schema::{can_describe, dedup_preserve_order, to_json_schema};
use rcc::yang::parser::parse_module;
use rcc::yang::schema::{build, Builtin, Schema};
use rcc::yang::sid;

fn sources(texts: &[&str]) -> Vec<String> {
    texts.iter().map(|t| t.to_string()).collect()
}

fn built(yang: &[&str], sids: &[&str]) -> Schema {
    build(&sources(yang), &sources(sids)).unwrap()
}

fn refused(yang: &[&str]) -> String {
    match build(&sources(yang), &[]) {
        Ok(_) => panic!("should be refused"),
        Err(SchemaError(e)) => e,
    }
}

const BASE: &str = r#"
module base {
  namespace "urn:base";
  prefix b;
  identity shape;
  identity round { base shape; }
  identity ball { base b:round; }
  typedef percent { type uint8 { range "0..100"; } }
  grouping sized {
    leaf size { type percent; }
  }
  container top {
    uses sized;
    choice kind {
      case one { leaf a { type string; } }
      leaf b { type empty; }
    }
    leaf form { type identityref { base shape; } }
  }
}"#;

const MORE: &str = r#"
module more {
  namespace "urn:more";
  prefix m;
  import base { prefix b; }
  augment "/b:top" {
    leaf extra { type b:percent { range "10..20"; } }
  }
  rpc go {
    input { leaf speed { type int16; mandatory true; } }
    output { leaf done { type boolean; } }
  }
}"#;

#[test]
fn choices_and_cases_are_elided() {
    let s = built(&[BASE], &[]);
    let top = s.find_child(s.root, "base:top").unwrap();
    for name in ["size", "a", "b", "form"] {
        let c = s.find_child(top, name).unwrap();
        assert_eq!(s.node(c).parent, Some(top));
    }
    assert!(s.nodes[s.root..].iter().all(|n| n.kw != "choice" && n.kw != "case"));
}

#[test]
fn typedefs_and_groupings_are_found_and_narrowed() {
    let s = built(&[BASE, MORE], &[]);
    let top = s.find_child(s.root, "base:top").unwrap();
    let size = s.find_child(top, "size").unwrap();
    let t = s.ty(s.node(size).type_id.unwrap());
    assert_eq!(t.builtin, Builtin::Uint8);
    assert_eq!(t.ranges, vec![(0, 100)]);
    let extra = s.find_child(top, "more:extra").unwrap();
    assert_eq!(s.ty(s.node(extra).type_id.unwrap()).ranges, vec![(10, 20)]);
}

#[test]
fn identities_derive_through_others() {
    let s = built(&[BASE], &[]);
    let id = |name: &str| s.identities.iter().position(|d| d.name == name).unwrap();
    let all = s.derived_from(id("shape"));
    for name in ["shape", "round", "ball"] {
        assert!(all.contains(&id(name)));
    }
    assert!(!s.derived_from(id("ball")).contains(&id("round")));
}

#[test]
fn an_identity_is_found_by_module_and_name() {
    let s = built(&[BASE, MORE], &[]);
    let id = s.identity_by_module_name("base", "round").unwrap();
    assert_eq!((s.identities[id].module.as_str(), s.identities[id].name.as_str()), ("base", "round"));
    assert_eq!(s.identity_by_module_name("more", "round"), None);
    assert_eq!(s.identity_by_module_name("base", "square"), None);
}

#[test]
fn definitions_below_the_top_are_found_too() {
    let s = built(
        &[r#"module m { namespace "urn:m"; prefix m;
            container outer {
              typedef small { type uint8 { range "0..7"; } }
              grouping pair { leaf left { type small; } leaf right { type small; } }
              container inner { uses pair; leaf own { type small; } }
            } }"#],
        &[],
    );
    let outer = s.find_child(s.root, "m:outer").unwrap();
    let inner = s.find_child(outer, "inner").unwrap();
    for name in ["left", "right", "own"] {
        let leaf = s.find_child(inner, name).unwrap();
        let ty = &s.types[s.nodes[leaf].type_id.unwrap()];
        assert_eq!(ty.builtin, Builtin::Uint8);
        assert_eq!(ty.ranges, vec![(0, 7)]);
    }
}

#[test]
fn definitions_below_the_top_are_seen_from_around_them_only() {
    let two = built(
        &[r#"module m { namespace "urn:m"; prefix m;
            container one { typedef small { type uint8; } leaf a { type small; } }
            container two { typedef small { type string; } container in { leaf a { type m:small; } } }
            }"#],
        &[],
    );
    let one = two.find_child(two.root, "m:one").unwrap();
    let a = two.find_child(one, "a").unwrap();
    assert_eq!(two.types[two.nodes[a].type_id.unwrap()].builtin, Builtin::Uint8);
    let other = two.find_child(two.root, "m:two").unwrap();
    let inner = two.find_child(other, "in").unwrap();
    let a = two.find_child(inner, "a").unwrap();
    assert_eq!(two.types[two.nodes[a].type_id.unwrap()].builtin, Builtin::String);
    assert_eq!(
        refused(&[r#"module m { namespace "urn:m"; prefix m;
            container one { typedef small { type uint8; } }
            container two { leaf a { type small; } } }"#]),
        "typedef \"small\" not found (used from m)"
    );
    assert_eq!(
        refused(&[r#"module m { namespace "urn:m"; prefix m;
            container one { grouping g { leaf a { type uint8; } } }
            container two { uses g; } }"#]),
        "grouping \"g\" not found (used from m)"
    );
}

#[test]
fn a_grouping_is_read_where_it_stands() {
    let s = built(
        &[r#"module m { namespace "urn:m"; prefix m;
            typedef top { type uint16; }
            container one {
              typedef small { type uint8; }
              typedef top { type string; }
              grouping g { typedef own { type small; } leaf a { type own; } leaf t { type top; } }
              container two { typedef small { type string; } uses g; leaf b { type small; } }
            } }"#],
        &[],
    );
    let one = s.find_child(s.root, "m:one").unwrap();
    let two = s.find_child(one, "two").unwrap();
    let builtin = |name: &str| {
        let leaf = s.find_child(two, name).unwrap();
        s.types[s.nodes[leaf].type_id.unwrap()].builtin
    };
    assert_eq!(builtin("a"), Builtin::Uint8);
    assert_eq!(builtin("b"), Builtin::String);
    assert_eq!(builtin("t"), Builtin::Uint16);
}

#[test]
fn sids_lead_to_their_nodes() {
    let sids = r#"{"module-name": "base", "items": [
        {"namespace": "data", "identifier": "/base:top", "sid": 60001},
        {"namespace": "data", "identifier": "/base:top/form", "sid": 60002},
        {"namespace": "identity", "identifier": "ball", "sid": 60003}
    ]}"#;
    let s = built(&[BASE], &[sids]);
    for (sid, node) in &s.sid_index {
        assert_eq!(s.node(*node).sid, Some(*sid));
    }
    let top = s.find_child(s.root, "base:top").unwrap();
    assert_eq!(s.sid_index.get(&60001), Some(&top));
    assert!(s.identities.iter().any(|d| d.name == "ball" && d.sid == Some(60003)));
}

#[test]
fn unknown_things_are_refused() {
    assert!(refused(&["module m { leaf a { type nope; } }"]).contains("nope"));
    assert!(refused(&["module m { container c { uses gone; } }"]).contains("gone"));
    assert!(refused(&["leaf a;"]).len() > 0);
    assert!(refused(&["module m { prefix p; import away { prefix a; } }"]).contains("away"));
}

#[test]
fn definitions_that_go_round_in_circles_are_refused() {
    let t = "module m { prefix m; typedef a { type b; } typedef b { type a; } leaf l { type a; } }";
    assert!(build(&sources(&[t]), &[]).is_err());
    let g = "module m { prefix m; grouping a { uses a; } container c { uses a; } }";
    assert!(build(&sources(&[g]), &[]).is_err());
}

#[test]
fn deviations_change_the_tree() {
    let d = r#"module dev { prefix d; import base { prefix b; }
        deviation /b:top/b:size { deviate not-supported; } }"#;
    let s = built(&[BASE, d], &[]);
    let top = s.find_child(s.root, "base:top").unwrap();
    assert_eq!(s.find_child(top, "size"), None);
    assert!(s.find_child(top, "form").is_some());
}

#[test]
fn line_endings_do_not_matter() {
    let unix = "module m {\n  leaf a {\n    description \"one\n      two\";\n  }\n}\n";
    let windows = unix.replace('\n', "\r\n");
    let old = unix.replace('\n', "\r");
    let m = parse_module(unix).unwrap();
    assert_eq!(parse_module(&windows).unwrap(), m);
    assert_eq!(parse_module(&old).unwrap(), m);
}

#[test]
fn parse_errors_say_where() {
    let e = parse_module("module m {\n  leaf a").unwrap_err();
    assert_eq!(e.to_string(), "2:8: expected ';' or '{', found None");
    assert!(parse_module("module m { leaf a \"open").is_err());
    assert!(parse_module("").is_err());
}

#[test]
fn escapes_in_double_quotes() {
    let m = parse_module("module m { a \"x\\ty\\\"z\\\\\"; }").unwrap();
    assert_eq!(m.sub("a").unwrap().arg_str(), "x\ty\"z\\");
    assert_eq!(m.subs_of("a").len(), 1);
    assert!(m.subs[0].is("a"));
}

#[test]
fn sid_files_that_are_none() {
    assert!(sid::parse("[").is_err());
    assert!(sid::parse("{}").is_err());
    assert!(sid::parse(r#"{"module-name": "m", "items": [{"namespace": "data"}]}"#).is_err());
    let bad = r#"{"module-name": "m", "items": [{"namespace": "odd", "identifier": "x", "sid": 1}]}"#;
    assert!(sid::parse(bad).is_err());
}

#[test]
fn sid_files_can_be_arrays() {
    let f = sid::parse(r#"["m", [["data", "/m:a", 7], {"sid": 8, "identifier": "i", "namespace": "identity"}]]"#)
        .unwrap();
    assert_eq!(f.module_name, "m");
    assert_eq!(f.items.len(), 2);
    assert_eq!(f.items[0].namespace, sid::Namespace::Data);
    assert_eq!((f.items[0].identifier.as_str(), f.items[0].sid), ("/m:a", 7));
    assert_eq!((f.items[1].identifier.as_str(), f.items[1].sid), ("i", 8));
    for bad in [
        r#"["m"]"#,
        r#"["m", [], 1]"#,
        r#"["m", [["data", "/m:a"]]]"#,
        r#"["m", [["data", "/m:a", 7, 8]]]"#,
        r#"["m", [["data", "/m:a", "7"]]]"#,
        r#"[[], "m"]"#,
    ] {
        assert!(sid::parse(bad).is_err(), "{bad}");
    }
}

/// The JSON Schema of a leaf below the top.
fn described(s: &Schema, name: &str) -> String {
    let top = s.find_child(s.root, "base:top").unwrap();
    let n = s.find_child(top, name).unwrap();
    to_text(&to_json_schema(s, n, "yang"))
}

#[test]
fn a_json_schema_for_a_model() {
    let s = built(&[BASE], &[]);
    assert!(can_describe(&s, s.root, "yang"));
    let text = to_text(&to_json_schema(&s, s.root, "yang"));
    assert!(
        text.starts_with(
            r##"{"title":"data-tree-schema","$schema":"http://json-schema.org/draft-07/schema#","type":"object","additionalProperties":false,"properties":{"base:top":"##
        ),
        "{text}"
    );
    assert_eq!(described(&s, "form"), r#"{"enum":["ball","base:ball","base:round","round"]}"#);
    assert_eq!(
        described(&s, "b"),
        r#"{"type":"array","items":{"type":"null"},"minItems":1,"maxItems":1}"#
    );
    assert_eq!(
        described(&s, "a"),
        r#"{"type":"string","anyOf":[{"minLength":0,"maxLength":18446744073709551615}]}"#
    );
    assert_eq!(
        described(&s, "size"),
        r#"{"type":"integer","anyOf":[{"minimum":0,"maximum":100}]}"#
    );
}

#[test]
fn json_schemas_of_other_types() {
    let s = built(
        &[r#"module base { prefix b; container top {
            leaf d { type decimal64 { fraction-digits 3; } }
            leaf w { type uint64; }
            leaf e { type enumeration { enum z; enum y; } }
            leaf f { type bits { bit p; bit q; } }
            leaf n { type binary { length "1..4"; } }
            leaf u { type union { type boolean; type int8; } description "either"; }
            leaf r { type leafref { path "../w"; } }
        } }"#],
        &[],
    );
    assert_eq!(described(&s, "d"), r#"{"type":"string","pattern":"^(\\+|-)?\\d*(\\.\\d{0,3})?$"}"#);
    assert_eq!(described(&s, "w"), r#"{"type":"string"}"#);
    assert_eq!(described(&s, "r"), r#"{"type":"string"}"#);
    assert_eq!(described(&s, "e"), r#"{"enum":["z","y"]}"#);
    assert_eq!(described(&s, "f"), r#"{"type":"string","pattern":"^(p|q)?(\\s(p|q))*$"}"#);
    assert_eq!(
        described(&s, "n"),
        r#"{"type":"string","contentEncoding":"base64","anyOf":[{"minLength":4,"maxLength":8}]}"#
    );
    assert_eq!(
        described(&s, "u"),
        r#"{"anyOf":[{"type":"boolean"},{"type":"integer","anyOf":[{"minimum":-128,"maximum":127}]}],"description":"either"}"#
    );
}

#[test]
fn names_are_listed_once() {
    let names = sources(&["b", "a", "b", "c", "a"]);
    assert_eq!(dedup_preserve_order(&names), sources(&["b", "a", "c"]));
}

#[test]
fn builtin_names_round_trip() {
    for name in ["int8", "uint64", "bits", "leafref", "instance-identifier", "string"] {
        assert_eq!(Builtin::from_name(name).unwrap().name(), name);
    }
    assert!(Builtin::from_name("float").is_none());
}

#[test]
fn local_names() {
    let s = built(&[BASE], &[]);
    let top = s.find_child(s.root, "base:top").unwrap();
    assert_eq!(s.node(top).local_name(), "top");
    assert_eq!(Json::Null.as_str(), None);
}
