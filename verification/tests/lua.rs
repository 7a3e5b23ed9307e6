use crush_tether::script::lua::{extract_allow_literals, strip_lua_comments};

#[test]
fn extraction_collects_literals_and_rejects_dynamic_names() {
    let ok = extract_allow_literals("function check(ctx)\n  if ctx.bin == \"ls\" then return allow(\"ls\") end\n  return allow('docker')\nend\n")
    .unwrap();
    assert!(ok.contains(&"ls".to_string()));
    assert!(ok.contains(&"docker".to_string()));

    assert!(extract_allow_literals("function check(ctx) return allow(ctx.bin) end").is_err());
    let decoy = "local my_allow = 1\nfunction check(ctx) return nil end\n";
    assert!(extract_allow_literals(decoy).unwrap().is_empty());
}

#[test]
fn commented_out_allow_is_not_extracted() {
    let src = "-- allow(\"curl\")\n--[[\nreturn allow(\"wget\")\n]]\nfunction check(ctx) return nil end\n";
    assert!(extract_allow_literals(src).unwrap().is_empty());
}

#[test]
fn unterminated_literal_is_rejected() {
    assert!(extract_allow_literals("return allow(\"ls").is_err());
}

#[test]
fn comments_become_spaces_and_keep_positions() {
    let s = strip_lua_comments("a -- b\nc --[[x]] d");
    assert_eq!(s, "a     \nc         d");
}

#[test]
fn literals_come_in_source_order() {
    let v = extract_allow_literals("allow ( 'a' ) x allow(\"b\")").unwrap();
    assert_eq!(v, ["a", "b"]);
}
