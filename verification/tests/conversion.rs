use node2object::Element;
use node2object::JsonValue;
use node2object::XMLNodeType;
use node2object::node2object;
use node2object::parse_text;
use node2object::scan_xml_node;

fn elem(name: &str) -> Element {
    Element {
        name: name.to_string(),
        attributes: vec![],
        text: None,
        cdata: None,
        children: vec![],
    }
}

fn num(v: f64) -> JsonValue {
    JsonValue::Num(v.to_bits())
}

#[test]
fn smart_list_detection() {
    let mut raw_xml = elem("a");
    let mut b1 = elem("b");
    b1.attributes.push(("first".to_string(), "1".to_string()));
    let mut b2 = elem("b");
    b2.attributes.push(("first".to_string(), "2".to_string()));
    let mut c = elem("c");
    c.attributes.push(("first".to_string(), "3".to_string()));
    raw_xml.children = vec![b1, b2, c];

    let actual = JsonValue::Obj(node2object(&raw_xml));
    let expected = JsonValue::Obj(vec![(
        "a".to_string(),
        JsonValue::Obj(vec![
            (
                "b".to_string(),
                JsonValue::Arr(vec![
                    JsonValue::Obj(vec![("first".to_string(), num(1.0))]),
                    JsonValue::Obj(vec![("first".to_string(), num(2.0))]),
                ]),
            ),
            (
                "c".to_string(),
                JsonValue::Arr(vec![JsonValue::Obj(vec![("first".to_string(), num(3.0))])]),
            ),
        ]),
    )]);
    assert_eq!(actual, expected);
}

#[test]
fn node2object_empty() {
    let fixture = elem("e");
    let scan_result = XMLNodeType::Empty;
    let conv_result = JsonValue::Obj(vec![("e".to_string(), JsonValue::Null)]);

    assert_eq!(scan_result, scan_xml_node(&fixture));
    assert_eq!(conv_result, JsonValue::Obj(node2object(&fixture)));
}

#[test]
fn node2object_text() {
    let mut fixture = elem("player");
    fixture.text = Some("Kolya".to_string());
    let scan_result = XMLNodeType::Text;
    let conv_result = JsonValue::Obj(vec![(
        "player".to_string(),
        JsonValue::Str("Kolya".to_string()),
    )]);

    assert_eq!(scan_result, scan_xml_node(&fixture));
    assert_eq!(conv_result, JsonValue::Obj(node2object(&fixture)));
}

#[test]
fn node2object_attributes() {
    let mut fixture = elem("player");
    fixture.attributes.push(("score".to_string(), "9000".to_string()));
    let scan_result = XMLNodeType::Attributes;
    let conv_result = JsonValue::Obj(vec![(
        "player".to_string(),
        JsonValue::Obj(vec![("score".to_string(), num(9000.0))]),
    )]);

    assert_eq!(scan_result, scan_xml_node(&fixture));
    assert_eq!(conv_result, JsonValue::Obj(node2object(&fixture)));
}

#[test]
fn node2object_text_and_attributes() {
    let mut fixture = elem("player");
    fixture.text = Some("Kolya".to_string());
    fixture.attributes.push(("score".to_string(), "9000".to_string()));
    let scan_result = XMLNodeType::TextAndAttributes;
    let conv_result = JsonValue::Obj(vec![(
        "player".to_string(),
        JsonValue::Obj(vec![
            ("score".to_string(), num(9000.0)),
            ("text".to_string(), JsonValue::Str("Kolya".to_string())),
        ]),
    )]);

    assert_eq!(scan_result, scan_xml_node(&fixture));
    assert_eq!(conv_result, JsonValue::Obj(node2object(&fixture)));
}

#[test]
fn node2object_parent() {
    let mut fixture = elem("ServerData");
    fixture.children = vec![
        {
            let mut node = elem("Player");
            node.text = Some("Kolya".to_string());
            node
        },
        {
            let mut node = elem("Player");
            node.text = Some("Petya".to_string());
            node
        },
        {
            let mut node = elem("Player");
            node.text = Some("Misha".to_string());
            node
        },
    ];
    let scan_result = XMLNodeType::Parent;
    let conv_result = JsonValue::Obj(vec![(
        "server_data".to_string(),
        JsonValue::Obj(vec![(
            "player".to_string(),
            JsonValue::Arr(vec![
                JsonValue::Str("Kolya".to_string()),
                JsonValue::Str("Petya".to_string()),
                JsonValue::Str("Misha".to_string()),
            ]),
        )]),
    )]);

    assert_eq!(scan_result, scan_xml_node(&fixture));
    assert_eq!(conv_result, JsonValue::Obj(node2object(&fixture)));
}

#[test]
fn node2object_preserve_attributes_parents() {
    let mut c = elem("c");
    c.text = Some("scotch".to_string());
    let mut b = elem("b");
    b.attributes.push(("frenchfry".to_string(), "milkshake".to_string()));
    b.children = vec![c];
    let mut a = elem("a");
    a.attributes.push(("pizza".to_string(), "hotdog".to_string()));
    a.children = vec![b];

    let json_result = JsonValue::Obj(node2object(&a));
    let expected = JsonValue::Obj(vec![(
        "a".to_string(),
        JsonValue::Obj(vec![
            ("pizza".to_string(), JsonValue::Str("hotdog".to_string())),
            (
                "b".to_string(),
                JsonValue::Arr(vec![JsonValue::Obj(vec![
                    (
                        "frenchfry".to_string(),
                        JsonValue::Str("milkshake".to_string()),
                    ),
                    (
                        "c".to_string(),
                        JsonValue::Arr(vec![JsonValue::Str("scotch".to_string())]),
                    ),
                ])]),
            ),
        ]),
    )]);
    assert_eq!(json_result, expected);
}

#[test]
fn option_child_renamed_to_option_tag() {
    let mut root = elem("settings");
    root.children = vec![elem("option")];

    let actual = JsonValue::Obj(node2object(&root));
    let expected = JsonValue::Obj(vec![(
        "settings".to_string(),
        JsonValue::Obj(vec![(
            "option_tag".to_string(),
            JsonValue::Arr(vec![JsonValue::Null]),
        )]),
    )]);
    assert_eq!(actual, expected);
}

#[test]
fn option_root_not_renamed() {
    let mut root = elem("option");
    root.text = Some("5".to_string());

    let actual = JsonValue::Obj(node2object(&root));
    let expected = JsonValue::Obj(vec![("option".to_string(), num(5.0))]);
    assert_eq!(actual, expected);
}

#[test]
fn scalar_number_inference() {
    assert_eq!(parse_text("9000"), num(9000.0));
    assert_eq!(parse_text("1e3"), num(1000.0));
    assert_eq!(parse_text("-2.5"), num(-2.5));
}

#[test]
fn scalar_boolean_inference() {
    assert_eq!(parse_text("true"), JsonValue::Bool(true));
    assert_eq!(parse_text("false"), JsonValue::Bool(false));
    assert_eq!(parse_text("True"), JsonValue::Str("True".to_string()));
    assert_eq!(parse_text("FALSE"), JsonValue::Str("FALSE".to_string()));
}

#[test]
fn scalar_nonfinite_falls_back_to_string() {
    assert_eq!(parse_text("NaN"), JsonValue::Str("NaN".to_string()));
    assert_eq!(parse_text("inf"), JsonValue::Str("inf".to_string()));
    assert_eq!(parse_text("-inf"), JsonValue::Str("-inf".to_string()));
    assert_eq!(parse_text("1e999"), JsonValue::Str("1e999".to_string()));
}

#[test]
fn scalar_other_strings_unchanged() {
    assert_eq!(parse_text(""), JsonValue::Str(String::new()));
    assert_eq!(parse_text("Kolya"), JsonValue::Str("Kolya".to_string()));
}

#[test]
fn text_and_cdata_concatenated() {
    let mut fixture = elem("n");
    fixture.text = Some("12".to_string());
    fixture.cdata = Some("5".to_string());

    let actual = JsonValue::Obj(node2object(&fixture));
    let expected = JsonValue::Obj(vec![("n".to_string(), num(125.0))]);
    assert_eq!(actual, expected);
}

#[test]
fn semistructured_root_yields_null() {
    let mut root = elem("mixed");
    root.text = Some("words".to_string());
    root.children = vec![elem("child")];

    assert_eq!(XMLNodeType::SemiStructured, scan_xml_node(&root));
    let actual = JsonValue::Obj(node2object(&root));
    let expected = JsonValue::Obj(vec![("mixed".to_string(), JsonValue::Null)]);
    assert_eq!(actual, expected);
}

#[test]
fn semistructured_child_is_absent() {
    let mut bad = elem("bad");
    bad.text = Some("words".to_string());
    bad.children = vec![elem("inner")];
    let mut good = elem("good");
    good.text = Some("ok".to_string());
    let mut root = elem("root");
    root.children = vec![bad, good];

    let actual = JsonValue::Obj(node2object(&root));
    let expected = JsonValue::Obj(vec![(
        "root".to_string(),
        JsonValue::Obj(vec![(
            "good".to_string(),
            JsonValue::Arr(vec![JsonValue::Str("ok".to_string())]),
        )]),
    )]);
    assert_eq!(actual, expected);
}

#[test]
fn attribute_colliding_with_text_key_is_overwritten() {
    let mut fixture = elem("n");
    fixture.attributes.push(("text".to_string(), "x".to_string()));
    fixture.text = Some("y".to_string());

    let actual = JsonValue::Obj(node2object(&fixture));
    let expected = JsonValue::Obj(vec![(
        "n".to_string(),
        JsonValue::Obj(vec![("text".to_string(), JsonValue::Str("y".to_string()))]),
    )]);
    assert_eq!(actual, expected);
}

#[test]
fn snake_case_applied_to_names() {
    let mut fixture = elem("ServerData");
    fixture.attributes.push(("MaxScore".to_string(), "10".to_string()));

    let actual = JsonValue::Obj(node2object(&fixture));
    let expected = JsonValue::Obj(vec![(
        "server_data".to_string(),
        JsonValue::Obj(vec![("max_score".to_string(), num(10.0))]),
    )]);
    assert_eq!(actual, expected);
}

#[test]
fn parent_with_no_surviving_children_is_empty_object() {
    let mut bad = elem("bad");
    bad.text = Some("words".to_string());
    bad.children = vec![elem("inner")];
    let mut root = elem("root");
    root.children = vec![bad];

    let actual = JsonValue::Obj(node2object(&root));
    let expected = JsonValue::Obj(vec![("root".to_string(), JsonValue::Obj(vec![]))]);
    assert_eq!(actual, expected);
}
