use edit_xml::{Document, Element};
use lfr_local::ports::derive_plan;
use lfr_local::xml::{
    apply_writes, classify_connector, collect_by_tag, configure_server, context_document_writes,
    get_attribute, server_document_writes, set_attribute, AttrWrite, ConnectorKind, XmlAttr,
    XmlNode,
};

fn elem(name: &str, attrs: &[(&str, &str)], children: Vec<XmlNode>) -> XmlNode {
    XmlNode {
        name: name.to_string(),
        attrs: attrs
            .iter()
            .map(|(k, v)| XmlAttr { key: k.to_string(), value: v.to_string() })
            .collect(),
        children,
    }
}

fn attr(t: &XmlNode, key: &str) -> Option<String> {
    get_attribute(t, key).cloned()
}

fn node_at<'a>(mut t: &'a XmlNode, path: &[usize]) -> &'a XmlNode {
    for &i in path {
        t = &t.children[i];
    }
    t
}

fn from_document(doc: &Document, el: Element) -> XmlNode {
    let mut attrs: Vec<(String, String)> = el
        .attributes(doc)
        .iter()
        .map(|(k, v)| (k.clone(), v.clone()))
        .collect();
    attrs.sort();
    XmlNode {
        name: el.name(doc).to_string(),
        attrs: attrs
            .into_iter()
            .map(|(k, v)| XmlAttr { key: k, value: v })
            .collect(),
        children: el
            .children(doc)
            .iter()
            .filter_map(|n| n.as_element())
            .map(|c| from_document(doc, c))
            .collect(),
    }
}

fn element_at(doc: &Document, path: &[usize]) -> Element {
    let mut el = doc.root_element().unwrap();
    for &i in path {
        let kids: Vec<Element> = el
            .children(doc)
            .iter()
            .filter_map(|n| n.as_element())
            .collect();
        el = kids[i];
    }
    el
}

fn apply_to_document(doc: &mut Document, writes: &[AttrWrite]) {
    for w in writes {
        let el = element_at(doc, &w.path);
        el.set_attribute(doc, w.key.as_str(), w.value.as_str());
    }
}

#[test]
fn test_xml_logic() {
    let xml_data = r#"<?xml version="1.0" encoding="UTF-8"?><Server port="8005"><Service><Connector port="8080" protocol="HTTP/1.1" /></Service></Server>"#;
    let mut doc = Document::parse_str(xml_data).unwrap();
    let tree = from_document(&doc, doc.root_element().unwrap());
    let mut writes: Vec<AttrWrite> = Vec::new();
    for path in collect_by_tag(&tree, "Connector") {
        writes.push(AttrWrite {
            path,
            key: "port".to_string(),
            value: "8180".to_string(),
        });
    }
    apply_to_document(&mut doc, &writes);
    let mut output = Vec::new();
    doc.write(&mut output).unwrap();
    assert!(String::from_utf8(output).unwrap().contains("port=\"8180\""));
}

#[test]
fn test_collect_by_tag_finds_all_depths() {
    // Connectors nested at depths 1, 2 and 3.
    let tree = elem(
        "Server",
        &[("port", "8005")],
        vec![
            elem("Connector", &[("protocol", "HTTP/1.1")], vec![]),
            elem(
                "Service",
                &[],
                vec![elem("Connector", &[("protocol", "AJP/1.3")], vec![])],
            ),
            elem(
                "Service",
                &[],
                vec![elem(
                    "Engine",
                    &[],
                    vec![elem("Connector", &[("protocol", "weird")], vec![])],
                )],
            ),
        ],
    );
    let mut paths = collect_by_tag(&tree, "Connector");
    paths.sort();
    assert_eq!(paths, vec![vec![0], vec![1, 0], vec![2, 0, 0]]);

    // Mutating one connector leaves the others' attributes untouched.
    let mutated = set_attribute(tree, &vec![1, 0], "port", "8109");
    assert_eq!(attr(node_at(&mutated, &[1, 0]), "port"), Some("8109".to_string()));
    assert_eq!(attr(node_at(&mutated, &[0]), "port"), None);
    assert_eq!(attr(node_at(&mutated, &[0]), "protocol"), Some("HTTP/1.1".to_string()));
    assert_eq!(attr(node_at(&mutated, &[2, 0, 0]), "protocol"), Some("weird".to_string()));
    assert_eq!(attr(&mutated, "port"), Some("8005".to_string()));
}

#[test]
fn test_classify_connector_rules() {
    let http = elem("Connector", &[("protocol", "HTTP/1.1")], vec![]);
    let ajp = elem("Connector", &[("protocol", "AJP/1.3")], vec![]);
    let none = elem("Connector", &[], vec![]);
    let other = elem("Connector", &[("protocol", "grpc")], vec![]);
    assert_eq!(classify_connector(&http), ConnectorKind::Http);
    assert_eq!(classify_connector(&ajp), ConnectorKind::Ajp);
    // Absent protocol defaults to http/1.1.
    assert_eq!(classify_connector(&none), ConnectorKind::Http);
    assert_eq!(classify_connector(&other), ConnectorKind::Other);
}

#[test]
fn test_configure_scenario_instance_one() {
    // <Server port="8005"><Service><Connector protocol="HTTP/1.1" port="8080"/></Service></Server>
    let tree = elem(
        "Server",
        &[("port", "8005")],
        vec![elem(
            "Service",
            &[],
            vec![elem("Connector", &[("protocol", "HTTP/1.1"), ("port", "8080")], vec![])],
        )],
    );
    let plan = derive_plan(1, None).unwrap();
    let out = configure_server(tree, &plan);
    assert_eq!(attr(&out, "port"), Some("8105".to_string()));
    let conn = node_at(&out, &[0, 0]);
    assert_eq!(attr(conn, "port"), Some("8180".to_string()));
    assert_eq!(attr(conn, "redirectPort"), Some("8543".to_string()));
    // The protocol attribute is untouched.
    assert_eq!(attr(conn, "protocol"), Some("HTTP/1.1".to_string()));
}

fn tree_eq(a: &XmlNode, b: &XmlNode) -> bool {
    a.name == b.name
        && a.attrs.len() == b.attrs.len()
        && a.attrs
            .iter()
            .zip(b.attrs.iter())
            .all(|(x, y)| x.key == y.key && x.value == y.value)
        && a.children.len() == b.children.len()
        && a.children.iter().zip(b.children.iter()).all(|(x, y)| tree_eq(x, y))
}

fn clone_tree(t: &XmlNode) -> XmlNode {
    XmlNode {
        name: t.name.clone(),
        attrs: t
            .attrs
            .iter()
            .map(|a| XmlAttr { key: a.key.clone(), value: a.value.clone() })
            .collect(),
        children: t.children.iter().map(clone_tree).collect(),
    }
}

#[test]
fn test_configure_is_idempotent() {
    let tree = elem(
        "Server",
        &[("port", "8005"), ("shutdown", "SHUTDOWN")],
        vec![
            elem(
                "Service",
                &[("name", "Catalina")],
                vec![
                    elem("Connector", &[("protocol", "HTTP/1.1"), ("port", "8080")], vec![]),
                    elem("Connector", &[("protocol", "AJP/1.3"), ("port", "8009")], vec![]),
                    elem("Connector", &[("protocol", "experimental")], vec![]),
                ],
            ),
        ],
    );
    let plan = derive_plan(3, None).unwrap();
    let once = configure_server(clone_tree(&tree), &plan);
    let twice = configure_server(clone_tree(&once), &plan);
    assert!(tree_eq(&once, &twice));
    // The unmatched connector was left completely unmodified.
    assert_eq!(attr(node_at(&once, &[0, 2]), "port"), None);
    assert_eq!(attr(node_at(&once, &[0, 2]), "redirectPort"), None);
    // The matched connectors carry the derived ports.
    assert_eq!(attr(node_at(&once, &[0, 0]), "port"), Some("8380".to_string()));
    assert_eq!(attr(node_at(&once, &[0, 1]), "port"), Some("8309".to_string()));
    assert_eq!(attr(node_at(&once, &[0, 1]), "redirectPort"), Some("8743".to_string()));
    assert_eq!(attr(&once, "port"), Some("8305".to_string()));
}

#[test]
fn test_reset_restores_default_ports() {
    let configured = elem(
        "Server",
        &[("port", "8305")],
        vec![elem(
            "Service",
            &[],
            vec![elem(
                "Connector",
                &[("protocol", "HTTP/1.1"), ("port", "8380"), ("redirectPort", "8743")],
                vec![],
            )],
        )],
    );
    let defaults = derive_plan(0, None).unwrap();
    let out = configure_server(configured, &defaults);
    assert_eq!(attr(&out, "port"), Some("8005".to_string()));
    let conn = node_at(&out, &[0, 0]);
    assert_eq!(attr(conn, "port"), Some("8080".to_string()));
    assert_eq!(attr(conn, "redirectPort"), Some("8443".to_string()));
}

#[test]
fn test_context_writes_set_cookie_on_root() {
    let plan = derive_plan(4, None).unwrap();
    let writes = context_document_writes(&plan);
    assert_eq!(writes.len(), 1);
    assert_eq!(writes[0].path, Vec::<usize>::new());
    assert_eq!(writes[0].key, "sessionCookieName");
    assert_eq!(writes[0].value, "LFR_SESSION_4");
    let context = elem("Context", &[], vec![elem("WatchedResource", &[], vec![])]);
    let out = apply_writes(context, &writes);
    assert_eq!(attr(&out, "sessionCookieName"), Some("LFR_SESSION_4".to_string()));
}

#[test]
fn test_server_writes_skip_unknown_connectors() {
    let tree = elem(
        "Server",
        &[("port", "8005")],
        vec![elem("Connector", &[("protocol", "grpc")], vec![])],
    );
    let plan = derive_plan(1, None).unwrap();
    let writes = server_document_writes(&tree, &plan);
    // Only the root shutdown-port write remains.
    assert_eq!(writes.len(), 1);
    assert_eq!(writes[0].path, Vec::<usize>::new());
    assert_eq!(writes[0].key, "port");
    assert_eq!(writes[0].value, "8105");
}
