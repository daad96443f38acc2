use psd_great::psd::VariableSet;
use psd_great::xml::{
    build_data_sets_xml, build_variables_xml, data_sets_from_items, decode_xml_text, parse_data_sets_xml, parse_variables_xml,
    read_element_text, variables_from_items, XmlAttribute, XmlItem,
};

#[test]
fn parse_variables_xml_decodes_entities() {
    let xml = r#"<variableSets><variableSet><variables><variable varName="A&amp;B" trait="x&lt;y" docRef="&quot;doc&quot;" clip="c&gt;d"/></variables></variableSet></variableSets>"#;

    let parsed = parse_variables_xml(xml);

    assert_eq!(parsed.len(), 1);
    assert_eq!(parsed[0].var_name.as_deref(), Some("A&B"));
    assert_eq!(parsed[0].trait_name.as_deref(), Some("x<y"));
    assert_eq!(parsed[0].doc_ref.as_deref(), Some("\"doc\""));
    assert_eq!(parsed[0].clip.as_deref(), Some("c>d"));
}

#[test]
fn parse_data_sets_xml_decodes_entities() {
    let xml = r#"<sampleDataSets><sampleDataSet><name>A&amp;B</name><value>&lt;ok&gt;</value></sampleDataSet></sampleDataSets>"#;

    let parsed = parse_data_sets_xml(xml);

    assert_eq!(
        parsed,
        vec![
            vec!["name".to_string(), "value".to_string()],
            vec!["A&B".to_string(), "<ok>".to_string()],
        ]
    );
}

#[test]
fn variables_take_last_duplicate_attribute_and_both_tag_forms() {
    let xml = r#"<variables><variable varName="a" varName="b" align="left"></variable><other varName="x"/><variable placementMethod="fit" valign="top"/></variables>"#;
    let parsed = parse_variables_xml(xml);
    assert_eq!(parsed.len(), 2);
    assert_eq!(parsed[0].var_name.as_deref(), Some("b"));
    assert_eq!(parsed[0].align.as_deref(), Some("left"));
    assert_eq!(parsed[0].clip, None);
    assert_eq!(parsed[1].var_name, None);
    assert_eq!(parsed[1].placement_method.as_deref(), Some("fit"));
    assert_eq!(parsed[1].valign.as_deref(), Some("top"));
}

#[test]
fn variables_of_empty_document() {
    assert!(parse_variables_xml("").is_empty());
    assert!(parse_variables_xml("<variables/>").is_empty());
}

#[test]
fn data_sets_header_comes_from_first_set_with_cells() {
    let xml = "<sampleDataSets><sampleDataSet></sampleDataSet><sampleDataSet><a>1</a><b> 2 </b></sampleDataSet><sampleDataSet><c>3</c></sampleDataSet></sampleDataSets>";
    let parsed = parse_data_sets_xml(xml);
    assert_eq!(
        parsed,
        vec![
            vec!["a".to_string(), "b".to_string()],
            vec!["1".to_string(), "2".to_string()],
            vec!["3".to_string()],
        ]
    );
}

#[test]
fn data_sets_of_empty_document_is_one_empty_header() {
    assert_eq!(parse_data_sets_xml(""), vec![Vec::<String>::new()]);
}

#[test]
fn variables_stop_at_first_failed_item() {
    let var = |name: &str| XmlItem::Empty {
        name: "variable".to_string(),
        attributes: vec![
            None,
            Some(XmlAttribute { key: "varName".to_string(), value: Some(name.to_string()) }),
        ],
    };
    let items = vec![var("a"), XmlItem::Other, var("b"), XmlItem::Failed, var("c")];
    let parsed = variables_from_items(&items);
    assert_eq!(parsed.len(), 2);
    assert_eq!(parsed[0].var_name.as_deref(), Some("a"));
    assert_eq!(parsed[1].var_name.as_deref(), Some("b"));
}

#[test]
fn element_text_joins_text_and_references() {
    let items = vec![
        XmlItem::Text { raw: "x".to_string() },
        XmlItem::GeneralRef { name: "apos".to_string() },
        XmlItem::GeneralRef { name: "unknown".to_string() },
        XmlItem::End { name: "other".to_string() },
        XmlItem::Text { raw: "y".to_string() },
        XmlItem::End { name: "cell".to_string() },
        XmlItem::Text { raw: "z".to_string() },
    ];
    assert_eq!(read_element_text(&items, 0, "cell"), ("x'y".to_string(), 6));
    assert_eq!(read_element_text(&items, 6, "cell"), ("z".to_string(), 7));
}

#[test]
fn decode_xml_text_replaces_references_or_keeps_raw() {
    assert_eq!(decode_xml_text("a&lt;b"), "a<b");
    assert_eq!(decode_xml_text("plain"), "plain");
    assert_eq!(decode_xml_text("bad &nope; ref"), "bad &nope; ref");
}

#[test]
fn data_set_reading_error_ends_cell_then_table() {
    let items = vec![
        XmlItem::Start { name: "sampleDataSet".to_string(), attributes: vec![] },
        XmlItem::Start { name: "n".to_string(), attributes: vec![] },
        XmlItem::Text { raw: "v".to_string() },
        XmlItem::Failed,
        XmlItem::End { name: "sampleDataSet".to_string() },
        XmlItem::Failed,
        XmlItem::End { name: "sampleDataSet".to_string() },
    ];
    assert_eq!(
        data_sets_from_items(&items),
        vec![vec!["n".to_string()], vec!["v".to_string()]]
    );
}

fn variable(name: Option<&str>, trait_name: Option<&str>, clip: Option<&str>) -> VariableSet {
    VariableSet {
        var_name: name.map(|s| s.to_string()),
        trait_name: trait_name.map(|s| s.to_string()),
        doc_ref: None,
        placement_method: None,
        align: None,
        valign: None,
        clip: clip.map(|s| s.to_string()),
    }
}

#[test]
fn build_variables_xml_escapes_attribute_values() {
    let xml = build_variables_xml(&[
        variable(Some("a&b"), Some("visibility"), None),
        variable(None, None, Some("x\"y\tz")),
    ]);
    assert_eq!(
        xml,
        "<variableSets><variableSet><variables><variable varName=\"a&amp;b\" trait=\"visibility\"/><variable clip=\"x&quot;y&#9;z\"/></variables></variableSet></variableSets>"
    );
}

#[test]
fn build_variables_xml_of_nothing() {
    assert_eq!(
        build_variables_xml(&[]),
        "<variableSets><variableSet><variables></variables></variableSet></variableSets>"
    );
}

#[test]
fn variables_xml_reads_back() {
    let vars = vec![
        variable(Some("A&B"), Some("x<y"), Some("c>d")),
        variable(Some("second"), None, None),
    ];
    assert_eq!(parse_variables_xml(&build_variables_xml(&vars)), vars);
}

#[test]
fn build_data_sets_xml_pads_short_records() {
    let table = vec![
        vec!["name".to_string(), "value".to_string()],
        vec!["A&B".to_string(), "<ok>".to_string()],
        vec!["x".to_string()],
    ];
    assert_eq!(
        build_data_sets_xml(&table),
        "<sampleDataSets><sampleDataSet><name>A&amp;B</name><value>&lt;ok&gt;</value></sampleDataSet><sampleDataSet><name>x</name><value></value></sampleDataSet></sampleDataSets>"
    );
    assert_eq!(build_data_sets_xml(&[]), "<sampleDataSets></sampleDataSets>");
    assert_eq!(build_data_sets_xml(&[vec!["h".to_string()]]), "<sampleDataSets></sampleDataSets>");
}

#[test]
fn data_sets_xml_reads_back() {
    let table = vec![
        vec!["name".to_string(), "value".to_string()],
        vec!["A&B".to_string(), "<ok>".to_string()],
        vec!["q'\"".to_string(), "z".to_string()],
    ];
    assert_eq!(parse_data_sets_xml(&build_data_sets_xml(&table)), table);
}
