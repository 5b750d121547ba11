use data_collect::dp::{add_dp, parse_dp, tag_table, DpElement, DpError, Row};
use data_collect::table::KeyedTable;

fn channel(local: &str, ty: &str, id: &str, tag: &str, desc: &str, unit: &str) -> String {
    format!(
        r#"<DataChannel>
      <DataChannelID><LocalID>{local}</LocalID></DataChannelID>
      <Property>
        <Format><Type>{ty}</Type></Format>
        <Unit>{unit}</Unit>
        <device:DeviceProperty><device:ID>{id}</device:ID><device:OriginTag>{tag}</device:OriginTag></device:DeviceProperty>
        <dmd:Description>{desc}</dmd:Description>
      </Property>
    </DataChannel>"#
    )
}

fn document(channels: &[String]) -> String {
    format!(
        r#"<Package xmlns="urn:ISO19848:SHIP_DATA_DEFINITION" xmlns:device="urn:BLUEONE:DEVICE_DATA_MAP" xmlns:dmd="urn:BLUEONE:DATA_MODEL_DEFINITION">
  <Header>ignored</Header>
  <DataChannelList>
    {}
  </DataChannelList>
</Package>"#,
        channels.join("\n")
    )
}

fn rows(text: &str) -> Vec<Row> {
    match parse_dp(text) {
        Ok(rows) => rows,
        Err(e) => panic!("{}", e.message()),
    }
}

fn missing(text: &str) -> DpElement {
    match parse_dp(text) {
        Err(DpError::Missing(el)) => el,
        Err(DpError::Xml(e)) => panic!("xml error {}", e.message),
        Ok(_) => panic!("expected an error"),
    }
}

#[test]
fn channels_become_rows_in_order() {
    let doc = document(&[
        channel("/ME/T1", "Decimal", "D1", "TAG1", "Main engine", "<QuantityName>Temperature</QuantityName>"),
        channel("/ME/P1", "Integer", "D2", "TAG2", "Pressure", "<QuantityName>Pressure</QuantityName>"),
    ]);
    let r = rows(&doc);
    assert_eq!(r.len(), 2);
    assert_eq!(r[0].LocalID, "/ME/T1");
    assert_eq!(r[0].Type, "Decimal");
    assert_eq!(r[0].DeviceID, "D1");
    assert_eq!(r[0].OriginTag, "TAG1");
    assert_eq!(r[0].Description, "Main engine");
    assert_eq!(r[0].Unit, "Temperature");
    assert_eq!(r[1].LocalID, "/ME/P1");
    assert_eq!(r[1].Unit, "Pressure");
}

#[test]
fn a_unit_without_quantity_name_is_empty() {
    let doc = document(&[channel("/X", "String", "D", "T", "d", "<Other>x</Other>")]);
    let r = rows(&doc);
    assert_eq!(r[0].Unit, "");
}

#[test]
fn an_empty_channel_list_gives_no_rows() {
    let doc = document(&[]);
    assert_eq!(rows(&doc).len(), 0);
}

#[test]
fn missing_channel_list_is_reported() {
    let doc = r#"<Package xmlns="urn:ISO19848:SHIP_DATA_DEFINITION"><Other/></Package>"#;
    assert_eq!(missing(doc), DpElement::DataChannelList);
    let wrong_ns = r#"<Package xmlns="x"><DataChannelList/></Package>"#;
    assert_eq!(missing(wrong_ns), DpElement::DataChannelList);
}

#[test]
fn each_missing_element_is_reported() {
    let good = channel("/L", "T", "I", "O", "D", "<QuantityName>Q</QuantityName>");
    let cases: Vec<(&str, &str, DpElement)> = vec![
        ("<DataChannelID><LocalID>/L</LocalID></DataChannelID>", "", DpElement::DataChannelId),
        ("<LocalID>/L</LocalID>", "", DpElement::LocalId),
        ("<Format><Type>T</Type></Format>", "", DpElement::Format),
        ("<Type>T</Type>", "", DpElement::Type),
        ("<device:ID>I</device:ID>", "", DpElement::Id),
        ("<device:OriginTag>O</device:OriginTag>", "", DpElement::OriginTag),
        ("<dmd:Description>D</dmd:Description>", "", DpElement::Description),
        ("<Unit><QuantityName>Q</QuantityName></Unit>", "", DpElement::Unit),
    ];
    for (from, to, expected) in cases {
        let broken = good.replacen(from, to, 1);
        assert_ne!(broken, good);
        assert_eq!(missing(&document(&[broken])), expected);
    }
    let no_props = r#"<DataChannel><DataChannelID><LocalID>/L</LocalID></DataChannelID></DataChannel>"#;
    assert_eq!(missing(&document(&[no_props.to_string()])), DpElement::Property);
    let no_dev = good.replacen(
        "<device:DeviceProperty><device:ID>I</device:ID><device:OriginTag>O</device:OriginTag></device:DeviceProperty>",
        "",
        1,
    );
    assert_eq!(missing(&document(&[no_dev])), DpElement::DeviceProperty);
}

#[test]
fn the_first_failing_channel_decides_the_error() {
    let good = channel("/L", "T", "I", "O", "D", "");
    let no_type = good.replacen("<Type>T</Type>", "", 1);
    let no_unit = good.replacen("<Unit></Unit>", "", 1);
    assert_eq!(missing(&document(&[good.clone(), no_unit.clone(), no_type.clone()])), DpElement::Unit);
    assert_eq!(missing(&document(&[no_type, no_unit])), DpElement::Type);
}

#[test]
fn elements_in_the_wrong_namespace_do_not_count() {
    let good = channel("/L", "T", "I", "O", "D", "");
    let wrong = good.replacen("<dmd:Description>D</dmd:Description>", "<Description>D</Description>", 1);
    assert_eq!(missing(&document(&[wrong])), DpElement::Description);
}

#[test]
fn error_messages_name_the_element() {
    assert_eq!(
        DpError::Missing(DpElement::DataChannelId).message(),
        "Failed to get the element of DataChannelId."
    );
    assert_eq!(
        DpError::Missing(DpElement::LocalId).message(),
        "Failed to get the element of LocalID."
    );
    assert_eq!(DpError::Missing(DpElement::Id).message(), "Failed to get the element of ID.");
    assert_eq!(DpElement::DataChannelList.label(), "DataChannelList");
}

#[test]
fn malformed_dp_is_an_xml_error() {
    match parse_dp("<Package") {
        Err(DpError::Xml(e)) => assert!(!e.message.is_empty()),
        _ => panic!("expected an XML error"),
    }
}

#[test]
fn tag_table_keeps_the_last_tag_of_each_local_id() {
    let doc = document(&[
        channel("/A", "T", "I", "first", "D", ""),
        channel("/B", "T", "I", "b", "D", ""),
        channel("/A", "T", "I", "second", "D", ""),
    ]);
    let table = tag_table(&rows(&doc));
    assert_eq!(table.len(), 2);
    assert_eq!(table.get("/A").unwrap(), "second");
    assert_eq!(table.get("/B").unwrap(), "b");
    assert!(table.get("/C").is_none());
}

#[test]
fn dp_files_are_listed_by_name() {
    let mut list: KeyedTable<KeyedTable<String>> = KeyedTable::new();
    let doc = document(&[channel("/A", "T", "I", "tag-a", "D", ""), channel("/A", "T", "I", "tag-b", "D", "")]);
    add_dp(&mut list, "DP_IMO1.xml".to_string(), &doc).ok().unwrap();
    assert_eq!(list.len(), 1);
    assert_eq!(list.get("DP_IMO1.xml").unwrap().get("/A").unwrap(), "tag-b");
    assert!(add_dp(&mut list, "bad.xml".to_string(), "<x").is_err());
    assert_eq!(list.len(), 1);
}
