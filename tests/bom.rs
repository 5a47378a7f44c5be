use kicad_bom::{
    bom, extract_items, group_items, reference, sort_items, BomError, BomItem, Property, Schema,
    SchemaElement, Symbol,
};

fn prop(key: &str, value: &str) -> Property {
    Property { key: key.to_string(), value: value.to_string() }
}

fn part(lib_id: &str, unit: u32, reference: &str, value: &str, footprint: &str) -> SchemaElement {
    SchemaElement::Symbol(Symbol {
        lib_id: lib_id.to_string(),
        unit,
        properties: vec![
            prop("Reference", reference),
            prop("Value", value),
            prop("Footprint", footprint),
            prop("Datasheet", "~"),
        ],
    })
}

fn doc(elements: Vec<SchemaElement>) -> Schema {
    Schema { elements }
}

fn refs(items: &[BomItem]) -> Vec<Vec<String>> {
    items.iter().map(|i| i.references.clone()).collect()
}

fn summe() -> Schema {
    doc(vec![
        part("Device:R", 1, "R1", "10k", "Resistor_SMD:R_0805"),
        part("Device:C", 1, "C1", "100n", "Capacitor_SMD:C_0805"),
        part("power:GND", 1, "#PWR01", "GND", ""),
        SchemaElement::Other,
        part("Amplifier_Operational:TL072", 1, "U1", "TL072", "Package_SO:SOIC-8"),
        part("Amplifier_Operational:TL072", 2, "U1", "TL072", "Package_SO:SOIC-8"),
        part("Amplifier_Operational:TL072", 3, "U1", "TL072", "Package_SO:SOIC-8"),
        part("Device:R", 1, "R2", "4k7", "Resistor_SMD:R_0805"),
        part("Mechanical:MountingHole", 1, "H1", "MountingHole", "MountingHole_3.2mm"),
    ])
}

#[test]
fn test_bom() {
    let result = bom(&summe(), true).unwrap();
    assert_eq!(4, result.len());
}

#[test]
fn four_distinct_parts_give_four_single_lines() {
    let result = bom(&summe(), true).unwrap();
    assert_eq!(4, result.len());
    assert!(result.iter().all(|i| i.amount == 1 && i.references.len() == 1));
    assert_eq!(
        refs(&result),
        vec![vec!["C1".to_string()], vec!["R1".to_string()], vec!["R2".to_string()], vec!["U1".to_string()]]
    );
}

#[test]
fn equal_resistors_are_grouped() {
    let d = doc(vec![
        part("Device:R", 1, "R1", "10k", "0603"),
        part("Device:R", 1, "R2", "10k", "0603"),
    ]);
    let grouped = bom(&d, true).unwrap();
    assert_eq!(grouped.len(), 1);
    assert_eq!(grouped[0].amount, 2);
    assert!(grouped[0].references.contains(&"R1".to_string()));
    assert!(grouped[0].references.contains(&"R2".to_string()));
    assert_eq!(grouped[0].value, "10k");
    assert_eq!(grouped[0].footprint, "0603");
    let single = bom(&d, false).unwrap();
    assert_eq!(single.len(), 2);
    assert_eq!(refs(&single), vec![vec!["R1".to_string()], vec!["R2".to_string()]]);
}

#[test]
fn missing_footprint_fails() {
    let d = doc(vec![
        part("Device:R", 1, "R1", "10k", "0603"),
        SchemaElement::Symbol(Symbol {
            lib_id: "Device:C".to_string(),
            unit: 1,
            properties: vec![prop("Reference", "C1"), prop("Value", "1u"), prop("Datasheet", "~")],
        }),
    ]);
    for group in [false, true] {
        match bom(&d, group) {
            Err(BomError::MissingProperty(name)) => assert_eq!(name, "Footprint"),
            Ok(items) => panic!("expected an error, got {:?}", items),
        }
    }
}

#[test]
fn first_missing_property_is_reported() {
    let d = doc(vec![SchemaElement::Symbol(Symbol {
        lib_id: "Device:C".to_string(),
        unit: 1,
        properties: vec![prop("Reference", "C1")],
    })]);
    match bom(&d, false) {
        Err(BomError::MissingProperty(name)) => assert_eq!(name, "Value"),
        Ok(items) => panic!("expected an error, got {:?}", items),
    }
    let no_datasheet = doc(vec![SchemaElement::Symbol(Symbol {
        lib_id: "Device:C".to_string(),
        unit: 1,
        properties: vec![prop("Reference", "C1"), prop("Value", "1u"), prop("Footprint", "0402")],
    })]);
    match bom(&no_datasheet, false) {
        Err(BomError::MissingProperty(name)) => assert_eq!(name, "Datasheet"),
        Ok(items) => panic!("expected an error, got {:?}", items),
    }
    let no_reference = doc(vec![SchemaElement::Symbol(Symbol {
        lib_id: "Device:C".to_string(),
        unit: 1,
        properties: vec![],
    })]);
    match bom(&no_reference, true) {
        Err(BomError::MissingProperty(name)) => assert_eq!(name, "Reference"),
        Ok(items) => panic!("expected an error, got {:?}", items),
    }
}

#[test]
fn excluded_symbols_lacking_properties_are_not_checked() {
    let d = doc(vec![
        SchemaElement::Symbol(Symbol { lib_id: "power:+5V".to_string(), unit: 1, properties: vec![] }),
        SchemaElement::Symbol(Symbol { lib_id: "Device:R".to_string(), unit: 2, properties: vec![] }),
        part("Device:R", 1, "R1", "1k", "0402"),
    ]);
    let result = bom(&d, false).unwrap();
    assert_eq!(refs(&result), vec![vec!["R1".to_string()]]);
}

#[test]
fn power_and_mechanical_symbols_are_left_out() {
    let d = doc(vec![
        part("power:GND", 1, "#PWR01", "GND", ""),
        part("Mechanical:MountingHole", 1, "H1", "MountingHole", "M3"),
        part("Device:R", 1, "R1", "1k", "0402"),
        part("Power:Custom", 1, "P1", "x", "y"),
    ]);
    for group in [false, true] {
        let result = bom(&d, group).unwrap();
        assert_eq!(refs(&result), vec![vec!["P1".to_string()], vec!["R1".to_string()]]);
    }
}

#[test]
fn only_first_unit_counts() {
    let d = doc(vec![
        part("Amplifier_Operational:TL072", 2, "U1", "TL072", "SOIC-8"),
        part("Amplifier_Operational:TL072", 1, "U1", "TL072", "SOIC-8"),
        part("Amplifier_Operational:TL072", 3, "U1", "TL072", "SOIC-8"),
    ]);
    for group in [false, true] {
        let result = bom(&d, group).unwrap();
        assert_eq!(result.len(), 1);
        assert_eq!(result[0].amount, 1);
    }
}

#[test]
fn lines_are_sorted_by_reference_number() {
    let d = doc(vec![
        part("Device:R", 1, "R10", "1k", "0402"),
        part("Device:R", 1, "R2", "2k", "0402"),
        part("Device:C", 1, "C3", "1u", "0402"),
        part("Device:R", 1, "R1", "3k", "0402"),
    ]);
    let result = bom(&d, false).unwrap();
    assert_eq!(
        refs(&result),
        vec![
            vec!["C3".to_string()],
            vec!["R1".to_string()],
            vec!["R2".to_string()],
            vec!["R10".to_string()]
        ]
    );
}

#[test]
fn grouped_references_keep_traversal_order_and_first_fields() {
    let mut r9 = part("Device:R", 1, "R9", "10k", "0603");
    if let SchemaElement::Symbol(s) = &mut r9 {
        s.properties.push(prop("Description", "first"));
        s.properties[3].value = "ds-first".to_string();
    }
    let mut r3 = part("Device:R", 1, "R3", "10k", "0603");
    if let SchemaElement::Symbol(s) = &mut r3 {
        s.properties.push(prop("Description", "second"));
    }
    let d = doc(vec![r9, part("Device:C", 1, "C5", "10k", "0805"), r3]);
    let result = bom(&d, true).unwrap();
    assert_eq!(result.len(), 2);
    assert_eq!(result[0].references, vec!["C5".to_string()]);
    assert_eq!(result[1].references, vec!["R9".to_string(), "R3".to_string()]);
    assert_eq!(result[1].amount, 2);
    assert_eq!(result[1].datasheet, "ds-first");
    assert_eq!(result[1].description, "first");
    assert_eq!(result[0].description, "");
}

#[test]
fn grouped_amounts_add_up() {
    let d = doc(vec![
        part("Device:R", 1, "R1", "10k", "0603"),
        part("Device:R", 1, "R2", "10k", "0805"),
        part("Device:R", 1, "R3", "10k", "0603"),
        part("Device:R", 1, "R4", "1k", "0603"),
        part("Device:R", 1, "R5", "10k", "0603"),
    ]);
    let grouped = bom(&d, true).unwrap();
    let single = bom(&d, false).unwrap();
    let total: usize = grouped.iter().map(|i| i.amount).sum();
    assert_eq!(total, single.len());
    assert_eq!(grouped.len(), 3);
    for (i, a) in grouped.iter().enumerate() {
        assert_eq!(a.amount, a.references.len());
        for b in &grouped[i + 1..] {
            assert!(!(a.value == b.value && a.footprint == b.footprint));
        }
    }
}

#[test]
fn empty_document_gives_empty_bom() {
    assert!(bom(&doc(vec![]), true).unwrap().is_empty());
    assert!(bom(&doc(vec![SchemaElement::Other]), false).unwrap().is_empty());
}

#[test]
fn first_property_of_a_name_is_used() {
    let s = Symbol {
        lib_id: "Device:R".to_string(),
        unit: 1,
        properties: vec![prop("Value", "1k"), prop("Value", "2k")],
    };
    assert_eq!(s.get_property("Value"), Some("1k".to_string()));
    assert_eq!(s.get_property("Val"), None);
    assert_eq!(s.get_property("value"), None);
}

#[test]
fn pipeline_stages_compose() {
    let d = doc(vec![
        part("Device:R", 1, "R2", "10k", "0603"),
        part("Device:R", 1, "R1", "10k", "0603"),
    ]);
    let items = extract_items(&d).unwrap();
    assert_eq!(refs(&items), vec![vec!["R2".to_string()], vec!["R1".to_string()]]);
    let grouped = group_items(&items);
    assert_eq!(refs(&grouped), vec![vec!["R2".to_string(), "R1".to_string()]]);
    let sorted = sort_items(items);
    assert_eq!(refs(&sorted), vec![vec!["R1".to_string()], vec!["R2".to_string()]]);
}

#[test]
fn reference_pads_number_to_four_digits() {
    assert_eq!(reference("R7"), "R0007");
    assert_eq!(reference("U23"), "U0023");
    assert_eq!(reference("C1234"), "C1234");
}

#[test]
fn reference_never_truncates_long_numbers() {
    assert_eq!(reference("R123456"), "R123456");
}

#[test]
fn reference_of_empty_string() {
    assert_eq!(reference(""), "0000");
    assert_eq!(reference("X"), "X0000");
}

#[test]
fn reference_separates_interleaved_characters() {
    assert_eq!(reference("A1B2"), "AB0012");
    assert_eq!(reference("1U1"), "U0011");
}

#[test]
fn reference_ignores_leading_zeros() {
    assert_eq!(reference("R7"), reference("R007"));
    assert_eq!(reference("R0007"), reference("R7"));
    assert_ne!(reference("R7"), reference("R70"));
}

#[test]
fn reference_is_deterministic() {
    assert_eq!(reference("Q42"), reference("Q42"));
}

#[test]
fn reference_treats_other_numeric_chars_as_digits() {
    assert_eq!(reference("R\u{0663}"), "R000\u{0663}");
}
