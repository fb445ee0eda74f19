use ipfix::data::key_matches;
use ipfix::{
    DataRecord, DataRecordKey, DataRecordType, DataRecordValue, ExpandedFieldSpecifier,
    FieldSpecifier, Formatter, InformationElement, IpfixError, Message, OptionsTemplateRecord,
    RecordSet, Records, Template, TemplateMap, TemplateRecord, TemplateStorage,
};

fn formatter() -> Formatter {
    Formatter::new(vec![
        InformationElement {
            enterprise_number: 0,
            element_id: 8,
            name: "sourceIPv4Address",
            ty: DataRecordType::Ipv4Addr,
        },
        InformationElement {
            enterprise_number: 0,
            element_id: 2,
            name: "packetDeltaCount",
            ty: DataRecordType::UnsignedInt,
        },
    ])
}

const TEMPLATE_SET: [u8; 12] = [0x00, 0x02, 0x00, 0x0C, 0x01, 0x00, 0x00, 0x01, 0x00, 0x08, 0x00, 0x04];
const DATA_SET: [u8; 8] = [0x01, 0x00, 0x00, 0x08, 0xC0, 0xA8, 0x00, 0x01];

fn message(sets: &[&[u8]]) -> Vec<u8> {
    let total: usize = 16 + sets.iter().map(|s| s.len()).sum::<usize>();
    let mut m = vec![0x00, 0x0A, (total >> 8) as u8, total as u8];
    m.extend_from_slice(&[0, 0, 0, 1, 0, 0, 0, 2, 0, 0, 0, 3]);
    for s in sets {
        m.extend_from_slice(s);
    }
    m
}

#[test]
fn data_set_before_its_template_fails() {
    let bytes = message(&[&DATA_SET, &TEMPLATE_SET]);
    let mut store = TemplateMap::new();
    let r = Message::read(&bytes, &mut store, &formatter());
    assert!(matches!(r, Err(IpfixError::MissingTemplate(256))));
}

#[test]
fn template_then_data_decodes() {
    let bytes = message(&[&TEMPLATE_SET, &DATA_SET]);
    let mut store = TemplateMap::new();
    let m = Message::read(&bytes, &mut store, &formatter()).unwrap();
    assert_eq!(m.export_time, 1);
    assert_eq!(m.sequence_number, 2);
    assert_eq!(m.observation_domain_id, 3);
    assert_eq!(m.sets.len(), 2);
    let templates = m.iter_template_records();
    assert_eq!(templates.len(), 1);
    assert_eq!(templates[0].template_id, 256);
    assert_eq!(templates[0].field_specifiers, vec![FieldSpecifier::new(None, 8, 4)]);
    let data = m.iter_data_records();
    assert_eq!(data.len(), 1);
    assert_eq!(
        data[0].get(&DataRecordKey::Str("sourceIPv4Address")),
        Some(&DataRecordValue::Ipv4Addr(0xC0A8_0001))
    );
    assert_eq!(data[0].values.len(), 1);
    assert!(m.iter_options_template_records().is_empty());
}

#[test]
fn data_set_decodes_only_after_template_is_stored() {
    let mut store = TemplateMap::new();
    let fmt = formatter();
    let r = RecordSet::read(&DATA_SET, 0, &mut store, &fmt);
    assert!(matches!(r, Err(IpfixError::MissingTemplate(256))));

    let record = TemplateRecord {
        template_id: 256,
        field_specifiers: vec![FieldSpecifier::new(None, 8, 4)],
    };
    store.insert_template_records(&[record], &fmt);
    let (set, end) = RecordSet::read(&DATA_SET, 0, &mut store, &fmt).unwrap();
    assert_eq!(end, 8);
    match set.records {
        Records::Data { set_id, data } => {
            assert_eq!(set_id, 256);
            assert_eq!(data.len(), 1);
            assert_eq!(
                data[0].get(&DataRecordKey::Str("sourceIPv4Address")),
                Some(&DataRecordValue::Ipv4Addr(0xC0A8_0001))
            );
        }
        _ => panic!("expected a data set"),
    }
}

#[test]
fn reserved_set_ids_are_rejected() {
    for id in [0u16, 1, 4, 100, 255] {
        let bytes = [(id >> 8) as u8, id as u8, 0x00, 0x08, 1, 2, 3, 4];
        let mut store = TemplateMap::new();
        let r = RecordSet::read(&bytes, 0, &mut store, &formatter());
        assert!(matches!(r, Err(IpfixError::ReservedSetId(x)) if x == id));
    }
}

#[test]
fn reserved_template_ids_are_rejected() {
    for id in [0u16, 2, 255] {
        let bytes = [(id >> 8) as u8, id as u8, 0x00, 0x00];
        assert!(matches!(TemplateRecord::read(&bytes, 0), Err(IpfixError::ReservedTemplateId(x)) if x == id));
        let bytes = [(id >> 8) as u8, id as u8, 0x00, 0x00, 0x00, 0x00];
        assert!(matches!(
            OptionsTemplateRecord::read(&bytes, 0),
            Err(IpfixError::ReservedTemplateId(x)) if x == id
        ));
    }
}

#[test]
fn set_length_must_exceed_header() {
    let bytes = [0x00, 0x02, 0x00, 0x04];
    let mut store = TemplateMap::new();
    let r = RecordSet::read(&bytes, 0, &mut store, &formatter());
    assert!(matches!(r, Err(IpfixError::InvalidSetLength(4))));
}

#[test]
fn set_running_past_input_is_truncated() {
    let bytes = [0x00, 0x02, 0x00, 0x10, 0x01, 0x00];
    let mut store = TemplateMap::new();
    let r = RecordSet::read(&bytes, 0, &mut store, &formatter());
    assert!(matches!(r, Err(IpfixError::Truncated)));
}

#[test]
fn bad_version_is_rejected() {
    let mut bytes = message(&[&TEMPLATE_SET]);
    bytes[1] = 9;
    let mut store = TemplateMap::new();
    assert!(matches!(
        Message::read(&bytes, &mut store, &formatter()),
        Err(IpfixError::BadVersion(9))
    ));
    assert!(matches!(
        Message::read(&bytes[..10], &mut store, &formatter()),
        Err(IpfixError::Truncated)
    ));
}

#[test]
fn enterprise_field_specifier_round_trips() {
    let f = FieldSpecifier::new(Some(0x0102_0304), 0x1234, 0xFFFF);
    let mut out = Vec::new();
    ipfix::records::write_field_spec(&f, &mut out);
    assert_eq!(out, vec![0x92, 0x34, 0xFF, 0xFF, 0x01, 0x02, 0x03, 0x04]);
    let (back, end) = ipfix::records::read_field_spec(&out, 0).unwrap();
    assert_eq!(back, f);
    assert_eq!(end, 8);
}

#[test]
fn unknown_elements_become_unrecognized_bytes() {
    let f = FieldSpecifier::new(Some(9), 77, 3);
    let e = ExpandedFieldSpecifier::from_field_spec(&f, &formatter());
    assert_eq!(e.name, DataRecordKey::Unrecognized(f));
    assert_eq!(e.ty, DataRecordType::Bytes);
    let known = ExpandedFieldSpecifier::from_field_spec(&FieldSpecifier::new(None, 2, 8), &formatter());
    assert_eq!(known.name, DataRecordKey::Str("packetDeltaCount"));
    assert_eq!(known.ty, DataRecordType::UnsignedInt);
}

#[test]
fn later_template_replaces_earlier() {
    let mut store = TemplateMap::new();
    let fmt = formatter();
    store.insert_template_records(
        &[TemplateRecord { template_id: 300, field_specifiers: vec![FieldSpecifier::new(None, 8, 4)] }],
        &fmt,
    );
    store.insert_options_template_records(
        &[OptionsTemplateRecord {
            template_id: 300,
            scope_field_count: 1,
            field_specifiers: vec![FieldSpecifier::new(None, 2, 8), FieldSpecifier::new(None, 8, 4)],
        }],
        &fmt,
    );
    match store.get_template(300) {
        Some(Template::OptionsTemplate(fields)) => assert_eq!(fields.len(), 2),
        other => panic!("unexpected {:?}", other),
    }
    assert!(store.get_template(301).is_none());
}

#[test]
fn missing_value_is_reported() {
    let mut store = TemplateMap::new();
    let fmt = formatter();
    store.insert_template_records(
        &[TemplateRecord { template_id: 256, field_specifiers: vec![FieldSpecifier::new(None, 8, 4)] }],
        &fmt,
    );
    let rec = DataRecord::new();
    let mut out = Vec::new();
    let r = rec.write(256, &store, &mut out);
    assert!(matches!(r, Err(IpfixError::MissingData(DataRecordKey::Str("sourceIPv4Address")))));
    let r = rec.write(999, &store, &mut out);
    assert!(matches!(r, Err(IpfixError::MissingTemplate(999))));
}

#[test]
fn data_record_insert_replaces_value() {
    let mut rec = DataRecord::new();
    rec.insert(DataRecordKey::Str("a"), DataRecordValue::U8(1));
    rec.insert(DataRecordKey::Str("b"), DataRecordValue::U8(2));
    rec.insert(DataRecordKey::Str("a"), DataRecordValue::U8(3));
    assert_eq!(rec.values.len(), 2);
    assert_eq!(rec.get(&DataRecordKey::Str("a")), Some(&DataRecordValue::U8(3)));
    assert_eq!(rec.get(&DataRecordKey::Str("c")), None);
    assert!(key_matches(&DataRecordKey::Error("x".to_string()), &DataRecordKey::Error("x".to_string())));
    assert!(!key_matches(&DataRecordKey::Str("x"), &DataRecordKey::Error("x".to_string())));
}

fn sample_message() -> (Message, TemplateMap) {
    let mut store = TemplateMap::new();
    let fmt = formatter();
    let template = TemplateRecord {
        template_id: 256,
        field_specifiers: vec![FieldSpecifier::new(None, 8, 4), FieldSpecifier::new(None, 2, 8)],
    };
    store.insert_template_records(&[template.clone()], &fmt);
    let mut rec = DataRecord::new();
    rec.insert(DataRecordKey::Str("sourceIPv4Address"), DataRecordValue::Ipv4Addr(0x0A00_0001));
    rec.insert(DataRecordKey::Str("packetDeltaCount"), DataRecordValue::U64(42));
    let m = Message {
        export_time: 0x6000_0000,
        sequence_number: 7,
        observation_domain_id: 1,
        sets: vec![
            RecordSet { records: Records::Template(vec![template]) },
            RecordSet { records: Records::Data { set_id: 256, data: vec![rec.clone(), rec] } },
        ],
    };
    (m, store)
}

#[test]
fn message_length_is_backpatched() {
    let (m, store) = sample_message();
    let mut out = Vec::new();
    m.write(&store, 0, &mut out).unwrap();
    assert_eq!(((out[2] as usize) << 8) | out[3] as usize, out.len());
    assert_eq!(&out[..2], &[0x00, 0x0A]);
    let mut pos = 16;
    let mut spans = Vec::new();
    while pos < out.len() {
        let len = ((out[pos + 2] as usize) << 8) | out[pos + 3] as usize;
        spans.push(len);
        pos += len;
    }
    assert_eq!(spans, vec![4 + 4 + 8, 4 + 2 * 12]);
    assert_eq!(16 + spans.iter().sum::<usize>(), out.len());
}

#[test]
fn sets_are_padded_to_alignment() {
    let (m, store) = sample_message();
    let mut out = Vec::new();
    m.write(&store, 8, &mut out).unwrap();
    assert_eq!(((out[2] as usize) << 8) | out[3] as usize, out.len());
    assert_eq!(out.len() % 8, 0);
    let first = ((out[18] as usize) << 8) | out[19] as usize;
    assert_eq!(first, 16);
}

#[test]
fn written_message_reads_back() {
    let (m, store) = sample_message();
    let mut out = Vec::new();
    m.write(&store, 0, &mut out).unwrap();
    let mut fresh = TemplateMap::new();
    let back = Message::read(&out, &mut fresh, &formatter()).unwrap();
    assert_eq!(back, m);
}

#[test]
fn set_id_follows_records() {
    assert_eq!(Records::Template(vec![]).set_id(), 2);
    assert_eq!(Records::OptionsTemplate(vec![]).set_id(), 3);
    assert_eq!(Records::Data { set_id: 999, data: vec![] }.set_id(), 999);
}

#[test]
fn writing_reserved_ids_is_rejected() {
    let store = TemplateMap::new();
    let mut out = vec![9u8];
    let t = TemplateRecord { template_id: 255, field_specifiers: vec![] };
    assert!(matches!(t.write(&mut out), Err(IpfixError::ReservedTemplateId(255))));
    let o = OptionsTemplateRecord { template_id: 3, scope_field_count: 0, field_specifiers: vec![] };
    assert!(matches!(o.write(&mut out), Err(IpfixError::ReservedTemplateId(3))));
    let set = RecordSet { records: Records::Data { set_id: 2, data: vec![] } };
    assert!(matches!(set.write(&store, 0, &mut out), Err(IpfixError::ReservedSetId(2))));
    assert_eq!(out, vec![9u8]);
}

#[test]
fn failed_record_write_keeps_only_earlier_fields() {
    let mut store = TemplateMap::new();
    let fmt = formatter();
    store.insert_template_records(
        &[TemplateRecord {
            template_id: 256,
            field_specifiers: vec![FieldSpecifier::new(None, 8, 4), FieldSpecifier::new(None, 2, 5)],
        }],
        &fmt,
    );
    let mut rec = DataRecord::new();
    rec.insert(DataRecordKey::Str("sourceIPv4Address"), DataRecordValue::Ipv4Addr(0x0102_0304));
    rec.insert(DataRecordKey::Str("packetDeltaCount"), DataRecordValue::U40(0x100_0000_0000));
    let mut out = vec![0xEEu8];
    let r = rec.write(256, &store, &mut out);
    assert!(matches!(r, Err(IpfixError::ValueOverflow)));
    assert_eq!(out, vec![0xEE, 1, 2, 3, 4]);
}

#[test]
fn record_equality_ignores_entry_order() {
    let mut a = DataRecord::new();
    a.insert(DataRecordKey::Str("x"), DataRecordValue::U8(1));
    a.insert(DataRecordKey::Str("y"), DataRecordValue::String("s".to_string()));
    let mut b = DataRecord::new();
    b.insert(DataRecordKey::Str("y"), DataRecordValue::String("s".to_string()));
    b.insert(DataRecordKey::Str("x"), DataRecordValue::U8(1));
    assert_eq!(a, b);
    b.insert(DataRecordKey::Str("x"), DataRecordValue::U8(2));
    assert_ne!(a, b);
}

#[test]
fn reserved_ids_are_never_installed_or_used() {
    let mut store = TemplateMap::new();
    let fmt = formatter();
    store.insert_template_records(
        &[
            TemplateRecord { template_id: 5, field_specifiers: vec![FieldSpecifier::new(None, 8, 4)] },
            TemplateRecord { template_id: 256, field_specifiers: vec![FieldSpecifier::new(None, 8, 4)] },
        ],
        &fmt,
    );
    store.insert_options_template_records(
        &[OptionsTemplateRecord { template_id: 7, scope_field_count: 0, field_specifiers: vec![] }],
        &fmt,
    );
    assert!(store.get_template(5).is_none());
    assert!(store.get_template(7).is_none());
    assert!(store.get_template(256).is_some());

    store.insert_template(5, Template::Template(vec![]));
    let r = DataRecord::read(&[1, 2, 3, 4], 0, 5, &store);
    assert!(matches!(r, Err(IpfixError::ReservedSetId(5))));
    let mut out = Vec::new();
    let r = DataRecord::new().write(5, &store, &mut out);
    assert!(matches!(r, Err(IpfixError::ReservedSetId(5))));
    assert!(out.is_empty());
}
