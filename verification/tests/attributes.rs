use zebin::attrs::{parse_packed_bits, parse_uint_after_token, PackedElementKind, RecordStyle};
use zebin::field_attrs::{
    accept_default_value, finalize_record, parse_field_attrs, parse_fields, parse_item, parse_name_value_str, parse_name_value_u32,
    parse_schema_key, parse_schema_revision, variant_snake_case, FieldInput, ItemData, ItemInput, ItemSpec,
    VariantInput,
};

fn texts(items: &[&str]) -> Vec<String> {
    items.iter().map(|s| s.to_string()).collect()
}

fn field(attrs: &[&str]) -> FieldInput {
    FieldInput { attrs: texts(attrs), kind: None }
}

#[test]
fn name_value_numbers() {
    assert_eq!(parse_name_value_u32("id = 0x1_0, rename = \"x\"", "id"), Ok(Some(16)));
    assert_eq!(parse_name_value_u32("id = 1_000", "id"), Ok(Some(1000)));
    assert_eq!(parse_name_value_u32("skip, id = 7", "id"), Ok(Some(7)));
    assert_eq!(parse_name_value_u32("id = +7", "id"), Ok(Some(7)));
    assert_eq!(parse_name_value_u32("id = 0XfF", "id"), Ok(Some(255)));
    assert_eq!(parse_name_value_u32("rename = \"id\"", "id"), Ok(None));
    assert_eq!(parse_name_value_u32("id", "id"), Ok(None));
    assert_eq!(parse_name_value_u32("id = abc", "id"), Err("invalid digit found in string"));
    assert_eq!(parse_name_value_u32("id = ", "id"), Err("cannot parse integer from empty string"));
    assert_eq!(parse_name_value_u32("id = -", "id"), Err("invalid digit found in string"));
    assert_eq!(parse_name_value_u32("id = 4294967295", "id"), Ok(Some(4294967295)));
    assert_eq!(parse_name_value_u32("id = 4294967296", "id"), Err("number too large to fit in target type"));
}

#[test]
fn name_value_strings() {
    assert_eq!(parse_name_value_str("rename = \"other\"", "rename"), Ok(Some("other".to_string())));
    assert_eq!(parse_name_value_str("id = 3, rename = \"x\"", "rename"), Ok(Some("x".to_string())));
    assert_eq!(parse_name_value_str("default_value = 5", "default_value"), Ok(Some("5".to_string())));
    assert_eq!(parse_name_value_str("skip", "rename"), Ok(None));
}

#[test]
fn schema_key_and_revision() {
    assert_eq!(parse_schema_key(&texts(&["schema_key = 1", "schema_key = 0x20"])), Ok(Some(32)));
    assert_eq!(parse_schema_key(&texts(&["revision = 2"])), Ok(None));
    assert_eq!(parse_schema_key(&texts(&["schema_key = x"])), Err("invalid digit found in string"));
    assert_eq!(parse_schema_revision(&texts(&["schema_key = 1, revision = 3"])), Ok(3));
    assert_eq!(parse_schema_revision(&texts(&[])), Ok(0));
}

#[test]
fn field_attributes() {
    let a = parse_field_attrs(&texts(&["id = 4, rename = \"b\"", "default"]), None).unwrap();
    assert_eq!(a.field_id, Some(4));
    assert_eq!(a.rename, Some("b".to_string()));
    assert!(a.default);
    assert!(!a.skip);
    assert_eq!(a.packed_bits, None);
    assert_eq!(a.default_value, None);

    let s = parse_field_attrs(&texts(&["skip_serializing"]), None).unwrap();
    assert!(s.skip);
    assert_eq!(s.field_id, None);

    assert_eq!(parse_field_attrs(&texts(&["id = 70000"]), None).err(), Some("field id exceeds u16 range"));
}

#[test]
fn packed_bit_widths() {
    assert_eq!(parse_packed_bits(&texts(&["packed"]), Some(PackedElementKind::Bool)), Ok(Some(1)));
    assert_eq!(parse_packed_bits(&texts(&["packed = 3"]), Some(PackedElementKind::U8)), Ok(Some(3)));
    assert_eq!(parse_packed_bits(&texts(&["packed, bits = 5"]), Some(PackedElementKind::U8)), Ok(Some(5)));
    assert_eq!(parse_packed_bits(&texts(&["id = 1"]), Some(PackedElementKind::U8)), Ok(None));
    assert_eq!(
        parse_packed_bits(&texts(&["packed"]), Some(PackedElementKind::U8)),
        Err("u8 packed 字段需要显式提供 bits")
    );
    assert_eq!(
        parse_packed_bits(&texts(&["packed = 9"]), Some(PackedElementKind::U8)),
        Err("u8 packed 字段的 bits 必须在 1..=8")
    );
    assert_eq!(
        parse_packed_bits(&texts(&["packed = 2"]), Some(PackedElementKind::Bool)),
        Err("bool packed 字段只能使用 1 bit")
    );
    assert_eq!(parse_packed_bits(&texts(&["packed = 2"]), None), Err("packed 只能用于 `Vec<bool>` 或 `Vec<u8>`"));
    let a = parse_field_attrs(&texts(&["packed = 4"]), Some(PackedElementKind::U8)).unwrap();
    assert_eq!(a.packed_bits, Some(4));
}

#[test]
fn uint_after_token() {
    assert_eq!(parse_uint_after_token("packed = 0x1_0", "packed"), Some(16));
    assert_eq!(parse_uint_after_token("bits = 7, id = 1", "bits"), Some(7));
    assert_eq!(parse_uint_after_token("packed", "packed"), None);
    assert_eq!(parse_uint_after_token("id = 1", "packed"), None);
}

#[test]
fn records_and_schema() {
    let rec = parse_fields(RecordStyle::Named, &[field(&["id = 2"]), field(&["skip"]), field(&["id = 1"])]).unwrap();
    assert!(rec.has_schema());
    assert!(rec.validate_field_ids().is_ok());
    assert_eq!(rec.active_fields_by_id(), vec![2, 0]);

    let missing = parse_fields(RecordStyle::Named, &[field(&["id = 2"]), field(&[])]).unwrap();
    assert_eq!(missing.validate_field_ids(), Err("启用 #[zebin(id = ...)] 后，所有非 skip 字段都必须提供 id"));
    assert_eq!(missing.active_fields_by_id(), vec![0, 1]);

    let plain = parse_fields(RecordStyle::Named, &[field(&[]), field(&[])]).unwrap();
    assert!(!plain.has_schema());
    assert_eq!(
        finalize_record(plain, &texts(&["schema_key = 9"])).err(),
        Some("未启用 schema 字段时，不能使用 #[zebin(schema_key = ...)]")
    );

    let keyed = parse_fields(RecordStyle::Named, &[field(&["id = 1"])]).unwrap();
    assert_eq!(
        finalize_record(keyed, &texts(&[])).err(),
        Some("启用 schema 字段后，必须同时提供 #[zebin(schema_key = ...)]")
    );
    let keyed = parse_fields(RecordStyle::Named, &[field(&["id = 1"])]).unwrap();
    let done = finalize_record(keyed, &texts(&["schema_key = 9"])).unwrap();
    assert_eq!(done.stable_schema_key, Some(9));

    let unit = parse_fields(RecordStyle::Unit, &[field(&["id = 1"])]).unwrap();
    assert_eq!(unit.fields.len(), 0);
}

#[test]
fn items() {
    let st = ItemInput {
        attrs: texts(&["schema_key = 5, revision = 2"]),
        data: ItemData::Struct { style: RecordStyle::Named, fields: vec![field(&["id = 1"])] },
    };
    match parse_item(&st) {
        Ok(ItemSpec::Struct(rec)) => {
            assert_eq!(rec.stable_schema_key, Some(5));
            assert_eq!(rec.schema_revision, 2);
        },
        _ => panic!("expected a struct"),
    }

    let en = ItemInput {
        attrs: texts(&[]),
        data: ItemData::Enum(vec![
            VariantInput {
                name: "First".to_string(),
                attrs: texts(&["rename = \"one\""]),
                style: RecordStyle::Unit,
                fields: vec![],
            },
            VariantInput {
                name: "Second".to_string(),
                attrs: texts(&[]),
                style: RecordStyle::Unnamed,
                fields: vec![field(&[])],
            },
        ]),
    };
    match parse_item(&en) {
        Ok(ItemSpec::Enum(vs)) => {
            assert_eq!(vs.len(), 2);
            assert_eq!(vs[0].name, "First");
            assert_eq!(vs[0].rename, Some("one".to_string()));
            assert_eq!(vs[1].rename, None);
            assert_eq!(vs[1].record.fields.len(), 1);
        },
        _ => panic!("expected an enum"),
    }

    let un = ItemInput { attrs: texts(&[]), data: ItemData::Union };
    assert_eq!(parse_item(&un).err(), Some("ZebinArchive 和 ZebinEncode 只支持 struct 与 enum"));

    let bad = ItemInput {
        attrs: texts(&["revision = x"]),
        data: ItemData::Struct { style: RecordStyle::Named, fields: vec![] },
    };
    assert_eq!(parse_item(&bad).err(), Some("invalid digit found in string"));
}

#[test]
fn snake_case_names() {
    assert_eq!(variant_snake_case("FooBar"), "foo_bar");
    assert_eq!(variant_snake_case("Foo_Bar"), "foo_bar");
    assert_eq!(variant_snake_case("HTTPServer"), "h_t_t_p_server");
    assert_eq!(variant_snake_case("lower"), "lower");
    assert_eq!(variant_snake_case(""), "");
}

#[test]
fn unicode_whitespace_before_a_number_is_skipped() {
    assert_eq!(parse_uint_after_token("packed = \u{A0}3", "packed"), Some(3));
    assert_eq!(parse_uint_after_token("packed =\u{3000}\u{2003} 0x4", "packed"), Some(4));
    assert_eq!(parse_uint_after_token("bits =\u{85}5", "bits"), Some(5));
    assert_eq!(parse_uint_after_token("bits =\u{200B}5", "bits"), None);
}

#[test]
fn default_value_must_parse_as_an_expression() {
    let a = parse_field_attrs(&texts(&["default_value = 1 + 2"]), None).unwrap();
    assert_eq!(a.default_value, Some("1 + 2".to_string()));
    assert_eq!(
        parse_field_attrs(&texts(&["default_value = 1 +"]), None).err(),
        Some("default_value is not a valid expression")
    );
    assert_eq!(
        parse_field_attrs(&texts(&["id = 70000, default_value = 1 +"]), None).err(),
        Some("field id exceeds u16 range")
    );
    assert_eq!(accept_default_value("x".to_string(), false), Err("default_value is not a valid expression"));
    assert_eq!(accept_default_value("x".to_string(), true), Ok("x".to_string()));
}
