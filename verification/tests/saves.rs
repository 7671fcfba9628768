use brs_codec::block::{push_all, write_block, ByteSource};
use brs_codec::header::{decode_catalog, decode_identity, encode_catalog, encode_identity};
use brs_codec::lookup::{find_component, find_property, member_list};
use brs_codec::read::{decode, ReadError, SaveReader};
use brs_codec::save::{
    Brick, BrickColor, BrickComponent, BrickOwner, Collision, Color, Component, Direction,
    Header1, Header2, Position, Preview, Property, Rotation, SaveData, SchemaEntry, Size, User,
    Value,
};
use brs_codec::section::encode_component_table;
use brs_codec::section_read::decode_component_table;
use brs_codec::stream::{BitSink, BitSource};
use brs_codec::value::{read_value, write_value};
use brs_codec::{MAGIC_BYTES, SAVE_VERSION};
use brs_codec::write::{
    encode, encode_bricks, encode_header1, encode_header2, encode_preview, SaveWriter,
    WriteError,
};

fn id(first: u8) -> [u8; 16] {
    let mut out = [0u8; 16];
    for (i, byte) in out.iter_mut().enumerate() {
        *byte = first + i as u8;
    }
    out
}

fn brick(asset: u32, size: Size) -> Brick {
    Brick {
        asset_name_index: asset,
        size,
        position: Position(10, -20, 30),
        direction: Direction::Z,
        rotation: Rotation::Deg180,
        collision: Collision { player: true, weapon: true, interaction: false, tool: true },
        visibility: true,
        material_index: 0,
        physical_index: 0,
        material_intensity: 5,
        color: BrickColor::Index(2),
        owner_index: 1,
        components: Vec::new(),
    }
}

fn small() -> SaveData {
    SaveData {
        game_version: 6000,
        header1: Header1 {
            map: String::from("Plate"),
            description: String::from("two bricks"),
            author: User { id: id(0), name: String::from("ann") },
            host: Some(User { id: id(16), name: String::from("bob") }),
            save_time: [100, 101, 102, 103, 104, 105, 106, 107],
            brick_count: 2,
        },
        header2: Header2 {
            mods: Vec::new(),
            brick_assets: vec![String::from("PB_DefaultBrick"), String::from("PB_DefaultTile")],
            colors: vec![
                Color { r: 255, g: 0, b: 0, a: 255 },
                Color { r: 0, g: 255, b: 0, a: 255 },
                Color { r: 0, g: 0, b: 255, a: 128 },
            ],
            materials: vec![String::from("BMC_Plastic")],
            brick_owners: vec![BrickOwner { id: id(0), name: String::from("ann"), bricks: 2 }],
            physical_materials: vec![String::from("BPMC_Default")],
        },
        preview: Preview::Absent,
        bricks: vec![brick(0, Size::Empty), brick(1, Size::Procedural(4, 4, 6))],
        components: Vec::new(),
    }
}

fn health(value: i32) -> BrickComponent {
    BrickComponent {
        name: String::from("Health"),
        properties: vec![Property { name: String::from("value"), value: Value::Int(value) }],
    }
}

fn with_health() -> SaveData {
    let mut data = small();
    data.header1.brick_count = 3;
    data.bricks = vec![
        brick(0, Size::Empty),
        brick(1, Size::Empty),
        brick(0, Size::Procedural(1, 2, 3)),
    ];
    data.bricks[0].components.push(health(100));
    data.bricks[2].components.push(health(50));
    data.components = vec![Component {
        name: String::from("Health"),
        version: 1,
        properties: vec![SchemaEntry { name: String::from("value"), kind: String::from("int") }],
    }];
    data
}

fn all_kinds() -> SaveData {
    let mut data = with_health();
    data.components.push(Component {
        name: String::from("Light"),
        version: -3,
        properties: vec![
            SchemaEntry { name: String::from("on"), kind: String::from("bool") },
            SchemaEntry { name: String::from("radius"), kind: String::from("float") },
            SchemaEntry { name: String::from("label"), kind: String::from("text") },
            SchemaEntry { name: String::from("tint"), kind: String::from("color") },
            SchemaEntry { name: String::from("aim"), kind: String::from("vector") },
        ],
    });
    data.bricks[1].components.push(BrickComponent {
        name: String::from("Light"),
        properties: vec![
            Property { name: String::from("on"), value: Value::Bool(true) },
            Property { name: String::from("radius"), value: Value::Float(1.5f32.to_bits()) },
            Property { name: String::from("label"), value: Value::Text(String::from("lamp")) },
            Property {
                name: String::from("tint"),
                value: Value::Color(Color { r: 1, g: 2, b: 3, a: 4 }),
            },
            Property {
                name: String::from("aim"),
                value: Value::Vector(0.0f32.to_bits(), (-1.0f32).to_bits(), 2.5f32.to_bits()),
            },
        ],
    });
    data.bricks[2].components.push(BrickComponent {
        name: String::from("Light"),
        properties: vec![
            Property { name: String::from("on"), value: Value::Bool(false) },
            Property { name: String::from("radius"), value: Value::Float(0) },
            Property { name: String::from("label"), value: Value::Text(String::new()) },
            Property {
                name: String::from("tint"),
                value: Value::Color(Color { r: 0, g: 0, b: 0, a: 0 }),
            },
            Property { name: String::from("aim"), value: Value::Vector(1, 2, 3) },
        ],
    });
    data
}

/// The bytes of the first three parts of a save.
fn front(data: &SaveData) -> Vec<u8> {
    let mut out = Vec::new();
    assert_eq!(encode_header1(data, &mut out), Ok(()));
    assert_eq!(encode_header2(data, &mut out), Ok(()));
    assert_eq!(encode_preview(data, &mut out), Ok(()));
    out
}

/// The contents of the two blocks of the last part of a save.
fn body_payloads(data: &SaveData) -> (Vec<u8>, Vec<u8>) {
    let mut out = Vec::new();
    assert_eq!(encode_bricks(data, &mut out), Ok(()));
    let mut source = ByteSource::new(out);
    let first = source.read_block().unwrap();
    let second = source.read_block().unwrap();
    assert_eq!(source.take(1), None);
    (first, second)
}

#[test]
fn a_small_save_is_read_back() {
    let data = small();
    let bytes = encode(&data).unwrap();
    assert_eq!(decode(&bytes), Ok(data));
}

#[test]
fn a_small_save_has_a_start_four_blocks_and_one_preview_byte() {
    let data = small();
    let bytes = encode(&data).unwrap();
    assert_eq!(&bytes[0..4], &MAGIC_BYTES);
    assert_eq!(MAGIC_BYTES, [0x42, 0x52, 0x53, 0x00]);
    assert_eq!(&bytes[4..6], &SAVE_VERSION.to_le_bytes());
    assert_eq!(&bytes[4..6], &[10, 0]);
    assert_eq!(&bytes[6..10], &[0x70, 0x17, 0, 0]);
    let mut source = ByteSource::new(bytes.clone());
    assert_eq!(source.take(10).map(|v| v.len()), Some(10));
    let identity = source.read_block().unwrap();
    let catalog = source.read_block().unwrap();
    assert_eq!(source.take(1), Some(vec![0]));
    let bricks = source.read_block().unwrap();
    let components = source.read_block().unwrap();
    assert_eq!(source.take(1), None);
    assert!(!identity.is_empty());
    assert!(!catalog.is_empty());
    assert!(!bricks.is_empty());
    // no components: a count of zero
    assert_eq!(components, vec![0, 0, 0, 0]);
    assert_eq!(decode(&bytes), Ok(data));
}

#[test]
fn the_first_header_has_its_fields_in_order() {
    let mut data = small();
    data.header1 = Header1 {
        map: String::from("m"),
        description: String::from("d"),
        author: User { id: id(0), name: String::from("a") },
        host: Some(User { id: id(16), name: String::from("h") }),
        save_time: [100, 101, 102, 103, 104, 105, 106, 107],
        brick_count: 2,
    };
    let mut out = Vec::new();
    assert_eq!(encode_header1(&data, &mut out), Ok(()));
    let mut source = ByteSource::new(out);
    assert_eq!(source.take(10), Some(vec![0x42, 0x52, 0x53, 0, 10, 0, 0x70, 0x17, 0, 0]));
    let mut expected = vec![1, 0, 0, 0, 109, 1, 0, 0, 0, 97, 1, 0, 0, 0, 100];
    expected.extend(0u8..16);
    expected.extend([1, 0, 0, 0, 104]);
    expected.extend(16u8..32);
    expected.extend(100u8..108);
    expected.extend([2, 0, 0, 0]);
    assert_eq!(source.read_block(), Ok(expected));
}

#[test]
fn the_second_header_has_its_tables_in_order() {
    let mut data = small();
    data.header2 = Header2 {
        mods: vec![String::from("m")],
        brick_assets: vec![String::from("a"), String::from("b")],
        colors: vec![Color { r: 1, g: 2, b: 3, a: 4 }],
        materials: Vec::new(),
        brick_owners: vec![BrickOwner { id: id(32), name: String::from("o"), bricks: 0xFFFF_FFFE }],
        physical_materials: vec![String::from("p")],
    };
    let mut out = Vec::new();
    assert_eq!(encode_header2(&data, &mut out), Ok(()));
    let mut expected = vec![1, 0, 0, 0, 1, 0, 0, 0, 109];
    expected.extend([2, 0, 0, 0, 1, 0, 0, 0, 97, 1, 0, 0, 0, 98]);
    expected.extend([1, 0, 0, 0, 3, 2, 1, 4]);
    expected.extend([0, 0, 0, 0]);
    expected.extend([1, 0, 0, 0]);
    expected.extend(32u8..48);
    expected.extend([1, 0, 0, 0, 111, 0xFE, 0xFF, 0xFF, 0xFF]);
    expected.extend([1, 0, 0, 0, 1, 0, 0, 0, 112]);
    assert_eq!(ByteSource::new(out).read_block(), Ok(expected));
    let mut rest = data.clone();
    rest.bricks.clear();
    rest.header1.brick_count = 0;
    assert_eq!(decode(&encode(&rest).unwrap()).unwrap().header2, data.header2);
}

#[test]
fn a_host_that_is_not_named_is_read_as_the_author() {
    let mut data = small();
    data.header1.host = None;
    let named = {
        let mut other = data.clone();
        other.header1.host = Some(data.header1.author.clone());
        other
    };
    let bytes = encode(&data).unwrap();
    assert_eq!(bytes, encode(&named).unwrap());
    let read = decode(&bytes).unwrap();
    assert_eq!(read.header1.host, Some(data.header1.author.clone()));
    assert_eq!(read, named);
}

#[test]
fn a_preview_is_its_tag_its_length_and_its_bytes() {
    let mut data = small();
    data.preview = Preview::Image { tag: 1, bytes: vec![9, 8, 7] };
    let mut out = Vec::new();
    assert_eq!(encode_preview(&data, &mut out), Ok(()));
    assert_eq!(out, vec![1, 3, 0, 0, 0, 9, 8, 7]);
    assert_eq!(decode(&encode(&data).unwrap()), Ok(data));
}

#[test]
fn a_save_with_a_large_table_is_deflated_and_read_back() {
    let mut data = small();
    data.header1.brick_count = 5000;
    data.bricks = (0..5000)
        .map(|i| {
            let mut b = brick(i % 2, Size::Procedural(i, 1, 1));
            b.position = Position(i as i32, -(i as i32), 0);
            b
        })
        .collect();
    let bytes = encode(&data).unwrap();
    let (table, _) = body_payloads(&data);
    assert!(bytes.len() < table.len());
    assert_eq!(decode(&bytes), Ok(data));
}

#[test]
fn the_writer_appends_the_parts_in_order() {
    let data = all_kinds();
    let whole = encode(&data).unwrap();
    let mut writer = SaveWriter::new(vec![1, 2, 3], data.clone());
    assert_eq!(writer.write_header1(), Ok(()));
    assert_eq!(writer.write_header2(), Ok(()));
    assert_eq!(writer.write_preview(), Ok(()));
    assert_eq!(writer.write_bricks(), Ok(()));
    let parts = writer.into_inner();
    assert_eq!(&parts[..3], &[1, 2, 3]);
    assert_eq!(&parts[3..], &whole[..]);
    let mut writer = SaveWriter::new(vec![1, 2, 3], data);
    assert_eq!(writer.write(), Ok(()));
    assert_eq!(writer.into_inner(), parts);
}

#[test]
fn the_reader_reads_the_parts_in_order() {
    let data = all_kinds();
    let mut bytes = encode(&data).unwrap();
    bytes.push(77);
    let mut reader = SaveReader::new(bytes.clone());
    let (game_version, header1) = reader.read_header1().unwrap();
    let header2 = reader.read_header2().unwrap();
    let preview = reader.read_preview().unwrap();
    let (bricks, components) = reader.read_bricks(&header1, &header2).unwrap();
    assert_eq!(game_version, data.game_version);
    assert_eq!(header1, data.header1);
    assert_eq!(header2, data.header2);
    assert_eq!(preview, data.preview);
    assert_eq!(bricks, data.bricks);
    assert_eq!(components, data.components);
    let mut reader = SaveReader::new(bytes);
    assert_eq!(reader.read(), Ok(data));
}

#[test]
fn a_failed_write_leaves_the_bytes_as_they_were() {
    let mut data = small();
    data.bricks[1].material_index = 9;
    let mut writer = SaveWriter::new(vec![1, 2, 3], data);
    assert_eq!(writer.write(), Err(WriteError::OutOfRange));
    assert_eq!(writer.write_bricks(), Err(WriteError::OutOfRange));
    assert_eq!(writer.into_inner(), vec![1, 2, 3]);
}

#[test]
fn components_are_read_back() {
    let data = with_health();
    assert_eq!(decode(&encode(&data).unwrap()), Ok(data));
}

#[test]
fn values_of_every_kind_are_read_back() {
    let data = all_kinds();
    let read = decode(&encode(&data).unwrap()).unwrap();
    assert_eq!(read, data);
    let at = find_component(&read.bricks[1], &String::from("Light")).unwrap();
    let properties = &read.bricks[1].components[at].properties;
    let radius = find_property(properties, &String::from("radius")).unwrap();
    match properties[radius].value {
        Value::Float(bits) => assert_eq!(f32::from_bits(bits), 1.5),
        _ => panic!("a float was written"),
    }
}

#[test]
fn a_value_is_its_tag_and_its_form() {
    let cases: Vec<(Value, Vec<u8>)> = vec![
        (Value::Int(-2), vec![0, 254, 255, 255, 255]),
        (Value::Float(1.5f32.to_bits()), vec![1, 0, 0, 192, 63]),
        (Value::Bool(true), vec![2, 1]),
        (Value::Bool(false), vec![2, 0]),
        (Value::Text(String::from("hi")), vec![3, 2, 0, 0, 0, 104, 105]),
        (Value::Color(Color { r: 1, g: 2, b: 3, a: 4 }), vec![4, 3, 2, 1, 4]),
        (Value::Vector(1, 2, 3), vec![5, 1, 0, 0, 0, 2, 0, 0, 0, 3, 0, 0, 0]),
    ];
    for (value, bytes) in cases {
        let mut sink = BitSink::new();
        assert_eq!(write_value(&mut sink, &value), Ok(()));
        assert_eq!(sink.finish(), bytes);
        let mut source = BitSource::new(bytes);
        assert_eq!(read_value(&mut source), Some(value.copy()));
    }
}

#[test]
fn a_value_of_no_known_kind_is_refused() {
    let mut source = BitSource::new(vec![6, 0, 0, 0, 0]);
    assert_eq!(read_value(&mut source), None);
    let mut source = BitSource::new(vec![255, 0, 0, 0, 0]);
    assert_eq!(read_value(&mut source), None);
}

#[test]
fn the_component_table_lists_its_bricks_in_rising_order() {
    let data = with_health();
    assert_eq!(member_list(&data.bricks, &String::from("Health")), vec![0, 2]);
    let table = encode_component_table(&data.components, &data.bricks).unwrap();
    assert_eq!(
        table,
        vec![
            1, 0, 0, 0, 6, 0, 0, 0, 72, 101, 97, 108, 116, 104, 1, 0, 0, 0, 2, 0, 0, 0, 24, 0,
            0, 0, 80, 0, 0, 0, 96, 23, 198, 86, 87, 54, 0, 0, 0, 144, 230, 70, 7, 64, 6, 0, 0,
            0, 32, 3, 0, 0, 0
        ]
    );
    let (_, second) = body_payloads(&data);
    assert_eq!(second, table);
    let (components, carried) = decode_component_table(table, 3).unwrap();
    assert_eq!(components, data.components);
    assert_eq!(carried.len(), 1);
    assert_eq!(carried[0].members, vec![0, 2]);
    assert_eq!(carried[0].rows, vec![vec![Value::Int(100)], vec![Value::Int(50)]]);
}

#[test]
fn the_bricks_of_a_component_are_found_again_after_reading() {
    let data = with_health();
    let read = decode(&encode(&data).unwrap()).unwrap();
    let name = String::from("Health");
    assert_eq!(member_list(&read.bricks, &name), vec![0, 2]);
    assert!(find_component(&read.bricks[0], &name).is_some());
    assert!(find_component(&read.bricks[1], &name).is_none());
    assert!(find_component(&read.bricks[2], &name).is_some());
    assert_eq!(read.bricks[0].components, vec![health(100)]);
    assert_eq!(read.bricks[2].components, vec![health(50)]);
}

/// A save whose component table lists these bricks under "Health".
fn with_listed(members: &[u64]) -> Vec<u8> {
    let data = with_health();
    let (first, _) = body_payloads(&data);
    let mut table = BitSink::new();
    table.write_count(1).unwrap();
    table.write_string(&String::from("Health")).unwrap();
    table.write_i32(1);
    table.write_count(members.len()).unwrap();
    for member in members {
        table.write_uint(*member, 2);
    }
    table.write_count(1).unwrap();
    table.write_string(&String::from("value")).unwrap();
    table.write_string(&String::from("int")).unwrap();
    for _ in members {
        write_value(&mut table, &Value::Int(7)).unwrap();
    }
    let mut out = front(&data);
    write_block(&mut out, &first).unwrap();
    write_block(&mut out, &table.finish()).unwrap();
    out
}

#[test]
fn a_list_of_bricks_that_rises_is_read() {
    let read = decode(&with_listed(&[0, 2])).unwrap();
    assert_eq!(member_list(&read.bricks, &String::from("Health")), vec![0, 2]);
    let read = decode(&with_listed(&[1])).unwrap();
    assert_eq!(member_list(&read.bricks, &String::from("Health")), vec![1]);
    let read = decode(&with_listed(&[])).unwrap();
    assert_eq!(member_list(&read.bricks, &String::from("Health")), Vec::<usize>::new());
}

#[test]
fn a_list_of_bricks_that_does_not_rise_is_refused() {
    assert_eq!(decode(&with_listed(&[2, 0])), Err(ReadError::Components));
    assert_eq!(decode(&with_listed(&[1, 1])), Err(ReadError::Components));
}

#[test]
fn a_list_with_a_brick_that_there_is_not_is_refused() {
    assert_eq!(decode(&with_listed(&[0, 3])), Err(ReadError::Components));
}

#[test]
fn two_components_of_one_name_are_refused() {
    let mut data = with_health();
    data.components.push(data.components[0].clone());
    assert_eq!(encode(&data), Err(WriteError::Component));
    let sound = with_health();
    let (first, second) = body_payloads(&sound);
    let mut table = vec![2, 0, 0, 0];
    table.extend_from_slice(&second[4..]);
    table.extend_from_slice(&second[4..]);
    let mut out = front(&sound);
    write_block(&mut out, &first).unwrap();
    write_block(&mut out, &table).unwrap();
    assert_eq!(decode(&out), Err(ReadError::Components));
}

#[test]
fn a_brick_with_an_undeclared_component_is_refused() {
    let mut data = with_health();
    data.components.clear();
    assert_eq!(encode(&data), Err(WriteError::Component));
}

#[test]
fn a_brick_that_lacks_a_property_is_refused() {
    let mut data = with_health();
    data.bricks[2].components[0].properties.clear();
    assert_eq!(encode(&data), Err(WriteError::Component));
}

#[test]
fn a_brick_with_an_undeclared_property_is_refused() {
    let mut data = with_health();
    data.bricks[0].components[0]
        .properties
        .push(Property { name: String::from("armor"), value: Value::Int(1) });
    assert_eq!(encode(&data), Err(WriteError::Component));
}

#[test]
fn the_later_of_two_entries_of_one_name_counts() {
    let mut data = with_health();
    data.bricks[0].components.push(health(7));
    let read = decode(&encode(&data).unwrap()).unwrap();
    assert_eq!(read.bricks[0].components, vec![health(7)]);
}

#[test]
fn a_brick_count_that_is_not_the_number_of_bricks_is_refused() {
    let mut data = small();
    data.header1.brick_count = 3;
    assert_eq!(encode(&data), Err(WriteError::BrickCount));
    let mut out = vec![5];
    assert_eq!(encode_header1(&data, &mut out), Err(WriteError::BrickCount));
    assert_eq!(out, vec![5]);
}

#[test]
fn a_preview_under_the_tag_of_none_is_refused() {
    let mut data = small();
    data.preview = Preview::Image { tag: 0, bytes: vec![1] };
    assert_eq!(encode(&data), Err(WriteError::PreviewTag));
}

#[test]
fn a_brick_out_of_range_is_refused() {
    let mut data = small();
    data.bricks[0].color = BrickColor::Index(3);
    assert_eq!(encode(&data), Err(WriteError::OutOfRange));
}

#[test]
fn the_first_faulty_part_decides() {
    let mut data = with_health();
    data.components.clear();
    data.bricks[0].asset_name_index = 50;
    assert_eq!(encode(&data), Err(WriteError::OutOfRange));
    data.preview = Preview::Image { tag: 0, bytes: Vec::new() };
    assert_eq!(encode(&data), Err(WriteError::PreviewTag));
    data.header1.brick_count = 0;
    assert_eq!(encode(&data), Err(WriteError::BrickCount));
}

#[test]
fn bytes_that_end_early_are_truncated() {
    let bytes = encode(&all_kinds()).unwrap();
    assert_eq!(decode(&Vec::new()), Err(ReadError::Truncated));
    assert_eq!(decode(&vec![0x42, 0x52]), Err(ReadError::Truncated));
    assert_eq!(decode(&bytes[..5].to_vec()), Err(ReadError::Truncated));
    assert_eq!(decode(&bytes[..9].to_vec()), Err(ReadError::Truncated));
    assert_eq!(decode(&bytes[..bytes.len() - 1].to_vec()), Err(ReadError::Truncated));
    assert_eq!(decode(&front(&small())), Err(ReadError::Truncated));
}

#[test]
fn other_magic_bytes_are_refused() {
    let mut bytes = encode(&small()).unwrap();
    bytes[3] = 1;
    assert_eq!(decode(&bytes), Err(ReadError::BadMagic));
}

#[test]
fn another_format_version_is_refused() {
    let mut bytes = encode(&small()).unwrap();
    bytes[4] = 11;
    assert_eq!(decode(&bytes), Err(ReadError::UnsupportedVersion));
}

#[test]
fn a_block_with_a_negative_length_is_refused() {
    let mut bytes = encode(&small()).unwrap();
    bytes[13] = 0x80;
    assert_eq!(decode(&bytes), Err(ReadError::BadLength));
}

#[test]
fn a_preview_with_a_negative_length_is_refused() {
    let data = small();
    let mut bytes = Vec::new();
    encode_header1(&data, &mut bytes).unwrap();
    encode_header2(&data, &mut bytes).unwrap();
    push_all(&mut bytes, &[2, 255, 255, 255, 255]);
    assert_eq!(decode(&bytes), Err(ReadError::BadLength));
}

#[test]
fn a_malformed_first_header_is_refused() {
    let mut bytes = vec![0x42, 0x52, 0x53, 0, 10, 0, 1, 0, 0, 0];
    write_block(&mut bytes, &vec![1, 0, 0, 0]).unwrap();
    assert_eq!(decode(&bytes), Err(ReadError::Header1));
}

#[test]
fn a_malformed_second_header_is_refused() {
    let mut bytes = Vec::new();
    encode_header1(&small(), &mut bytes).unwrap();
    write_block(&mut bytes, &vec![2, 0, 0, 0, 0, 0, 0, 0]).unwrap();
    assert_eq!(decode(&bytes), Err(ReadError::Header2));
}

#[test]
fn a_malformed_brick_table_is_refused() {
    let mut bytes = front(&small());
    write_block(&mut bytes, &vec![0, 0, 0]).unwrap();
    write_block(&mut bytes, &vec![0, 0, 0, 0]).unwrap();
    assert_eq!(decode(&bytes), Err(ReadError::Bricks));
}

#[test]
fn a_malformed_component_table_is_refused() {
    let data = small();
    let (first, _) = body_payloads(&data);
    let mut bytes = front(&data);
    write_block(&mut bytes, &first).unwrap();
    write_block(&mut bytes, &Vec::new()).unwrap();
    assert_eq!(decode(&bytes), Err(ReadError::Components));
    let mut bytes = front(&data);
    write_block(&mut bytes, &first).unwrap();
    write_block(&mut bytes, &vec![0, 0, 0, 0, 0]).unwrap();
    assert_eq!(decode(&bytes), Err(ReadError::Components));
}

#[test]
fn a_component_table_with_a_value_of_no_known_kind_is_refused() {
    let data = with_health();
    let (first, second) = body_payloads(&data);
    let mut table = second.clone();
    // the tag of the first value stands behind the schema, four bits into
    // a byte
    let at = table.len() - 11;
    let mut source = BitSource::new(table[at..].to_vec());
    assert_eq!(source.read_uint(4), Some(7));
    assert_eq!(source.read_uint(8), Some(0));
    table[at] |= 0x60;
    let mut bytes = front(&data);
    write_block(&mut bytes, &first).unwrap();
    write_block(&mut bytes, &table).unwrap();
    assert_eq!(decode(&bytes), Err(ReadError::Components));
}

#[test]
fn bytes_behind_a_save_are_passed_over() {
    let data = small();
    let mut bytes = encode(&data).unwrap();
    bytes.extend_from_slice(&[1, 2, 3]);
    assert_eq!(decode(&bytes), Ok(data));
}

#[test]
fn an_empty_save_is_read_back() {
    let mut data = small();
    data.header1.brick_count = 0;
    data.bricks.clear();
    data.header2 = Header2 {
        mods: Vec::new(),
        brick_assets: Vec::new(),
        colors: Vec::new(),
        materials: Vec::new(),
        brick_owners: Vec::new(),
        physical_materials: Vec::new(),
    };
    let (first, second) = body_payloads(&data);
    assert_eq!(first, Vec::<u8>::new());
    assert_eq!(second, vec![0, 0, 0, 0]);
    assert_eq!(decode(&encode(&data).unwrap()), Ok(data));
}

#[test]
fn the_contents_of_the_header_blocks_are_read_back() {
    let data = small();
    let identity = encode_identity(&data.header1).unwrap();
    assert_eq!(decode_identity(identity), Some(data.header1.clone()));
    let catalog = encode_catalog(&data.header2).unwrap();
    assert_eq!(decode_catalog(catalog), Some(data.header2.clone()));
    assert_eq!(decode_identity(vec![0, 0, 0, 0]), None);
    assert_eq!(decode_catalog(vec![1, 0, 0, 0]), None);
}

#[test]
fn a_component_table_of_disagreeing_bricks_is_refused() {
    let mut data = with_health();
    data.bricks[1].components.push(BrickComponent {
        name: String::from("Light"),
        properties: Vec::new(),
    });
    assert_eq!(
        encode_component_table(&data.components, &data.bricks),
        Err(WriteError::Component)
    );
}
