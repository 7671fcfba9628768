use brs_codec::brick::{decode_records, encode_records, read_brick, write_brick, Layout};
use brs_codec::save::{
    Brick, BrickColor, Collision, Color, Direction, Header2, Position, Rotation, Size,
};
use brs_codec::stream::{BitSink, BitSource};
use brs_codec::write::WriteError;

fn tables(assets: usize, materials: usize, physical: usize, colors: usize) -> Header2 {
    Header2 {
        mods: Vec::new(),
        brick_assets: (0..assets).map(|i| format!("asset{}", i)).collect(),
        colors: (0..colors).map(|i| Color { r: i as u8, g: 0, b: 0, a: 255 }).collect(),
        materials: (0..materials).map(|i| format!("material{}", i)).collect(),
        brick_owners: Vec::new(),
        physical_materials: (0..physical).map(|i| format!("physical{}", i)).collect(),
    }
}

fn plain() -> Brick {
    Brick {
        asset_name_index: 0,
        size: Size::Empty,
        position: Position(0, 0, 0),
        direction: Direction::X,
        rotation: Rotation::Deg0,
        collision: Collision { player: false, weapon: false, interaction: false, tool: false },
        visibility: false,
        material_index: 0,
        physical_index: 0,
        material_intensity: 0,
        color: BrickColor::Index(0),
        owner_index: 0,
        components: Vec::new(),
    }
}

fn busy() -> Brick {
    Brick {
        asset_name_index: 1,
        size: Size::Procedural(4, 4, 6),
        position: Position(1, -1, 0),
        direction: Direction::Y,
        rotation: Rotation::Deg90,
        collision: Collision { player: true, weapon: false, interaction: true, tool: false },
        visibility: true,
        material_index: 0,
        physical_index: 1,
        material_intensity: 5,
        color: BrickColor::Unique(10, 20, 30),
        owner_index: 300,
        components: Vec::new(),
    }
}

fn record(brick: &Brick, layout: &Layout) -> Result<Vec<u8>, WriteError> {
    let mut sink = BitSink::new();
    write_brick(&mut sink, brick, layout)?;
    Ok(sink.finish())
}

#[test]
fn layout_counts_every_table_for_two_entries_at_least() {
    let layout = Layout::of(&tables(0, 1, 2, 3));
    assert_eq!(layout.asset_name.count, 2);
    assert_eq!(layout.asset_name.width, 1);
    assert_eq!(layout.material.count, 2);
    assert_eq!(layout.material.width, 1);
    assert_eq!(layout.physical.count, 2);
    assert_eq!(layout.physical.width, 1);
    assert_eq!(layout.color.count, 3);
    assert_eq!(layout.color.width, 2);
}

#[test]
fn a_record_has_its_fields_in_order() {
    let layout = Layout::of(&tables(3, 1, 2, 0));
    assert_eq!(
        record(&busy(), &layout),
        Ok(vec![69, 64, 96, 48, 32, 16, 40, 0, 0, 168, 22, 160, 2, 133, 71, 22, 1])
    );
}

#[test]
fn a_record_is_read_back() {
    let layout = Layout::of(&tables(3, 1, 2, 0));
    let bytes = record(&busy(), &layout).unwrap();
    let mut source = BitSource::new(bytes);
    assert_eq!(read_brick(&mut source, &layout), Some(busy()));
}

#[test]
fn the_plainest_record_with_empty_tables() {
    let layout = Layout::of(&tables(0, 0, 0, 0));
    // 1 + 1 + 3 * 8 + 24 + 5 + 1 + 1 + 11 + 1 + 1 + 8 = 78 bits
    let bytes = record(&plain(), &layout).unwrap();
    assert_eq!(bytes, vec![8, 8, 8, 0, 0, 0, 0, 0, 0, 0]);
    let mut source = BitSource::new(bytes);
    assert_eq!(read_brick(&mut source, &layout), Some(plain()));
}

#[test]
fn an_index_takes_a_bit_even_where_the_table_has_one_entry() {
    let one = Layout::of(&tables(1, 1, 1, 1));
    let none = Layout::of(&tables(0, 0, 0, 0));
    let two = Layout::of(&tables(2, 2, 2, 2));
    assert_eq!(one, none);
    assert_eq!(one, two);
    let mut brick = plain();
    brick.asset_name_index = 1;
    brick.material_index = 1;
    brick.physical_index = 1;
    brick.color = BrickColor::Index(1);
    let bytes = record(&brick, &one).unwrap();
    assert_eq!(bytes.len(), 10);
    let mut source = BitSource::new(bytes);
    assert_eq!(read_brick(&mut source, &none), Some(brick));
}

#[test]
fn a_colour_of_its_own_is_read_back() {
    let layout = Layout::of(&tables(1, 1, 1, 5));
    let mut brick = plain();
    brick.color = BrickColor::Unique(10, 20, 30);
    let mut source = BitSource::new(record(&brick, &layout).unwrap());
    assert_eq!(read_brick(&mut source, &layout).unwrap().color, BrickColor::Unique(10, 20, 30));
}

#[test]
fn a_colour_of_the_table_is_read_back() {
    let layout = Layout::of(&tables(1, 1, 1, 5));
    assert_eq!(layout.color.width, 3);
    let mut brick = plain();
    brick.color = BrickColor::Index(0);
    let mut source = BitSource::new(record(&brick, &layout).unwrap());
    assert_eq!(read_brick(&mut source, &layout).unwrap().color, BrickColor::Index(0));
    brick.color = BrickColor::Index(4);
    let mut source = BitSource::new(record(&brick, &layout).unwrap());
    assert_eq!(read_brick(&mut source, &layout).unwrap().color, BrickColor::Index(4));
}

#[test]
fn every_direction_and_rotation_is_read_back() {
    let layout = Layout::of(&tables(1, 1, 1, 1));
    for direction in [Direction::X, Direction::Y, Direction::Z] {
        for rotation in [Rotation::Deg0, Rotation::Deg90, Rotation::Deg180, Rotation::Deg270] {
            let mut brick = plain();
            brick.direction = direction;
            brick.rotation = rotation;
            let mut source = BitSource::new(record(&brick, &layout).unwrap());
            assert_eq!(read_brick(&mut source, &layout), Some(brick));
        }
    }
}

#[test]
fn indices_outside_their_tables_are_refused() {
    let layout = Layout::of(&tables(3, 1, 2, 5));
    let mut brick = plain();
    brick.asset_name_index = 3;
    assert_eq!(record(&brick, &layout), Err(WriteError::OutOfRange));
    let mut brick = plain();
    brick.material_index = 2;
    assert_eq!(record(&brick, &layout), Err(WriteError::OutOfRange));
    let mut brick = plain();
    brick.physical_index = 2;
    assert_eq!(record(&brick, &layout), Err(WriteError::OutOfRange));
    let mut brick = plain();
    brick.color = BrickColor::Index(5);
    assert_eq!(record(&brick, &layout), Err(WriteError::OutOfRange));
    let mut brick = plain();
    brick.material_intensity = 2048;
    assert_eq!(record(&brick, &layout), Err(WriteError::OutOfRange));
    brick.material_intensity = 2047;
    assert!(record(&brick, &layout).is_ok());
}

#[test]
fn a_refused_brick_writes_nothing() {
    let layout = Layout::of(&tables(3, 1, 2, 5));
    let mut brick = plain();
    brick.asset_name_index = 7;
    let mut sink = BitSink::new();
    sink.write_uint(1, 1);
    assert_eq!(write_brick(&mut sink, &brick, &layout), Err(WriteError::OutOfRange));
    assert_eq!(sink.finish(), vec![1]);
}

#[test]
fn an_index_read_outside_its_table_is_refused() {
    // three assets take two bits; the value three names none of them
    let layout = Layout::of(&tables(3, 1, 1, 1));
    let mut sink = BitSink::new();
    sink.write_uint(3, 2);
    sink.write_uint(0, 64);
    sink.write_uint(0, 64);
    let mut source = BitSource::new(sink.finish());
    assert_eq!(read_brick(&mut source, &layout), None);
}

#[test]
fn a_direction_that_there_is_not_is_refused() {
    let layout = Layout::of(&tables(1, 1, 1, 1));
    let mut sink = BitSink::new();
    sink.write_uint(0, 1);
    sink.write_uint(0, 1);
    sink.write_int_packed(0);
    sink.write_int_packed(0);
    sink.write_int_packed(0);
    sink.write_uint(3 * 4 + 1, 24);
    sink.write_uint(0, 64);
    let mut source = BitSource::new(sink.finish());
    assert_eq!(read_brick(&mut source, &layout), None);
}

#[test]
fn records_start_at_byte_boundaries() {
    let layout = Layout::of(&tables(3, 1, 2, 0));
    let bricks = vec![busy(), plain(), busy()];
    let bytes = encode_records(&bricks, &layout).unwrap();
    let one = record(&busy(), &layout).unwrap();
    let other = record(&plain(), &layout).unwrap();
    assert_eq!(bytes.len(), 2 * one.len() + other.len());
    assert_eq!(&bytes[..one.len()], &one[..]);
    assert_eq!(&bytes[one.len()..one.len() + other.len()], &other[..]);
    assert_eq!(&bytes[one.len() + other.len()..], &one[..]);
    assert_eq!(decode_records(bytes, 3, &layout), Some(bricks));
}

#[test]
fn a_table_of_no_bricks_is_empty() {
    let layout = Layout::of(&tables(0, 0, 0, 0));
    assert_eq!(encode_records(&Vec::new(), &layout), Ok(Vec::new()));
    assert_eq!(decode_records(Vec::new(), 0, &layout), Some(Vec::new()));
}

#[test]
fn a_table_must_hold_as_many_records_as_counted() {
    let layout = Layout::of(&tables(3, 1, 2, 0));
    let bricks = vec![busy(), plain()];
    let bytes = encode_records(&bricks, &layout).unwrap();
    assert_eq!(decode_records(bytes.clone(), 3, &layout), None);
    assert_eq!(decode_records(bytes.clone(), 1, &layout), None);
    assert_eq!(decode_records(bytes, 2, &layout), Some(bricks));
}

#[test]
fn the_first_brick_out_of_range_stops_the_table() {
    let layout = Layout::of(&tables(3, 1, 2, 0));
    let mut bad = plain();
    bad.physical_index = 9;
    assert_eq!(
        encode_records(&vec![busy(), bad, plain()], &layout),
        Err(WriteError::OutOfRange)
    );
}
