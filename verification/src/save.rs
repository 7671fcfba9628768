//! The save as a value, and what each part of it means.

use vstd::prelude::*;

verus! {

/// A colour of four channels.
#[derive(Clone, Copy, Debug, PartialEq, Eq, Structural)]
pub struct Color {
    pub r: u8,
    pub g: u8,
    pub b: u8,
    pub a: u8,
}

/// Someone who takes part in a save: a unique id of sixteen bytes and a name.
#[derive(Clone, Debug, PartialEq, Eq)]
pub struct User {
    pub id: [u8; 16],
    pub name: String,
}

/// A [`User`] as a value of mathematics.
pub struct UserView {
    pub id: Seq<u8>,
    pub name: Seq<char>,
}

impl View for User {
    type V = UserView;

    open spec fn view(&self) -> UserView {
        UserView { id: self.id@, name: self.name@ }
    }
}

/// An owner of bricks, with the number of bricks owned.
#[derive(Clone, Debug, PartialEq, Eq)]
pub struct BrickOwner {
    pub id: [u8; 16],
    pub name: String,
    pub bricks: u32,
}

/// A [`BrickOwner`] as a value of mathematics.
pub struct BrickOwnerView {
    pub id: Seq<u8>,
    pub name: Seq<char>,
    pub bricks: u32,
}

impl View for BrickOwner {
    type V = BrickOwnerView;

    open spec fn view(&self) -> BrickOwnerView {
        BrickOwnerView { id: self.id@, name: self.name@, bricks: self.bricks }
    }
}

/// The first header: what the save is and who made it.
#[derive(Clone, Debug, PartialEq, Eq)]
pub struct Header1 {
    pub map: String,
    pub description: String,
    pub author: User,
    /// The host; where there is none, the author stands for it.
    pub host: Option<User>,
    /// When the save was made; kept as it is, never read.
    pub save_time: [u8; 8],
    pub brick_count: u32,
}

/// A [`Header1`] as a value of mathematics.
pub struct Header1View {
    pub map: Seq<char>,
    pub description: Seq<char>,
    pub author: UserView,
    pub host: Option<UserView>,
    pub save_time: Seq<u8>,
    pub brick_count: u32,
}

impl View for Header1 {
    type V = Header1View;

    open spec fn view(&self) -> Header1View {
        Header1View {
            map: self.map@,
            description: self.description@,
            author: self.author@,
            host: match self.host {
                Some(user) => Some(user@),
                None => None,
            },
            save_time: self.save_time@,
            brick_count: self.brick_count,
        }
    }
}

impl Header1View {
    /// The host that is written: the one named, or else the author.
    pub open spec fn resolved_host(self) -> UserView {
        match self.host {
            Some(user) => user,
            None => self.author,
        }
    }

    /// The header with its host named.
    pub open spec fn resolved(self) -> Header1View {
        Header1View { host: Some(self.resolved_host()), ..self }
    }
}

/// The views of the items of a sequence, in order.
pub open spec fn views<T: View>(items: Seq<T>) -> Seq<T::V> {
    Seq::new(items.len(), |i: int| items[i]@)
}

/// The second header: the tables that bricks point into.
#[derive(Clone, Debug, PartialEq, Eq)]
pub struct Header2 {
    pub mods: Vec<String>,
    pub brick_assets: Vec<String>,
    pub colors: Vec<Color>,
    pub materials: Vec<String>,
    pub brick_owners: Vec<BrickOwner>,
    pub physical_materials: Vec<String>,
}

/// A [`Header2`] as a value of mathematics.
pub struct Header2View {
    pub mods: Seq<Seq<char>>,
    pub brick_assets: Seq<Seq<char>>,
    pub colors: Seq<Color>,
    pub materials: Seq<Seq<char>>,
    pub brick_owners: Seq<BrickOwnerView>,
    pub physical_materials: Seq<Seq<char>>,
}

impl View for Header2 {
    type V = Header2View;

    open spec fn view(&self) -> Header2View {
        Header2View {
            mods: views(self.mods@),
            brick_assets: views(self.brick_assets@),
            colors: self.colors@,
            materials: views(self.materials@),
            brick_owners: views(self.brick_owners@),
            physical_materials: views(self.physical_materials@),
        }
    }
}

/// A picture of the save, or none.
#[derive(Clone, Debug, PartialEq, Eq)]
pub enum Preview {
    Absent,
    /// An image in the encoding that `tag` names; `tag` is not zero.
    Image { tag: u8, bytes: Vec<u8> },
}

/// A [`Preview`] as a value of mathematics.
pub enum PreviewView {
    Absent,
    Image { tag: u8, bytes: Seq<u8> },
}

impl View for Preview {
    type V = PreviewView;

    open spec fn view(&self) -> PreviewView {
        match self {
            Preview::Absent => PreviewView::Absent,
            Preview::Image { tag, bytes } => PreviewView::Image { tag: *tag, bytes: bytes@ },
        }
    }
}

/// The size of a brick: that of its asset, or one given in three numbers.
#[derive(Clone, Copy, Debug, PartialEq, Eq, Structural)]
pub enum Size {
    Empty,
    Procedural(u32, u32, u32),
}

/// The axis along which a brick points.
#[derive(Clone, Copy, Debug, PartialEq, Eq, Structural)]
pub enum Direction {
    X,
    Y,
    Z,
}

/// The quarter turns of a brick about its axis.
#[derive(Clone, Copy, Debug, PartialEq, Eq, Structural)]
pub enum Rotation {
    Deg0,
    Deg90,
    Deg180,
    Deg270,
}

/// Where a brick stands.
#[derive(Clone, Copy, Debug, PartialEq, Eq, Structural)]
pub struct Position(pub i32, pub i32, pub i32);

/// What a brick collides with.
#[derive(Clone, Copy, Debug, PartialEq, Eq, Structural)]
pub struct Collision {
    pub player: bool,
    pub weapon: bool,
    pub interaction: bool,
    pub tool: bool,
}

/// The colour of a brick: an entry of the colour table, or one of its own.
#[derive(Clone, Copy, Debug, PartialEq, Eq, Structural)]
pub enum BrickColor {
    Index(u32),
    Unique(u8, u8, u8),
}

/// The value of a property of a component on a brick.
#[derive(Clone, Debug, PartialEq, Eq)]
pub enum Value {
    Int(i32),
    /// A single-precision number, as its 32 bits.
    Float(u32),
    Bool(bool),
    Text(String),
    Color(Color),
    /// Three single-precision numbers, each as its 32 bits.
    Vector(u32, u32, u32),
}

/// A [`Value`] as a value of mathematics.
pub enum ValueView {
    Int(i32),
    Float(u32),
    Bool(bool),
    Text(Seq<char>),
    Color(Color),
    Vector(u32, u32, u32),
}

impl View for Value {
    type V = ValueView;

    open spec fn view(&self) -> ValueView {
        match self {
            Value::Int(v) => ValueView::Int(*v),
            Value::Float(v) => ValueView::Float(*v),
            Value::Bool(v) => ValueView::Bool(*v),
            Value::Text(v) => ValueView::Text(v@),
            Value::Color(v) => ValueView::Color(*v),
            Value::Vector(x, y, z) => ValueView::Vector(*x, *y, *z),
        }
    }
}

/// A property of a component on one brick.
#[derive(Clone, Debug, PartialEq, Eq)]
pub struct Property {
    pub name: String,
    pub value: Value,
}

/// The properties that one brick has under one component. Where a name
/// stands twice, the later entry counts.
#[derive(Clone, Debug, PartialEq, Eq)]
pub struct BrickComponent {
    pub name: String,
    pub properties: Vec<Property>,
}

/// The values of a brick under one component, by property name.
pub type Values = Map<Seq<char>, ValueView>;

/// The map that a list of properties spells.
pub open spec fn values_of(properties: Seq<Property>) -> Values
    decreases properties.len(),
{
    if properties.len() == 0 {
        Map::empty()
    } else {
        values_of(properties.drop_last()).insert(
            properties.last().name@,
            properties.last().value@,
        )
    }
}

/// The map that a brick's list of components spells.
pub open spec fn components_of(components: Seq<BrickComponent>) -> Map<Seq<char>, Values>
    decreases components.len(),
{
    if components.len() == 0 {
        Map::empty()
    } else {
        components_of(components.drop_last()).insert(
            components.last().name@,
            values_of(components.last().properties@),
        )
    }
}

/// A placed brick.
#[derive(Clone, Debug, PartialEq, Eq)]
pub struct Brick {
    pub asset_name_index: u32,
    pub size: Size,
    pub position: Position,
    pub direction: Direction,
    pub rotation: Rotation,
    pub collision: Collision,
    pub visibility: bool,
    pub material_index: u32,
    pub physical_index: u32,
    pub material_intensity: u32,
    pub color: BrickColor,
    pub owner_index: u32,
    /// The components on this brick. Where a name stands twice, the later
    /// entry counts.
    pub components: Vec<BrickComponent>,
}

/// A [`Brick`] as a value of mathematics.
pub struct BrickView {
    pub asset_name_index: u32,
    pub size: Size,
    pub position: Position,
    pub direction: Direction,
    pub rotation: Rotation,
    pub collision: Collision,
    pub visibility: bool,
    pub material_index: u32,
    pub physical_index: u32,
    pub material_intensity: u32,
    pub color: BrickColor,
    pub owner_index: u32,
    pub components: Map<Seq<char>, Values>,
}

impl View for Brick {
    type V = BrickView;

    open spec fn view(&self) -> BrickView {
        BrickView {
            asset_name_index: self.asset_name_index,
            size: self.size,
            position: self.position,
            direction: self.direction,
            rotation: self.rotation,
            collision: self.collision,
            visibility: self.visibility,
            material_index: self.material_index,
            physical_index: self.physical_index,
            material_intensity: self.material_intensity,
            color: self.color,
            owner_index: self.owner_index,
            components: components_of(self.components@),
        }
    }
}

impl BrickView {
    /// The brick with other components.
    pub open spec fn with_components(self, components: Map<Seq<char>, Values>) -> BrickView {
        BrickView { components, ..self }
    }

    /// The brick without components: what its record in the brick table holds.
    pub open spec fn bare(self) -> BrickView {
        self.with_components(Map::empty())
    }
}

/// A property that a component declares: its name and the name of its type.
#[derive(Clone, Debug, PartialEq, Eq)]
pub struct SchemaEntry {
    pub name: String,
    pub kind: String,
}

/// A [`SchemaEntry`] as a value of mathematics.
pub struct SchemaEntryView {
    pub name: Seq<char>,
    pub kind: Seq<char>,
}

impl View for SchemaEntry {
    type V = SchemaEntryView;

    open spec fn view(&self) -> SchemaEntryView {
        SchemaEntryView { name: self.name@, kind: self.kind@ }
    }
}

/// A component: extra data that bricks may carry under its name.
#[derive(Clone, Debug, PartialEq, Eq)]
pub struct Component {
    pub name: String,
    pub version: i32,
    pub properties: Vec<SchemaEntry>,
}

/// A [`Component`] as a value of mathematics.
pub struct ComponentView {
    pub name: Seq<char>,
    pub version: i32,
    pub properties: Seq<SchemaEntryView>,
}

impl View for Component {
    type V = ComponentView;

    open spec fn view(&self) -> ComponentView {
        ComponentView {
            name: self.name@,
            version: self.version,
            properties: views(self.properties@),
        }
    }
}

/// A whole save.
#[derive(Clone, Debug, PartialEq, Eq)]
pub struct SaveData {
    pub game_version: i32,
    pub header1: Header1,
    pub header2: Header2,
    pub preview: Preview,
    pub bricks: Vec<Brick>,
    /// The components, in the order in which they are written.
    pub components: Vec<Component>,
}

/// A [`SaveData`] as a value of mathematics.
pub struct SaveDataView {
    pub game_version: i32,
    pub header1: Header1View,
    pub header2: Header2View,
    pub preview: PreviewView,
    pub bricks: Seq<BrickView>,
    pub components: Seq<ComponentView>,
}

impl View for SaveData {
    type V = SaveDataView;

    open spec fn view(&self) -> SaveDataView {
        SaveDataView {
            game_version: self.game_version,
            header1: self.header1@,
            header2: self.header2@,
            preview: self.preview@,
            bricks: views(self.bricks@),
            components: views(self.components@),
        }
    }
}

impl SaveDataView {
    /// The save with the host of its first header named.
    pub open spec fn resolved(self) -> SaveDataView {
        SaveDataView { header1: self.header1.resolved(), ..self }
    }
}

} // verus!
