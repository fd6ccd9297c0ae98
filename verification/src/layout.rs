//! Layout data that the library reasons about: surface materials, named
//! global materials with optional tiling, sensors, and the kinds of room
//! operations, shapes, openings and lights.
use crate::color::{channels, rgba_seq, Color};
use crate::ids::random_id;
use crate::text::{ends_with, ends_with_chars, str_eq, trim_end_all, trim_end_chars};
use vstd::prelude::*;

verus! {

/// A surface texture.
#[derive(Clone, Copy, Debug, PartialEq, Eq, Structural, Hash)]
pub enum Material {
    Empty,
    Carpet,
    Fabric,
    Marble,
    Granite,
    Wood,
}

impl Default for Material {
    /// `Material::Empty`.
    fn default() -> (m: Material)
        ensures
            m == Material::Empty,
    {
        Material::Empty
    }
}

/// How a room operation combines its shape with the room.
#[derive(Clone, Copy, Debug, PartialEq, Eq, Structural, Hash)]
pub enum Action {
    Add,
    Subtract,
    AddWall,
    SubtractWall,
}

/// The outline of a room operation or zone.
#[derive(Clone, Copy, Debug, PartialEq, Eq, Structural, Hash)]
pub enum Shape {
    Rectangle,
    Circle,
    Triangle,
}

/// The kind of an opening in a wall.
#[derive(Clone, Copy, Debug, PartialEq, Eq, Structural, Hash)]
pub enum OpeningType {
    Door,
    Window,
}

/// Whether a light can be dimmed or only switched.
#[derive(Clone, Copy, Debug, PartialEq, Eq, Structural, Hash)]
pub enum LightType {
    Dimmable,
    Binary,
}

/// Tiling of a material. The spacing and grout width are lengths held as
/// the bit patterns of their `f64` values; this library only carries them.
#[derive(Clone, Copy, Debug, PartialEq, Eq, Hash)]
pub struct TileOptions {
    pub spacing: u64,
    pub grout_width: u64,
    pub grout_color: Color,
}

/// A named material that rooms and furniture refer to by name.
#[derive(Debug, PartialEq, Eq, Hash)]
pub struct GlobalMaterial {
    pub name: String,
    pub material: Material,
    pub tint: Color,
    pub tiles: Option<TileOptions>,
}

impl Clone for GlobalMaterial {
    /// A copy with the same name, material, tint and tiling.
    fn clone(&self) -> (res: Self)
        ensures
            res == *self,
    {
        GlobalMaterial {
            name: self.name.clone(),
            material: self.material,
            tint: self.tint,
            tiles: self.tiles,
        }
    }
}

impl GlobalMaterial {
    /// An untiled material.
    pub fn new(name: &str, material: Material, tint: Color) -> (res: GlobalMaterial)
        ensures
            res.name@ == name@,
            res.material == material,
            res.tint == tint,
            res.tiles is None,
    {
        GlobalMaterial { name: name.to_owned(), material, tint, tiles: None }
    }

    /// The same material, tiled with the given spacing, grout width (both as
    /// `f64` bit patterns) and grout colour.
    pub fn tiles(self, spacing: u64, grout_width: u64, grout_color: Color) -> (res: GlobalMaterial)
        ensures
            res.name == self.name,
            res.material == self.material,
            res.tint == self.tint,
            res.tiles == Some(TileOptions { spacing, grout_width, grout_color }),
    {
        let mut m = self;
        m.tiles = Some(TileOptions { spacing, grout_width, grout_color });
        m
    }
}

/// The suffix that asks for the grout of a tiled material.
pub open spec fn grout_suffix() -> Seq<char> {
    seq!['-', 'g', 'r', 'o', 'u', 't']
}

/// The material name that a reference `s` is looked up under: `s` without
/// its trailing `-grout` suffixes when it ends with one.
pub open spec fn material_key(s: Seq<char>) -> Seq<char> {
    if ends_with(s, grout_suffix()) {
        trim_end_all(s, grout_suffix())
    } else {
        s
    }
}

/// `i` is the first material named `key`.
pub open spec fn first_named(materials: Seq<GlobalMaterial>, key: Seq<char>, i: int) -> bool {
    &&& 0 <= i < materials.len()
    &&& materials[i].name@ == key
    &&& forall|j: int| 0 <= j < i ==> materials[j].name@ != key
}

/// The colour of the grout of a material: its tiling's grout colour, or
/// white when it is not tiled.
pub open spec fn grout_color_of(m: GlobalMaterial) -> Seq<u8> {
    match m.tiles {
        Some(t) => channels(t.grout_color),
        None => rgba_seq(255, 255, 255, 255),
    }
}

/// Looks up the material that `string` refers to. A reference ending in
/// `-grout` is looked up without that suffix and stands for the grout:
/// untiled, named after the material, with the grout colour as tint. An
/// unknown reference gives white carpet named after the reference.
pub fn get_global_material(materials: &[GlobalMaterial], string: &str) -> (res: GlobalMaterial)
    ensures
        ({
            let key = material_key(string@);
            let grout = ends_with(string@, grout_suffix());
            if exists|i: int| first_named(materials@, key, i) {
                let i = choose|i: int| first_named(materials@, key, i);
                if grout {
                    &&& res.name@ == key
                    &&& res.material == materials@[i].material
                    &&& channels(res.tint) == grout_color_of(materials@[i])
                    &&& res.tiles is None
                } else {
                    res == materials@[i]
                }
            } else {
                &&& res.name@ == string@
                &&& res.material == Material::Carpet
                &&& channels(res.tint) == rgba_seq(255, 255, 255, 255)
                &&& res.tiles is None
            }
        }),
{
    let suffix: [char; 6] = ['-', 'g', 'r', 'o', 'u', 't'];
    proof {
        assert(suffix@ =~= grout_suffix());
    }
    let is_grout = ends_with_chars(string, suffix.as_slice());
    let search_string: &str = if is_grout {
        trim_end_chars(string, suffix.as_slice())
    } else {
        string
    };
    let mut i: usize = 0;
    while i < materials.len()
        invariant
            search_string@ == material_key(string@),
            is_grout == ends_with(string@, grout_suffix()),
            i <= materials@.len(),
            forall|j: int| 0 <= j < i ==> materials@[j].name@ != search_string@,
        decreases materials@.len() - i,
    {
        if str_eq(materials[i].name.as_str(), search_string) {
            let ghost key = search_string@;
            proof {
                assert(first_named(materials@, key, i as int));
                let k = choose|k: int| first_named(materials@, key, k);
                assert(k == i) by {
                    if k < i {
                    } else if k > i {
                    }
                }
            }
            let material = &materials[i];
            if is_grout {
                let tint = match material.tiles {
                    Some(t) => t.grout_color,
                    None => Color::white(),
                };
                return GlobalMaterial::new(search_string, material.material, tint);
            } else {
                return material.clone();
            }
        }
        i += 1;
    }
    GlobalMaterial::new(string, Material::Carpet, Color::white())
}

/// A sensor shown in a room.
#[derive(Clone, Debug)]
pub struct Sensor {
    pub id: u128,
    pub entity_id: String,
    pub display_name: String,
    pub unit: String,
}

impl Sensor {
    /// A sensor with a fresh random identifier.
    pub fn new(entity_id: &str, display_name: &str, unit: &str) -> (s: Sensor)
        ensures
            s.id & 0xF000_C000_0000_0000_0000u128 == 0x4000_8000_0000_0000_0000u128,
            s.entity_id@ == entity_id@,
            s.display_name@ == display_name@,
            s.unit@ == unit@,
    {
        Sensor {
            id: random_id(),
            entity_id: entity_id.to_owned(),
            display_name: display_name.to_owned(),
            unit: unit.to_owned(),
        }
    }

    /// A placeholder temperature sensor.
    pub fn default() -> (s: Sensor)
        ensures
            s.entity_id@ == "sensor_id"@,
            s.display_name@ == "TMP"@,
            s.unit@ == "°C"@,
    {
        Sensor::new("sensor_id", "TMP", "°C")
    }
}

/// The `f64` bit pattern of 0.8, the width of a new opening.
pub const DEFAULT_OPENING_WIDTH: u64 = 0x3FE9_9999_9999_999A;

/// The `f64` bit pattern of 0.05, the thickness of the default outline.
pub const DEFAULT_OUTLINE_THICKNESS: u64 = 0x3FA9_9999_9999_999A;

/// A door or window in a wall. The position, width and opening amount are
/// the bit patterns of their `f64` values; this library only carries them.
#[derive(Clone, Copy, Debug, PartialEq, Eq, Hash)]
pub struct Opening {
    pub id: u128,
    pub opening_type: OpeningType,
    pub pos: (u64, u64),
    pub rotation: i32,
    pub width: u64,
    pub flipped: bool,
    pub open_amount: u64,
}

impl Opening {
    /// A closed, unflipped opening of width 0.8 with a fresh random
    /// identifier.
    pub fn new(opening_type: OpeningType, pos: (u64, u64), rotation: i32) -> (o: Opening)
        ensures
            o.id & 0xF000_C000_0000_0000_0000u128 == 0x4000_8000_0000_0000_0000u128,
            o.opening_type == opening_type,
            o.pos == pos,
            o.rotation == rotation,
            o.width == DEFAULT_OPENING_WIDTH,
            !o.flipped,
            o.open_amount == 0,
    {
        Opening {
            id: random_id(),
            opening_type,
            pos,
            rotation,
            width: DEFAULT_OPENING_WIDTH,
            flipped: false,
            open_amount: 0,
        }
    }

    /// A door at the origin.
    pub fn default() -> (o: Opening)
        ensures
            o.id & 0xF000_C000_0000_0000_0000u128 == 0x4000_8000_0000_0000_0000u128,
            o.opening_type == OpeningType::Door,
            o.pos == (0u64, 0u64),
            o.rotation == 0,
            o.width == DEFAULT_OPENING_WIDTH,
            !o.flipped,
            o.open_amount == 0,
    {
        Opening::new(OpeningType::Door, (0, 0), 0)
    }

    /// The same opening with another width (an `f64` bit pattern).
    pub fn width(self, width: u64) -> (o: Opening)
        ensures
            o == (Opening { width, ..self }),
    {
        let mut o = self;
        o.width = width;
        o
    }

    /// The same opening hinged on the other side.
    pub fn flip(self) -> (o: Opening)
        ensures
            o == flipped(self),
    {
        let mut o = self;
        o.flipped = !o.flipped;
        o
    }
}

/// An outline drawn around a room: its thickness (an `f64` bit pattern)
/// and colour.
#[derive(Clone, Copy, Debug, PartialEq, Eq, Hash)]
pub struct Outline {
    pub thickness: u64,
    pub color: Color,
}

impl Outline {
    /// An outline of the given thickness and colour.
    pub fn new(thickness: u64, color: Color) -> (o: Outline)
        ensures
            o.thickness == thickness,
            o.color == color,
    {
        Outline { thickness, color }
    }

    /// A white outline of thickness 0.05.
    pub fn default() -> (o: Outline)
        ensures
            o.thickness == DEFAULT_OUTLINE_THICKNESS,
            channels(o.color) == rgba_seq(255, 255, 255, 255),
    {
        Outline::new(DEFAULT_OUTLINE_THICKNESS, Color::white())
    }
}

/// The opening hinged on the other side, all else kept.
pub open spec fn flipped(o: Opening) -> Opening {
    Opening { flipped: !o.flipped, ..o }
}

/// Flipping an opening twice gives it back unchanged.
pub proof fn lemma_flip_twice(o: Opening)
    ensures
        flipped(flipped(o)) == o,
{
}

} // verus!
