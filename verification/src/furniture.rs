//! Furniture pieces, their kinds and the per-kind facts the renderer relies
//! on: drawing order, hover behaviour, shadows and which parts take a material.
use crate::color::Color;
use crate::layout::Material;
use crate::ids::random_id;
use vstd::prelude::*;

verus! {

#[derive(Clone, Copy, Debug, PartialEq, Eq, Hash)]
pub enum ChairType {
    Dining,
    Office,
    Sofa(Color),
}

#[derive(Clone, Copy, Debug, PartialEq, Eq, Structural, Hash)]
pub enum TableType {
    Empty,
    Dining,
    Desk,
}

#[derive(Clone, Copy, Debug, PartialEq, Eq, Structural, Hash)]
pub enum KitchenType {
    Hob,
    Sink,
}

#[derive(Clone, Copy, Debug, PartialEq, Eq, Structural, Hash)]
pub enum BathroomType {
    Toilet,
    Shower,
    Bath,
    Sink,
}

#[derive(Clone, Copy, Debug, PartialEq, Eq, Structural, Hash)]
pub enum StorageType {
    Cupboard,
    CupboardMid,
    CupboardHigh,
    Drawer,
    DrawerMid,
    DrawerHigh,
}

#[derive(Clone, Copy, Debug, PartialEq, Eq, Structural, Hash)]
pub enum ElectronicType {
    Display,
    Computer,
}

#[derive(Clone, Copy, Debug, PartialEq, Eq, Structural, Hash)]
pub enum MiscHeight {
    Low,
    Mid,
    High,
}

#[derive(Clone, Copy, Debug, PartialEq, Eq, Structural, Hash)]
pub enum AnimatedPieceType {
    Drawer,
    DrawerMid,
    DrawerHigh,
    Door(bool),
    DoorMid(bool),
    DoorHigh(bool),
}

/// A kind of furniture, with its variant.
#[derive(Clone, Copy, Debug, PartialEq, Eq, Hash)]
pub enum FurnitureType {
    Chair(ChairType),
    Table(TableType),
    Kitchen(KitchenType),
    Bathroom(BathroomType),
    Bed(Color),
    Storage(StorageType),
    Rug(Color),
    Electronic(ElectronicType),
    Radiator,
    Misc(MiscHeight),
    AnimatedPiece(AnimatedPieceType),
}

impl Default for ChairType {
    /// `ChairType::Dining`.
    fn default() -> (d: ChairType)
        ensures
            d == ChairType::Dining,
    {
        ChairType::Dining
    }
}

impl Default for TableType {
    /// `TableType::Empty`.
    fn default() -> (d: TableType)
        ensures
            d == TableType::Empty,
    {
        TableType::Empty
    }
}

impl Default for KitchenType {
    /// `KitchenType::Hob`.
    fn default() -> (d: KitchenType)
        ensures
            d == KitchenType::Hob,
    {
        KitchenType::Hob
    }
}

impl Default for BathroomType {
    /// `BathroomType::Toilet`.
    fn default() -> (d: BathroomType)
        ensures
            d == BathroomType::Toilet,
    {
        BathroomType::Toilet
    }
}

impl Default for StorageType {
    /// `StorageType::Cupboard`.
    fn default() -> (d: StorageType)
        ensures
            d == StorageType::Cupboard,
    {
        StorageType::Cupboard
    }
}

impl Default for ElectronicType {
    /// `ElectronicType::Display`.
    fn default() -> (d: ElectronicType)
        ensures
            d == ElectronicType::Display,
    {
        ElectronicType::Display
    }
}

impl Default for MiscHeight {
    /// `MiscHeight::Low`.
    fn default() -> (d: MiscHeight)
        ensures
            d == MiscHeight::Low,
    {
        MiscHeight::Low
    }
}

impl Default for AnimatedPieceType {
    /// `AnimatedPieceType::Drawer`.
    fn default() -> (d: AnimatedPieceType)
        ensures
            d == AnimatedPieceType::Drawer,
    {
        AnimatedPieceType::Drawer
    }
}

impl Default for FurnitureType {
    /// A radiator.
    fn default() -> (t: FurnitureType)
        ensures
            t == FurnitureType::Radiator,
    {
        FurnitureType::Radiator
    }
}

/// The drawing layer of a kind of furniture, from 0 (drawn first) to 6:
/// rugs lowest, high storage and high shelving highest.
pub open spec fn render_layer(t: FurnitureType) -> u8 {
    match t {
        FurnitureType::Storage(StorageType::CupboardHigh) => 6,
        FurnitureType::Storage(StorageType::DrawerHigh) => 6,
        FurnitureType::Misc(MiscHeight::High) => 6,
        FurnitureType::Storage(StorageType::CupboardMid) => 4,
        FurnitureType::Storage(StorageType::DrawerMid) => 4,
        FurnitureType::Misc(MiscHeight::Mid) => 4,
        FurnitureType::AnimatedPiece(AnimatedPieceType::DrawerHigh) => 5,
        FurnitureType::AnimatedPiece(AnimatedPieceType::DoorHigh(_)) => 5,
        FurnitureType::AnimatedPiece(AnimatedPieceType::DrawerMid) => 3,
        FurnitureType::AnimatedPiece(AnimatedPieceType::DoorMid(_)) => 3,
        FurnitureType::AnimatedPiece(AnimatedPieceType::Drawer) => 1,
        FurnitureType::AnimatedPiece(AnimatedPieceType::Door(_)) => 1,
        FurnitureType::Chair(_) => 1,
        FurnitureType::Rug(_) => 0,
        _ => 2,
    }
}

impl FurnitureType {
    /// The drawing layer of this kind of furniture.
    pub fn render_order(self) -> (res: u8)
        ensures
            res == render_layer(self),
            res <= 6,
    {
        match self {
            FurnitureType::Storage(StorageType::CupboardHigh | StorageType::DrawerHigh)
            | FurnitureType::Misc(MiscHeight::High) => 6,
            FurnitureType::Storage(StorageType::CupboardMid | StorageType::DrawerMid)
            | FurnitureType::Misc(MiscHeight::Mid) => 4,
            FurnitureType::AnimatedPiece(animated_type) => match animated_type {
                AnimatedPieceType::DrawerHigh | AnimatedPieceType::DoorHigh(_) => 5,
                AnimatedPieceType::DrawerMid | AnimatedPieceType::DoorMid(_) => 3,
                AnimatedPieceType::Drawer | AnimatedPieceType::Door(_) => 1,
            },
            FurnitureType::Chair(_) => 1,
            FurnitureType::Rug(_) => 0,
            _ => 2,
        }
    }

    /// Chairs and animated pieces react to the pointer.
    pub fn can_hover(self) -> (res: bool)
        ensures
            res == (self is AnimatedPiece || self is Chair),
    {
        matches!(self, FurnitureType::AnimatedPiece(_) | FurnitureType::Chair(_))
    }

    /// Tables, dining chairs, storage and miscellaneous pieces take a
    /// material.
    pub fn has_material(self) -> (res: bool)
        ensures
            res == (self is Table || self == FurnitureType::Chair(ChairType::Dining)
                || self is Storage || self is Misc),
    {
        matches!(
            self,
            FurnitureType::Table(_) | FurnitureType::Chair(ChairType::Dining)
                | FurnitureType::Storage(_) | FurnitureType::Misc(_)
        )
    }

    /// Dining tables (their chairs) and storage (its drawers and doors) have
    /// parts with a material of their own.
    pub fn has_children_material(self) -> (res: bool)
        ensures
            res == (self == FurnitureType::Table(TableType::Dining) || self is Storage),
    {
        matches!(self, FurnitureType::Table(TableType::Dining) | FurnitureType::Storage(_))
    }
}

/// Rugs are drawn beneath every other kind of furniture.
pub proof fn lemma_rugs_lowest(c: Color, t: FurnitureType)
    ensures
        render_layer(FurnitureType::Rug(c)) <= render_layer(t),
{
}

/// Furniture whose parts take materials of their own takes a material
/// itself.
pub proof fn lemma_children_material_has_material(t: FurnitureType)
    ensures
        (t == FurnitureType::Table(TableType::Dining) || t is Storage) ==> (t is Table || t
            == FurnitureType::Chair(ChairType::Dining) || t is Storage || t is Misc),
{
}

/// The material and tint a piece of furniture is drawn with.
#[derive(Clone, Copy, Debug, PartialEq, Eq, Hash)]
pub struct FurnMaterial {
    pub material: Material,
    pub tint: Color,
}

impl Default for FurnMaterial {
    /// No texture, transparent tint.
    fn default() -> (m: FurnMaterial)
        ensures
            m.material == Material::Empty,
            m.tint.0@ == seq![0u8, 0u8, 0u8, 0u8],
    {
        FurnMaterial { material: Material::Empty, tint: Color([0, 0, 0, 0]) }
    }
}

impl FurnMaterial {
    /// A material with a tint.
    pub fn new(material: Material, tint: Color) -> (m: FurnMaterial)
        ensures
            m.material == material,
            m.tint == tint,
    {
        FurnMaterial { material, tint }
    }
}

/// How a piece of furniture casts its shadow.
#[derive(Clone, Copy, Debug, PartialEq, Eq, Structural)]
pub enum ShadowKind {
    /// No shadow (animated drawers and doors).
    NoShadow,
    /// The shadow of the piece's outline.
    Simple,
    /// The shadow of each of its drawn parts.
    Detailed,
}

/// The shadow a kind of furniture casts: none for animated pieces, one of
/// every part for beds and for baths and showers, and of the outline for
/// everything else.
pub open spec fn shadow_of(t: FurnitureType) -> ShadowKind {
    match t {
        FurnitureType::AnimatedPiece(_) => ShadowKind::NoShadow,
        FurnitureType::Bed(_) => ShadowKind::Detailed,
        FurnitureType::Bathroom(BathroomType::Shower) => ShadowKind::Detailed,
        FurnitureType::Bathroom(BathroomType::Bath) => ShadowKind::Detailed,
        _ => ShadowKind::Simple,
    }
}

impl FurnitureType {
    /// The shadow this kind of furniture casts.
    pub fn shadow_kind(self) -> (res: ShadowKind)
        ensures
            res == shadow_of(self),
    {
        match self {
            FurnitureType::AnimatedPiece(_) => ShadowKind::NoShadow,
            FurnitureType::Bed(_) => ShadowKind::Detailed,
            FurnitureType::Bathroom(sub_type) => match sub_type {
                BathroomType::Toilet | BathroomType::Sink => ShadowKind::Simple,
                BathroomType::Shower | BathroomType::Bath => ShadowKind::Detailed,
            },
            _ => ShadowKind::Simple,
        }
    }
}

/// The `f64` bit pattern of 1.0, the side of the default piece.
pub const UNIT_LENGTH: u64 = 0x3FF0_0000_0000_0000;

/// A piece of furniture in a room. Position, size and hover amount are the
/// bit patterns of their `f64` values; this library only carries them.
#[derive(Debug)]
pub struct Furniture {
    pub id: u128,
    pub furniture_type: FurnitureType,
    pub material: String,
    pub material_children: String,
    pub pos: (u64, u64),
    pub size: (u64, u64),
    pub rotation: i32,
    pub power_draw_entity: String,
    pub hover_amount: u64,
}

impl Clone for Furniture {
    /// A copy with the same fields.
    fn clone(&self) -> (res: Self)
        ensures
            res == *self,
    {
        Furniture {
            id: self.id,
            furniture_type: self.furniture_type,
            material: self.material.clone(),
            material_children: self.material_children.clone(),
            pos: self.pos,
            size: self.size,
            rotation: self.rotation,
            power_draw_entity: self.power_draw_entity.clone(),
            hover_amount: self.hover_amount,
        }
    }
}

impl Furniture {
    /// A piece in wood with a fresh random identifier, drawing no power.
    pub fn new(furniture_type: FurnitureType, pos: (u64, u64), size: (u64, u64), rotation: i32) -> (f: Furniture)
        ensures
            f.id & 0xF000_C000_0000_0000_0000u128 == 0x4000_8000_0000_0000_0000u128,
            f.furniture_type == furniture_type,
            f.material@ == "Wood"@,
            f.material_children@ == "Wood"@,
            f.pos == pos,
            f.size == size,
            f.rotation == rotation,
            f.power_draw_entity@.len() == 0,
            f.hover_amount == 0,
    {
        Furniture {
            id: random_id(),
            furniture_type,
            material: "Wood".to_owned(),
            material_children: "Wood".to_owned(),
            pos,
            size,
            rotation,
            power_draw_entity: String::new(),
            hover_amount: 0,
        }
    }

    /// A piece as `new` makes it; the name is not kept.
    pub fn named(_name: &str, furniture_type: FurnitureType, pos: (u64, u64), size: (u64, u64), rotation: i32) -> (f: Furniture)
        ensures
            f.id & 0xF000_C000_0000_0000_0000u128 == 0x4000_8000_0000_0000_0000u128,
            f.furniture_type == furniture_type,
            f.material@ == "Wood"@,
            f.material_children@ == "Wood"@,
            f.pos == pos,
            f.size == size,
            f.rotation == rotation,
            f.power_draw_entity@.len() == 0,
            f.hover_amount == 0,
    {
        Furniture::new(furniture_type, pos, size, rotation)
    }

    /// The same piece with `material` for itself and its parts.
    pub fn materials(self, material: &str) -> (f: Furniture)
        ensures
            f.material@ == material@,
            f.material_children@ == material@,
            f.id == self.id,
            f.furniture_type == self.furniture_type,
            f.pos == self.pos,
            f.size == self.size,
            f.rotation == self.rotation,
            f.power_draw_entity == self.power_draw_entity,
            f.hover_amount == self.hover_amount,
    {
        let mut f = self;
        f.material = material.to_owned();
        f.material_children = material.to_owned();
        f
    }

    /// The same piece with `material` for itself.
    pub fn material(self, material: &str) -> (f: Furniture)
        ensures
            f.material@ == material@,
            f.material_children == self.material_children,
            f.id == self.id,
            f.furniture_type == self.furniture_type,
            f.pos == self.pos,
            f.size == self.size,
            f.rotation == self.rotation,
            f.power_draw_entity == self.power_draw_entity,
            f.hover_amount == self.hover_amount,
    {
        let mut f = self;
        f.material = material.to_owned();
        f
    }

    /// The same piece with `material` for its parts.
    pub fn material_children(self, material: &str) -> (f: Furniture)
        ensures
            f.material == self.material,
            f.material_children@ == material@,
            f.id == self.id,
            f.furniture_type == self.furniture_type,
            f.pos == self.pos,
            f.size == self.size,
            f.rotation == self.rotation,
            f.power_draw_entity == self.power_draw_entity,
            f.hover_amount == self.hover_amount,
    {
        let mut f = self;
        f.material_children = material.to_owned();
        f
    }

    /// The same piece reporting its power draw through `entity`.
    pub fn power_draw_entity(self, entity: &str) -> (f: Furniture)
        ensures
            f.power_draw_entity@ == entity@,
            f.material == self.material,
            f.material_children == self.material_children,
            f.id == self.id,
            f.furniture_type == self.furniture_type,
            f.pos == self.pos,
            f.size == self.size,
            f.rotation == self.rotation,
            f.hover_amount == self.hover_amount,
    {
        let mut f = self;
        f.power_draw_entity = entity.to_owned();
        f
    }

    /// A dining chair of unit size at the origin.
    pub fn default() -> (f: Furniture)
        ensures
            f.id & 0xF000_C000_0000_0000_0000u128 == 0x4000_8000_0000_0000_0000u128,
            f.furniture_type == FurnitureType::Chair(ChairType::Dining),
            f.material@ == "Wood"@,
            f.material_children@ == "Wood"@,
            f.pos == (0u64, 0u64),
            f.size == (UNIT_LENGTH, UNIT_LENGTH),
            f.rotation == 0,
            f.power_draw_entity@.len() == 0,
            f.hover_amount == 0,
    {
        Furniture::new(FurnitureType::Chair(ChairType::default()), (0, 0), (UNIT_LENGTH, UNIT_LENGTH), 0)
    }

    /// The drawing layer of this piece.
    pub fn render_order(&self) -> (res: u8)
        ensures
            res == render_layer(self.furniture_type),
    {
        self.furniture_type.render_order()
    }

    /// Whether this piece reacts to the pointer.
    pub fn can_hover(&self) -> (res: bool)
        ensures
            res == (self.furniture_type is AnimatedPiece || self.furniture_type is Chair),
    {
        self.furniture_type.can_hover()
    }
}

} // verus!
