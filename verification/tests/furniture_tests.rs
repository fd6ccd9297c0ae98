use home_flow::color::Color;
use home_flow::edit_mode::{apply_alterations, AlterObject, ManipulationType};
use home_flow::furniture::{
    AnimatedPieceType, BathroomType, ChairType, ElectronicType, FurnMaterial, Furniture, FurnitureType, KitchenType,
    MiscHeight, ShadowKind, StorageType, TableType,
};
use home_flow::layout::Material;

#[test]
fn render_order_layers() {
    assert_eq!(FurnitureType::Rug(Color::white()).render_order(), 0);
    assert_eq!(FurnitureType::Chair(ChairType::Office).render_order(), 1);
    assert_eq!(FurnitureType::AnimatedPiece(AnimatedPieceType::Door(true)).render_order(), 1);
    assert_eq!(FurnitureType::Table(TableType::Desk).render_order(), 2);
    assert_eq!(FurnitureType::Radiator.render_order(), 2);
    assert_eq!(FurnitureType::AnimatedPiece(AnimatedPieceType::DrawerMid).render_order(), 3);
    assert_eq!(FurnitureType::Storage(StorageType::CupboardMid).render_order(), 4);
    assert_eq!(FurnitureType::Misc(MiscHeight::Mid).render_order(), 4);
    assert_eq!(FurnitureType::AnimatedPiece(AnimatedPieceType::DoorHigh(false)).render_order(), 5);
    assert_eq!(FurnitureType::Storage(StorageType::DrawerHigh).render_order(), 6);
    assert_eq!(FurnitureType::Misc(MiscHeight::High).render_order(), 6);
}

#[test]
fn rugs_are_lowest() {
    let rug = FurnitureType::Rug(Color::red()).render_order();
    for t in [
        FurnitureType::Radiator,
        FurnitureType::Chair(ChairType::Dining),
        FurnitureType::Storage(StorageType::DrawerHigh),
        FurnitureType::Bed(Color::blue()),
    ] {
        assert!(rug <= t.render_order());
    }
}

#[test]
fn hover_and_materials() {
    assert!(FurnitureType::Chair(ChairType::Sofa(Color::black())).can_hover());
    assert!(FurnitureType::AnimatedPiece(AnimatedPieceType::Drawer).can_hover());
    assert!(!FurnitureType::Radiator.can_hover());
    assert!(FurnitureType::Chair(ChairType::Dining).has_material());
    assert!(!FurnitureType::Chair(ChairType::Office).has_material());
    assert!(FurnitureType::Misc(MiscHeight::Low).has_material());
    assert!(FurnitureType::Table(TableType::Dining).has_children_material());
    assert!(!FurnitureType::Table(TableType::Desk).has_children_material());
    assert!(FurnitureType::Storage(StorageType::Cupboard).has_children_material());
    assert!(FurnitureType::Storage(StorageType::Cupboard).has_material());
}

#[test]
fn furniture_defaults() {
    assert_eq!(FurnitureType::default(), FurnitureType::Radiator);
    let m = FurnMaterial::default();
    assert_eq!(m.material, Material::Empty);
    assert_eq!(m.tint, Color::transparent());
    let n = FurnMaterial::new(Material::Wood, Color::gray());
    assert_eq!(n.material, Material::Wood);
    assert_eq!(n.tint, Color::gray());
}

#[test]
fn manipulation_signs() {
    assert_eq!(ManipulationType::Move.sign(), 0);
    assert_eq!(ManipulationType::ResizeLeft.sign(), -1);
    assert_eq!(ManipulationType::ResizeBottom.sign(), -1);
    assert_eq!(ManipulationType::ResizeRight.sign(), 1);
    assert_eq!(ManipulationType::ResizeTop.sign(), 1);
}

#[test]
fn variant_defaults() {
    assert_eq!(ChairType::default(), ChairType::Dining);
    assert_eq!(TableType::default(), TableType::Empty);
    assert_eq!(KitchenType::default(), KitchenType::Hob);
    assert_eq!(BathroomType::default(), BathroomType::Toilet);
    assert_eq!(StorageType::default(), StorageType::Cupboard);
    assert_eq!(ElectronicType::default(), ElectronicType::Display);
    assert_eq!(MiscHeight::default(), MiscHeight::Low);
    assert_eq!(AnimatedPieceType::default(), AnimatedPieceType::Drawer);
}

#[test]
fn furniture_builders() {
    let f = Furniture::default();
    assert_eq!(f.furniture_type, FurnitureType::Chair(ChairType::Dining));
    assert_eq!(f.material, "Wood");
    assert_eq!(f.material_children, "Wood");
    assert_eq!(f.pos, (0, 0));
    assert_eq!((f64::from_bits(f.size.0), f64::from_bits(f.size.1)), (1.0, 1.0));
    assert_eq!(f.rotation, 0);
    assert!(f.power_draw_entity.is_empty());
    assert_eq!((f.id >> 76) & 0xF, 4);
    assert_eq!(f.render_order(), 1);
    assert!(f.can_hover());
    let g = Furniture::named("desk", FurnitureType::Table(TableType::Desk), (1, 2), (3, 4), 90)
        .materials("Oak")
        .material_children("Steel")
        .power_draw_entity("sensor.desk_power");
    assert_eq!(g.material, "Oak");
    assert_eq!(g.material_children, "Steel");
    assert_eq!(g.power_draw_entity, "sensor.desk_power");
    assert_eq!((g.pos, g.size, g.rotation), ((1, 2), (3, 4), 90));
    assert!(!g.can_hover());
    let h = g.clone().material("Pine");
    assert_eq!(h.material, "Pine");
    assert_eq!(h.material_children, "Steel");
    assert_eq!(h.id, g.id);
}

#[test]
fn shadows() {
    assert_eq!(FurnitureType::AnimatedPiece(AnimatedPieceType::Door(false)).shadow_kind(), ShadowKind::NoShadow);
    assert_eq!(FurnitureType::Bed(Color::white()).shadow_kind(), ShadowKind::Detailed);
    assert_eq!(FurnitureType::Bathroom(BathroomType::Bath).shadow_kind(), ShadowKind::Detailed);
    assert_eq!(FurnitureType::Bathroom(BathroomType::Shower).shadow_kind(), ShadowKind::Detailed);
    assert_eq!(FurnitureType::Bathroom(BathroomType::Toilet).shadow_kind(), ShadowKind::Simple);
    assert_eq!(FurnitureType::Radiator.shadow_kind(), ShadowKind::Simple);
}

#[test]
fn list_alterations_from_last_to_first() {
    let mut items = vec!['a', 'b', 'c', 'd', 'e'];
    let alts = [
        AlterObject::Keep,
        AlterObject::MoveDown,
        AlterObject::Delete,
        AlterObject::MoveUp,
        AlterObject::Duplicate,
    ];
    apply_alterations(&mut items, &alts);
    // 'd' moves up (a b d c e), the item now at 2 ('d') is deleted (a b c e),
    // then 'b' moves down (a c b e).
    assert_eq!(items, vec!['a', 'c', 'b', 'e']);
}
