use home_flow::color::Color;
use home_flow::layout::{get_global_material, GlobalMaterial, Material, Opening, OpeningType, Outline, Sensor};

fn catalogue() -> Vec<GlobalMaterial> {
    vec![
        GlobalMaterial::new("Oak", Material::Wood, Color::from_rgb(200, 150, 100)),
        GlobalMaterial::new("Tiles", Material::Marble, Color::white()).tiles(
            0.5f64.to_bits(),
            0.02f64.to_bits(),
            Color::from_rgb(40, 40, 40),
        ),
        GlobalMaterial::new("Oak", Material::Granite, Color::black()),
    ]
}

#[test]
fn known_material_is_returned_as_is() {
    let m = get_global_material(&catalogue(), "Tiles");
    assert_eq!(m.name, "Tiles");
    assert_eq!(m.material, Material::Marble);
    assert_eq!(m.tint, Color::white());
    let t = m.tiles.unwrap();
    assert_eq!(f64::from_bits(t.spacing), 0.5);
    assert_eq!(f64::from_bits(t.grout_width), 0.02);
    assert_eq!(t.grout_color, Color::from_rgb(40, 40, 40));
}

#[test]
fn first_of_equal_names_wins() {
    let m = get_global_material(&catalogue(), "Oak");
    assert_eq!(m.material, Material::Wood);
    assert_eq!(m.tint, Color::from_rgb(200, 150, 100));
}

#[test]
fn grout_reference_gives_grout_colour() {
    let m = get_global_material(&catalogue(), "Tiles-grout");
    assert_eq!(m.name, "Tiles");
    assert_eq!(m.material, Material::Marble);
    assert_eq!(m.tint, Color::from_rgb(40, 40, 40));
    assert!(m.tiles.is_none());
}

#[test]
fn grout_of_untiled_material_is_white() {
    let m = get_global_material(&catalogue(), "Oak-grout-grout");
    assert_eq!(m.name, "Oak");
    assert_eq!(m.material, Material::Wood);
    assert_eq!(m.tint, Color::white());
}

#[test]
fn unknown_reference_is_white_carpet() {
    let m = get_global_material(&catalogue(), "Brick");
    assert_eq!(m.name, "Brick");
    assert_eq!(m.material, Material::Carpet);
    assert_eq!(m.tint, Color::white());
    assert!(m.tiles.is_none());
    let g = get_global_material(&catalogue(), "Brick-grout");
    assert_eq!(g.name, "Brick-grout");
    assert_eq!(g.material, Material::Carpet);
}

#[test]
fn global_material_new_is_untiled() {
    let m = GlobalMaterial::new("Rug", Material::Fabric, Color::red());
    assert_eq!(m.name, "Rug");
    assert_eq!(m.material, Material::Fabric);
    assert_eq!(m.tint, Color::red());
    assert!(m.tiles.is_none());
    assert_eq!(m.clone(), m);
}

#[test]
fn material_default_is_empty() {
    assert_eq!(Material::default(), Material::Empty);
}

#[test]
fn sensor_default_is_placeholder() {
    let s = Sensor::default();
    assert_eq!(s.entity_id, "sensor_id");
    assert_eq!(s.display_name, "TMP");
    assert_eq!(s.unit, "°C");
}

#[test]
fn sensor_ids_are_random_version_four() {
    let a = Sensor::new("sensor.a", "A", "%");
    let b = Sensor::new("sensor.a", "A", "%");
    assert_ne!(a.id, b.id);
    assert_eq!((a.id >> 76) & 0xF, 4);
    assert_eq!((a.id >> 62) & 0x3, 2);
    assert_eq!(a.entity_id, "sensor.a");
}

#[test]
fn openings() {
    let d = Opening::default();
    assert_eq!(d.opening_type, OpeningType::Door);
    assert_eq!(d.pos, (0, 0));
    assert_eq!(d.rotation, 0);
    assert_eq!(f64::from_bits(d.width), 0.8);
    assert!(!d.flipped);
    assert_eq!(f64::from_bits(d.open_amount), 0.0);
    assert_eq!((d.id >> 76) & 0xF, 4);
    let w = Opening::new(OpeningType::Window, (1.5f64.to_bits(), 2.0f64.to_bits()), 90).width(1.2f64.to_bits());
    assert_eq!(w.opening_type, OpeningType::Window);
    assert_eq!(f64::from_bits(w.pos.0), 1.5);
    assert_eq!(w.rotation, 90);
    assert_eq!(f64::from_bits(w.width), 1.2);
    let f = w.flip();
    assert!(f.flipped);
    assert_eq!(f.flip(), w);
}

#[test]
fn outlines() {
    let o = Outline::default();
    assert_eq!(f64::from_bits(o.thickness), 0.05);
    assert_eq!(o.color, Color::white());
    let p = Outline::new(0.1f64.to_bits(), Color::red());
    assert_eq!(f64::from_bits(p.thickness), 0.1);
    assert_eq!(p.color, Color::red());
}
