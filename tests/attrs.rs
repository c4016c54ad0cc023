use text_attrs::{
    Attrs, AttrsOwned, Color, FaceDescriptor, Family, FamilyOwned, Stretch, Style, Weight,
    NORMAL_WEIGHT, UNIT_SCALING_BITS,
};

fn face(name: &str, style: Style, weight: u16, stretch: Stretch) -> FaceDescriptor {
    FaceDescriptor {
        post_script_name: name.to_string(),
        style,
        weight: Weight(weight),
        stretch,
    }
}

#[test]
fn new_attrs_are_regular_sans_serif() {
    let a = Attrs::new();
    assert_eq!(a.color_opt, None);
    assert_eq!(a.family, Family::SansSerif);
    assert_eq!(a.stretch, Stretch::Normal);
    assert_eq!(a.style, Style::Normal);
    assert_eq!(a.weight, Weight(NORMAL_WEIGHT));
    assert_eq!(a.scaling_bits, 1.0f32.to_bits());
    assert_eq!(UNIT_SCALING_BITS, 1.0f32.to_bits());
    assert_eq!(a.metadata, 0);
}

#[test]
fn builders_set_one_field_each() {
    let a = Attrs::new()
        .color(Color::rgb(1, 2, 3))
        .family(Family::Name("Fira"))
        .stretch(Stretch::Condensed)
        .style(Style::Italic)
        .weight(Weight(700))
        .scaling(2.0f32.to_bits())
        .metadata(9);
    assert_eq!(a.color_opt, Some(Color::rgb(1, 2, 3)));
    assert_eq!(a.family, Family::Name("Fira"));
    assert_eq!(a.stretch, Stretch::Condensed);
    assert_eq!(a.style, Style::Italic);
    assert_eq!(a.weight, Weight(700));
    assert_eq!(a.scaling_bits, 2.0f32.to_bits());
    assert_eq!(a.metadata, 9);
}

#[test]
fn equality_covers_every_field() {
    let a = Attrs::new();
    assert_eq!(a, Attrs::new());
    assert_ne!(a, a.color(Color::rgb(0, 0, 0)));
    assert_ne!(a, a.family(Family::Serif));
    assert_ne!(a, a.stretch(Stretch::Expanded));
    assert_ne!(a, a.style(Style::Oblique));
    assert_ne!(a, a.weight(Weight(100)));
    assert_ne!(a, a.scaling(0.5f32.to_bits()));
    assert_ne!(a, a.metadata(1));
}

#[test]
fn nan_scaling_equals_itself() {
    let a = Attrs::new().scaling(f32::NAN.to_bits());
    assert_eq!(a, a);
    assert!(a.compatible(&a));
    let pos = Attrs::new().scaling(0.0f32.to_bits());
    let neg = Attrs::new().scaling((-0.0f32).to_bits());
    assert_ne!(pos, neg);
}

#[test]
fn family_names_compare_by_text() {
    let owned = String::from("Noto Sans");
    assert_eq!(Family::Name("Noto Sans"), Family::Name(owned.as_str()));
    assert_ne!(Family::Name("Noto Sans"), Family::Name("Noto Serif"));
    assert_ne!(Family::Name("Noto"), Family::Name("Noto Sans"));
    assert_ne!(Family::Name("Serif"), Family::Serif);
}

#[test]
fn compatible_ignores_color_and_metadata() {
    let a = Attrs::new();
    assert!(a.compatible(&a.color(Color::rgb(9, 9, 9)).metadata(4)));
    assert!(!a.compatible(&a.family(Family::Monospace)));
    assert!(!a.compatible(&a.stretch(Stretch::UltraExpanded)));
    assert!(!a.compatible(&a.style(Style::Italic)));
    assert!(!a.compatible(&a.weight(Weight(700))));
    assert!(!a.compatible(&a.scaling(1.5f32.to_bits())));
}

#[test]
fn matches_exact_traits() {
    let a = Attrs::new().weight(Weight(700));
    assert!(a.matches(&face("Fira-Bold", Style::Normal, 700, Stretch::Normal)));
    assert!(!a.matches(&face("Fira-Regular", Style::Normal, 400, Stretch::Normal)));
    assert!(!a.matches(&face("Fira-BoldItalic", Style::Italic, 700, Stretch::Normal)));
    assert!(!a.matches(&face("Fira-BoldCond", Style::Normal, 700, Stretch::Condensed)));
}

#[test]
fn matches_any_emoji_face() {
    let a = Attrs::new().style(Style::Italic).weight(Weight(900));
    assert!(a.matches(&face("NotoColorEmoji", Style::Normal, 400, Stretch::Normal)));
    assert!(a.matches(&face("Emoji", Style::Normal, 400, Stretch::Normal)));
    assert!(!a.matches(&face("NotoColorEmoj", Style::Normal, 400, Stretch::Normal)));
    assert!(!a.matches(&face("emoji", Style::Normal, 400, Stretch::Normal)));
    assert!(!a.matches(&face("", Style::Normal, 400, Stretch::Normal)));
}

#[test]
fn family_owned_round_trip() {
    let name = String::from("Inter");
    let owned = FamilyOwned::new(Family::Name(name.as_str()));
    assert_eq!(owned, FamilyOwned::Name("Inter".to_string()));
    assert_eq!(owned.as_family(), Family::Name("Inter"));
    assert_eq!(FamilyOwned::new(Family::Cursive), FamilyOwned::Cursive);
    assert_eq!(FamilyOwned::Fantasy.as_family(), Family::Fantasy);
}

#[test]
fn attrs_owned_round_trip() {
    let a = Attrs::new()
        .family(Family::Name("Inter"))
        .color(Color::rgba(1, 2, 3, 4))
        .metadata(77);
    let owned = AttrsOwned::new(a);
    assert_eq!(owned.family_owned, FamilyOwned::Name("Inter".to_string()));
    assert_eq!(owned.metadata, 77);
    assert_eq!(owned.as_attrs(), a);
    assert_eq!(owned.clone(), owned);
}
