use bevy::ecs::entity::Entity;
use bevy_mod_opacity::apply_opacity_query;
use bevy_mod_opacity::calculate_opacity;
use bevy_mod_opacity::interpolate;
use bevy_mod_opacity::Alpha;
use bevy_mod_opacity::ExtendedMaterial;
use bevy_mod_opacity::MeshMaterial;
use bevy_mod_opacity::Node;
use bevy_mod_opacity::Opacity;
use bevy_mod_opacity::OpacityAsset;
use bevy_mod_opacity::OpacityMap;
use bevy_mod_opacity::OpacityMaterialExtension;
use bevy_mod_opacity::OpacityQuery;
use bevy_mod_opacity::PlainExtension;
use bevy_mod_opacity::UiColorQuery;
use bevy_mod_opacity::UiOpacity;
use bevy_mod_opacity::UNIT;

const HALF: i64 = UNIT / 2;
const QUARTER: i64 = UNIT / 4;

fn entity(index: u32) -> Entity {
    Entity::from_raw(index)
}

fn table() -> OpacityMap {
    let nodes = vec![
        Node { entity: entity(1), opacity: Some(HALF), children: vec![entity(2)] },
        Node { entity: entity(2), opacity: Some(HALF), children: Vec::new() },
    ];
    let mut map = OpacityMap::new();
    calculate_opacity(&mut map, &nodes);
    map
}

fn ui(selector: UiOpacity) -> UiColorQuery {
    UiColorQuery { ui_color: selector, background: Alpha(7), border: Alpha(9) }
}

#[test]
fn alpha_takes_the_opacity() {
    let mut alpha = Alpha(UNIT);
    alpha.set_alpha(5);
    assert_eq!(alpha, Alpha(5));
    OpacityAsset::apply_opacity(&mut alpha, QUARTER);
    assert_eq!(alpha, Alpha(QUARTER));
    <Alpha as OpacityQuery>::apply_opacity(&mut alpha, &mut (), HALF);
    assert_eq!(alpha.0, HALF);
}

#[test]
fn driver_writes_the_entries_of_the_table() {
    let map = table();
    let mut query = vec![(entity(1), Alpha(UNIT)), (entity(2), Alpha(UNIT))];
    apply_opacity_query(&map, &mut (), &mut query);
    assert_eq!(query, vec![(entity(1), Alpha(HALF)), (entity(2), Alpha(QUARTER))]);
}

#[test]
fn driver_leaves_nodes_without_an_entry_alone() {
    let map = table();
    let mut query = vec![
        (entity(5), Alpha(11)),
        (entity(2), Alpha(12)),
        (entity(6), Alpha(13)),
        (entity(1), Alpha(14)),
        (entity(2), Alpha(15)),
    ];
    apply_opacity_query(&map, &mut (), &mut query);
    assert_eq!(
        query,
        vec![
            (entity(5), Alpha(11)),
            (entity(2), Alpha(QUARTER)),
            (entity(6), Alpha(13)),
            (entity(1), Alpha(HALF)),
            (entity(2), Alpha(QUARTER)),
        ]
    );
}

#[test]
fn driver_with_an_empty_table_or_no_attributes() {
    let empty = OpacityMap::new();
    let mut query = vec![(entity(1), Alpha(3))];
    apply_opacity_query(&empty, &mut (), &mut query);
    assert_eq!(query, vec![(entity(1), Alpha(3))]);
    let mut none: Vec<(Entity, Alpha)> = Vec::new();
    apply_opacity_query(&table(), &mut (), &mut none);
    assert!(none.is_empty());
}

#[test]
fn driver_twice_is_driver_once() {
    let map = table();
    let mut query = vec![
        (entity(1), ui(UiOpacity::Both)),
        (entity(2), ui(UiOpacity::Border)),
        (entity(3), ui(UiOpacity::Both)),
        (entity(2), ui(UiOpacity::Neither)),
    ];
    apply_opacity_query(&map, &mut (), &mut query);
    let once = query.clone();
    apply_opacity_query(&map, &mut (), &mut query);
    assert_eq!(query, once);
    assert_eq!(once[0].1, UiColorQuery { ui_color: UiOpacity::Both, background: Alpha(HALF), border: Alpha(HALF) });
    assert_eq!(once[1].1, UiColorQuery { ui_color: UiOpacity::Border, background: Alpha(7), border: Alpha(QUARTER) });
    assert_eq!(once[2].1, ui(UiOpacity::Both));
    assert_eq!(once[3].1, ui(UiOpacity::Neither));
}

struct Watched {
    seen: i64,
}

impl OpacityQuery for Watched {
    type Cx = i64;

    type CxModel = i64;

    fn model(cx: i64) -> i64 {
        cx
    }

    fn applied(self, cx: i64, opacity: i64) -> (Watched, i64) {
        (Watched { seen: opacity }, cx.max(opacity))
    }

    fn lemma_applied_twice(self, _cx: i64, _opacity: i64) {
    }

    fn lemma_attribute_ignores_context(self, _cx: i64, _other: i64, _opacity: i64) {
    }

    fn lemma_context_taken_again(self, _before: i64, _cx: i64, _opacity: i64) {
    }

    fn lemma_context_overwritten(self, _opacity: i64, _other: Watched, _between: i64, _cx: i64) {
    }

    fn apply_opacity(this: &mut Watched, cx: &mut i64, opacity: i64) {
        this.seen = opacity;
        *cx = (*cx).max(opacity);
    }
}

#[test]
fn driver_hands_the_shared_context_to_each_attribute() {
    let map = table();
    let mut highest: i64 = 0;
    let mut query = vec![
        (entity(2), Watched { seen: 0 }),
        (entity(9), Watched { seen: 0 }),
        (entity(1), Watched { seen: 0 }),
        (entity(2), Watched { seen: 0 }),
    ];
    apply_opacity_query(&map, &mut highest, &mut query);
    assert_eq!(highest, HALF);
    assert_eq!(query[0].1.seen, QUARTER);
    assert_eq!(query[1].1.seen, 0);
    assert_eq!(query[2].1.seen, HALF);
    assert_eq!(query[3].1.seen, QUARTER);
    let mut low: i64 = UNIT;
    apply_opacity_query(&map, &mut low, &mut query);
    assert_eq!(low, UNIT);
}

#[test]
fn selector_says_what_the_opacity_controls() {
    assert!(!UiOpacity::Neither.controls_border() && !UiOpacity::Neither.controls_background());
    assert!(UiOpacity::Border.controls_border() && !UiOpacity::Border.controls_background());
    assert!(!UiOpacity::Background.controls_border() && UiOpacity::Background.controls_background());
    assert!(UiOpacity::Both.controls_border() && UiOpacity::Both.controls_background());
    assert_eq!(UiOpacity::default(), UiOpacity::Neither);
}

#[test]
fn interface_colours_follow_the_selector() {
    let mut neither = ui(UiOpacity::Neither);
    UiColorQuery::apply_opacity(&mut neither, &mut (), QUARTER);
    assert_eq!(neither, ui(UiOpacity::Neither));
    let mut border = ui(UiOpacity::Border);
    UiColorQuery::apply_opacity(&mut border, &mut (), QUARTER);
    assert_eq!(border, UiColorQuery { ui_color: UiOpacity::Border, background: Alpha(7), border: Alpha(QUARTER) });
    let mut background = ui(UiOpacity::Background);
    UiColorQuery::apply_opacity(&mut background, &mut (), QUARTER);
    assert_eq!(
        background,
        UiColorQuery { ui_color: UiOpacity::Background, background: Alpha(QUARTER), border: Alpha(9) }
    );
    let mut both = ui(UiOpacity::Both);
    UiColorQuery::apply_opacity(&mut both, &mut (), QUARTER);
    assert_eq!(both, UiColorQuery { ui_color: UiOpacity::Both, background: Alpha(QUARTER), border: Alpha(QUARTER) });
}

#[test]
fn applying_twice_is_applying_once() {
    for selector in [UiOpacity::Neither, UiOpacity::Border, UiOpacity::Background, UiOpacity::Both] {
        let mut colours = ui(selector);
        UiColorQuery::apply_opacity(&mut colours, &mut (), HALF);
        let once = colours;
        UiColorQuery::apply_opacity(&mut colours, &mut (), HALF);
        assert_eq!(colours, once);
    }
    let mut material = ExtendedMaterial { base: Alpha(UNIT), extension: PlainExtension };
    material.apply_opacity(HALF);
    material.apply_opacity(HALF);
    assert_eq!(material.base, Alpha(HALF));
}

#[test]
fn plain_extension_hands_the_opacity_to_the_base() {
    let mut material = ExtendedMaterial { base: Alpha(UNIT), extension: PlainExtension };
    material.apply_opacity(QUARTER);
    assert_eq!(material.base, Alpha(QUARTER));
    let mut base = Alpha(1);
    let mut extension = PlainExtension;
    <PlainExtension as OpacityMaterialExtension<Alpha>>::apply_opacity(&mut base, &mut extension, HALF);
    assert_eq!(base, Alpha(HALF));
}

#[test]
fn extended_material_nests() {
    let inner = ExtendedMaterial { base: Alpha(UNIT), extension: PlainExtension };
    let mut outer = ExtendedMaterial { base: inner, extension: PlainExtension };
    outer.apply_opacity(QUARTER);
    assert_eq!(outer.base.base, Alpha(QUARTER));
}

struct Tinted {
    strength: i64,
}

impl OpacityMaterialExtension<Alpha> for Tinted {
    fn extended(_base: Alpha, _extension: Tinted, opacity: i64) -> (Alpha, Tinted) {
        (Alpha(opacity), Tinted { strength: opacity / 2 })
    }

    fn lemma_extended_twice(_base: Alpha, _extension: Tinted, _opacity: i64) {
    }

    fn lemma_extended_over(_base: Alpha, _extension: Tinted, _opacity: i64, _between: i64) {
    }

    fn apply_opacity(a: &mut Alpha, b: &mut Tinted, opacity: i64) {
        a.set_alpha(opacity);
        b.strength = opacity / 2;
    }
}

#[test]
fn extension_of_ones_own_takes_the_opacity_with_the_base() {
    let mut material = ExtendedMaterial { base: Alpha(0), extension: Tinted { strength: 0 } };
    material.apply_opacity(HALF);
    assert_eq!(material.base, Alpha(HALF));
    assert_eq!(material.extension.strength, QUARTER);
}

#[test]
fn material_in_a_store_takes_the_opacity() {
    let map = table();
    let mut store = vec![Some(Alpha(UNIT)), None, Some(Alpha(UNIT)), Some(Alpha(UNIT))];
    let mut query = vec![
        (entity(1), MeshMaterial::new(0)),
        (entity(2), MeshMaterial::new(2)),
        (entity(3), MeshMaterial::new(3)),
    ];
    apply_opacity_query(&map, &mut store, &mut query);
    assert_eq!(store, vec![Some(Alpha(HALF)), None, Some(Alpha(QUARTER)), Some(Alpha(UNIT))]);
    assert_eq!(query[0].1.id, 0);
    assert_eq!(query[1].1.id, 2);
}

#[test]
fn material_that_the_store_lacks_is_passed_over() {
    let map = table();
    let mut store = vec![Some(Alpha(UNIT)), None];
    let mut query = vec![
        (entity(1), MeshMaterial::new(1)),
        (entity(2), MeshMaterial::new(7)),
        (entity(1), MeshMaterial::new(usize::MAX)),
    ];
    apply_opacity_query(&map, &mut store, &mut query);
    assert_eq!(store, vec![Some(Alpha(UNIT)), None]);
    let mut empty: Vec<Option<Alpha>> = Vec::new();
    apply_opacity_query(&map, &mut empty, &mut query);
    assert!(empty.is_empty());
}

#[test]
fn material_shared_by_two_nodes_keeps_the_later_value() {
    let map = table();
    let mut store = vec![Some(Alpha(UNIT))];
    let mut query = vec![(entity(1), MeshMaterial::new(0)), (entity(2), MeshMaterial::new(0))];
    apply_opacity_query(&map, &mut store, &mut query);
    assert_eq!(store, vec![Some(Alpha(QUARTER))]);
    apply_opacity_query(&map, &mut store, &mut query);
    assert_eq!(store, vec![Some(Alpha(QUARTER))]);
}

#[test]
fn second_pass_over_a_shared_store_changes_nothing() {
    let map = table();
    let mut store = vec![Some(Alpha(UNIT)), Some(Alpha(UNIT)), None, Some(Alpha(7))];
    let mut query = vec![
        (entity(2), MeshMaterial::new(0)),
        (entity(1), MeshMaterial::new(1)),
        (entity(1), MeshMaterial::new(0)),
        (entity(9), MeshMaterial::new(3)),
        (entity(2), MeshMaterial::new(1)),
        (entity(2), MeshMaterial::new(2)),
    ];
    apply_opacity_query(&map, &mut store, &mut query);
    let once = store.clone();
    assert_eq!(once, vec![Some(Alpha(HALF)), Some(Alpha(QUARTER)), None, Some(Alpha(7))]);
    apply_opacity_query(&map, &mut store, &mut query);
    assert_eq!(store, once);
    let mut highest: i64 = 0;
    let mut watched = vec![(entity(2), Watched { seen: 0 }), (entity(1), Watched { seen: 0 })];
    apply_opacity_query(&map, &mut highest, &mut watched);
    let seen: Vec<i64> = watched.iter().map(|item| item.1.seen).collect();
    apply_opacity_query(&map, &mut highest, &mut watched);
    assert_eq!(highest, HALF);
    assert_eq!(watched.iter().map(|item| item.1.seen).collect::<Vec<i64>>(), seen);
}

#[test]
fn extended_material_in_a_store() {
    let map = table();
    let mut store = vec![Some(ExtendedMaterial { base: Alpha(UNIT), extension: PlainExtension })];
    let mut query = vec![(entity(2), MeshMaterial::new(0))];
    apply_opacity_query(&map, &mut store, &mut query);
    assert_eq!(store[0].as_ref().map(|material| material.base), Some(Alpha(QUARTER)));
}

#[test]
fn frame_from_values_to_alpha() {
    let root = entity(1);
    let child = entity(2);
    let mut values = vec![(root, Opacity::new(HALF)), (child, Opacity::new(0).and_fade_in(10))];
    values[1].1.interpolate_to(HALF, 10);
    let requests = interpolate(&mut values, 1_000_000);
    assert!(requests.is_empty());
    assert_eq!(values[1].1, Opacity::new(HALF));
    let nodes = vec![
        Node { entity: root, opacity: Some(values[0].1.get()), children: vec![child] },
        Node { entity: child, opacity: Some(values[1].1.get()), children: Vec::new() },
    ];
    let mut map = OpacityMap::new();
    calculate_opacity(&mut map, &nodes);
    assert_eq!(map.get(child), Some(QUARTER));
    let mut sprites = vec![(child, Alpha(UNIT))];
    apply_opacity_query(&map, &mut (), &mut sprites);
    assert_eq!(sprites[0].1, Alpha(QUARTER));
    assert_eq!(sprites[0].1.0, 1_073_741_824);
}

#[test]
fn frame_with_a_fade_out_that_ends() {
    let node = entity(4);
    let mut opacity = Opacity::new(UNIT);
    opacity.fade_out(2);
    assert!(opacity.is_despawning());
    let mut values = vec![(node, opacity)];
    let requests = interpolate(&mut values, 2);
    assert_eq!(requests, vec![node]);
    assert_eq!(values[0].1.get(), 0);
}
