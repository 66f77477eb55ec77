use jagua_rs::collision_detection::hazard::{Hazard, HazardEntity};
use jagua_rs::collision_detection::hazard_filter::{
    get_irrelevant_hazard_entities, BinHazardFilter, CombinedHazardFilter, EntityHazardFilter,
    HazardFilter, NoHazardFilter, QZHazardFilter,
};
use jagua_rs::geometry::aa_rectangle::AARectangle;
use jagua_rs::geometry::shape::Shape;

fn unit_shape() -> Shape {
    Shape::from_rect(AARectangle::new(0, 0, 1, 1).unwrap())
}

#[test]
fn bin_filter_marks_everything_but_placed_items() {
    let f = BinHazardFilter;
    assert!(!f.is_irrelevant(&HazardEntity::PlacedItem(3)));
    assert!(f.is_irrelevant(&HazardEntity::BinExterior));
    assert!(f.is_irrelevant(&HazardEntity::BinHole { id: 0 }));
    assert!(f.is_irrelevant(&HazardEntity::QualityZoneInferior { quality: 2, id: 1 }));
}

#[test]
fn no_filter_marks_nothing() {
    let f = NoHazardFilter;
    assert!(!f.is_irrelevant(&HazardEntity::PlacedItem(3)));
    assert!(!f.is_irrelevant(&HazardEntity::BinExterior));
    assert!(!f.is_irrelevant(&HazardEntity::BinHole { id: 0 }));
    assert!(!f.is_irrelevant(&HazardEntity::QualityZoneInferior { quality: 2, id: 1 }));
}

#[test]
fn quality_filter_boundary_is_inclusive() {
    let f = QZHazardFilter { cutoff_quality: 5 };
    assert!(!f.is_irrelevant(&HazardEntity::QualityZoneInferior { quality: 4, id: 0 }));
    assert!(f.is_irrelevant(&HazardEntity::QualityZoneInferior { quality: 5, id: 0 }));
    assert!(f.is_irrelevant(&HazardEntity::QualityZoneInferior { quality: 6, id: 0 }));
    assert!(!f.is_irrelevant(&HazardEntity::BinExterior));
    assert!(!f.is_irrelevant(&HazardEntity::BinHole { id: 5 }));
    assert!(!f.is_irrelevant(&HazardEntity::PlacedItem(5)));
}

#[test]
fn entity_filter_marks_its_list_only() {
    let f = EntityHazardFilter::new();
    assert!(f.entities().is_empty());
    assert!(!f.is_irrelevant(&HazardEntity::BinExterior));
    let f = f.add(HazardEntity::PlacedItem(7)).add(HazardEntity::BinHole { id: 1 });
    assert!(f.is_irrelevant(&HazardEntity::PlacedItem(7)));
    assert!(f.is_irrelevant(&HazardEntity::BinHole { id: 1 }));
    assert!(!f.is_irrelevant(&HazardEntity::PlacedItem(8)));
    assert!(!f.is_irrelevant(&HazardEntity::BinHole { id: 7 }));
    assert!(f.is_relevant(&HazardEntity::BinExterior));
    assert!(!f.is_relevant(&HazardEntity::PlacedItem(7)));
    assert_eq!(
        f.entities(),
        &vec![HazardEntity::PlacedItem(7), HazardEntity::BinHole { id: 1 }]
    );
    assert_eq!(
        f.drain(),
        vec![HazardEntity::PlacedItem(7), HazardEntity::BinHole { id: 1 }]
    );
}

#[test]
fn combined_filter_is_the_union() {
    let bin = BinHazardFilter;
    let own = EntityHazardFilter::new().add(HazardEntity::PlacedItem(1));
    let empty = CombinedHazardFilter { filters: vec![] };
    assert!(!empty.is_irrelevant(&HazardEntity::BinExterior));
    let both = CombinedHazardFilter { filters: vec![Box::new(&bin), Box::new(&own)] };
    assert!(both.is_irrelevant(&HazardEntity::BinExterior));
    assert!(both.is_irrelevant(&HazardEntity::PlacedItem(1)));
    assert!(!both.is_irrelevant(&HazardEntity::PlacedItem(2)));
}

#[test]
fn irrelevant_entities_are_listed_in_order() {
    let hazards = vec![
        Hazard::new(HazardEntity::PlacedItem(4), unit_shape()),
        Hazard::new(HazardEntity::BinHole { id: 2 }, unit_shape()),
        Hazard::new(HazardEntity::QualityZoneInferior { quality: 3, id: 0 }, unit_shape()),
        Hazard::new(HazardEntity::BinExterior, unit_shape()),
        Hazard::new(HazardEntity::QualityZoneInferior { quality: 1, id: 1 }, unit_shape()),
    ];
    assert_eq!(
        get_irrelevant_hazard_entities(&BinHazardFilter, &hazards),
        vec![
            HazardEntity::BinHole { id: 2 },
            HazardEntity::QualityZoneInferior { quality: 3, id: 0 },
            HazardEntity::BinExterior,
            HazardEntity::QualityZoneInferior { quality: 1, id: 1 },
        ]
    );
    assert_eq!(
        get_irrelevant_hazard_entities(&QZHazardFilter { cutoff_quality: 2 }, &hazards),
        vec![HazardEntity::QualityZoneInferior { quality: 3, id: 0 }]
    );
    assert_eq!(
        get_irrelevant_hazard_entities(&EntityHazardFilter::new(), &hazards),
        Vec::<HazardEntity>::new()
    );
    assert_eq!(
        get_irrelevant_hazard_entities(&BinHazardFilter, &[]),
        Vec::<HazardEntity>::new()
    );
}
