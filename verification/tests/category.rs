use modeling_daily_activity::category::{ActivityCategory, MAX_CODE};

#[test]
fn compact_code_round_trip() {
    for c in 0u8..=20u8 {
        let cat = ActivityCategory::from_code(c).expect("codes 0..=20 are all mapped");
        assert_eq!(cat.into_code(), c);
        let again = ActivityCategory::from_code(cat.into_code()).unwrap();
        assert_eq!(again.into_code(), c);
    }
}

#[test]
fn compact_codes_are_dense_and_sentinel_is_max() {
    assert_eq!(MAX_CODE, 20);
    assert_eq!(ActivityCategory::MissingData.into_code(), 20);
    for c in 21u8..=255u8 {
        assert!(ActivityCategory::from_code(c).is_none());
    }
    // injectivity over the enumeration plus the sentinel
    let mut seen = [false; 21];
    for cat in ActivityCategory::valid_iter() {
        let code = cat.into_code() as usize;
        assert!(code < 20);
        assert!(!seen[code]);
        seen[code] = true;
    }
    assert!(seen[..20].iter().all(|&s| s));
}

#[test]
fn valid_iter_excludes_sentinel() {
    let cats = ActivityCategory::valid_iter();
    assert_eq!(cats.len(), 20);
    for (i, cat) in cats.iter().enumerate() {
        assert_eq!(cat.into_code() as usize, i);
        assert!(!matches!(cat, ActivityCategory::MissingData));
    }
}

#[test]
fn raw_code_ranges() {
    assert!(matches!(
        ActivityCategory::from_original_code(10130),
        Some(ActivityCategory::Sleeping)
    ));
    // 100000 falls in the personal-care arm, which wins over services
    assert!(matches!(
        ActivityCategory::from_original_code(100000),
        Some(ActivityCategory::PersonalCare)
    ));
    assert!(matches!(
        ActivityCategory::from_original_code(100304),
        Some(ActivityCategory::Services)
    ));
    assert!(matches!(
        ActivityCategory::from_original_code(100200),
        Some(ActivityCategory::CivicDuties)
    ));
    assert!(matches!(
        ActivityCategory::from_original_code(130200),
        Some(ActivityCategory::Leisure)
    ));
    assert!(matches!(
        ActivityCategory::from_original_code(130400),
        Some(ActivityCategory::Exercise)
    ));
    assert!(matches!(
        ActivityCategory::from_original_code(500000),
        Some(ActivityCategory::MissingData)
    ));
    assert!(ActivityCategory::from_original_code(9999).is_none());
    assert!(ActivityCategory::from_original_code(170000).is_none());
    assert!(ActivityCategory::from_original_code(0).is_none());
}

#[test]
fn display_labels() {
    assert_eq!(ActivityCategory::Sleeping.into_str(), "Sleeping");
    assert_eq!(ActivityCategory::EatingDrinking.into_str(), "Eating and Drinking");
    assert_eq!(ActivityCategory::NonAthleticExtracurricular.into_str(), "Extracurricular");
    assert_eq!(ActivityCategory::MissingData.into_str(), "Missing Data");
}
