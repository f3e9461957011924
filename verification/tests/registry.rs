use drill_core::error::RegistryError;
use drill_core::registry::Registry;
use drill_core::theme::{
    standard_20_layout, CurriculumSafetyPolicy, DedupPolicy, GeneratorRevision, SchoolGrade, ThemeAnswerContract,
    ThemeId, ThemePresentationPolicy, ThemeRegistration, ThemeRegistrationSpec,
};

fn registration(theme: u32, revision: u32) -> ThemeRegistration {
    ThemeRegistration::new(ThemeRegistrationSpec {
        numeric_theme_id: ThemeId::new(theme),
        generator_revision: GeneratorRevision::new(revision),
        skill_id: "skill",
        curriculum_path: &["path"],
        grade: Some(SchoolGrade::Elementary1),
        tags: &[],
        safety: CurriculumSafetyPolicy::NonNegativeOnly,
        presentation: ThemePresentationPolicy::standard(),
        dedup: DedupPolicy::PreserveOperandOrder,
        answer_contract: ThemeAnswerContract::AdditionInteger,
        layout: standard_20_layout(),
    })
}

#[test]
fn registry_lists_themes_in_id_order_and_finds_them() {
    let registry = Registry::build(vec![registration(7, 2), registration(3, 1), registration(5, 4)]).unwrap();
    let ids: Vec<u32> = registry.active_registrations().iter().map(|r| r.numeric_theme_id()).collect();
    assert_eq!(ids, vec![3, 5, 7]);
    assert_eq!(registry.active_registration(5).map(|r| r.generator_revision()), Some(4));
    assert!(registry.active_registration(4).is_none());
    assert_eq!(registry.registration(7, 2).map(|r| r.numeric_theme_id()), Some(7));
    assert!(registry.registration(7, 1).is_none());
}

#[test]
fn registry_refuses_a_theme_registered_twice() {
    let result = Registry::build(vec![registration(3, 1), registration(9, 1), registration(3, 2), registration(9, 2)]);
    assert_eq!(result.err(), Some(RegistryError::DuplicateThemeId { numeric_theme_id: 3 }));
}

#[test]
fn registry_builder_rejects_duplicate_current_theme_ids() {
    let duplicate = registration(1, 1);
    assert_eq!(
        Registry::build(vec![duplicate, duplicate]).err(),
        Some(RegistryError::DuplicateThemeId { numeric_theme_id: duplicate.numeric_theme_id() })
    );
}
