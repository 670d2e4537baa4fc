use attricat_formula::config::FormulaConfig;
use attricat_formula::events::{
    command_kind, find_direct_value, is_entity_update, plan_recalculations, ChangedFact,
    CommandKind, DirectValueEntry,
};

fn config(target: &str, dependencies: &[&str]) -> FormulaConfig {
    FormulaConfig {
        target_attribute_id: target.into(),
        expression: "x".into(),
        dependencies: dependencies.iter().map(|d| d.to_string()).collect(),
    }
}

fn fact(attribute: &str, context: Option<&str>) -> ChangedFact {
    ChangedFact { attribute_id: attribute.into(), context_id: context.map(|c| c.to_string()) }
}

#[test]
fn only_entity_updates_are_handled() {
    assert!(is_entity_update("entity.updated.v1"));
    assert!(!is_entity_update("entity.created.v1"));
}

#[test]
fn commands_are_chosen_by_handler_name() {
    assert_eq!(command_kind("preview-formula"), Ok(CommandKind::PreviewFormula));
    assert_eq!(command_kind("recalculate-formulas"), Ok(CommandKind::RecalculateFormulas));
    assert_eq!(command_kind("other"), Err("unknown command handler".to_string()));
}

#[test]
fn recalculation_follows_changes_in_the_same_context() {
    let formulas = vec![config("gross", &["net", "vat"]), config("total", &["gross"]), config("tax", &["vat"])];
    let facts = vec![
        fact("vat", Some("de")),
        fact("net", None),
        fact("gross", Some("fr")),
        fact("net", Some("de")),
        fact("label", Some("it")),
    ];
    let plan = plan_recalculations(&facts, &formulas);
    assert_eq!(
        plan,
        vec![("de".to_string(), 0), ("de".to_string(), 2), ("fr".to_string(), 1)]
    );
    assert!(plan_recalculations(&vec![fact("net", None)], &formulas).is_empty());
}

#[test]
fn direct_values_skip_inactive_and_other_contexts() {
    let entry = |a: Option<&str>, c: Option<&str>, active: Option<bool>| DirectValueEntry {
        attribute_id: a.map(|s| s.to_string()),
        context_id: c.map(|s| s.to_string()),
        active,
    };
    let entries = vec![
        entry(Some("gross"), Some("fr"), None),
        entry(Some("gross"), Some("de"), Some(false)),
        entry(None, Some("de"), None),
        entry(Some("gross"), Some("de"), Some(true)),
        entry(Some("gross"), Some("de"), None),
    ];
    assert_eq!(find_direct_value(&entries, "gross", "de"), Some(3));
    assert_eq!(find_direct_value(&entries, "gross", "fr"), Some(0));
    assert_eq!(find_direct_value(&entries, "gross", "it"), None);
}
