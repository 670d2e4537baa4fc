use attricat_formula::config::{
    dependency_ids, numeric_attribute, require_numeric, Attribute, Blueprint,
    BlueprintWithAttributes, FormulaConfig,
};
use attricat_formula::cycles::{has_cycle, reject_cycles};
use attricat_formula::loading::{formulas_from_table, load_formulas};
use attricat_formula::rules::{normalize_formulas, validate_runtime_formulas};

fn formula(target: &str, dependencies: &[&str]) -> FormulaConfig {
    FormulaConfig {
        target_attribute_id: target.into(),
        expression: "source + 1".into(),
        dependencies: dependencies.iter().map(|value| (*value).into()).collect(),
    }
}

fn attribute(id: &str, code: &str, value_type: &str) -> Attribute {
    Attribute { id: id.into(), code: code.into(), value_type: value_type.into() }
}

fn blueprint(definition: &str, attributes: Vec<Attribute>) -> BlueprintWithAttributes {
    BlueprintWithAttributes { blueprint: Blueprint { definition: definition.into() }, attributes }
}

#[test]
fn normalizes_dependency_ids_and_rejects_duplicate_targets() {
    let normalized =
        normalize_formulas(vec![formula("target", &["second", "first", "second"])]).unwrap();
    assert_eq!(normalized[0].dependencies, ["first", "second"]);
    assert!(normalize_formulas(vec![formula("target", &[]), formula("target", &[])]).is_err());
}

#[test]
fn rejects_transitive_cycles() {
    let mut first = formula("first", &["second"]);
    first.expression = "source".into();
    let mut second = formula("second", &["third"]);
    second.expression = "source".into();
    let mut third = formula("third", &["first"]);
    third.expression = "source".into();
    assert!(normalize_formulas(vec![first, second, third]).is_err());
}

#[test]
fn loads_formulas_from_namespaced_blueprint_toml() {
    let blueprint = BlueprintWithAttributes {
        blueprint: Blueprint {
            definition: r#"
[extensions.attricat-extension-example.formulas]
gross = "net * 1.23"
"#
            .into(),
        },
        attributes: vec![
            Attribute { id: "gross-id".into(), code: "gross".into(), value_type: "number".into() },
            Attribute { id: "net-id".into(), code: "net".into(), value_type: "number".into() },
        ],
    };
    let formulas = load_formulas(&blueprint).unwrap();
    assert_eq!(formulas.len(), 1);
    assert_eq!(formulas[0].target_attribute_id, "gross-id");
    assert_eq!(formulas[0].dependencies, ["net-id"]);
}

#[test]
fn runtime_validation_maps_codes_to_stable_ids_and_requires_numeric_attributes() {
    let blueprint = BlueprintWithAttributes {
        blueprint: Blueprint { definition: "".into() },
        attributes: vec![
            Attribute { id: "target".into(), code: "gross".into(), value_type: "number".into() },
            Attribute { id: "source".into(), code: "source".into(), value_type: "number".into() },
        ],
    };
    assert!(validate_runtime_formulas(&[formula("target", &["source"])], &blueprint).is_ok());
    assert!(validate_runtime_formulas(&[formula("target", &["wrong"])], &blueprint).is_err());
}

#[test]
fn normalization_messages_name_each_rejection() {
    assert_eq!(
        normalize_formulas(vec![formula("  ", &[])]).unwrap_err(),
        "Formula target attribute ID is required."
    );
    assert_eq!(
        normalize_formulas(vec![formula("a", &[]), formula("a", &[])]).unwrap_err(),
        "Attribute `a` has more than one formula."
    );
    assert_eq!(
        normalize_formulas(vec![formula("a", &["b", "a"])]).unwrap_err(),
        "A formula cannot depend on its target attribute."
    );
    let mut broken = formula("a", &[]);
    broken.expression = "1 +".into();
    assert_eq!(
        normalize_formulas(vec![broken]).unwrap_err(),
        "Invalid formula at character 3: expected a number, attribute reference, or `(`"
    );
    assert_eq!(
        normalize_formulas(vec![formula("a", &["b"]), formula("b", &["a"])]).unwrap_err(),
        "Formula dependencies contain a cycle."
    );
}

#[test]
fn normalization_drops_blank_dependencies_and_keeps_order_of_formulas() {
    let normalized =
        normalize_formulas(vec![formula("z", &[" ", "y", "", "x", "y"]), formula("a", &["z"])])
            .unwrap();
    assert_eq!(normalized.len(), 2);
    assert_eq!(normalized[0].target_attribute_id, "z");
    assert_eq!(normalized[0].dependencies, ["x", "y"]);
    assert_eq!(normalized[1].target_attribute_id, "a");
    assert_eq!(normalized[1].dependencies, ["z"]);
}

#[test]
fn normalizing_twice_changes_nothing() {
    let once = normalize_formulas(vec![formula("t", &["b", "a", "b", " "]), formula("u", &["t"])])
        .unwrap();
    let twice = normalize_formulas(once.clone()).unwrap();
    assert_eq!(once.len(), twice.len());
    for (a, b) in once.iter().zip(twice.iter()) {
        assert_eq!(a.target_attribute_id, b.target_attribute_id);
        assert_eq!(a.expression, b.expression);
        assert_eq!(a.dependencies, b.dependencies);
    }
}

#[test]
fn cycles_are_found_only_through_existing_targets() {
    assert!(reject_cycles(&[formula("a", &["b"]), formula("b", &["c"])]).is_ok());
    assert!(reject_cycles(&[formula("a", &["a"])]).is_err());
    assert!(reject_cycles(&[formula("a", &["b"]), formula("b", &["c"]), formula("c", &["b"])])
        .is_err());
    // A later formula for the same target replaces the earlier one.
    assert!(reject_cycles(&[formula("a", &["b"]), formula("b", &["a"]), formula("b", &[])]).is_ok());
    assert!(reject_cycles(&[]).is_ok());
}

#[test]
fn numeric_attributes_are_looked_up_by_code() {
    let attributes = vec![
        attribute("id-1", "net", "number"),
        attribute("id-2", "name", "text"),
        attribute("id-3", "count", "integer"),
        attribute("id-4", "net", "integer"),
    ];
    assert_eq!(numeric_attribute(&attributes, "count"), Ok(2));
    assert_eq!(numeric_attribute(&attributes, "net"), Ok(3));
    assert_eq!(
        numeric_attribute(&attributes, "name"),
        Err("Attribute `name` must be numeric.".to_string())
    );
    assert_eq!(numeric_attribute(&attributes, "nope"), Err("Unknown attribute `nope`.".to_string()));
    assert!(require_numeric(&attributes[0]).is_ok());
    assert_eq!(
        require_numeric(&attributes[1]),
        Err("Attribute `name` must be numeric.".to_string())
    );
    let codes = vec!["net".to_string(), "count".to_string()];
    assert_eq!(dependency_ids(&attributes, &codes).unwrap(), ["id-4", "id-3"]);
    let codes = vec!["net".to_string(), "name".to_string(), "nope".to_string()];
    assert_eq!(
        dependency_ids(&attributes, &codes),
        Err("Attribute `name` must be numeric.".to_string())
    );
}

#[test]
fn loading_reports_bad_definitions_and_entries() {
    let attributes = vec![attribute("g", "gross", "number"), attribute("n", "net", "number")];
    let empty = load_formulas(&blueprint("[other]\nkey = 1\n", attributes.clone())).unwrap();
    assert!(empty.is_empty());
    let error = load_formulas(&blueprint("[extensions\n", attributes.clone())).unwrap_err();
    assert!(error.starts_with("invalid blueprint definition: "));
    let not_text = "[extensions.attricat-extension-example.formulas]\ngross = 3\n";
    assert_eq!(
        load_formulas(&blueprint(not_text, attributes.clone())).unwrap_err(),
        "Formula `gross` must be a string."
    );
    let unknown = "[extensions.attricat-extension-example.formulas]\nmissing = \"net\"\n";
    assert_eq!(
        load_formulas(&blueprint(unknown, attributes.clone())).unwrap_err(),
        "Unknown formula target `missing`."
    );
    let unknown_input = "[extensions.attricat-extension-example.formulas]\ngross = \"other + 1\"\n";
    assert_eq!(
        load_formulas(&blueprint(unknown_input, attributes.clone())).unwrap_err(),
        "Unknown attribute `other`."
    );
    let table = vec![
        ("gross".to_string(), Some("net * 2".to_string())),
        ("net".to_string(), Some("gross / 2".to_string())),
    ];
    assert_eq!(
        formulas_from_table(&table, &attributes).unwrap_err(),
        "Formula dependencies contain a cycle."
    );
}

#[test]
fn runtime_validation_reports_each_mismatch() {
    let blueprint = blueprint(
        "",
        vec![
            attribute("target", "gross", "number"),
            attribute("source", "source", "number"),
            attribute("label", "label", "text"),
        ],
    );
    assert_eq!(
        validate_runtime_formulas(&[formula("missing", &["source"])], &blueprint),
        Err("Unknown target attribute `missing`.".to_string())
    );
    assert_eq!(
        validate_runtime_formulas(&[formula("label", &["source"])], &blueprint),
        Err("Attribute `label` must be numeric.".to_string())
    );
    assert_eq!(
        validate_runtime_formulas(&[formula("target", &["wrong"])], &blueprint),
        Err("Formula dependencies for `target` do not match its expression.".to_string())
    );
}

#[test]
fn loaded_formulas_pass_the_runtime_check_when_ids_follow_codes() {
    let attributes = vec![
        attribute("a-id", "gross", "number"),
        attribute("b-id", "net", "number"),
        attribute("c-id", "vat", "number"),
    ];
    let definition = "[extensions.attricat-extension-example.formulas]\ngross = \"net * (1 + vat)\"\n";
    let blueprint = blueprint(definition, attributes);
    let formulas = load_formulas(&blueprint).unwrap();
    assert_eq!(formulas[0].target_attribute_id, "a-id");
    assert_eq!(formulas[0].dependencies, ["b-id", "c-id"]);
    assert!(validate_runtime_formulas(&formulas, &blueprint).is_ok());
}

#[test]
fn loaded_formulas_pass_the_runtime_check_when_ids_are_ordered_unlike_codes() {
    let attributes = vec![
        attribute("g", "gross", "number"),
        attribute("z-id", "net", "number"),
        attribute("y-id", "vat", "number"),
    ];
    let definition = "[extensions.attricat-extension-example.formulas]\ngross = \"net * (1 + vat)\"\n";
    let blueprint = blueprint(definition, attributes);
    let formulas = load_formulas(&blueprint).unwrap();
    assert_eq!(formulas[0].dependencies, ["y-id", "z-id"]);
    assert_eq!(validate_runtime_formulas(&formulas, &blueprint), Ok(()));
}

#[test]
fn runtime_check_accepts_dependencies_only_in_normalised_form() {
    let blueprint = blueprint(
        "",
        vec![
            attribute("t", "t", "number"),
            attribute("z", "a", "number"),
            attribute("y", "b", "number"),
        ],
    );
    let mut config = formula("t", &["y", "z"]);
    config.expression = "a * b + a".into();
    assert_eq!(validate_runtime_formulas(&[config.clone()], &blueprint), Ok(()));
    config.dependencies = vec!["z".into(), "y".into()];
    assert_eq!(
        validate_runtime_formulas(&[config.clone()], &blueprint),
        Err("Formula dependencies for `t` do not match its expression.".to_string())
    );
    config.dependencies = vec!["y".into()];
    assert!(validate_runtime_formulas(&[config], &blueprint).is_err());
}

#[test]
fn runtime_check_finds_targets_by_id_so_shared_ids_can_fail_it() {
    let attributes = vec![
        attribute("x", "t", "number"),
        attribute("s-id", "s", "number"),
        attribute("x", "label", "text"),
    ];
    let definition = "[extensions.attricat-extension-example.formulas]\nt = \"s + 1\"\n";
    let blueprint = blueprint(definition, attributes);
    let formulas = load_formulas(&blueprint).unwrap();
    assert_eq!(formulas[0].target_attribute_id, "x");
    assert_eq!(
        validate_runtime_formulas(&formulas, &blueprint),
        Err("Attribute `label` must be numeric.".to_string())
    );
}

#[test]
fn table_entries_come_in_key_order() {
    let attributes = vec![
        attribute("a", "alpha", "number"),
        attribute("b", "beta", "number"),
        attribute("s", "source", "number"),
    ];
    let definition =
        "[extensions.attricat-extension-example.formulas]\nbeta = \"source\"\nalpha = \"source * 2\"\n";
    let formulas = load_formulas(&blueprint(definition, attributes)).unwrap();
    assert_eq!(formulas.len(), 2);
    assert_eq!(formulas[0].target_attribute_id, "a");
    assert_eq!(formulas[0].expression, "source * 2");
    assert_eq!(formulas[1].target_attribute_id, "b");
}

#[test]
fn depth_first_search_reports_cycles_reachable_from_its_start() {
    // 0 -> 1 -> 2 -> 1, and 3 on its own.
    let graph: Vec<Vec<usize>> = vec![vec![1], vec![2], vec![1], vec![]];
    let mut visiting = vec![false; 4];
    let mut visited = vec![false; 4];
    assert!(!has_cycle(3, &graph, &mut visiting, &mut visited));
    assert_eq!(visiting, [false; 4]);
    assert_eq!(visited, [false, false, false, true]);
    assert!(has_cycle(0, &graph, &mut visiting, &mut visited));
    assert_eq!(visiting, [false; 4]);
    assert!(visited[0]);
    // A node on the current path answers yes; a finished one answers no; neither changes.
    let mut visiting = vec![false, true, false, false];
    let mut visited = vec![false, false, false, true];
    assert!(has_cycle(1, &graph, &mut visiting, &mut visited));
    assert!(!has_cycle(3, &graph, &mut visiting, &mut visited));
    assert_eq!(visiting, [false, true, false, false]);
    assert_eq!(visited, [false, false, false, true]);
}
