//! Loading formula configurations from a blueprint definition. Formulas live in the
//! definition's `[extensions.attricat-extension-example.formulas]` table: each key is the
//! code of the target attribute and each value its expression.

use vstd::prelude::*;
use crate::config::{
    attribute_views, config_views, dependency_ids, find_by_code, ids_for_codes, is_numeric_type,
    last_with_code, last_with_id, lemma_last_with_code_bounds, quoted,
    require_numeric, Attribute, AttributeView, BlueprintWithAttributes, ConfigView, FormulaConfig,
};
use crate::cycles::{dependency_step, dependency_walk, has_dependency_cycle};
use crate::definition::{entry_views, table_at, toml_table_at};
use crate::formula::attribute_names;
use crate::rules::{
    checked_formula, durable, lemma_normalized_is_durable,
    lemma_normalized_prefix_entries, normalize_formulas, normalized, normalized_dependencies,
    normalized_entry, parse_checked, runtime_check, runtime_valid, targets,
};
use crate::text::sorted_texts;

verus! {

/// The configuration that one table entry describes: target code and expression text.
pub open spec fn formula_from_entry(
    attributes: Seq<AttributeView>,
    code: Seq<char>,
    value: Option<Seq<char>>,
) -> Result<ConfigView, Seq<char>> {
    match last_with_code(attributes, code) {
        None => Err("Unknown formula target `"@ + code + "`."@),
        Some(t) => if !is_numeric_type(attributes[t].value_type) {
            Err("Attribute `"@ + attributes[t].code + "` must be numeric."@)
        } else {
            match value {
                None => Err("Formula `"@ + code + "` must be a string."@),
                Some(expression) => match checked_formula(expression) {
                    Err(m) => Err(m),
                    Ok(e) => match ids_for_codes(attributes, sorted_texts(attribute_names(e))) {
                        Err(m) => Err(m),
                        Ok(ids) => Ok(
                            ConfigView { target: attributes[t].id, expression, dependencies: ids },
                        ),
                    },
                },
            }
        },
    }
}

/// The configurations of a table's entries, in order, or the first error.
pub open spec fn formulas_from_entries(
    attributes: Seq<AttributeView>,
    entries: Seq<(Seq<char>, Option<Seq<char>>)>,
) -> Result<Seq<ConfigView>, Seq<char>>
    decreases entries.len(),
{
    if entries.len() == 0 {
        Ok(Seq::empty())
    } else {
        match formulas_from_entries(attributes, entries.drop_last()) {
            Err(e) => Err(e),
            Ok(done) => match formula_from_entry(attributes, entries.last().0, entries.last().1) {
                Err(e) => Err(e),
                Ok(c) => Ok(done.push(c)),
            },
        }
    }
}

/// The normalised configurations of a formula table.
pub open spec fn loaded_from_table(
    attributes: Seq<AttributeView>,
    entries: Seq<(Seq<char>, Option<Seq<char>>)>,
) -> Result<Seq<ConfigView>, Seq<char>> {
    match formulas_from_entries(attributes, entries) {
        Err(e) => Err(e),
        Ok(fs) => normalized(fs),
    }
}

/// The normalised configurations of a blueprint, read from its definition.
pub open spec fn loaded_formulas(attributes: Seq<AttributeView>, definition: Seq<char>) -> Result<Seq<ConfigView>, Seq<char>> {
    match toml_table_at(definition, "extensions"@, "attricat-extension-example"@, "formulas"@) {
        Err(m) => Err("invalid blueprint definition: "@ + m),
        Ok(None) => Ok(Seq::empty()),
        Ok(Some(entries)) => loaded_from_table(attributes, entries),
    }
}

/// Law: formulas loaded from a blueprint are in durable form (distinct targets, sorted
/// non-blank dependencies without self-reference, parsable expressions, no cycle).
pub proof fn lemma_loaded_is_durable(attributes: Seq<AttributeView>, definition: Seq<char>)
    requires
        loaded_formulas(attributes, definition) is Ok,
    ensures
        durable(loaded_formulas(attributes, definition)->Ok_0),
{
    match toml_table_at(definition, "extensions"@, "attricat-extension-example"@, "formulas"@) {
        Ok(Some(entries)) => {
            lemma_normalized_is_durable(formulas_from_entries(attributes, entries)->Ok_0);
        },
        _ => {
            assert(has_dependency_cycle(Seq::<ConfigView>::empty()) == false) by {
                if has_dependency_cycle(Seq::<ConfigView>::empty()) {
                    let p = choose|p: Seq<int>|
                        p.len() >= 2 && p[0] == p[p.len() - 1] && #[trigger] dependency_walk(
                            Seq::<ConfigView>::empty(),
                            p,
                        );
                    assert(dependency_step(Seq::<ConfigView>::empty(), p, 0));
                }
            }
        },
    }
}

pub proof fn lemma_entries_prefix_error(
    attributes: Seq<AttributeView>,
    entries: Seq<(Seq<char>, Option<Seq<char>>)>,
    j: int,
)
    requires
        0 <= j <= entries.len(),
        formulas_from_entries(attributes, entries.take(j)) is Err,
    ensures
        formulas_from_entries(attributes, entries) == formulas_from_entries(attributes, entries.take(j)),
    decreases entries.len() - j,
{
    if j == entries.len() {
        assert(entries.take(j) =~= entries);
    } else {
        assert(entries.take(j + 1).drop_last() =~= entries.take(j));
        lemma_entries_prefix_error(attributes, entries, j + 1);
    }
}

/// Builds and normalises the configurations of a formula table's entries.
pub fn formulas_from_table(entries: &Vec<(String, Option<String>)>, attributes: &Vec<Attribute>) -> (r: Result<Vec<FormulaConfig>, String>)
    ensures
        match loaded_from_table(attribute_views(attributes@), entry_views(entries@)) {
            Ok(n) => r matches Ok(v) && config_views(v@) == n,
            Err(m) => r matches Err(e) && e@ == m,
        },
{
    let ghost attrs = attribute_views(attributes@);
    let ghost all = entry_views(entries@);
    let mut configs: Vec<FormulaConfig> = Vec::new();
    let mut k: usize = 0;
    assert(all.take(0) =~= Seq::<(Seq<char>, Option<Seq<char>>)>::empty());
    assert(config_views(configs@) =~= Seq::<ConfigView>::empty());
    while k < entries.len()
        invariant
            attrs == attribute_views(attributes@),
            all == entry_views(entries@),
            k <= entries.len(),
            formulas_from_entries(attrs, all.take(k as int)) == Ok::<Seq<ConfigView>, Seq<char>>(
                config_views(configs@),
            ),
        decreases entries.len() - k,
    {
        let code = &entries[k].0;
        let value = &entries[k].1;
        let ghost entry = all[k as int];
        proof {
            assert(all.take(k + 1).drop_last() =~= all.take(k as int));
            assert(all.take(k + 1).last() == entry);
            lemma_last_with_code_bounds(attrs, code@);
        }
        let failure: Option<String> = match find_by_code(attributes, code.as_str()) {
            None => Some(quoted("Unknown formula target `", code.as_str(), "`.")),
            Some(t) => match require_numeric(&attributes[t]) {
                Err(e) => Some(e),
                Ok(()) => match value {
                    None => Some(quoted("Formula `", code.as_str(), "` must be a string.")),
                    Some(expression) => match parse_checked(expression.as_str()) {
                        Err(e) => Some(e),
                        Ok(formula) => {
                            let codes = formula.dependencies();
                            match dependency_ids(attributes, &codes) {
                                Err(e) => Some(e),
                                Ok(dependencies) => {
                                    let ghost before = config_views(configs@);
                                    configs.push(
                                        FormulaConfig {
                                            target_attribute_id: attributes[t].id.clone(),
                                            expression: expression.clone(),
                                            dependencies,
                                        },
                                    );
                                    assert(config_views(configs@) =~= before.push(
                                        formula_from_entry(attrs, entry.0, entry.1)->Ok_0,
                                    ));
                                    None
                                },
                            }
                        },
                    },
                },
            },
        };
        match failure {
            Some(e) => {
                proof {
                    lemma_entries_prefix_error(attrs, all, k + 1);
                }
                return Err(e);
            },
            None => {},
        }
        k = k + 1;
    }
    proof {
        assert(all.take(k as int) =~= all);
    }
    normalize_formulas(configs)
}

/// Reads the formulas of a blueprint from its definition: none when the definition has
/// no formula table, otherwise the normalised configurations of the table's entries.
pub fn load_formulas(blueprint: &BlueprintWithAttributes) -> (r: Result<Vec<FormulaConfig>, String>)
    ensures
        match loaded_formulas(attribute_views(blueprint.attributes@), blueprint.blueprint.definition@) {
            Ok(n) => r matches Ok(v) && config_views(v@) == n,
            Err(m) => r matches Err(e) && e@ == m,
        },
{
    let table = table_at(
        blueprint.blueprint.definition.as_str(),
        "extensions",
        "attricat-extension-example",
        "formulas",
    );
    match table {
        Err(e) => {
            let mut text = String::from_str("invalid blueprint definition: ");
            text.append(e.as_str());
            Err(text)
        },
        Ok(None) => {
            let configs: Vec<FormulaConfig> = Vec::new();
            assert(config_views(configs@) =~= Seq::<ConfigView>::empty());
            Ok(configs)
        },
        Ok(Some(entries)) => formulas_from_table(&entries, &blueprint.attributes),
    }
}


/// No two attributes share an ID.
pub open spec fn ids_distinct(attributes: Seq<AttributeView>) -> bool {
    forall|i: int, j: int|
        0 <= i < j < attributes.len() ==> #[trigger] attributes[i].id != #[trigger] attributes[j].id
}

pub proof fn lemma_entries_elements(
    attributes: Seq<AttributeView>,
    entries: Seq<(Seq<char>, Option<Seq<char>>)>,
)
    requires
        formulas_from_entries(attributes, entries) is Ok,
    ensures
        ({
            let fs = formulas_from_entries(attributes, entries)->Ok_0;
            &&& fs.len() == entries.len()
            &&& forall|k: int|
                #![trigger fs[k]]
                0 <= k < entries.len() ==> formula_from_entry(attributes, entries[k].0, entries[k].1)
                    == Ok::<ConfigView, Seq<char>>(fs[k])
        }),
    decreases entries.len(),
{
    if entries.len() > 0 {
        lemma_entries_elements(attributes, entries.drop_last());
        let fs = formulas_from_entries(attributes, entries)->Ok_0;
        let front = formulas_from_entries(attributes, entries.drop_last())->Ok_0;
        assert forall|k: int| #![trigger fs[k]] 0 <= k < entries.len() implies formula_from_entry(
            attributes,
            entries[k].0,
            entries[k].1,
        ) == Ok::<ConfigView, Seq<char>>(fs[k]) by {
            if k < entries.len() - 1 {
                assert(entries.drop_last()[k] == entries[k]);
                assert(front[k] == fs[k]);
            }
        }
    }
}

pub proof fn lemma_runtime_valid_all(attributes: Seq<AttributeView>, fs: Seq<ConfigView>)
    requires
        forall|k: int| 0 <= k < fs.len() ==> #[trigger] runtime_check(attributes, fs[k]) is Ok,
    ensures
        runtime_valid(attributes, fs) is Ok,
    decreases fs.len(),
{
    if fs.len() > 0 {
        assert forall|k: int| 0 <= k < fs.drop_last().len() implies #[trigger] runtime_check(
            attributes,
            fs.drop_last()[k],
        ) is Ok by {
            assert(fs.drop_last()[k] == fs[k]);
        }
        lemma_runtime_valid_all(attributes, fs.drop_last());
        assert(runtime_check(attributes, fs[fs.len() - 1]) is Ok);
    }
}

pub proof fn lemma_last_with_id_unique(attributes: Seq<AttributeView>, t: int)
    requires
        0 <= t < attributes.len(),
        forall|i: int, j: int|
            0 <= i < j < attributes.len() ==> #[trigger] attributes[i].id != #[trigger] attributes[j].id,
    ensures
        last_with_id(attributes, attributes[t].id) == Some(t),
    decreases attributes.len(),
{
    if t < attributes.len() - 1 {
        assert(attributes[t].id != attributes[attributes.len() - 1].id);
        lemma_last_with_id_unique(attributes.drop_last(), t);
        assert(attributes.drop_last()[t] == attributes[t]);
    }
}

/// Law: formulas loaded from a blueprint pass the execution-time check against the same
/// blueprint, provided no two of its attributes share an ID (the check finds a target by
/// its ID, loading by its code).
pub proof fn lemma_loaded_formulas_pass_runtime_check(attributes: Seq<AttributeView>, definition: Seq<char>)
    requires
        ids_distinct(attributes),
        loaded_formulas(attributes, definition) is Ok,
    ensures
        runtime_valid(attributes, loaded_formulas(attributes, definition)->Ok_0) is Ok,
{
    let n = loaded_formulas(attributes, definition)->Ok_0;
    match toml_table_at(definition, "extensions"@, "attricat-extension-example"@, "formulas"@) {
        Ok(Some(entries)) => {
            lemma_entries_elements(attributes, entries);
            let fs = formulas_from_entries(attributes, entries)->Ok_0;
            lemma_normalized_prefix_entries(fs);
            assert forall|k: int| 0 <= k < n.len() implies #[trigger] runtime_check(attributes, n[k]) is Ok by {
                let f = fs[k];
                assert(formula_from_entry(attributes, entries[k].0, entries[k].1) == Ok::<
                    ConfigView,
                    Seq<char>,
                >(f));
                assert(normalized_entry(targets(fs.take(k)), fs[k]) == Ok::<ConfigView, Seq<char>>(
                    n[k],
                ));
                let t = last_with_code(attributes, entries[k].0)->0;
                lemma_last_with_code_bounds(attributes, entries[k].0);
                let e = checked_formula(f.expression)->Ok_0;
                assert(f.dependencies == ids_for_codes(attributes, sorted_texts(attribute_names(e)))->Ok_0);
                lemma_last_with_id_unique(attributes, t);
                assert(n[k].dependencies == normalized_dependencies(f.dependencies));
            }
            lemma_runtime_valid_all(attributes, n);
        },
        _ => {
            lemma_runtime_valid_all(attributes, n);
        },
    }
}

} // verus!
