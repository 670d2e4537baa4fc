//! The rules that formula configurations obey: normalisation of the stored form, and the
//! check, at execution time, that a configuration still matches its blueprint.

use vstd::prelude::*;
use crate::config::{
    attribute_views, config_views, ids_for_codes, is_numeric_type, last_with_id,
    lemma_ids_elements, lemma_last_with_id_bounds, lemma_numeric_lookup, lemma_numeric_types, last_with_code, numeric_lookup, AttributeView, BlueprintWithAttributes, ConfigView, FormulaConfig,
    dependency_ids, find_by_id, quoted, require_numeric,
};
use crate::cycles::{has_dependency_cycle, reject_cycles};
use crate::formula::{attribute_names, issue_text, lemma_sorted_names, parse_formula, Expr, Formula, SyntaxIssue};
use crate::text::{
    blank, byte_offset, decimal_text, insert_sorted, is_blank, lemma_sorted_listing,
    lemma_sorted_texts, same_text, sorted_texts, strictly_sorted, texts,
};

verus! {

/// The text of a syntax error in `s` (what the error's `message` gives).
pub open spec fn syntax_error_text(s: Seq<char>, at: int, issue: SyntaxIssue) -> Seq<char> {
    "Invalid formula at character "@ + decimal_text(byte_offset(s, at)) + ": "@ + issue_text(issue)
}

/// The expression read as a formula, or the text of its syntax error.
pub open spec fn checked_formula(s: Seq<char>) -> Result<Expr, Seq<char>> {
    match parse_formula(s) {
        Ok(e) => Ok(e),
        Err((at, issue)) => Err(syntax_error_text(s, at, issue)),
    }
}

/// Parses an expression; a syntax error becomes its message.
pub fn parse_checked(expression: &str) -> (r: Result<Formula, String>)
    ensures
        match checked_formula(expression@) {
            Ok(e) => r matches Ok(f) && f@ == e,
            Err(m) => r matches Err(x) && x@ == m,
        },
{
    match Formula::parse(expression) {
        Ok(formula) => Ok(formula),
        Err(error) => Err(error.message()),
    }
}

/// Whether `item` is among the texts of `list`.
pub fn contains_text(list: &Vec<String>, item: &str) -> (r: bool)
    ensures
        r == texts(list@).contains(item@),
{
    let mut k: usize = 0;
    while k < list.len()
        invariant
            k <= list.len(),
            forall|j: int| 0 <= j < k ==> list@[j]@ != item@,
        decreases list.len() - k,
    {
        if same_text(list[k].as_str(), item) {
            assert(texts(list@)[k as int] == item@);
            return true;
        }
        k = k + 1;
    }
    proof {
        if texts(list@).contains(item@) {
            let j = choose|j: int| 0 <= j < texts(list@).len() && texts(list@)[j] == item@;
            assert(list@[j]@ == item@);
        }
    }
    false
}

/// Whether two lists hold the same texts in the same order.
pub fn same_texts(a: &Vec<String>, b: &Vec<String>) -> (r: bool)
    ensures
        r == (texts(a@) == texts(b@)),
{
    if a.len() != b.len() {
        assert(texts(a@).len() != texts(b@).len());
        return false;
    }
    let mut k: usize = 0;
    while k < a.len()
        invariant
            a.len() == b.len(),
            k <= a.len(),
            forall|j: int| 0 <= j < k ==> a@[j]@ == b@[j]@,
        decreases a.len() - k,
    {
        if !same_text(a[k].as_str(), b[k].as_str()) {
            assert(texts(a@)[k as int] != texts(b@)[k as int]);
            return false;
        }
        k = k + 1;
    }
    assert(texts(a@) =~= texts(b@));
    true
}

/// The dependency IDs that normalisation keeps: the non-blank ones.
pub open spec fn kept_dependencies(dependencies: Seq<Seq<char>>) -> Set<Seq<char>> {
    Set::new(|d: Seq<char>| dependencies.contains(d) && !is_blank(d))
}

/// Normalised dependency IDs: non-blank, each once, in lexicographic order.
pub open spec fn normalized_dependencies(dependencies: Seq<Seq<char>>) -> Seq<Seq<char>> {
    sorted_texts(kept_dependencies(dependencies))
}

/// Drops blank IDs, sorts the rest and removes repetitions.
pub fn normalize_dependencies(dependencies: &Vec<String>) -> (r: Vec<String>)
    ensures
        strictly_sorted(texts(r@)),
        texts(r@) == normalized_dependencies(texts(dependencies@)),
{
    let ghost all = texts(dependencies@);
    let mut kept: Vec<String> = Vec::new();
    let mut k: usize = 0;
    assert(texts(kept@).to_set() =~= Set::new(|d: Seq<char>| all.take(0).contains(d) && !is_blank(d)));
    while k < dependencies.len()
        invariant
            all == texts(dependencies@),
            k <= dependencies.len(),
            strictly_sorted(texts(kept@)),
            texts(kept@).to_set() == Set::new(|d: Seq<char>| all.take(k as int).contains(d) && !is_blank(d)),
        decreases dependencies.len() - k,
    {
        let ghost before = texts(kept@).to_set();
        if !blank(dependencies[k].as_str()) {
            insert_sorted(&mut kept, dependencies[k].clone());
        }
        proof {
            let t0 = all.take(k as int);
            let t1 = all.take(k + 1);
            let next = Set::new(|d: Seq<char>| t1.contains(d) && !is_blank(d));
            assert forall|d: Seq<char>| texts(kept@).to_set().contains(d) <==> next.contains(d) by {
                if t1.contains(d) {
                    let j = choose|j: int| 0 <= j < t1.len() && t1[j] == d;
                    if j < k {
                        assert(t0[j] == d);
                    }
                }
                if t0.contains(d) {
                    let j = choose|j: int| 0 <= j < t0.len() && t0[j] == d;
                    assert(t1[j] == d);
                }
                assert(t1[k as int] == all[k as int]);
            }
            assert(texts(kept@).to_set() =~= next);
        }
        k = k + 1;
    }
    proof {
        assert(all.take(k as int) =~= all);
        assert(texts(kept@).to_set() =~= kept_dependencies(all));
        lemma_sorted_texts(texts(kept@));
    }
    kept
}

/// One configuration after normalisation, given the targets of the configurations before it.
pub open spec fn normalized_entry(seen: Seq<Seq<char>>, f: ConfigView) -> Result<ConfigView, Seq<char>> {
    if is_blank(f.target) {
        Err("Formula target attribute ID is required."@)
    } else if seen.contains(f.target) {
        Err("Attribute `"@ + f.target + "` has more than one formula."@)
    } else {
        match checked_formula(f.expression) {
            Err(m) => Err(m),
            Ok(_) => {
                let dependencies = normalized_dependencies(f.dependencies);
                if dependencies.contains(f.target) {
                    Err("A formula cannot depend on its target attribute."@)
                } else {
                    Ok(ConfigView { target: f.target, expression: f.expression, dependencies })
                }
            },
        }
    }
}

pub open spec fn targets(fs: Seq<ConfigView>) -> Seq<Seq<char>> {
    fs.map_values(|c: ConfigView| c.target)
}

/// The configurations normalised one by one, or the first error.
pub open spec fn normalized_prefix(fs: Seq<ConfigView>) -> Result<Seq<ConfigView>, Seq<char>>
    decreases fs.len(),
{
    if fs.len() == 0 {
        Ok(Seq::empty())
    } else {
        match normalized_prefix(fs.drop_last()) {
            Err(e) => Err(e),
            Ok(done) => match normalized_entry(targets(fs.drop_last()), fs.last()) {
                Err(e) => Err(e),
                Ok(c) => Ok(done.push(c)),
            },
        }
    }
}

/// The durable form of a list of configurations, or the reason it is rejected.
pub open spec fn normalized(fs: Seq<ConfigView>) -> Result<Seq<ConfigView>, Seq<char>> {
    match normalized_prefix(fs) {
        Err(e) => Err(e),
        Ok(n) => if has_dependency_cycle(n) {
            Err("Formula dependencies contain a cycle."@)
        } else {
            Ok(n)
        },
    }
}

/// Configurations in durable form: targets are non-blank and distinct; expressions parse;
/// each dependency list is non-blank IDs, each once, in lexicographic order, without the
/// formula's own target; and no formula depends on itself through others.
pub open spec fn durable(n: Seq<ConfigView>) -> bool {
    &&& forall|i: int| 0 <= i < n.len() ==> !is_blank(#[trigger] n[i].target)
    &&& forall|i: int, j: int| 0 <= i < j < n.len() ==> #[trigger] n[i].target != #[trigger] n[j].target
    &&& forall|i: int| 0 <= i < n.len() ==> #[trigger] checked_formula(n[i].expression) is Ok
    &&& forall|i: int| 0 <= i < n.len() ==> strictly_sorted(#[trigger] n[i].dependencies)
    &&& forall|i: int, d: int|
        0 <= i < n.len() && 0 <= d < n[i].dependencies.len() ==> !is_blank(
            #[trigger] n[i].dependencies[d],
        )
    &&& forall|i: int| 0 <= i < n.len() ==> !(#[trigger] n[i].dependencies).contains(n[i].target)
    &&& !has_dependency_cycle(n)
}

pub proof fn lemma_normalized_dependencies(dependencies: Seq<Seq<char>>)
    ensures
        strictly_sorted(normalized_dependencies(dependencies)),
        normalized_dependencies(dependencies).to_set() == kept_dependencies(dependencies),
{
    let keep = |d: Seq<char>| !is_blank(d);
    lemma_sorted_listing(dependencies, keep);
    assert(kept_dependencies(dependencies) =~= Set::new(
        |d: Seq<char>| dependencies.contains(d) && keep(d),
    ));
}

/// What normalising keeps of each configuration, when it succeeds.
pub proof fn lemma_normalized_prefix_entries(fs: Seq<ConfigView>)
    requires
        normalized_prefix(fs) is Ok,
    ensures
        ({
            let n = normalized_prefix(fs)->Ok_0;
            &&& n.len() == fs.len()
            &&& forall|k: int|
                0 <= k < n.len() ==> #[trigger] normalized_entry(targets(fs.take(k)), fs[k]) == Ok::<
                    ConfigView,
                    Seq<char>,
                >(n[k])
        }),
    decreases fs.len(),
{
    if fs.len() > 0 {
        let front = fs.drop_last();
        lemma_normalized_prefix_entries(front);
        let n = normalized_prefix(fs)->Ok_0;
        assert forall|k: int| 0 <= k < n.len() implies #[trigger] normalized_entry(
            targets(fs.take(k)),
            fs[k],
        ) == Ok::<ConfigView, Seq<char>>(n[k]) by {
            if k < front.len() {
                assert(fs.take(k) =~= front.take(k));
                assert(normalized_entry(targets(front.take(k)), front[k]) == Ok::<
                    ConfigView,
                    Seq<char>,
                >(normalized_prefix(front)->Ok_0[k]));
            } else {
                assert(fs.take(k) =~= front);
            }
        }
    }
}

/// Law: a successful normalisation yields configurations in durable form.
pub proof fn lemma_normalized_is_durable(fs: Seq<ConfigView>)
    requires
        normalized(fs) is Ok,
    ensures
        durable(normalized(fs)->Ok_0),
{
    let n = normalized(fs)->Ok_0;
    lemma_normalized_prefix_entries(fs);
    assert forall|i: int| #![trigger n[i]] 0 <= i < n.len() implies {
        &&& !is_blank(n[i].target)
        &&& checked_formula(n[i].expression) is Ok
        &&& strictly_sorted(n[i].dependencies)
        &&& !n[i].dependencies.contains(n[i].target)
        &&& forall|d: int| 0 <= d < n[i].dependencies.len() ==> !is_blank(#[trigger] n[i].dependencies[d])
        &&& !targets(fs.take(i)).contains(n[i].target)
    } by {
        assert(normalized_entry(targets(fs.take(i)), fs[i]) == Ok::<ConfigView, Seq<char>>(n[i]));
        lemma_normalized_dependencies(fs[i].dependencies);
        assert forall|d: int| 0 <= d < n[i].dependencies.len() implies !is_blank(
            #[trigger] n[i].dependencies[d],
        ) by {
            assert(n[i].dependencies.to_set().contains(n[i].dependencies[d]));
        }
    }
    assert forall|i: int, j: int| 0 <= i < j < n.len() implies #[trigger] n[i].target
        != #[trigger] n[j].target by {
        assert(normalized_entry(targets(fs.take(i)), fs[i]) == Ok::<ConfigView, Seq<char>>(n[i]));
        assert(targets(fs.take(j))[i] == fs[i].target);
        assert(!targets(fs.take(j)).contains(n[j].target));
    }
    assert(!has_dependency_cycle(n));
}

/// Law: configurations in durable form are left as they are by normalisation.
pub proof fn lemma_durable_is_normalized(n: Seq<ConfigView>)
    requires
        durable(n),
    ensures
        normalized(n) == Ok::<Seq<ConfigView>, Seq<char>>(n),
{
    lemma_durable_prefix(n, n.len() as int);
    assert(n.take(n.len() as int) =~= n);
}

proof fn lemma_durable_prefix(n: Seq<ConfigView>, k: int)
    requires
        durable(n),
        0 <= k <= n.len(),
    ensures
        normalized_prefix(n.take(k)) == Ok::<Seq<ConfigView>, Seq<char>>(n.take(k)),
    decreases k,
{
    if k == 0 {
        assert(n.take(0) =~= Seq::<ConfigView>::empty());
    } else {
        lemma_durable_prefix(n, k - 1);
        let f = n[k - 1];
        assert(n.take(k).drop_last() =~= n.take(k - 1));
        assert(n.take(k).last() == f);
        let seen = targets(n.take(k - 1));
        assert(!seen.contains(f.target)) by {
            if seen.contains(f.target) {
                let j = choose|j: int| 0 <= j < seen.len() && seen[j] == f.target;
                assert(n[j].target != n[k - 1].target);
            }
        }
        assert(checked_formula(f.expression) is Ok);
        assert(kept_dependencies(f.dependencies) =~= f.dependencies.to_set()) by {
            assert forall|d: Seq<char>| f.dependencies.to_set().contains(d) implies !is_blank(d) by {
                let m = choose|m: int| 0 <= m < f.dependencies.len() && f.dependencies[m] == d;
                assert(!is_blank(n[k - 1].dependencies[m]));
            }
        }
        assert(strictly_sorted(n[k - 1].dependencies));
        lemma_sorted_texts(f.dependencies);
        assert(normalized_dependencies(f.dependencies) == f.dependencies);
        assert(!n[k - 1].dependencies.contains(n[k - 1].target));
        assert(normalized_entry(targets(n.take(k - 1)), f) == Ok::<ConfigView, Seq<char>>(f));
        assert(n.take(k - 1).push(f) =~= n.take(k));
    }
}

/// Law: normalising twice gives what normalising once gives.
pub proof fn lemma_normalize_idempotent(fs: Seq<ConfigView>)
    requires
        normalized(fs) is Ok,
    ensures
        normalized(normalized(fs)->Ok_0) == normalized(fs),
{
    lemma_normalized_is_durable(fs);
    lemma_durable_is_normalized(normalized(fs)->Ok_0);
}

pub proof fn lemma_normalized_prefix_error(fs: Seq<ConfigView>, j: int)
    requires
        0 <= j <= fs.len(),
        normalized_prefix(fs.take(j)) is Err,
    ensures
        normalized_prefix(fs) == normalized_prefix(fs.take(j)),
    decreases fs.len() - j,
{
    if j == fs.len() {
        assert(fs.take(j) =~= fs);
    } else {
        assert(fs.take(j + 1).drop_last() =~= fs.take(j));
        lemma_normalized_prefix_error(fs, j + 1);
    }
}

/// Normalises the durable representation of formula configurations and rejects
/// duplicate or blank targets, syntax errors, self-dependencies and dependency cycles.
pub fn normalize_formulas(formulas: Vec<FormulaConfig>) -> (r: Result<Vec<FormulaConfig>, String>)
    ensures
        match normalized(config_views(formulas@)) {
            Ok(n) => r matches Ok(v) && config_views(v@) == n,
            Err(m) => r matches Err(e) && e@ == m,
        },
{
    let ghost all = config_views(formulas@);
    let mut seen: Vec<String> = Vec::new();
    let mut out: Vec<FormulaConfig> = Vec::new();
    let mut k: usize = 0;
    assert(all.take(0) =~= Seq::<ConfigView>::empty());
    assert(config_views(out@) =~= Seq::<ConfigView>::empty());
    assert(texts(seen@) =~= targets(all.take(0)));
    while k < formulas.len()
        invariant
            all == config_views(formulas@),
            k <= formulas.len(),
            normalized_prefix(all.take(k as int)) == Ok::<Seq<ConfigView>, Seq<char>>(
                config_views(out@),
            ),
            texts(seen@) == targets(all.take(k as int)),
        decreases formulas.len() - k,
    {
        let formula = &formulas[k];
        let ghost f = all[k as int];
        proof {
            assert(all.take(k + 1).drop_last() =~= all.take(k as int));
            assert(all.take(k + 1).last() == f);
        }
        let failure: Option<String> = if blank(formula.target_attribute_id.as_str()) {
            Some(String::from_str("Formula target attribute ID is required."))
        } else if contains_text(&seen, formula.target_attribute_id.as_str()) {
            Some(
                quoted(
                    "Attribute `",
                    formula.target_attribute_id.as_str(),
                    "` has more than one formula.",
                ),
            )
        } else {
            match parse_checked(formula.expression.as_str()) {
                Err(e) => Some(e),
                Ok(_) => {
                    let dependencies = normalize_dependencies(&formula.dependencies);
                    if contains_text(&dependencies, formula.target_attribute_id.as_str()) {
                        Some(String::from_str("A formula cannot depend on its target attribute."))
                    } else {
                        let ghost before = config_views(out@);
                        out.push(
                            FormulaConfig {
                                target_attribute_id: formula.target_attribute_id.clone(),
                                expression: formula.expression.clone(),
                                dependencies,
                            },
                        );
                        assert(config_views(out@) =~= before.push(
                            normalized_entry(targets(all.take(k as int)), f)->Ok_0,
                        ));
                        None
                    }
                },
            }
        };
        match failure {
            Some(e) => {
                proof {
                    lemma_normalized_prefix_error(all, k + 1);
                    assert(all.take(formulas.len() as int) =~= all);
                }
                return Err(e);
            },
            None => {},
        }
        let ghost seen_before = texts(seen@);
        seen.push(formula.target_attribute_id.clone());
        proof {
            assert(texts(seen@) =~= seen_before.push(f.target));
            assert(targets(all.take(k + 1)) =~= targets(all.take(k as int)).push(f.target));
        }
        k = k + 1;
    }
    proof {
        assert(all.take(k as int) =~= all);
    }
    match reject_cycles(out.as_slice()) {
        Ok(()) => Ok(out),
        Err(e) => Err(e),
    }
}

/// The check of one configuration against a blueprint's attributes at execution time.
pub open spec fn runtime_check(attributes: Seq<AttributeView>, f: ConfigView) -> Result<(), Seq<char>> {
    match last_with_id(attributes, f.target) {
        None => Err("Unknown target attribute `"@ + f.target + "`."@),
        Some(t) => if !is_numeric_type(attributes[t].value_type) {
            Err("Attribute `"@ + attributes[t].code + "` must be numeric."@)
        } else {
            match checked_formula(f.expression) {
                Err(m) => Err(m),
                Ok(e) => match ids_for_codes(attributes, sorted_texts(attribute_names(e))) {
                    Err(m) => Err(m),
                    Ok(ids) => if f.dependencies == normalized_dependencies(ids) {
                        Ok(())
                    } else {
                        Err("Formula dependencies for `"@ + f.target
                            + "` do not match its expression."@)
                    },
                },
            }
        },
    }
}

/// The first configuration, in order, that fails its check.
pub open spec fn runtime_valid(attributes: Seq<AttributeView>, fs: Seq<ConfigView>) -> Result<(), Seq<char>>
    decreases fs.len(),
{
    if fs.len() == 0 {
        Ok(())
    } else {
        match runtime_valid(attributes, fs.drop_last()) {
            Err(e) => Err(e),
            Ok(_) => runtime_check(attributes, fs.last()),
        }
    }
}

pub proof fn lemma_runtime_valid_error(attributes: Seq<AttributeView>, fs: Seq<ConfigView>, j: int)
    requires
        0 <= j <= fs.len(),
        runtime_valid(attributes, fs.take(j)) is Err,
    ensures
        runtime_valid(attributes, fs) == runtime_valid(attributes, fs.take(j)),
    decreases fs.len() - j,
{
    if j == fs.len() {
        assert(fs.take(j) =~= fs);
    } else {
        assert(fs.take(j + 1).drop_last() =~= fs.take(j));
        lemma_runtime_valid_error(attributes, fs, j + 1);
    }
}

pub proof fn lemma_runtime_valid_each(attributes: Seq<AttributeView>, fs: Seq<ConfigView>, k: int)
    requires
        runtime_valid(attributes, fs) is Ok,
        0 <= k < fs.len(),
    ensures
        runtime_check(attributes, fs[k]) is Ok,
    decreases fs.len(),
{
    if k < fs.len() - 1 {
        lemma_runtime_valid_each(attributes, fs.drop_last(), k);
        assert(fs.drop_last()[k] == fs[k]);
    }
}

/// Law: configurations that pass the execution-time check are sound for the blueprint:
/// each target is an attribute of type `number` or `integer`; each expression parses; each
/// attribute code it names refers to an attribute of type `number` or `integer`, whose ID
/// (when not blank) is among the stored dependencies; and every stored dependency is the ID
/// of such an attribute.
pub proof fn lemma_runtime_valid_sound(attributes: Seq<AttributeView>, fs: Seq<ConfigView>, k: int)
    requires
        runtime_valid(attributes, fs) is Ok,
        0 <= k < fs.len(),
    ensures
        last_with_id(attributes, fs[k].target) matches Some(t) && 0 <= t < attributes.len()
            && attributes[t].id == fs[k].target && (attributes[t].value_type == "number"@
            || attributes[t].value_type == "integer"@),
        checked_formula(fs[k].expression) is Ok,
        forall|x: Seq<char>|
            #[trigger] attribute_names(checked_formula(fs[k].expression)->Ok_0).contains(x)
                ==> (last_with_code(attributes, x) matches Some(a) && 0 <= a < attributes.len()
                && attributes[a].code == x && (attributes[a].value_type == "number"@
                || attributes[a].value_type == "integer"@) && (!is_blank(attributes[a].id)
                ==> fs[k].dependencies.contains(attributes[a].id))),
        forall|d: Seq<char>|
            #[trigger] fs[k].dependencies.contains(d) ==> exists|x: Seq<char>|
                #[trigger] attribute_names(checked_formula(fs[k].expression)->Ok_0).contains(x)
                    && (last_with_code(attributes, x) matches Some(a) && attributes[a].id == d),
{
    lemma_runtime_valid_each(attributes, fs, k);
    let f = fs[k];
    lemma_last_with_id_bounds(attributes, f.target);
    lemma_numeric_types(attributes[last_with_id(attributes, f.target)->0].value_type);
    let e = checked_formula(f.expression)->Ok_0;
    let codes = sorted_texts(attribute_names(e));
    lemma_sorted_names(e);
    let ids = ids_for_codes(attributes, codes)->Ok_0;
    assert(f.dependencies == normalized_dependencies(ids));
    lemma_normalized_dependencies(ids);
    assert forall|x: Seq<char>| #[trigger] attribute_names(e).contains(x) implies (last_with_code(
        attributes,
        x,
    ) matches Some(a) && 0 <= a < attributes.len() && attributes[a].code == x && (
    attributes[a].value_type == "number"@ || attributes[a].value_type == "integer"@) && (!is_blank(
        attributes[a].id,
    ) ==> f.dependencies.contains(attributes[a].id))) by {
        assert(codes.to_set().contains(x));
        let m = choose|m: int| 0 <= m < codes.len() && codes[m] == x;
        lemma_ids_elements(attributes, codes, m);
        lemma_numeric_lookup(attributes, x);
        let a = numeric_lookup(attributes, x)->Ok_0;
        lemma_numeric_types(attributes[a].value_type);
        assert(ids[m] == attributes[a].id);
        if !is_blank(attributes[a].id) {
            assert(ids.contains(attributes[a].id));
            assert(kept_dependencies(ids).contains(attributes[a].id));
            assert(f.dependencies.to_set().contains(attributes[a].id));
        }
    }
    assert forall|d: Seq<char>| #[trigger] f.dependencies.contains(d) implies exists|x: Seq<char>|
        #[trigger] attribute_names(e).contains(x) && (last_with_code(attributes, x) matches Some(a)
            && attributes[a].id == d) by {
        assert(f.dependencies.to_set().contains(d));
        assert(kept_dependencies(ids).contains(d));
        let m = choose|m: int| 0 <= m < ids.len() && ids[m] == d;
        if codes.len() == 0 {
            assert(ids.len() == 0);
        }
        lemma_ids_elements(attributes, codes, 0);
        lemma_ids_elements(attributes, codes, m);
        lemma_numeric_lookup(attributes, codes[m]);
        assert(codes.to_set().contains(codes[m]));
        assert(attribute_names(e).contains(codes[m]));
    }
}

/// Checks that each configuration's target is a numeric attribute of the blueprint, that
/// its expression parses, and that its stored dependencies are exactly the IDs of the
/// numeric attributes its expression names, in their normalised form (non-blank, each
/// once, sorted), which is how loading stores them.
pub fn validate_runtime_formulas(formulas: &[FormulaConfig], blueprint: &BlueprintWithAttributes) -> (r: Result<(), String>)
    ensures
        match runtime_valid(attribute_views(blueprint.attributes@), config_views(formulas@)) {
            Ok(_) => r is Ok,
            Err(m) => r matches Err(e) && e@ == m,
        },
{
    let ghost attributes = attribute_views(blueprint.attributes@);
    let ghost all = config_views(formulas@);
    let mut k: usize = 0;
    assert(all.take(0) =~= Seq::<ConfigView>::empty());
    while k < formulas.len()
        invariant
            attributes == attribute_views(blueprint.attributes@),
            all == config_views(formulas@),
            k <= formulas@.len(),
            runtime_valid(attributes, all.take(k as int)) is Ok,
        decreases formulas@.len() - k,
    {
        let config = &formulas[k];
        let ghost f = all[k as int];
        proof {
            assert(all.take(k + 1).drop_last() =~= all.take(k as int));
            assert(all.take(k + 1).last() == f);
            lemma_last_with_id_bounds(attributes, f.target);
        }
        let failure: Option<String> = match find_by_id(
            &blueprint.attributes,
            config.target_attribute_id.as_str(),
        ) {
            None => Some(
                quoted("Unknown target attribute `", config.target_attribute_id.as_str(), "`."),
            ),
            Some(t) => match require_numeric(&blueprint.attributes[t]) {
                Err(e) => Some(e),
                Ok(()) => match parse_checked(config.expression.as_str()) {
                    Err(e) => Some(e),
                    Ok(formula) => {
                        let codes = formula.dependencies();
                        match dependency_ids(&blueprint.attributes, &codes) {
                            Err(e) => Some(e),
                            Ok(expected) => {
                                let expected = normalize_dependencies(&expected);
                                if same_texts(&config.dependencies, &expected) {
                                    None
                                } else {
                                    Some(
                                        quoted(
                                            "Formula dependencies for `",
                                            config.target_attribute_id.as_str(),
                                            "` do not match its expression.",
                                        ),
                                    )
                                }
                            },
                        }
                    },
                },
            },
        };
        match failure {
            Some(e) => {
                proof {
                    lemma_runtime_valid_error(attributes, all, k + 1);
                }
                return Err(e);
            },
            None => {},
        }
        k = k + 1;
    }
    proof {
        assert(all.take(k as int) =~= all);
    }
    Ok(())
}

} // verus!
