//! Blueprint attributes and formula configurations, with the lookups that map attribute
//! codes to stable attribute IDs.
//!
//! A blueprint's attributes are looked up the way a map built from the list would answer:
//! when two attributes share a code (or an ID), the later one wins.

use vstd::prelude::*;
use crate::text::{same_text, texts};

verus! {

/// An attribute of a blueprint: its stable ID, its code as formulas write it, and its type.
#[derive(Debug, Clone)]
pub struct Attribute {
    pub id: String,
    pub code: String,
    pub value_type: String,
}

/// The immutable definition of a blueprint revision (TOML text).
#[derive(Debug, Clone)]
pub struct Blueprint {
    pub definition: String,
}

/// A blueprint revision with its attributes.
#[derive(Debug, Clone)]
pub struct BlueprintWithAttributes {
    pub blueprint: Blueprint,
    pub attributes: Vec<Attribute>,
}

/// The durable configuration of one formula: the attribute it computes, its expression,
/// and the IDs of the attributes it reads.
#[derive(Debug)]
pub struct FormulaConfig {
    pub target_attribute_id: String,
    pub expression: String,
    pub dependencies: Vec<String>,
}

pub struct AttributeView {
    pub id: Seq<char>,
    pub code: Seq<char>,
    pub value_type: Seq<char>,
}

pub struct ConfigView {
    pub target: Seq<char>,
    pub expression: Seq<char>,
    pub dependencies: Seq<Seq<char>>,
}

impl View for Attribute {
    type V = AttributeView;

    open spec fn view(&self) -> AttributeView {
        AttributeView { id: self.id@, code: self.code@, value_type: self.value_type@ }
    }
}

impl View for FormulaConfig {
    type V = ConfigView;

    open spec fn view(&self) -> ConfigView {
        ConfigView {
            target: self.target_attribute_id@,
            expression: self.expression@,
            dependencies: texts(self.dependencies@),
        }
    }
}

impl Clone for FormulaConfig {
    fn clone(&self) -> (r: Self)
        ensures
            r@ == self@,
    {
        let mut dependencies: Vec<String> = Vec::new();
        let mut k: usize = 0;
        while k < self.dependencies.len()
            invariant
                k <= self.dependencies.len(),
                texts(dependencies@) == texts(self.dependencies@).take(k as int),
            decreases self.dependencies.len() - k,
        {
            let ghost prev = texts(dependencies@);
            dependencies.push(self.dependencies[k].clone());
            assert(texts(dependencies@) =~= prev.push(self.dependencies@[k as int]@));
            k = k + 1;
            assert(texts(dependencies@) =~= texts(self.dependencies@).take(k as int));
        }
        assert(texts(self.dependencies@).take(k as int) =~= texts(self.dependencies@));
        FormulaConfig {
            target_attribute_id: self.target_attribute_id.clone(),
            expression: self.expression.clone(),
            dependencies,
        }
    }
}

pub open spec fn attribute_views(attributes: Seq<Attribute>) -> Seq<AttributeView> {
    attributes.map_values(|a: Attribute| a@)
}

pub open spec fn config_views(configs: Seq<FormulaConfig>) -> Seq<ConfigView> {
    configs.map_values(|c: FormulaConfig| c@)
}

/// Index of the last attribute with the given code.
pub open spec fn last_with_code(attributes: Seq<AttributeView>, code: Seq<char>) -> Option<int>
    decreases attributes.len(),
{
    if attributes.len() == 0 {
        None
    } else if attributes.last().code == code {
        Some(attributes.len() - 1)
    } else {
        last_with_code(attributes.drop_last(), code)
    }
}

/// Index of the last attribute with the given ID.
pub open spec fn last_with_id(attributes: Seq<AttributeView>, id: Seq<char>) -> Option<int>
    decreases attributes.len(),
{
    if attributes.len() == 0 {
        None
    } else if attributes.last().id == id {
        Some(attributes.len() - 1)
    } else {
        last_with_id(attributes.drop_last(), id)
    }
}

pub proof fn lemma_last_with_code_bounds(attributes: Seq<AttributeView>, code: Seq<char>)
    ensures
        last_with_code(attributes, code) matches Some(i) ==> 0 <= i < attributes.len()
            && attributes[i].code == code,
    decreases attributes.len(),
{
    if attributes.len() > 0 {
        lemma_last_with_code_bounds(attributes.drop_last(), code);
    }
}

pub proof fn lemma_last_with_id_bounds(attributes: Seq<AttributeView>, id: Seq<char>)
    ensures
        last_with_id(attributes, id) matches Some(i) ==> 0 <= i < attributes.len()
            && attributes[i].id == id,
    decreases attributes.len(),
{
    if attributes.len() > 0 {
        lemma_last_with_id_bounds(attributes.drop_last(), id);
    }
}

/// Index of the last attribute whose code is `code`.
pub fn find_by_code(attributes: &Vec<Attribute>, code: &str) -> (r: Option<usize>)
    ensures
        r == (match last_with_code(attribute_views(attributes@), code@) {
            Some(i) => Some(i as usize),
            None => None::<usize>,
        }),
        r matches Some(i) ==> i < attributes.len() && attributes@[i as int].code@ == code@,
{
    let ghost all = attribute_views(attributes@);
    let mut found: Option<usize> = None;
    let mut k: usize = 0;
    while k < attributes.len()
        invariant
            all == attribute_views(attributes@),
            k <= attributes.len(),
            found == (match last_with_code(all.take(k as int), code@) {
                Some(i) => Some(i as usize),
                None => None::<usize>,
            }),
        decreases attributes.len() - k,
    {
        proof {
            assert(all.take(k + 1).drop_last() =~= all.take(k as int));
        }
        if same_text(attributes[k].code.as_str(), code) {
            found = Some(k);
        }
        k = k + 1;
    }
    proof {
        assert(all.take(k as int) =~= all);
        lemma_last_with_code_bounds(all, code@);
    }
    found
}

/// Index of the last attribute whose ID is `id`.
pub fn find_by_id(attributes: &Vec<Attribute>, id: &str) -> (r: Option<usize>)
    ensures
        r == (match last_with_id(attribute_views(attributes@), id@) {
            Some(i) => Some(i as usize),
            None => None::<usize>,
        }),
        r matches Some(i) ==> i < attributes.len() && attributes@[i as int].id@ == id@,
{
    let ghost all = attribute_views(attributes@);
    let mut found: Option<usize> = None;
    let mut k: usize = 0;
    while k < attributes.len()
        invariant
            all == attribute_views(attributes@),
            k <= attributes.len(),
            found == (match last_with_id(all.take(k as int), id@) {
                Some(i) => Some(i as usize),
                None => None::<usize>,
            }),
        decreases attributes.len() - k,
    {
        proof {
            assert(all.take(k + 1).drop_last() =~= all.take(k as int));
        }
        if same_text(attributes[k].id.as_str(), id) {
            found = Some(k);
        }
        k = k + 1;
    }
    proof {
        assert(all.take(k as int) =~= all);
        lemma_last_with_id_bounds(all, id@);
    }
    found
}

/// `prefix + item + suffix`.
pub fn quoted(prefix: &str, item: &str, suffix: &str) -> (r: String)
    ensures
        r@ == prefix@ + item@ + suffix@,
{
    let mut text = String::from_str(prefix);
    text.append(item);
    text.append(suffix);
    text
}

/// Numeric attribute types.
pub open spec fn is_numeric_type(value_type: Seq<char>) -> bool {
    value_type == "number"@ || value_type == "integer"@
}

/// Law: exactly the types `number` and `integer` are numeric.
pub proof fn lemma_numeric_types(value_type: Seq<char>)
    ensures
        is_numeric_type(value_type) <==> (value_type == "number"@ || value_type == "integer"@),
        !is_numeric_type("text"@) && !is_numeric_type("boolean"@) && !is_numeric_type("date"@),
{
    reveal_strlit("number");
    reveal_strlit("integer");
    reveal_strlit("text");
    reveal_strlit("boolean");
    reveal_strlit("date");
    assert("text"@.len() != "number"@.len() && "text"@.len() != "integer"@.len());
    assert("date"@.len() != "number"@.len() && "date"@.len() != "integer"@.len());
    assert("boolean"@.len() != "number"@.len() && "boolean"@[0] != "integer"@[0]);
}

/// Law: a code refers to a numeric attribute exactly when the last attribute with that code
/// has type `number` or `integer`; the lookup answers with that attribute.
pub proof fn lemma_numeric_lookup(attributes: Seq<AttributeView>, code: Seq<char>)
    ensures
        numeric_lookup(attributes, code) is Ok <==> (last_with_code(attributes, code) matches Some(i)
            && (attributes[i].value_type == "number"@ || attributes[i].value_type == "integer"@)),
        numeric_lookup(attributes, code) matches Ok(i) ==> 0 <= i < attributes.len()
            && attributes[i].code == code && last_with_code(attributes, code) == Some(i),
{
    lemma_last_with_code_bounds(attributes, code);
}

/// Accepts an attribute whose type is `number` or `integer`.
pub fn require_numeric(attribute: &Attribute) -> (r: Result<(), String>)
    ensures
        r is Ok <==> is_numeric_type(attribute.value_type@),
        r is Ok <==> (attribute.value_type@ == "number"@ || attribute.value_type@ == "integer"@),
        r matches Err(m) ==> m@ == "Attribute `"@ + attribute.code@ + "` must be numeric."@,
{
    if same_text(attribute.value_type.as_str(), "number") || same_text(
        attribute.value_type.as_str(),
        "integer",
    ) {
        Ok(())
    } else {
        Err(quoted("Attribute `", attribute.code.as_str(), "` must be numeric."))
    }
}

/// The attribute that a code refers to, which must be numeric: its index, or the error.
pub open spec fn numeric_lookup(attributes: Seq<AttributeView>, code: Seq<char>) -> Result<int, Seq<char>> {
    match last_with_code(attributes, code) {
        None => Err("Unknown attribute `"@ + code + "`."@),
        Some(i) => if is_numeric_type(attributes[i].value_type) {
            Ok(i)
        } else {
            Err("Attribute `"@ + attributes[i].code + "` must be numeric."@)
        },
    }
}

/// Finds the numeric attribute that `code` refers to.
pub fn numeric_attribute(attributes: &Vec<Attribute>, code: &str) -> (r: Result<usize, String>)
    ensures
        match numeric_lookup(attribute_views(attributes@), code@) {
            Ok(i) => r matches Ok(k) && k == i && k < attributes.len(),
            Err(m) => r matches Err(e) && e@ == m,
        },
        r matches Ok(k) ==> attributes@[k as int].code@ == code@ && (attributes@[k as int].value_type@
            == "number"@ || attributes@[k as int].value_type@ == "integer"@),
{
    proof {
        lemma_last_with_code_bounds(attribute_views(attributes@), code@);
    }
    match find_by_code(attributes, code) {
        None => Err(quoted("Unknown attribute `", code, "`.")),
        Some(i) => match require_numeric(&attributes[i]) {
            Ok(()) => Ok(i),
            Err(e) => Err(e),
        },
    }
}

/// The IDs of the numeric attributes that `codes` refer to, in order, or the error of the
/// first code that does not refer to one.
pub open spec fn ids_for_codes(attributes: Seq<AttributeView>, codes: Seq<Seq<char>>) -> Result<Seq<Seq<char>>, Seq<char>>
    decreases codes.len(),
{
    if codes.len() == 0 {
        Ok(Seq::empty())
    } else {
        match ids_for_codes(attributes, codes.drop_last()) {
            Err(e) => Err(e),
            Ok(ids) => match numeric_lookup(attributes, codes.last()) {
                Err(e) => Err(e),
                Ok(i) => Ok(ids.push(attributes[i].id)),
            },
        }
    }
}

/// Once a prefix of the codes fails, the whole list fails with the same error.
pub proof fn lemma_ids_prefix_error(attributes: Seq<AttributeView>, codes: Seq<Seq<char>>, j: int)
    requires
        0 <= j <= codes.len(),
        ids_for_codes(attributes, codes.take(j)) is Err,
    ensures
        ids_for_codes(attributes, codes) == ids_for_codes(attributes, codes.take(j)),
    decreases codes.len() - j,
{
    if j == codes.len() {
        assert(codes.take(j) =~= codes);
    } else {
        assert(codes.take(j + 1).drop_last() =~= codes.take(j));
        lemma_ids_prefix_error(attributes, codes, j + 1);
    }
}

/// What a successful mapping of codes to IDs holds: one ID per code, the ID of the numeric
/// attribute that the code refers to.
pub proof fn lemma_ids_elements(attributes: Seq<AttributeView>, codes: Seq<Seq<char>>, m: int)
    requires
        ids_for_codes(attributes, codes) is Ok,
        0 <= m < codes.len(),
    ensures
        ids_for_codes(attributes, codes)->Ok_0.len() == codes.len(),
        numeric_lookup(attributes, codes[m]) is Ok,
        ids_for_codes(attributes, codes)->Ok_0[m] == attributes[numeric_lookup(
            attributes,
            codes[m],
        )->Ok_0].id,
    decreases codes.len(),
{
    let ids = ids_for_codes(attributes, codes)->Ok_0;
    let front = ids_for_codes(attributes, codes.drop_last())->Ok_0;
    let i = numeric_lookup(attributes, codes.last())->Ok_0;
    assert(ids == front.push(attributes[i].id));
    if m < codes.len() - 1 {
        lemma_ids_elements(attributes, codes.drop_last(), m);
        assert(codes.drop_last()[m] == codes[m]);
        assert(front[m] == ids[m]);
    } else {
        if codes.len() > 1 {
            lemma_ids_elements(attributes, codes.drop_last(), 0);
        } else {
            assert(front.len() == 0);
        }
        assert(codes[m] == codes.last());
    }
}

/// Maps attribute codes to the IDs of the numeric attributes they name.
pub fn dependency_ids(attributes: &Vec<Attribute>, codes: &Vec<String>) -> (r: Result<Vec<String>, String>)
    ensures
        match ids_for_codes(attribute_views(attributes@), texts(codes@)) {
            Ok(ids) => r matches Ok(v) && texts(v@) == ids,
            Err(m) => r matches Err(e) && e@ == m,
        },
{
    let ghost all = attribute_views(attributes@);
    let ghost names = texts(codes@);
    let mut ids: Vec<String> = Vec::new();
    let mut k: usize = 0;
    assert(names.take(0) =~= Seq::<Seq<char>>::empty());
    assert(texts(ids@) =~= Seq::<Seq<char>>::empty());
    while k < codes.len()
        invariant
            all == attribute_views(attributes@),
            names == texts(codes@),
            k <= codes.len(),
            ids_for_codes(all, names.take(k as int)) == Ok::<Seq<Seq<char>>, Seq<char>>(
                texts(ids@),
            ),
        decreases codes.len() - k,
    {
        proof {
            assert(names.take(k + 1).drop_last() =~= names.take(k as int));
        }
        match numeric_attribute(attributes, codes[k].as_str()) {
            Ok(i) => {
                let ghost prev = texts(ids@);
                ids.push(attributes[i].id.clone());
                assert(texts(ids@) =~= prev.push(all[i as int].id));
            },
            Err(e) => {
                proof {
                    lemma_ids_prefix_error(all, names, k + 1);
                }
                return Err(e);
            },
        }
        k = k + 1;
    }
    proof {
        assert(names.take(k as int) =~= names);
    }
    Ok(ids)
}

} // verus!
