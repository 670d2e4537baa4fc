//! Decisions of the extension's handlers: which events and commands it acts on, which
//! formulas a change of attribute values makes stale, and which stored value is the
//! direct value of an attribute in a context.

use vstd::prelude::*;
use crate::config::{config_views, ConfigView, FormulaConfig};
use crate::rules::contains_text;
use crate::text::{same_text, texts};

verus! {

/// The event type under which the catalog publishes changes of entity values.
pub open spec fn is_entity_update_spec(event_type: Seq<char>) -> bool {
    event_type == "entity.updated.v1"@
}

/// Whether an event reports changed entity values.
pub fn is_entity_update(event_type: &str) -> (r: bool)
    ensures
        r == is_entity_update_spec(event_type@),
{
    same_text(event_type, "entity.updated.v1")
}

/// The commands the extension serves.
#[derive(Debug, Clone, Copy, PartialEq, Eq, Structural)]
pub enum CommandKind {
    PreviewFormula,
    RecalculateFormulas,
}

/// The command named by a handler name, or the error for an unknown one.
pub open spec fn command_for(handler: Seq<char>) -> Result<CommandKind, Seq<char>> {
    if handler == "preview-formula"@ {
        Ok(CommandKind::PreviewFormula)
    } else if handler == "recalculate-formulas"@ {
        Ok(CommandKind::RecalculateFormulas)
    } else {
        Err("unknown command handler"@)
    }
}

/// Selects the command for a handler name.
pub fn command_kind(handler: &str) -> (r: Result<CommandKind, String>)
    ensures
        match command_for(handler@) {
            Ok(k) => r == Ok::<CommandKind, String>(k),
            Err(m) => r matches Err(e) && e@ == m,
        },
{
    if same_text(handler, "preview-formula") {
        Ok(CommandKind::PreviewFormula)
    } else if same_text(handler, "recalculate-formulas") {
        Ok(CommandKind::RecalculateFormulas)
    } else {
        Err(String::from_str("unknown command handler"))
    }
}

/// One changed attribute value: the attribute's ID and the context it changed in, if any.
#[derive(Debug, Clone)]
pub struct ChangedFact {
    pub attribute_id: String,
    pub context_id: Option<String>,
}

pub open spec fn optional_text(o: Option<String>) -> Option<Seq<char>> {
    match o {
        Some(s) => Some(s@),
        None => None,
    }
}

pub open spec fn fact_views(facts: Seq<ChangedFact>) -> Seq<(Seq<char>, Option<Seq<char>>)> {
    facts.map_values(|f: ChangedFact| (f.attribute_id@, optional_text(f.context_id)))
}

/// The contexts named by the facts, each once, in order of first appearance.
pub open spec fn fact_contexts(facts: Seq<(Seq<char>, Option<Seq<char>>)>) -> Seq<Seq<char>>
    decreases facts.len(),
{
    if facts.len() == 0 {
        Seq::empty()
    } else {
        let earlier = fact_contexts(facts.drop_last());
        match facts.last().1 {
            Some(c) => if earlier.contains(c) {
                earlier
            } else {
                earlier.push(c)
            },
            None => earlier,
        }
    }
}

/// Attribute `id` changed in context `c`.
pub open spec fn changed_in(facts: Seq<(Seq<char>, Option<Seq<char>>)>, c: Seq<char>, id: Seq<char>) -> bool {
    exists|i: int| 0 <= i < facts.len() && #[trigger] facts[i] == (id, Some(c))
}

/// A formula is stale in context `c` when one of its dependencies changed there.
pub open spec fn affected(facts: Seq<(Seq<char>, Option<Seq<char>>)>, c: Seq<char>, f: ConfigView) -> bool {
    exists|d: int| 0 <= d < f.dependencies.len() && #[trigger] changed_in(facts, c, f.dependencies[d])
}

/// The stale formulas among the first `m`, in context `c`, in order.
pub open spec fn context_plan(
    facts: Seq<(Seq<char>, Option<Seq<char>>)>,
    formulas: Seq<ConfigView>,
    c: Seq<char>,
    m: int,
) -> Seq<(Seq<char>, int)>
    decreases m,
{
    if m <= 0 {
        Seq::empty()
    } else {
        let earlier = context_plan(facts, formulas, c, m - 1);
        if affected(facts, c, formulas[m - 1]) {
            earlier.push((c, m - 1))
        } else {
            earlier
        }
    }
}

/// The stale formulas of each listed context, context by context.
pub open spec fn plan_for_contexts(
    facts: Seq<(Seq<char>, Option<Seq<char>>)>,
    formulas: Seq<ConfigView>,
    contexts: Seq<Seq<char>>,
) -> Seq<(Seq<char>, int)>
    decreases contexts.len(),
{
    if contexts.len() == 0 {
        Seq::empty()
    } else {
        plan_for_contexts(facts, formulas, contexts.drop_last()) + context_plan(
            facts,
            formulas,
            contexts.last(),
            formulas.len() as int,
        )
    }
}

/// The recalculations that a set of changed facts calls for: for each context in which
/// something changed, in order of first appearance, each formula that reads a changed
/// attribute, in order.
pub open spec fn recalculation_plan(
    facts: Seq<(Seq<char>, Option<Seq<char>>)>,
    formulas: Seq<ConfigView>,
) -> Seq<(Seq<char>, int)> {
    plan_for_contexts(facts, formulas, fact_contexts(facts))
}

pub proof fn lemma_fact_contexts(facts: Seq<(Seq<char>, Option<Seq<char>>)>, c: Seq<char>)
    ensures
        fact_contexts(facts).contains(c) <==> exists|i: int| 0 <= i < facts.len() && #[trigger] facts[i].1 == Some(c),
    decreases facts.len(),
{
    if facts.len() > 0 {
        let front = facts.drop_last();
        lemma_fact_contexts(front, c);
        if exists|i: int| 0 <= i < front.len() && #[trigger] front[i].1 == Some(c) {
            let i = choose|i: int| 0 <= i < front.len() && #[trigger] front[i].1 == Some(c);
            assert(facts[i].1 == Some(c));
        }
        if exists|i: int| 0 <= i < facts.len() && #[trigger] facts[i].1 == Some(c) {
            let i = choose|i: int| 0 <= i < facts.len() && #[trigger] facts[i].1 == Some(c);
            if i < front.len() {
                assert(front[i].1 == Some(c));
            } else {
                let earlier = fact_contexts(front);
                if !earlier.contains(c) {
                    assert(fact_contexts(facts) == earlier.push(c));
                    assert(earlier.push(c)[earlier.len() as int] == c);
                }
            }
        }
        let earlier = fact_contexts(front);
        match facts.last().1 {
            Some(x) => {
                if !earlier.contains(x) {
                    if earlier.push(x).contains(c) {
                        let k = choose|k: int| 0 <= k < earlier.push(x).len() && earlier.push(x)[k] == c;
                        if k < earlier.len() {
                            assert(earlier[k] == c);
                        } else {
                            assert(facts[facts.len() - 1].1 == Some(c));
                        }
                    }
                    if earlier.contains(c) {
                        let k = choose|k: int| 0 <= k < earlier.len() && earlier[k] == c;
                        assert(earlier.push(x)[k] == c);
                    }
                }
            },
            None => {},
        }
    }
}

pub proof fn lemma_context_plan(
    facts: Seq<(Seq<char>, Option<Seq<char>>)>,
    formulas: Seq<ConfigView>,
    c: Seq<char>,
    m: int,
    x: Seq<char>,
    i: int,
)
    requires
        0 <= m <= formulas.len(),
    ensures
        context_plan(facts, formulas, c, m).contains((x, i)) <==> (x == c && 0 <= i < m && affected(
            facts,
            c,
            formulas[i],
        )),
    decreases m,
{
    if m > 0 {
        lemma_context_plan(facts, formulas, c, m - 1, x, i);
        let earlier = context_plan(facts, formulas, c, m - 1);
        if affected(facts, c, formulas[m - 1]) {
            let longer = earlier.push((c, m - 1));
            if longer.contains((x, i)) {
                let k = choose|k: int| 0 <= k < longer.len() && longer[k] == (x, i);
                if k < earlier.len() {
                    assert(earlier[k] == (x, i));
                }
            }
            if earlier.contains((x, i)) {
                let k = choose|k: int| 0 <= k < earlier.len() && earlier[k] == (x, i);
                assert(longer[k] == (x, i));
            }
            if x == c && i == m - 1 {
                assert(longer[earlier.len() as int] == (x, i));
            }
        }
    }
}

pub proof fn lemma_plan_for_contexts(
    facts: Seq<(Seq<char>, Option<Seq<char>>)>,
    formulas: Seq<ConfigView>,
    contexts: Seq<Seq<char>>,
    x: Seq<char>,
    i: int,
)
    ensures
        plan_for_contexts(facts, formulas, contexts).contains((x, i)) <==> (contexts.contains(x) && 0
            <= i < formulas.len() && affected(facts, x, formulas[i])),
    decreases contexts.len(),
{
    if contexts.len() > 0 {
        let front = contexts.drop_last();
        let c = contexts.last();
        lemma_plan_for_contexts(facts, formulas, front, x, i);
        lemma_context_plan(facts, formulas, c, formulas.len() as int, x, i);
        let a = plan_for_contexts(facts, formulas, front);
        let b = context_plan(facts, formulas, c, formulas.len() as int);
        if (a + b).contains((x, i)) {
            let k = choose|k: int| 0 <= k < (a + b).len() && (a + b)[k] == (x, i);
            if k < a.len() {
                assert(a[k] == (x, i));
                let j = choose|j: int| 0 <= j < front.len() && front[j] == x;
                assert(contexts[j] == x);
            } else {
                assert(b[k - a.len()] == (x, i));
                assert(contexts[contexts.len() - 1] == x);
            }
        }
        if contexts.contains(x) && 0 <= i < formulas.len() && affected(facts, x, formulas[i]) {
            let j = choose|j: int| 0 <= j < contexts.len() && contexts[j] == x;
            if j < front.len() {
                assert(front[j] == x);
                let k = choose|k: int| 0 <= k < a.len() && a[k] == (x, i);
                assert((a + b)[k] == (x, i));
            } else {
                let k = choose|k: int| 0 <= k < b.len() && b[k] == (x, i);
                assert((a + b)[a.len() + k] == (x, i));
            }
        }
    }
}

/// Law: a formula is recalculated in a context exactly when one of its dependencies
/// changed in that context; changes without a context, and changes of attributes that no
/// formula reads, recalculate nothing.
pub proof fn lemma_plan_members(
    facts: Seq<(Seq<char>, Option<Seq<char>>)>,
    formulas: Seq<ConfigView>,
    c: Seq<char>,
    i: int,
)
    ensures
        recalculation_plan(facts, formulas).contains((c, i)) <==> (0 <= i < formulas.len()
            && affected(facts, c, formulas[i])),
{
    lemma_plan_for_contexts(facts, formulas, fact_contexts(facts), c, i);
    lemma_fact_contexts(facts, c);
    if 0 <= i < formulas.len() && affected(facts, c, formulas[i]) {
        let d = choose|d: int|
            0 <= d < formulas[i].dependencies.len() && #[trigger] changed_in(
                facts,
                c,
                formulas[i].dependencies[d],
            );
        let j = choose|j: int| 0 <= j < facts.len() && #[trigger] facts[j] == (formulas[i].dependencies[d], Some(c));
        assert(facts[j].1 == Some(c));
    }
}

/// Law: formula `i` is recalculated in context `c` exactly when some dependency ID of it
/// was reported changed in `c`: any one of its dependencies suffices, and nothing else
/// (a change without a context, or in another context) calls for it.
pub proof fn lemma_plan_follows_changes(
    facts: Seq<(Seq<char>, Option<Seq<char>>)>,
    formulas: Seq<ConfigView>,
    c: Seq<char>,
    i: int,
)
    ensures
        recalculation_plan(facts, formulas).contains((c, i)) <==> (0 <= i < formulas.len() && exists|
            d: int,
            j: int,
        |
            0 <= d < formulas[i].dependencies.len() && 0 <= j < facts.len() && #[trigger] facts[j].0
                == #[trigger] formulas[i].dependencies[d] && facts[j].1 == Some(c)),
        forall|d: int, j: int|
            0 <= i < formulas.len() && 0 <= d < formulas[i].dependencies.len() && 0 <= j < facts.len()
                && #[trigger] facts[j].0 == #[trigger] formulas[i].dependencies[d] && facts[j].1
                == Some(c) ==> recalculation_plan(facts, formulas).contains((c, i)),
{
    lemma_plan_members(facts, formulas, c, i);
    if 0 <= i < formulas.len() {
        let deps = formulas[i].dependencies;
        if affected(facts, c, formulas[i]) {
            let d = choose|d: int| 0 <= d < deps.len() && #[trigger] changed_in(facts, c, deps[d]);
            let j = choose|j: int| 0 <= j < facts.len() && #[trigger] facts[j] == (deps[d], Some(c));
            assert(facts[j].0 == deps[d] && facts[j].1 == Some(c));
        }
        assert forall|d: int, j: int|
            0 <= d < deps.len() && 0 <= j < facts.len() && #[trigger] facts[j].0 == #[trigger] deps[d]
                && facts[j].1 == Some(c) implies affected(facts, c, formulas[i]) by {
            assert(facts[j] == (deps[d], Some(c)));
            assert(changed_in(facts, c, deps[d]));
        }
    }
}

pub open spec fn plan_views(plan: Seq<(String, usize)>) -> Seq<(Seq<char>, int)> {
    plan.map_values(|p: (String, usize)| (p.0@, p.1 as int))
}

/// The contexts named by the facts, each once, in order of first appearance.
pub fn changed_contexts(facts: &Vec<ChangedFact>) -> (r: Vec<String>)
    ensures
        texts(r@) == fact_contexts(fact_views(facts@)),
{
    let ghost all = fact_views(facts@);
    let mut contexts: Vec<String> = Vec::new();
    let mut k: usize = 0;
    assert(all.take(0) =~= Seq::<(Seq<char>, Option<Seq<char>>)>::empty());
    assert(texts(contexts@) =~= Seq::<Seq<char>>::empty());
    while k < facts.len()
        invariant
            all == fact_views(facts@),
            k <= facts.len(),
            texts(contexts@) == fact_contexts(all.take(k as int)),
        decreases facts.len() - k,
    {
        proof {
            assert(all.take(k + 1).drop_last() =~= all.take(k as int));
            assert(all.take(k + 1).last() == all[k as int]);
        }
        match &facts[k].context_id {
            Some(c) => {
                if !contains_text(&contexts, c.as_str()) {
                    let ghost before = texts(contexts@);
                    contexts.push(c.clone());
                    assert(texts(contexts@) =~= before.push(c@));
                }
            },
            None => {},
        }
        k = k + 1;
    }
    proof {
        assert(all.take(k as int) =~= all);
    }
    contexts
}

/// Whether attribute `id` changed in context `c`.
pub fn changed(facts: &Vec<ChangedFact>, context: &str, id: &str) -> (r: bool)
    ensures
        r == changed_in(fact_views(facts@), context@, id@),
{
    let ghost all = fact_views(facts@);
    let mut k: usize = 0;
    while k < facts.len()
        invariant
            all == fact_views(facts@),
            k <= facts.len(),
            forall|i: int| 0 <= i < k ==> #[trigger] all[i] != (id@, Some(context@)),
        decreases facts.len() - k,
    {
        match &facts[k].context_id {
            Some(c) => {
                if same_text(facts[k].attribute_id.as_str(), id) && same_text(c.as_str(), context) {
                    assert(all[k as int] == (id@, Some(context@)));
                    return true;
                }
            },
            None => {},
        }
        k = k + 1;
    }
    false
}

/// Whether a formula reads an attribute that changed in context `c`.
pub fn is_affected(facts: &Vec<ChangedFact>, context: &str, formula: &FormulaConfig) -> (r: bool)
    ensures
        r == affected(fact_views(facts@), context@, formula@),
{
    let ghost all = fact_views(facts@);
    let mut d: usize = 0;
    while d < formula.dependencies.len()
        invariant
            all == fact_views(facts@),
            d <= formula.dependencies.len(),
            forall|e: int| 0 <= e < d ==> !#[trigger] changed_in(all, context@, formula@.dependencies[e]),
        decreases formula.dependencies.len() - d,
    {
        if changed(facts, context, formula.dependencies[d].as_str()) {
            assert(changed_in(all, context@, formula@.dependencies[d as int]));
            return true;
        }
        d = d + 1;
    }
    false
}

/// The recalculations that changed facts call for, as pairs of context ID and formula index.
pub fn plan_recalculations(facts: &Vec<ChangedFact>, formulas: &Vec<FormulaConfig>) -> (r: Vec<(String, usize)>)
    ensures
        plan_views(r@) == recalculation_plan(fact_views(facts@), config_views(formulas@)),
{
    let ghost all = fact_views(facts@);
    let ghost fs = config_views(formulas@);
    let contexts = changed_contexts(facts);
    let ghost cs = texts(contexts@);
    let mut plan: Vec<(String, usize)> = Vec::new();
    let mut c: usize = 0;
    assert(cs.take(0) =~= Seq::<Seq<char>>::empty());
    assert(plan_views(plan@) =~= Seq::<(Seq<char>, int)>::empty());
    while c < contexts.len()
        invariant
            all == fact_views(facts@),
            fs == config_views(formulas@),
            cs == texts(contexts@),
            c <= contexts.len(),
            plan_views(plan@) == plan_for_contexts(all, fs, cs.take(c as int)),
        decreases contexts.len() - c,
    {
        let ghost start = plan_views(plan@);
        let context = &contexts[c];
        let mut i: usize = 0;
        while i < formulas.len()
            invariant
                all == fact_views(facts@),
                fs == config_views(formulas@),
                cs == texts(contexts@),
                c < contexts.len(),
                context@ == cs[c as int],
                i <= formulas.len(),
                plan_views(plan@) == start + context_plan(all, fs, cs[c as int], i as int),
            decreases formulas.len() - i,
        {
            if is_affected(facts, context.as_str(), &formulas[i]) {
                let ghost before = plan_views(plan@);
                plan.push((context.clone(), i));
                assert(plan_views(plan@) =~= before.push((cs[c as int], i as int)));
            }
            i = i + 1;
        }
        proof {
            assert(cs.take(c + 1).drop_last() =~= cs.take(c as int));
            assert(cs.take(c + 1).last() == cs[c as int]);
        }
        c = c + 1;
    }
    proof {
        assert(cs.take(c as int) =~= cs);
    }
    plan
}

/// A stored value of an entity: the attribute and context it belongs to, and whether it
/// is active; each is absent when the host's record does not give it.
#[derive(Debug, Clone)]
pub struct DirectValueEntry {
    pub attribute_id: Option<String>,
    pub context_id: Option<String>,
    pub active: Option<bool>,
}

/// The entry is the direct value of attribute `id` in context `c`.
pub open spec fn is_direct_value(e: DirectValueEntry, id: Seq<char>, c: Seq<char>) -> bool {
    &&& optional_text(e.attribute_id) == Some(id)
    &&& optional_text(e.context_id) == Some(c)
    &&& e.active != Some(false)
}

/// Index of the first entry that is the direct value of an attribute in a context: its
/// attribute and context match and it is not marked inactive.
pub fn find_direct_value(entries: &Vec<DirectValueEntry>, attribute_id: &str, context_id: &str) -> (r: Option<usize>)
    ensures
        match r {
            Some(k) => k < entries.len() && is_direct_value(entries@[k as int], attribute_id@, context_id@)
                && forall|j: int| 0 <= j < k ==> !#[trigger] is_direct_value(entries@[j], attribute_id@, context_id@),
            None => forall|j: int| 0 <= j < entries.len() ==> !#[trigger] is_direct_value(entries@[j], attribute_id@, context_id@),
        },
{
    let mut k: usize = 0;
    while k < entries.len()
        invariant
            k <= entries.len(),
            forall|j: int| 0 <= j < k ==> !#[trigger] is_direct_value(entries@[j], attribute_id@, context_id@),
        decreases entries.len() - k,
    {
        let entry = &entries[k];
        let matches_attribute = match &entry.attribute_id {
            Some(a) => same_text(a.as_str(), attribute_id),
            None => false,
        };
        let matches_context = match &entry.context_id {
            Some(c) => same_text(c.as_str(), context_id),
            None => false,
        };
        let active = match entry.active {
            Some(false) => false,
            _ => true,
        };
        if matches_attribute && matches_context && active {
            return Some(k);
        }
        k = k + 1;
    }
    None
}

} // verus!
