//! Reconciling variable metadata when a template is edited.
//!
//! The edit is classified into one of two regimes. When the literal text
//! around the placeholders is unchanged, old and new placeholder names are
//! matched positionally (a rename keeps its slot's metadata). Otherwise
//! metadata is matched by name equality (a reorder keeps each name's
//! metadata). Either way the result holds exactly one entry per distinct
//! variable name of the new template, in first-occurrence order.

use vstd::prelude::*;

use crate::template::CommandPart;
use crate::template::PartView;
use crate::template::literals_of;
use crate::template::literal_texts;
use crate::template::parts_view;
use crate::template::strings_view;
use crate::template::variable_names;
use crate::template::vars_of;
use crate::template::Command;
use crate::template::rename_parts;
use crate::template::template_text;
use crate::variable::GadgetVariable;
use crate::variable::MetaView;
use crate::variable::blank_meta;
use crate::variable::clone_opt_string;
use crate::variable::find_in_metas;
use crate::variable::find_meta;
use crate::variable::lemma_find_meta_at;
use crate::variable::lemma_find_meta_name;
use crate::variable::meta_names;
use crate::variable::metas_view;

verus! {

/// The distinct elements of `names`, in first-occurrence order.
pub open spec fn distinct_names(names: Seq<Seq<char>>) -> Seq<Seq<char>>
    decreases names.len(),
{
    if names.len() == 0 {
        Seq::<Seq<char>>::empty()
    } else {
        let prefix = distinct_names(names.drop_last());
        if prefix.contains(names.last()) {
            prefix
        } else {
            prefix.push(names.last())
        }
    }
}

/// The distinct names list holds exactly the names of the input, each
/// once.
pub proof fn lemma_distinct_names(names: Seq<Seq<char>>)
    ensures
        forall|i: int|
            0 <= i < distinct_names(names).len() ==> names.contains(
                #[trigger] distinct_names(names)[i],
            ),
        forall|i: int, j: int|
            0 <= i < j < distinct_names(names).len() ==> distinct_names(names)[i]
                != distinct_names(names)[j],
        forall|n: Seq<char>| #[trigger] names.contains(n) ==> distinct_names(names).contains(n),
    decreases names.len(),
{
    if names.len() > 0 {
        let pre = names.drop_last();
        lemma_distinct_names(pre);
        let dp = distinct_names(pre);
        let d = distinct_names(names);
        assert forall|i: int| 0 <= i < d.len() implies names.contains(#[trigger] d[i]) by {
            if i < dp.len() {
                assert(pre.contains(dp[i]));
                let w = choose|w: int| 0 <= w < pre.len() && pre[w] == dp[i];
                assert(names[w] == d[i]);
            } else {
                assert(d[i] == names.last());
                assert(names[names.len() - 1] == names.last());
            }
        }
        assert forall|n: Seq<char>| #[trigger] names.contains(n) implies d.contains(n) by {
            let w = choose|w: int| 0 <= w < names.len() && names[w] == n;
            if w < names.len() - 1 {
                assert(pre[w] == n);
                assert(pre.contains(n));
                assert(dp.contains(n));
                let u = choose|u: int| 0 <= u < dp.len() && dp[u] == n;
                assert(d[u] == n);
            } else {
                if dp.contains(n) {
                    let u = choose|u: int| 0 <= u < dp.len() && dp[u] == n;
                    assert(d[u] == n);
                } else {
                    assert(d == dp.push(names.last()));
                    assert(d[d.len() - 1] == n);
                }
            }
        }
    }
}

/// The metadata entry for slot `i` under positional matching: the slot of
/// the `i`-th distinct old name, renamed to `new_name`; fresh blank
/// metadata where no old slot or entry exists.
pub open spec fn positional_entry(
    old_meta: Seq<MetaView>,
    old_names: Seq<Seq<char>>,
    new_name: Seq<char>,
    i: int,
) -> MetaView {
    if 0 <= i < old_names.len() {
        match find_meta(old_meta, old_names[i]) {
            Some(m) => MetaView { name: new_name, description: m.description, default: m.default },
            None => blank_meta(new_name),
        }
    } else {
        blank_meta(new_name)
    }
}

/// The metadata entry for `name` under name matching: the old entry with
/// that exact name, or fresh blank metadata.
pub open spec fn name_matched_entry(old_meta: Seq<MetaView>, name: Seq<char>) -> MetaView {
    match find_meta(old_meta, name) {
        Some(m) => m,
        None => blank_meta(name),
    }
}

/// The reconciled metadata list: positional matching when the literal
/// text is unchanged, name matching otherwise; one entry per distinct
/// variable name of the new template, in first-occurrence order.
pub open spec fn spec_reconcile(
    old_meta: Seq<MetaView>,
    old_parts: Seq<PartView>,
    new_parts: Seq<PartView>,
) -> Seq<MetaView> {
    let new_names = distinct_names(vars_of(new_parts));
    if literals_of(old_parts) == literals_of(new_parts) {
        let old_names = distinct_names(vars_of(old_parts));
        Seq::new(new_names.len(), |i: int| positional_entry(old_meta, old_names, new_names[i], i))
    } else {
        Seq::new(new_names.len(), |i: int| name_matched_entry(old_meta, new_names[i]))
    }
}

/// Whether `items` holds a string equal to `name`.
fn contains_string(items: &Vec<String>, name: &String) -> (r: bool)
    ensures
        r == strings_view(items@).contains(name@),
{
    let n = items.len();
    let mut i: usize = 0;
    while i < n
        invariant
            i <= n,
            n == items@.len(),
            forall|j: int| 0 <= j < i ==> strings_view(items@)[j] != name@,
        decreases n - i,
    {
        if items[i].eq(name) {
            proof {
                assert(strings_view(items@)[i as int] == name@);
            }
            return true;
        }
        i = i + 1;
    }
    proof {
        if strings_view(items@).contains(name@) {
            let w = choose|w: int|
                0 <= w < strings_view(items@).len() && strings_view(items@)[w] == name@;
            assert(false);
        }
    }
    false
}

/// The distinct strings of `names`, in first-occurrence order.
pub fn distinct_strings(names: &Vec<String>) -> (r: Vec<String>)
    ensures
        strings_view(r@) == distinct_names(strings_view(names@)),
{
    let mut r: Vec<String> = Vec::new();
    let n = names.len();
    let mut idx: usize = 0;
    proof {
        assert(strings_view(names@).take(0) =~= Seq::<Seq<char>>::empty());
        assert(strings_view(r@) =~= Seq::<Seq<char>>::empty());
    }
    while idx < n
        invariant
            idx <= n,
            n == names@.len(),
            strings_view(r@) == distinct_names(strings_view(names@).take(idx as int)),
        decreases n - idx,
    {
        let ghost nv = strings_view(names@);
        let ghost r0 = strings_view(r@);
        let found = contains_string(&r, &names[idx]);
        if !found {
            r.push(names[idx].clone());
        }
        proof {
            assert(nv.take(idx as int + 1).drop_last() =~= nv.take(idx as int));
            assert(nv.take(idx as int + 1).last() == nv[idx as int]);
            if !found {
                assert(strings_view(r@) =~= r0.push(nv[idx as int]));
            }
        }
        idx = idx + 1;
    }
    proof {
        assert(strings_view(names@).take(n as int) =~= strings_view(names@));
    }
    r
}

/// Whether two string lists are elementwise equal.
fn string_lists_equal(a: &Vec<String>, b: &Vec<String>) -> (r: bool)
    ensures
        r == (strings_view(a@) == strings_view(b@)),
{
    if a.len() != b.len() {
        proof {
            if strings_view(a@) == strings_view(b@) {
                assert(strings_view(a@).len() == strings_view(b@).len());
            }
        }
        return false;
    }
    let n = a.len();
    let mut i: usize = 0;
    while i < n
        invariant
            i <= n,
            n == a@.len(),
            n == b@.len(),
            forall|j: int| 0 <= j < i ==> strings_view(a@)[j] == strings_view(b@)[j],
        decreases n - i,
    {
        if !a[i].eq(&b[i]) {
            proof {
                if strings_view(a@) == strings_view(b@) {
                    assert(strings_view(a@)[i as int] == strings_view(b@)[i as int]);
                }
            }
            return false;
        }
        i = i + 1;
    }
    proof {
        assert(strings_view(a@) =~= strings_view(b@));
    }
    true
}

/// Syncs variables from the old metadata list to the new template,
/// preserving metadata when possible: positionally when only placeholder
/// names changed, by name otherwise.
pub fn sync_variables(
    old_vars: &Vec<GadgetVariable>,
    old_parts: &Vec<CommandPart>,
    new_parts: &Vec<CommandPart>,
) -> (result: Vec<GadgetVariable>)
    ensures
        metas_view(result@) == spec_reconcile(
            metas_view(old_vars@),
            parts_view(old_parts@),
            parts_view(new_parts@),
        ),
{
    let ghost expected = spec_reconcile(
        metas_view(old_vars@),
        parts_view(old_parts@),
        parts_view(new_parts@),
    );
    let old_lits = literal_texts(old_parts);
    let new_lits = literal_texts(new_parts);
    let new_occurrences = variable_names(new_parts);
    let new_names = distinct_strings(&new_occurrences);
    let mut result: Vec<GadgetVariable> = Vec::new();
    let n = new_names.len();
    proof {
        assert(expected.take(0) =~= Seq::<MetaView>::empty());
        assert(metas_view(result@) =~= Seq::<MetaView>::empty());
        assert(expected.len() == n);
    }
    if string_lists_equal(&old_lits, &new_lits) {
        let old_occurrences = variable_names(old_parts);
        let old_names = distinct_strings(&old_occurrences);
        let mut idx: usize = 0;
        while idx < n
            invariant
                idx <= n,
                n == new_names@.len(),
                expected == spec_reconcile(
                    metas_view(old_vars@),
                    parts_view(old_parts@),
                    parts_view(new_parts@),
                ),
                expected.len() == n,
                strings_view(new_names@) == distinct_names(vars_of(parts_view(new_parts@))),
                strings_view(old_names@) == distinct_names(vars_of(parts_view(old_parts@))),
                literals_of(parts_view(old_parts@)) == literals_of(parts_view(new_parts@)),
                metas_view(result@) == expected.take(idx as int),
            decreases n - idx,
        {
            let ghost r0 = metas_view(result@);
            if idx < old_names.len() {
                match find_in_metas(old_vars, &old_names[idx]) {
                    Some(k) => {
                        let description = old_vars[k].description.clone();
                        let default_value = clone_opt_string(&old_vars[k].default);
                        result.push(
                            GadgetVariable {
                                name: new_names[idx].clone(),
                                description,
                                default: default_value,
                            },
                        );
                    },
                    None => {
                        result.push(
                            GadgetVariable {
                                name: new_names[idx].clone(),
                                description: String::new(),
                                default: None,
                            },
                        );
                    },
                }
            } else {
                result.push(
                    GadgetVariable {
                        name: new_names[idx].clone(),
                        description: String::new(),
                        default: None,
                    },
                );
            }
            proof {
                assert(metas_view(result@) =~= r0.push(result@.last()@));
                assert(result@.last()@ == expected[idx as int]);
                assert(expected.take(idx as int + 1) =~= expected.take(idx as int).push(
                    expected[idx as int],
                ));
            }
            idx = idx + 1;
        }
        proof {
            assert(expected.take(n as int) =~= expected);
        }
    } else {
        let mut idx: usize = 0;
        while idx < n
            invariant
                idx <= n,
                n == new_names@.len(),
                expected == spec_reconcile(
                    metas_view(old_vars@),
                    parts_view(old_parts@),
                    parts_view(new_parts@),
                ),
                expected.len() == n,
                strings_view(new_names@) == distinct_names(vars_of(parts_view(new_parts@))),
                literals_of(parts_view(old_parts@)) != literals_of(parts_view(new_parts@)),
                metas_view(result@) == expected.take(idx as int),
            decreases n - idx,
        {
            let ghost r0 = metas_view(result@);
            match find_in_metas(old_vars, &new_names[idx]) {
                Some(k) => {
                    let name = old_vars[k].name.clone();
                    let description = old_vars[k].description.clone();
                    let default_value = clone_opt_string(&old_vars[k].default);
                    result.push(
                        GadgetVariable { name, description, default: default_value },
                    );
                },
                None => {
                    result.push(
                        GadgetVariable {
                            name: new_names[idx].clone(),
                            description: String::new(),
                            default: None,
                        },
                    );
                },
            }
            proof {
                assert(metas_view(result@) =~= r0.push(result@.last()@));
                assert(result@.last()@ == expected[idx as int]);
                assert(expected.take(idx as int + 1) =~= expected.take(idx as int).push(
                    expected[idx as int],
                ));
            }
            idx = idx + 1;
        }
        proof {
            assert(expected.take(n as int) =~= expected);
        }
    }
    result
}

/// Renames the metadata entry at `index` and rewrites the command so that
/// every `{{old_name}}` placeholder reads `{{new_name}}`.
pub fn update_variable_name_in_place(
    edit_variables: &mut Vec<GadgetVariable>,
    index: usize,
    old_name: &str,
    new_name: &str,
    command: &mut Command,
)
    ensures
        final(command).raw@ == template_text(
            rename_parts(parts_view(old(command).parts@), old_name@, new_name@),
        ),
        final(command).wf(),
        final(edit_variables)@.len() == old(edit_variables)@.len(),
        index < old(edit_variables)@.len() ==> {
            &&& final(edit_variables)@[index as int]@.name == new_name@
            &&& final(edit_variables)@[index as int]@.description == old(
                edit_variables,
            )@[index as int]@.description
            &&& final(edit_variables)@[index as int]@.default == old(
                edit_variables,
            )@[index as int]@.default
        },
        forall|j: int|
            0 <= j < old(edit_variables)@.len() && j != index ==> final(edit_variables)@[j] == old(
                edit_variables,
            )@[j],
{
    if index < edit_variables.len() {
        let description = edit_variables[index].description.clone();
        let default_value = clone_opt_string(&edit_variables[index].default);
        edit_variables[index] = GadgetVariable {
            name: String::from_str(new_name),
            description,
            default: default_value,
        };
    }
    command.replace_variable_name(old_name, new_name);
}

/// Law: the reconciled list names exactly the distinct variables of the
/// new template, in first-occurrence order; no entry is retained for a
/// name absent from the new template.
pub proof fn lemma_reconcile_drops_absent(
    old_meta: Seq<MetaView>,
    old_parts: Seq<PartView>,
    new_parts: Seq<PartView>,
)
    ensures
        meta_names(spec_reconcile(old_meta, old_parts, new_parts)) == distinct_names(
            vars_of(new_parts),
        ),
        forall|i: int|
            0 <= i < spec_reconcile(old_meta, old_parts, new_parts).len() ==> vars_of(
                new_parts,
            ).contains(#[trigger] spec_reconcile(old_meta, old_parts, new_parts)[i].name),
{
    let r = spec_reconcile(old_meta, old_parts, new_parts);
    let nn = distinct_names(vars_of(new_parts));
    lemma_distinct_names(vars_of(new_parts));
    assert forall|i: int| 0 <= i < r.len() implies r[i].name == nn[i] by {
        if literals_of(old_parts) != literals_of(new_parts) {
            lemma_find_meta_name(old_meta, nn[i]);
        }
    }
    assert(meta_names(r) =~= nn);
}

/// Law: reconciling a template against itself returns the metadata list
/// unchanged, provided the list is paired with the template: one entry
/// per distinct variable name, in first-occurrence order.
pub proof fn lemma_reconcile_idempotent(old_meta: Seq<MetaView>, parts: Seq<PartView>)
    requires
        meta_names(old_meta) == distinct_names(vars_of(parts)),
    ensures
        spec_reconcile(old_meta, parts, parts) == old_meta,
{
    let names = distinct_names(vars_of(parts));
    lemma_distinct_names(vars_of(parts));
    let r = spec_reconcile(old_meta, parts, parts);
    assert(old_meta.len() == names.len());
    assert forall|j: int, k: int|
        0 <= j < k < old_meta.len() implies old_meta[j].name != old_meta[k].name by {
        assert(meta_names(old_meta)[j] == old_meta[j].name);
        assert(meta_names(old_meta)[k] == old_meta[k].name);
    }
    assert forall|i: int| 0 <= i < r.len() implies r[i] == old_meta[i] by {
        assert(meta_names(old_meta)[i] == old_meta[i].name);
        assert(names[i] == old_meta[i].name);
        lemma_find_meta_at(old_meta, i);
        assert(find_meta(old_meta, names[i]) == Some(old_meta[i]));
    }
    assert(r =~= old_meta);
}

} // verus!
