//! Stored gadgets: a named command template with its description and one
//! metadata entry per distinct variable, and the in-memory store of all
//! gadgets, addressed by gadget name.

use vstd::prelude::*;

use crate::reconcile::distinct_names;
use crate::reconcile::distinct_strings;
use crate::reconcile::name_matched_entry;
use crate::template::Command;
use crate::template::CommandView;
use crate::template::clone_command;
use crate::template::clone_strings;
use crate::template::is_word_char;
use crate::template::parts_view;
use crate::template::spec_tokenize;
use crate::template::str_eq;
use crate::template::strings_view;
use crate::template::variable_names;
use crate::template::vars_of;
use crate::template::word_char;
use crate::variable::GadgetVariable;
use crate::variable::MetaView;
use crate::variable::clone_opt_string;
use crate::variable::clone_variable;
use crate::variable::find_in_metas;
use crate::variable::meta_names;
use crate::variable::metas_view;

verus! {

/// A stored command template with a name, a human description, and one
/// metadata entry per distinct variable of the command.
#[derive(Clone, Debug, PartialEq, Eq)]
pub struct Gadget {
    pub name: String,
    pub command: Command,
    pub description: String,
    pub variables: Vec<GadgetVariable>,
}

/// The mathematical value of a stored gadget.
#[verifier::ext_equal]
pub struct GadgetView {
    pub name: Seq<char>,
    pub command: CommandView,
    pub description: Seq<char>,
    pub variables: Seq<MetaView>,
}

impl View for Gadget {
    type V = GadgetView;

    open spec fn view(&self) -> GadgetView {
        GadgetView {
            name: self.name@,
            command: self.command@,
            description: self.description@,
            variables: metas_view(self.variables@),
        }
    }
}

/// The views of a gadget list.
pub open spec fn gadgets_view(gs: Seq<Gadget>) -> Seq<GadgetView> {
    gs.map_values(|g: Gadget| g@)
}

/// A structural clone of a gadget, view-equal to the original.
pub fn clone_gadget(g: &Gadget) -> (r: Gadget)
    ensures
        r@ == g@,
{
    let mut variables: Vec<GadgetVariable> = Vec::new();
    let n = g.variables.len();
    let mut i: usize = 0;
    proof {
        assert(metas_view(g.variables@).take(0) =~= Seq::<MetaView>::empty());
        assert(metas_view(variables@) =~= Seq::<MetaView>::empty());
    }
    while i < n
        invariant
            i <= n,
            n == g.variables@.len(),
            metas_view(variables@) == metas_view(g.variables@).take(i as int),
        decreases n - i,
    {
        let ghost v0 = metas_view(variables@);
        variables.push(clone_variable(&g.variables[i]));
        proof {
            assert(metas_view(variables@) =~= v0.push(g.variables@[i as int]@));
            assert(metas_view(g.variables@).take(i as int + 1) =~= metas_view(
                g.variables@,
            ).take(i as int).push(metas_view(g.variables@)[i as int]));
        }
        i = i + 1;
    }
    proof {
        assert(metas_view(g.variables@).take(n as int) =~= metas_view(g.variables@));
    }
    Gadget {
        name: g.name.clone(),
        command: clone_command(&g.command),
        description: g.description.clone(),
        variables,
    }
}

/// Why a gadget could not be added to the store.
#[derive(Clone, Debug, PartialEq, Eq)]
pub enum GadgetAddError {
    /// The command has no placeholders, yet variable metadata was
    /// supplied.
    NoVariablesButDescriptions,
    /// The supplied metadata does not hold one entry per distinct
    /// detected variable; carries both name lists.
    VariableCountMismatch { detected: Vec<String>, provided: Vec<String> },
    /// A supplied variable name fails the allowed-character check.
    InvalidVariableName { name: String },
}

/// A name character: a word character or a dash. The stricter class
/// checked when a gadget is stored.
pub open spec fn is_name_char(c: char) -> bool {
    is_word_char(c) || c == '-'
}

/// A valid stored variable name: nonempty, name characters only.
pub open spec fn is_valid_name(s: Seq<char>) -> bool {
    s.len() > 0 && (forall|i: int| 0 <= i < s.len() ==> is_name_char(#[trigger] s[i]))
}

/// Exec check of the allowed-character rule for variable names.
pub fn valid_variable_name(name: &str) -> (r: bool)
    ensures
        r == is_valid_name(name@),
{
    let n = name.unicode_len();
    if n == 0 {
        return false;
    }
    let mut i: usize = 0;
    while i < n
        invariant
            i <= n,
            n == name@.len(),
            forall|j: int| 0 <= j < i ==> is_name_char(#[trigger] name@[j]),
        decreases n - i,
    {
        let c = name.get_char(i);
        if !(word_char(c) || c == '-') {
            return false;
        }
        i = i + 1;
    }
    true
}

/// The in-memory set of stored gadgets.
#[derive(Clone, Debug)]
pub struct GadgetStore(pub Vec<Gadget>);

/// The store contents after saving `g`: the first entry named like `g`
/// replaced by `g`, or `g` appended when no entry carries its name.
pub open spec fn spec_save(gs: Seq<GadgetView>, g: GadgetView) -> Seq<GadgetView>
    decreases gs.len(),
{
    if gs.len() == 0 {
        seq![g]
    } else if gs[0].name == g.name {
        seq![g] + gs.drop_first()
    } else {
        seq![gs[0]] + spec_save(gs.drop_first(), g)
    }
}

/// The store contents after deleting `name`: the first entry so named is
/// removed; without one the store is unchanged.
pub open spec fn spec_delete(gs: Seq<GadgetView>, name: Seq<char>) -> Seq<GadgetView>
    decreases gs.len(),
{
    if gs.len() == 0 {
        Seq::<GadgetView>::empty()
    } else if gs[0].name == name {
        gs.drop_first()
    } else {
        seq![gs[0]] + spec_delete(gs.drop_first(), name)
    }
}

proof fn lemma_spec_save_found(gs: Seq<GadgetView>, g: GadgetView, k: int)
    requires
        0 <= k < gs.len(),
        gs[k].name == g.name,
        forall|j: int| 0 <= j < k ==> gs[j].name != g.name,
    ensures
        spec_save(gs, g) == gs.update(k, g),
    decreases gs.len(),
{
    if k == 0 {
        assert(seq![g] + gs.drop_first() =~= gs.update(0, g));
    } else {
        assert forall|j: int| 0 <= j < k - 1 implies gs.drop_first()[j].name != g.name by {
            assert(gs.drop_first()[j] == gs[j + 1]);
        }
        assert(gs.drop_first()[k - 1] == gs[k]);
        lemma_spec_save_found(gs.drop_first(), g, k - 1);
        assert(gs.drop_first().update(k - 1, g) =~= gs.update(k, g).drop_first());
        assert(seq![gs[0]] + gs.update(k, g).drop_first() =~= gs.update(k, g));
    }
}

proof fn lemma_spec_save_absent(gs: Seq<GadgetView>, g: GadgetView)
    requires
        forall|j: int| 0 <= j < gs.len() ==> gs[j].name != g.name,
    ensures
        spec_save(gs, g) == gs.push(g),
    decreases gs.len(),
{
    if gs.len() == 0 {
        assert(spec_save(gs, g) =~= gs.push(g));
    } else {
        assert forall|j: int|
            0 <= j < gs.drop_first().len() implies gs.drop_first()[j].name != g.name by {
            assert(gs.drop_first()[j] == gs[j + 1]);
        }
        lemma_spec_save_absent(gs.drop_first(), g);
        assert(seq![gs[0]] + gs.drop_first().push(g) =~= gs.push(g));
    }
}

proof fn lemma_spec_delete_found(gs: Seq<GadgetView>, name: Seq<char>, k: int)
    requires
        0 <= k < gs.len(),
        gs[k].name == name,
        forall|j: int| 0 <= j < k ==> gs[j].name != name,
    ensures
        spec_delete(gs, name) == gs.remove(k),
    decreases gs.len(),
{
    if k == 0 {
        assert(gs.drop_first() =~= gs.remove(0));
    } else {
        assert forall|j: int| 0 <= j < k - 1 implies gs.drop_first()[j].name != name by {
            assert(gs.drop_first()[j] == gs[j + 1]);
        }
        assert(gs.drop_first()[k - 1] == gs[k]);
        lemma_spec_delete_found(gs.drop_first(), name, k - 1);
        assert(gs.drop_first().remove(k - 1) =~= gs.remove(k).drop_first());
        assert(gs.remove(k)[0] == gs[0]);
        assert(seq![gs[0]] + gs.remove(k).drop_first() =~= gs.remove(k));
    }
}

proof fn lemma_spec_delete_absent(gs: Seq<GadgetView>, name: Seq<char>)
    requires
        forall|j: int| 0 <= j < gs.len() ==> gs[j].name != name,
    ensures
        spec_delete(gs, name) == gs,
    decreases gs.len(),
{
    if gs.len() == 0 {
        assert(spec_delete(gs, name) =~= gs);
    } else {
        assert forall|j: int|
            0 <= j < gs.drop_first().len() implies gs.drop_first()[j].name != name by {
            assert(gs.drop_first()[j] == gs[j + 1]);
        }
        lemma_spec_delete_absent(gs.drop_first(), name);
        assert(seq![gs[0]] + gs.drop_first() =~= gs);
    }
}

impl GadgetStore {
    /// Gadget names are pairwise distinct.
    pub open spec fn wf(&self) -> bool {
        forall|i: int, j: int|
            0 <= i < j < self.0@.len() ==> self.0@[i]@.name != self.0@[j]@.name
    }

    /// Whether some stored gadget bears `name`.
    pub open spec fn has_gadget(&self, name: Seq<char>) -> bool {
        exists|i: int| 0 <= i < self.0@.len() && self.0@[i]@.name == name
    }

    /// The first stored gadget named `name`, if any.
    pub fn get_gadget(&self, name: &str) -> (r: Option<&Gadget>)
        ensures
            r is Some <==> self.has_gadget(name@),
            r matches Some(g) ==> g@.name == name@ && (exists|i: int|
                0 <= i < self.0@.len() && self.0@[i] == *g && (forall|j: int|
                    0 <= j < i ==> self.0@[j]@.name != name@)),
    {
        let n = self.0.len();
        let mut i: usize = 0;
        while i < n
            invariant
                i <= n,
                n == self.0@.len(),
                forall|j: int| 0 <= j < i ==> self.0@[j]@.name != name@,
            decreases n - i,
        {
            if str_eq(self.0[i].name.as_str(), name) {
                proof {
                    assert(self.0@[i as int]@.name == name@);
                }
                return Some(&self.0[i]);
            }
            i = i + 1;
        }
        proof {
            if self.has_gadget(name@) {
                let w = choose|w: int| 0 <= w < self.0@.len() && self.0@[w]@.name == name@;
                assert(false);
            }
        }
        None
    }

    /// All stored gadgets, in storage order.
    pub fn list_gadgets(&self) -> (r: Vec<&Gadget>)
        ensures
            r@.len() == self.0@.len(),
            forall|i: int| 0 <= i < r@.len() ==> r@[i] == self.0@[i],
    {
        let mut r: Vec<&Gadget> = Vec::new();
        let n = self.0.len();
        let mut i: usize = 0;
        while i < n
            invariant
                i <= n,
                n == self.0@.len(),
                r@.len() == i,
                forall|j: int| 0 <= j < i ==> r@[j] == self.0@[j],
            decreases n - i,
        {
            r.push(&self.0[i]);
            i = i + 1;
        }
        r
    }

    /// Inserts or replaces, in memory, the gadget under its own name:
    /// the first entry with that name is replaced, else the gadget is
    /// appended.
    pub fn save_gadget(&mut self, gadget: &Gadget)
        ensures
            gadgets_view(final(self).0@) == spec_save(gadgets_view(old(self).0@), gadget@),
            old(self).wf() ==> final(self).wf(),
    {
        let n = self.0.len();
        let mut i: usize = 0;
        while i < n
            invariant
                i <= n,
                n == self.0@.len(),
                self == old(self),
                forall|j: int| 0 <= j < i ==> self.0@[j]@.name != gadget@.name,
            decreases n - i,
        {
            if str_eq(self.0[i].name.as_str(), gadget.name.as_str()) {
                let replacement = clone_gadget(gadget);
                self.0[i] = replacement;
                proof {
                    lemma_spec_save_found(gadgets_view(old(self).0@), gadget@, i as int);
                    assert(gadgets_view(self.0@) =~= gadgets_view(old(self).0@).update(
                        i as int,
                        gadget@,
                    ));
                    if old(self).wf() {
                        assert forall|a: int, b: int|
                            0 <= a < b < self.0@.len() implies self.0@[a]@.name
                            != self.0@[b]@.name by {
                            assert(gadgets_view(self.0@)[a] == self.0@[a]@);
                            assert(gadgets_view(self.0@)[b] == self.0@[b]@);
                            assert(old(self).0@[i as int]@.name == gadget@.name);
                        }
                    }
                }
                return ;
            }
            i = i + 1;
        }
        self.0.push(clone_gadget(gadget));
        proof {
            lemma_spec_save_absent(gadgets_view(old(self).0@), gadget@);
            assert(gadgets_view(self.0@) =~= gadgets_view(old(self).0@).push(gadget@));
            if old(self).wf() {
                assert forall|a: int, b: int|
                    0 <= a < b < self.0@.len() implies self.0@[a]@.name != self.0@[b]@.name by {
                    assert(gadgets_view(self.0@)[a] == self.0@[a]@);
                    assert(gadgets_view(self.0@)[b] == self.0@[b]@);
                }
            }
        }
    }

    /// Removes, in memory, the first gadget named `name`, if any.
    pub fn delete_gadget(&mut self, name: &str)
        ensures
            gadgets_view(final(self).0@) == spec_delete(gadgets_view(old(self).0@), name@),
            old(self).wf() ==> final(self).wf(),
    {
        let n = self.0.len();
        let mut i: usize = 0;
        while i < n
            invariant
                i <= n,
                n == self.0@.len(),
                self == old(self),
                forall|j: int| 0 <= j < i ==> self.0@[j]@.name != name@,
            decreases n - i,
        {
            if str_eq(self.0[i].name.as_str(), name) {
                self.0.remove(i);
                proof {
                    lemma_spec_delete_found(gadgets_view(old(self).0@), name@, i as int);
                    assert(gadgets_view(self.0@) =~= gadgets_view(old(self).0@).remove(i as int));
                    if old(self).wf() {
                        assert forall|a: int, b: int|
                            0 <= a < b < self.0@.len() implies self.0@[a]@.name
                            != self.0@[b]@.name by {
                            assert(gadgets_view(self.0@)[a] == self.0@[a]@);
                            assert(gadgets_view(self.0@)[b] == self.0@[b]@);
                            if a < i as int {
                                assert(self.0@[a]@ == old(self).0@[a]@);
                            } else {
                                assert(self.0@[a]@ == old(self).0@[a + 1]@);
                            }
                            if b < i as int {
                                assert(self.0@[b]@ == old(self).0@[b]@);
                            } else {
                                assert(self.0@[b]@ == old(self).0@[b + 1]@);
                            }
                        }
                    }
                }
                return ;
            }
            i = i + 1;
        }
        proof {
            lemma_spec_delete_absent(gadgets_view(self.0@), name@);
        }
    }

    /// Validates a gadget and stores it: the supplied metadata must fit
    /// the variables detected in the command, in count and in its names'
    /// characters; the stored entry carries one metadata entry per
    /// distinct detected name, matched by name, blank where none was
    /// supplied. On error the store is unchanged.
    pub fn add(&mut self, gadget: Gadget) -> (r: Result<(), GadgetAddError>)
        ensures
            old(self).wf() ==> final(self).wf(),
            ({
                let detected = vars_of(parts_view(gadget.command.parts@));
                let dd = distinct_names(detected);
                let provided = metas_view(gadget.variables@);
                match r {
                    Ok(()) => {
                        &&& !(detected.len() == 0 && provided.len() > 0)
                        &&& !(detected.len() > 0 && dd.len() != provided.len())
                        &&& forall|k: int|
                            0 <= k < provided.len() ==> is_valid_name(
                                #[trigger] provided[k].name,
                            )
                        &&& gadgets_view(final(self).0@) == spec_save(
                            gadgets_view(old(self).0@),
                            GadgetView {
                                name: gadget.name@,
                                command: gadget.command@,
                                description: gadget.description@,
                                variables: Seq::new(
                                    dd.len(),
                                    |i: int| name_matched_entry(provided, dd[i]),
                                ),
                            },
                        )
                    },
                    Err(e) => {
                        &&& *final(self) == *old(self)
                        &&& match e {
                            GadgetAddError::NoVariablesButDescriptions => detected.len() == 0
                                && provided.len() > 0,
                            GadgetAddError::VariableCountMismatch { detected: d, provided: p } => {
                                &&& !(detected.len() == 0 && provided.len() > 0)
                                &&& detected.len() > 0
                                &&& dd.len() != provided.len()
                                &&& strings_view(d@) == dd
                                &&& strings_view(p@) == meta_names(provided)
                            },
                            GadgetAddError::InvalidVariableName { name } => {
                                &&& !(detected.len() == 0 && provided.len() > 0)
                                &&& !(detected.len() > 0 && dd.len() != provided.len())
                                &&& exists|k: int|
                                    0 <= k < provided.len() && (#[trigger] provided[k].name)
                                        == name@ && !is_valid_name(provided[k].name) && (forall|
                                        j: int,
                                    |
                                        0 <= j < k ==> is_valid_name(#[trigger] provided[j].name))
                            },
                        }
                    },
                }
            }),
    {
        let detected = variable_names(&gadget.command.parts);
        if detected.len() == 0 && gadget.variables.len() > 0 {
            return Err(GadgetAddError::NoVariablesButDescriptions);
        }
        let dd = distinct_strings(&detected);
        if detected.len() > 0 && dd.len() != gadget.variables.len() {
            let mut provided_names: Vec<String> = Vec::new();
            let m = gadget.variables.len();
            let mut t: usize = 0;
            proof {
                assert(meta_names(metas_view(gadget.variables@)).take(0) =~= Seq::<
                    Seq<char>,
                >::empty());
                assert(strings_view(provided_names@) =~= Seq::<Seq<char>>::empty());
            }
            while t < m
                invariant
                    t <= m,
                    m == gadget.variables@.len(),
                    strings_view(provided_names@) == meta_names(
                        metas_view(gadget.variables@),
                    ).take(t as int),
                decreases m - t,
            {
                let ghost p0 = strings_view(provided_names@);
                let ghost pn = meta_names(metas_view(gadget.variables@));
                provided_names.push(gadget.variables[t].name.clone());
                proof {
                    assert(strings_view(provided_names@) =~= p0.push(
                        gadget.variables@[t as int].name@,
                    ));
                    assert(pn.take(t as int + 1) =~= pn.take(t as int).push(pn[t as int]));
                }
                t = t + 1;
            }
            proof {
                let pn = meta_names(metas_view(gadget.variables@));
                assert(pn.take(m as int) =~= pn);
            }
            return Err(
                GadgetAddError::VariableCountMismatch { detected: dd, provided: provided_names },
            );
        }
        let m = gadget.variables.len();
        let mut t: usize = 0;
        while t < m
            invariant
                t <= m,
                m == gadget.variables@.len(),
                strings_view(detected@) == vars_of(parts_view(gadget.command.parts@)),
                strings_view(dd@) == distinct_names(vars_of(parts_view(gadget.command.parts@))),
                !(strings_view(detected@).len() == 0 && gadget.variables@.len() > 0),
                !(strings_view(detected@).len() > 0 && strings_view(dd@).len()
                    != gadget.variables@.len()),
                self == old(self),
                forall|j: int|
                    0 <= j < t ==> is_valid_name(
                        #[trigger] metas_view(gadget.variables@)[j].name,
                    ),
            decreases m - t,
        {
            if !valid_variable_name(gadget.variables[t].name.as_str()) {
                proof {
                    let provided = metas_view(gadget.variables@);
                    assert(provided[t as int].name == gadget.variables@[t as int].name@);
                    assert(!is_valid_name(provided[t as int].name));
                    assert(exists|k: int|
                        0 <= k < provided.len() && (#[trigger] provided[k].name)
                            == gadget.variables@[t as int].name@ && !is_valid_name(
                            provided[k].name,
                        ) && (forall|j: int|
                            0 <= j < k ==> is_valid_name(#[trigger] provided[j].name)));
                }
                return Err(
                    GadgetAddError::InvalidVariableName { name: gadget.variables[t].name.clone() },
                );
            }
            t = t + 1;
        }
        let ghost provided = metas_view(gadget.variables@);
        let ghost dd_spec = distinct_names(vars_of(parts_view(gadget.command.parts@)));
        let ghost expected_vars = Seq::new(
            dd_spec.len(),
            |i: int| name_matched_entry(provided, dd_spec[i]),
        );
        let mut new_vars: Vec<GadgetVariable> = Vec::new();
        let dn = dd.len();
        let mut i: usize = 0;
        proof {
            assert(expected_vars.take(0) =~= Seq::<MetaView>::empty());
            assert(metas_view(new_vars@) =~= Seq::<MetaView>::empty());
        }
        while i < dn
            invariant
                i <= dn,
                dn == dd@.len(),
                strings_view(dd@) == dd_spec,
                provided == metas_view(gadget.variables@),
                expected_vars == Seq::new(
                    dd_spec.len(),
                    |i: int| name_matched_entry(provided, dd_spec[i]),
                ),
                dd_spec.len() == dn,
                metas_view(new_vars@) == expected_vars.take(i as int),
            decreases dn - i,
        {
            let ghost v0 = metas_view(new_vars@);
            match find_in_metas(&gadget.variables, &dd[i]) {
                Some(k) => {
                    new_vars.push(
                        GadgetVariable {
                            name: gadget.variables[k].name.clone(),
                            description: gadget.variables[k].description.clone(),
                            default: clone_opt_string(&gadget.variables[k].default),
                        },
                    );
                },
                None => {
                    new_vars.push(
                        GadgetVariable {
                            name: dd[i].clone(),
                            description: String::new(),
                            default: None,
                        },
                    );
                },
            }
            proof {
                assert(metas_view(new_vars@) =~= v0.push(new_vars@.last()@));
                assert(new_vars@.last()@ == expected_vars[i as int]);
                assert(expected_vars.take(i as int + 1) =~= expected_vars.take(i as int).push(
                    expected_vars[i as int],
                ));
            }
            i = i + 1;
        }
        proof {
            assert(expected_vars.take(dn as int) =~= expected_vars);
        }
        let stored = Gadget {
            name: gadget.name,
            command: gadget.command,
            description: gadget.description,
            variables: new_vars,
        };
        self.save_gadget(&stored);
        Ok(())
    }
}

/// Validates an externally supplied flat description list against the
/// variables detected in a raw command string, and pairs descriptions
/// with the distinct detected names positionally: one metadata entry per
/// distinct name, description by position, no default.
pub fn pair_variable_descriptions(raw: &str, descriptions: &Vec<String>) -> (r: Result<
    Vec<GadgetVariable>,
    GadgetAddError,
>)
    ensures
        ({
            let detected = vars_of(spec_tokenize(raw@));
            let dd = distinct_names(detected);
            match r {
                Ok(vars) => {
                    &&& !(detected.len() == 0 && descriptions@.len() > 0)
                    &&& !(detected.len() > 0 && dd.len() != descriptions@.len())
                    &&& metas_view(vars@).len() == dd.len()
                    &&& forall|i: int|
                        0 <= i < dd.len() ==> (#[trigger] metas_view(vars@)[i]) == (MetaView {
                            name: dd[i],
                            description: strings_view(descriptions@)[i],
                            default: None,
                        })
                },
                Err(e) => match e {
                    GadgetAddError::NoVariablesButDescriptions => detected.len() == 0
                        && descriptions@.len() > 0,
                    GadgetAddError::VariableCountMismatch { detected: d, provided: p } => {
                        &&& detected.len() > 0
                        &&& dd.len() != descriptions@.len()
                        &&& strings_view(d@) == dd
                        &&& strings_view(p@) == strings_view(descriptions@)
                    },
                    GadgetAddError::InvalidVariableName { .. } => false,
                },
            }
        }),
{
    let parts = Command::parse_parts(raw);
    let detected = variable_names(&parts);
    if detected.len() == 0 && descriptions.len() > 0 {
        return Err(GadgetAddError::NoVariablesButDescriptions);
    }
    let dd = distinct_strings(&detected);
    if detected.len() > 0 && dd.len() != descriptions.len() {
        return Err(
            GadgetAddError::VariableCountMismatch {
                detected: dd,
                provided: clone_strings(descriptions),
            },
        );
    }
    let n = dd.len();
    let mut vars: Vec<GadgetVariable> = Vec::new();
    let mut i: usize = 0;
    while i < n
        invariant
            i <= n,
            n == dd@.len(),
            n == descriptions@.len(),
            strings_view(dd@) == distinct_names(vars_of(spec_tokenize(raw@))),
            metas_view(vars@).len() == i,
            forall|j: int|
                0 <= j < i ==> (#[trigger] metas_view(vars@)[j]) == (MetaView {
                    name: strings_view(dd@)[j],
                    description: strings_view(descriptions@)[j],
                    default: None,
                }),
        decreases n - i,
    {
        let ghost v0 = metas_view(vars@);
        vars.push(
            GadgetVariable {
                name: dd[i].clone(),
                description: descriptions[i].clone(),
                default: None,
            },
        );
        proof {
            assert(metas_view(vars@) =~= v0.push(vars@.last()@));
        }
        i = i + 1;
    }
    Ok(vars)
}

} // verus!
