//! Per-variable metadata: the user-facing description and optional
//! default value attached to one distinct placeholder name.

use vstd::prelude::*;

verus! {

/// Metadata for one template variable.
#[derive(Clone, Debug, PartialEq, Eq)]
pub struct GadgetVariable {
    pub name: String,
    pub description: String,
    pub default: Option<String>,
}

/// The mathematical value of one metadata entry.
#[verifier::ext_equal]
pub struct MetaView {
    pub name: Seq<char>,
    pub description: Seq<char>,
    pub default: Option<Seq<char>>,
}

impl View for GadgetVariable {
    type V = MetaView;

    open spec fn view(&self) -> MetaView {
        MetaView {
            name: self.name@,
            description: self.description@,
            default: match self.default {
                Some(d) => Some(d@),
                None => None,
            },
        }
    }
}

/// The views of a metadata list.
pub open spec fn metas_view(vs: Seq<GadgetVariable>) -> Seq<MetaView> {
    vs.map_values(|v: GadgetVariable| v@)
}

/// The names of a metadata list, in order.
pub open spec fn meta_names(ms: Seq<MetaView>) -> Seq<Seq<char>> {
    ms.map_values(|m: MetaView| m.name)
}

/// The first metadata entry named `name`, if any.
pub open spec fn find_meta(ms: Seq<MetaView>, name: Seq<char>) -> Option<MetaView>
    decreases ms.len(),
{
    if ms.len() == 0 {
        None
    } else if ms[0].name == name {
        Some(ms[0])
    } else {
        find_meta(ms.drop_first(), name)
    }
}

/// Fresh metadata for a newly appearing variable: empty description and
/// no default value.
pub open spec fn blank_meta(name: Seq<char>) -> MetaView {
    MetaView { name: name, description: Seq::<char>::empty(), default: None }
}

pub proof fn lemma_find_meta_name(ms: Seq<MetaView>, name: Seq<char>)
    ensures
        find_meta(ms, name) matches Some(m) ==> m.name == name,
    decreases ms.len(),
{
    if ms.len() > 0 && ms[0].name != name {
        lemma_find_meta_name(ms.drop_first(), name);
    }
}

/// When every entry of `ms` carries a different name, the search for the
/// name of entry `i` finds exactly entry `i`.
pub proof fn lemma_find_meta_at(ms: Seq<MetaView>, i: int)
    requires
        0 <= i < ms.len(),
        forall|j: int, k: int| 0 <= j < k < ms.len() ==> ms[j].name != ms[k].name,
    ensures
        find_meta(ms, ms[i].name) == Some(ms[i]),
    decreases ms.len(),
{
    if i > 0 {
        assert(ms[0].name != ms[i].name);
        assert forall|j: int, k: int|
            0 <= j < k < ms.drop_first().len() implies ms.drop_first()[j].name
            != ms.drop_first()[k].name by {
            assert(ms.drop_first()[j] == ms[j + 1]);
            assert(ms.drop_first()[k] == ms[k + 1]);
        }
        lemma_find_meta_at(ms.drop_first(), i - 1);
        assert(ms.drop_first()[i - 1] == ms[i]);
    }
}

/// A clone of an optional string, equal to the original.
pub fn clone_opt_string(o: &Option<String>) -> (r: Option<String>)
    ensures
        r == o,
{
    match o {
        Some(s) => Some(s.clone()),
        None => None,
    }
}

/// A clone of one metadata entry, view-equal to the original.
pub fn clone_variable(v: &GadgetVariable) -> (r: GadgetVariable)
    ensures
        r@ == v@,
{
    GadgetVariable {
        name: v.name.clone(),
        description: v.description.clone(),
        default: clone_opt_string(&v.default),
    }
}

/// Index of the first metadata entry named `name`, scanning from the
/// front, if any.
pub fn find_in_metas(vars: &Vec<GadgetVariable>, name: &String) -> (r: Option<usize>)
    ensures
        match r {
            Some(i) => i < vars@.len() && find_meta(metas_view(vars@), name@) == Some(
                vars@[i as int]@,
            ),
            None => find_meta(metas_view(vars@), name@) is None,
        },
{
    let n = vars.len();
    let mut idx: usize = 0;
    proof {
        assert(metas_view(vars@).skip(0) =~= metas_view(vars@));
    }
    while idx < n
        invariant
            idx <= n,
            n == vars@.len(),
            find_meta(metas_view(vars@), name@) == find_meta(
                metas_view(vars@).skip(idx as int),
                name@,
            ),
        decreases n - idx,
    {
        let ghost ms = metas_view(vars@);
        proof {
            assert(ms.skip(idx as int)[0] == ms[idx as int]);
        }
        if vars[idx].name.eq(name) {
            return Some(idx);
        }
        proof {
            assert(ms.skip(idx as int).drop_first() =~= ms.skip(idx as int + 1));
        }
        idx = idx + 1;
    }
    proof {
        assert(metas_view(vars@).skip(n as int) =~= Seq::<MetaView>::empty());
    }
    None
}

} // verus!
