//! The cross-feature laws the resolver upholds, stated and proved over the
//! state model: what a cascade enables and disables, the consistency and
//! exclusive-pair invariants with their preservation by every request, and
//! the sparse snapshot round trip.

use vstd::prelude::*;

use crate::registry::{FeatureModel, ValueModel};
use crate::device::{
    dep_ok, disable_result, enable_deps_fold, dep_step, has_feature, idx_of,
    lemma_dep_step_shape, lemma_enable_deps_fold_shape, lemma_idx_of_self,
    lemma_same_shape_lookup, lemma_slider_result_shape, lemma_toggle_result_shape,
    lemma_wf_same_shape, lemma_with_value_shape, pair_ok, partner_name, same_shape, slider_result,
    toggle_result, wf, with_value,
};
use crate::profile::{EntryModel, apply_entries, sparse_spec};

verus! {

/// Feature `j` is reachable from feature `i` along declared dependency
/// edges within `k` steps.
pub open spec fn is_dep_within(s: Seq<FeatureModel>, i: int, j: int, k: nat) -> bool
    decreases k,
{
    if s[i].deps.contains(s[j].name) {
        true
    } else if k == 0 {
        false
    } else {
        exists|m: int|
            0 <= m < s.len() && s[i].deps.contains((#[trigger] s[m]).name) && is_dep_within(
                s,
                m,
                j,
                (k - 1) as nat,
            )
    }
}

/// Feature `j` is a transitive dependency of feature `i`.
pub open spec fn is_transitive_dep(s: Seq<FeatureModel>, i: int, j: int) -> bool {
    exists|k: nat| is_dep_within(s, i, j, k)
}

/// Under well-formedness, dependency lists are transitively closed: a
/// transitive dependency is already named directly.
pub proof fn lemma_transitive_dep_is_direct(s: Seq<FeatureModel>, i: int, j: int, k: nat)
    requires
        wf(s),
        0 <= i < s.len(),
        0 <= j < s.len(),
        is_dep_within(s, i, j, k),
    ensures
        s[i].deps.contains(s[j].name),
    decreases k,
{
    if s[i].deps.contains(s[j].name) {
    } else {
        let m = choose|m: int|
            0 <= m < s.len() && s[i].deps.contains((#[trigger] s[m]).name) && is_dep_within(
                s,
                m,
                j,
                (k - 1) as nat,
            );
        lemma_transitive_dep_is_direct(s, m, j, (k - 1) as nat);
        let t = choose|t: int| 0 <= t < s[i].deps.len() && s[i].deps[t] == s[m].name;
        assert(dep_ok(s, i, s[i].deps[t]));
        lemma_idx_of_self(s, m);
        assert(idx_of(s, s[m].name) == m);
        let t2 = choose|t2: int| 0 <= t2 < s[m].deps.len() && s[m].deps[t2] == s[j].name;
        assert(s[i].deps.contains(s[m].deps[t2]));
    }
}

/// After the dependency fold has processed entry `t`, the feature it names
/// reads enabled, and stays so through the remaining steps.
proof fn lemma_fold_enables_dep(s: Seq<FeatureModel>, i: int, upto: int, t: int)
    requires
        wf(s),
        0 <= i < s.len(),
        0 <= t < upto <= s[i].deps.len(),
    ensures
        enable_deps_fold(s, s[i].deps, upto)[idx_of(s, s[i].deps[t])].is_enabled_toggle(),
    decreases upto,
{
    let deps = s[i].deps;
    assert forall|k: int|
        0 <= k < deps.len() implies has_feature(s, #[trigger] deps[k]) && s[idx_of(
        s,
        deps[k],
    )].is_toggle() by {
        assert(dep_ok(s, i, deps[k]));
    }
    let su = enable_deps_fold(s, deps, upto - 1);
    lemma_enable_deps_fold_shape(s, deps, upto - 1);
    let d = deps[upto - 1];
    assert(dep_ok(s, i, d));
    lemma_same_shape_lookup(s, su, d);
    let jd = idx_of(s, d);
    assert(idx_of(su, d) == jd);
    if upto - 1 == t {
        // this very step enables the dependency, or it was enabled already
        if su[jd].is_enabled_toggle() {
            assert(enable_deps_fold(s, deps, upto) == su);
        } else {
            assert(enable_deps_fold(s, deps, upto) == dep_step(su, d));
        }
    } else {
        lemma_fold_enables_dep(s, i, upto - 1, t);
        let jt = idx_of(s, deps[t]);
        assert(su[jt].is_enabled_toggle());
        // the one further step cannot disable an enabled dependency: the
        // only features it turns off are an exclusive partner of `d` and
        // that partner's dependents, and a partner of a dependency is
        // depended on by nothing
        if su[jd].is_enabled_toggle() {
            assert(enable_deps_fold(s, deps, upto) == su);
        } else {
            match partner_name(d) {
                Some(p) => {
                    assert(forall|j2: int|
                        0 <= j2 < s.len() ==> !(#[trigger] s[j2]).deps.contains(p));
                    if has_feature(su, p) && su[idx_of(su, p)].is_enabled_toggle() {
                        let pj = idx_of(su, p);
                        assert(su[pj].name == p);
                        // the partner is not the dependency we track: its
                        // name stands in no dependency list
                        assert(dep_ok(s, i, deps[t]));
                        assert(s[jt].name == deps[t]);
                        assert(deps.contains(deps[t]));
                        if s[jt].name == p {
                            assert(s[i].deps.contains(p));
                            assert(false);
                        }
                        assert(pj != jt);
                        assert(!su[jt].deps.contains(su[pj].name));
                        assert(disable_result(su, pj)[jt] == su[jt]);
                    }
                    assert(dep_step(su, d)[jt].is_enabled_toggle());
                },
                None => {
                    assert(dep_step(su, d)[jt].is_enabled_toggle());
                },
            }
        }
    }
}

/// For every toggle, enabling it results in the toggle itself and every
/// transitive dependency reading enabled.
pub proof fn lemma_enable_enables_transitive_deps(s: Seq<FeatureModel>, i: int, j: int)
    requires
        wf(s),
        0 <= i < s.len(),
        s[i].is_toggle(),
        0 <= j < s.len(),
        is_transitive_dep(s, i, j),
    ensures
        toggle_result(s, i, true)[i].is_enabled_toggle(),
        toggle_result(s, i, true)[j].is_enabled_toggle(),
{
    let k = choose|k: nat| is_dep_within(s, i, j, k);
    lemma_transitive_dep_is_direct(s, i, j, k);
    assert(s[i].deps.contains(s[j].name));
    // a feature with dependencies has no exclusive partner
    match partner_name(s[i].name) {
        Some(p) => {
            assert(pair_ok(s, i));
            assert(false);
        },
        None => {},
    }
    let deps = s[i].deps;
    let t = choose|t: int| 0 <= t < deps.len() && deps[t] == s[j].name;
    lemma_fold_enables_dep(s, i, deps.len() as int, t);
    lemma_idx_of_self(s, j);
    assert(idx_of(s, deps[t]) == j);
    assert forall|k: int|
        0 <= k < deps.len() implies has_feature(s, #[trigger] deps[k]) && s[idx_of(
        s,
        deps[k],
    )].is_toggle() by {
        assert(dep_ok(s, i, deps[k]));
    }
    lemma_enable_deps_fold_shape(s, deps, deps.len() as int);
    let s2 = enable_deps_fold(s, deps, deps.len() as int);
    assert(s2[j].is_enabled_toggle());
    assert(dep_ok(s, i, deps[t]));
    assert(j != i);
    assert(toggle_result(s, i, true)[j] == s2[j]);
}

/// For every toggle, disabling it results in every enabled toggle that
/// transitively depends on it reading disabled, while every slider,
/// dependent or not, keeps its stored position.
pub proof fn lemma_disable_disables_dependents(s: Seq<FeatureModel>, i: int, j: int)
    requires
        wf(s),
        0 <= i < s.len(),
        0 <= j < s.len(),
        is_transitive_dep(s, j, i),
    ensures
        s[j].is_toggle() ==> !toggle_result(s, i, false)[j].is_enabled_toggle(),
        s[j].is_slider() ==> toggle_result(s, i, false)[j].value == s[j].value,
        !toggle_result(s, i, false)[i].is_enabled_toggle(),
{
    let k = choose|k: nat| is_dep_within(s, j, i, k);
    lemma_transitive_dep_is_direct(s, j, i, k);
    assert(s[j].deps.contains(s[i].name));
}

/// A toggle request, enabling or disabling, never changes the stored
/// position of any slider.
pub proof fn lemma_toggle_keeps_sliders(s: Seq<FeatureModel>, i: int, v: bool, j: int)
    requires
        wf(s),
        0 <= i < s.len(),
        s[i].is_toggle(),
        0 <= j < s.len(),
        s[j].is_slider(),
    ensures
        toggle_result(s, i, v)[j].value == s[j].value,
{
    if v {
        let s1 = match partner_name(s[i].name) {
            Some(p) => if has_feature(s, p) && s[idx_of(s, p)].is_enabled_toggle() {
                disable_result(s, idx_of(s, p))
            } else {
                s
            },
            None => s,
        };
        match partner_name(s[i].name) {
            Some(p) => {
                if has_feature(s, p) && s[idx_of(s, p)].is_enabled_toggle() {
                    assert(pair_ok(s, i));
                    crate::device::lemma_disable_result_shape(s, idx_of(s, p));
                }
            },
            None => {},
        }
        assert(same_shape(s, s1));
        lemma_wf_same_shape(s, s1);
        assert(s1[j].value == s[j].value);
        assert(s1[j].is_slider());
        let deps = s[i].deps;
        assert(s1[i].deps == deps);
        assert forall|k: int|
            0 <= k < deps.len() implies has_feature(s1, #[trigger] deps[k]) && s1[idx_of(
            s1,
            deps[k],
        )].is_toggle() by {
            assert(dep_ok(s, i, deps[k]));
            lemma_same_shape_lookup(s, s1, deps[k]);
        }
        lemma_fold_keeps_sliders(s1, deps, deps.len() as int, j);
        lemma_enable_deps_fold_shape(s1, deps, deps.len() as int);
        let s2 = enable_deps_fold(s1, deps, deps.len() as int);
        assert(s2[j].value == s[j].value);
        assert(j != i);
        assert(toggle_result(s, i, v)[j] == s2[j]);
    } else {
        assert(toggle_result(s, i, v)[j] == s[j]);
    }
}

/// The dependency fold never changes the stored position of a slider.
pub proof fn lemma_fold_keeps_sliders(s: Seq<FeatureModel>, deps: Seq<Seq<char>>, upto: int, j: int)
    requires
        wf(s),
        0 <= upto <= deps.len(),
        forall|k: int|
            0 <= k < upto ==> has_feature(s, #[trigger] deps[k]) && s[idx_of(s, deps[k])].is_toggle(),
        0 <= j < s.len(),
        s[j].is_slider(),
    ensures
        enable_deps_fold(s, deps, upto)[j].value == s[j].value,
    decreases upto,
{
    if upto <= 0 {
    } else {
        lemma_fold_keeps_sliders(s, deps, upto - 1, j);
        let su = enable_deps_fold(s, deps, upto - 1);
        lemma_enable_deps_fold_shape(s, deps, upto - 1);
        let d = deps[upto - 1];
        lemma_same_shape_lookup(s, su, d);
        let jd = idx_of(su, d);
        assert(su[jd].is_toggle());
        assert(jd != j);
        if su[jd].is_enabled_toggle() {
        } else {
            match partner_name(d) {
                Some(p) => {
                    if has_feature(su, p) && su[idx_of(su, p)].is_enabled_toggle() {
                        let pj = idx_of(su, p);
                        assert(su[pj].is_toggle()) by {
                            lemma_wf_same_shape(s, su);
                            assert(pair_ok(su, jd));
                        }
                        assert(pj != j);
                        assert(disable_result(su, pj)[j] == su[j]);
                    }
                },
                None => {},
            }
        }
    }
}

/// The configuration consistency invariant: no toggle reads enabled while
/// one of its dependencies reads disabled.
pub open spec fn deps_closed(s: Seq<FeatureModel>) -> bool {
    forall|j: int, k: int|
        0 <= j < s.len() && s[j].is_enabled_toggle() && 0 <= k < s[j].deps.len() ==> has_feature(
            s,
            #[trigger] s[j].deps[k],
        ) && s[idx_of(s, s[j].deps[k])].is_enabled_toggle()
}

/// Like `deps_closed`, but dependencies named in `exempt` may still be
/// disabled: the intermediate states of an enable cascade satisfy this
/// with the request's own dependency list as the exemption.
pub open spec fn almost_closed(s: Seq<FeatureModel>, exempt: Seq<Seq<char>>) -> bool {
    forall|j: int, k: int|
        0 <= j < s.len() && s[j].is_enabled_toggle() && 0 <= k < s[j].deps.len() ==> exempt.contains(
            #[trigger] s[j].deps[k],
        ) || (has_feature(s, s[j].deps[k]) && s[idx_of(s, s[j].deps[k])].is_enabled_toggle())
}

/// A disable cascade preserves consistency outright: any toggle whose
/// dependency it turned off is a transitive dependent and was turned off
/// with it.
pub proof fn lemma_disable_preserves_consistency(s: Seq<FeatureModel>, p: int)
    requires
        wf(s),
        deps_closed(s),
        0 <= p < s.len(),
    ensures
        deps_closed(disable_result(s, p)),
{
    let t = disable_result(s, p);
    assert forall|j: int, k: int|
        0 <= j < t.len() && t[j].is_enabled_toggle() && 0 <= k < t[j].deps.len() implies
        has_feature(t, #[trigger] t[j].deps[k]) && t[idx_of(t, t[j].deps[k])].is_enabled_toggle()
        by {
        // a toggle still enabled is no dependent of `p`
        assert(s[j].is_enabled_toggle());
        assert(!s[j].deps.contains(s[p].name));
        let d = s[j].deps[k];
        assert(dep_ok(s, j, d));
        assert(has_feature(s, d));
        let jd = idx_of(s, d);
        assert(s[jd].is_enabled_toggle());
        // its dependency is no dependent of `p` either: otherwise `p`
        // would stand in the toggle's own closed list
        if jd == p {
            lemma_idx_of_self(s, p);
            assert(s[j].deps.contains(s[p].name));
            assert(false);
        }
        if s[jd].deps.contains(s[p].name) {
            lemma_idx_of_self(s, jd);
            let kk = choose|kk: int| 0 <= kk < s[jd].deps.len() && s[jd].deps[kk] == s[p].name;
            assert(s[j].deps.contains(s[jd].deps[kk]));
            assert(false);
        }
        assert(t[jd] == s[jd]);
        assert(t[jd].name == d);
        assert(has_feature(t, d));
        let jd2 = idx_of(t, d);
        assert(0 <= jd2 < t.len() && t[jd2].name == d);
        assert(s[jd2].name == d);
        assert(jd2 == jd);
    }
}

/// One dependency step keeps the weakened invariant, provided the
/// dependency is a toggle whose own requirements are all exempt and whose
/// exclusive partner, if any, is depended on by nothing.
proof fn lemma_dep_step_almost_closed(
    s: Seq<FeatureModel>,
    dname: Seq<char>,
    exempt: Seq<Seq<char>>,
)
    requires
        wf(s),
        almost_closed(s, exempt),
        has_feature(s, dname) ==> s[idx_of(s, dname)].is_toggle(),
        has_feature(s, dname) ==> forall|k: int|
            0 <= k < s[idx_of(s, dname)].deps.len() ==> exempt.contains(
                #[trigger] s[idx_of(s, dname)].deps[k],
            ),
        match partner_name(dname) {
            Some(p) => forall|j2: int| 0 <= j2 < s.len() ==> !(#[trigger] s[j2]).deps.contains(p),
            None => true,
        },
    ensures
        almost_closed(dep_step(s, dname), exempt),
{
    if !has_feature(s, dname) || s[idx_of(s, dname)].is_enabled_toggle() {
        return ;
    }
    let d = idx_of(s, dname);
    let s1 = match partner_name(dname) {
        Some(p) => if has_feature(s, p) && s[idx_of(s, p)].is_enabled_toggle() {
            disable_result(s, idx_of(s, p))
        } else {
            s
        },
        None => s,
    };
    lemma_dep_step_shape(s, dname);
    // the optional partner cascade touches only the partner itself: its
    // name stands in no dependency list, so no toggle loses a dependency
    assert forall|j: int, k: int|
        0 <= j < s1.len() && s1[j].is_enabled_toggle() && 0 <= k < s1[j].deps.len() implies
        exempt.contains(#[trigger] s1[j].deps[k]) || (has_feature(s1, s1[j].deps[k]) && s1[idx_of(
            s1,
            s1[j].deps[k],
        )].is_enabled_toggle()) by {
        match partner_name(dname) {
            Some(p) => {
                if has_feature(s, p) && s[idx_of(s, p)].is_enabled_toggle() {
                    let pj = idx_of(s, p);
                    assert(s1 == disable_result(s, pj));
                    assert(s1[j].deps == s[j].deps);
                    assert(s[j].is_enabled_toggle());
                    let dn = s[j].deps[k];
                    if !exempt.contains(dn) {
                        assert(has_feature(s, dn) && s[idx_of(s, dn)].is_enabled_toggle());
                        let jd = idx_of(s, dn);
                        if jd == pj {
                            lemma_idx_of_self(s, pj);
                            assert(s[j].deps.contains(p));
                            assert(false);
                        }
                        if s[jd].deps.contains(s[pj].name) {
                            assert(s[j].deps.contains(dn));
                            assert(false);
                        }
                        assert(s1[jd] == s[jd]);
                        crate::device::lemma_disable_result_shape(s, pj);
                        lemma_same_shape_lookup(s, s1, dn);
                        assert(s1[idx_of(s1, dn)].is_enabled_toggle());
                    }
                } else {
                    assert(s1 == s);
                }
            },
            None => {
                assert(s1 == s);
            },
        }
    }
    let t = with_value(s1, d, ValueModel::Toggle(true));
    assert(dep_step(s, dname) == t);
    // enabling the dependency itself cannot break the invariant: its own
    // requirements are exempt, and no other toggle's dependency was
    // turned off
    assert forall|j: int, k: int|
        0 <= j < t.len() && t[j].is_enabled_toggle() && 0 <= k < t[j].deps.len() implies
        exempt.contains(#[trigger] t[j].deps[k]) || (has_feature(t, t[j].deps[k]) && t[idx_of(
            t,
            t[j].deps[k],
        )].is_enabled_toggle()) by {
        assert(t[j].deps == s1[j].deps);
        let dn = t[j].deps[k];
        if j == d {
            assert(s[d].deps == s1[d].deps);
            assert(exempt.contains(dn));
        } else {
            assert(s1[j].is_enabled_toggle());
            if !exempt.contains(dn) {
                assert(has_feature(s1, dn) && s1[idx_of(s1, dn)].is_enabled_toggle());
                let jd = idx_of(s1, dn);
                assert(t[jd].is_enabled_toggle());
                assert(t[jd].name == dn);
                assert(has_feature(t, dn));
                let jd2 = idx_of(t, dn);
                assert(t[jd2].name == dn);
                assert(s1[jd2].name == dn);
                assert(s1[jd].name == dn);
                lemma_wf_same_shape(s, s1);
                assert(jd2 == jd);
            }
        }
    }
}

/// The dependency fold of feature `i` keeps the weakened invariant, with
/// `i`'s own dependency list as the exemption.
proof fn lemma_fold_almost_closed(s: Seq<FeatureModel>, i: int, upto: int)
    requires
        wf(s),
        0 <= i < s.len(),
        0 <= upto <= s[i].deps.len(),
        almost_closed(s, s[i].deps),
    ensures
        almost_closed(enable_deps_fold(s, s[i].deps, upto), s[i].deps),
    decreases upto,
{
    if upto <= 0 {
    } else {
        lemma_fold_almost_closed(s, i, upto - 1);
        let deps = s[i].deps;
        assert forall|k: int|
            0 <= k < deps.len() implies has_feature(s, #[trigger] deps[k]) && s[idx_of(
            s,
            deps[k],
        )].is_toggle() by {
            assert(dep_ok(s, i, deps[k]));
        }
        let su = enable_deps_fold(s, deps, upto - 1);
        lemma_enable_deps_fold_shape(s, deps, upto - 1);
        let d = deps[upto - 1];
        assert(dep_ok(s, i, d));
        lemma_same_shape_lookup(s, su, d);
        let jd = idx_of(s, d);
        assert(idx_of(su, d) == jd);
        assert(su[jd].is_toggle());
        // the dependency's own requirements are exempt, by the transitive
        // closure of the list
        assert forall|k2: int|
            0 <= k2 < su[idx_of(su, d)].deps.len() implies deps.contains(
                #[trigger] su[idx_of(su, d)].deps[k2],
            ) by {
            assert(su[jd].deps == s[jd].deps);
            assert(deps.contains(s[jd].deps[k2]));
        }
        // and its partner, if any, is depended on by nothing, in `su` as
        // in `s`
        match partner_name(d) {
            Some(p) => {
                assert forall|j2: int|
                    0 <= j2 < su.len() implies !(#[trigger] su[j2]).deps.contains(p) by {
                    assert(su[j2].deps == s[j2].deps);
                }
            },
            None => {},
        }
        lemma_wf_same_shape(s, su);
        lemma_dep_step_almost_closed(su, d, deps);
    }
}

/// The consistency invariant is preserved by every toggle request: a
/// feature is never left enabled while one of its dependencies is
/// disabled.
pub proof fn lemma_toggle_preserves_consistency(s: Seq<FeatureModel>, i: int, v: bool)
    requires
        wf(s),
        deps_closed(s),
        0 <= i < s.len(),
        s[i].is_toggle(),
    ensures
        deps_closed(toggle_result(s, i, v)),
{
    if !v {
        lemma_disable_preserves_consistency(s, i);
        return ;
    }
    lemma_toggle_result_shape(s, i, v);
    let s1 = match partner_name(s[i].name) {
        Some(p) => if has_feature(s, p) && s[idx_of(s, p)].is_enabled_toggle() {
            disable_result(s, idx_of(s, p))
        } else {
            s
        },
        None => s,
    };
    match partner_name(s[i].name) {
        Some(p) => {
            if has_feature(s, p) && s[idx_of(s, p)].is_enabled_toggle() {
                assert(pair_ok(s, i));
                lemma_disable_preserves_consistency(s, idx_of(s, p));
                crate::device::lemma_disable_result_shape(s, idx_of(s, p));
            }
        },
        None => {},
    }
    assert(same_shape(s, s1));
    lemma_wf_same_shape(s, s1);
    assert(deps_closed(s1));
    let deps = s[i].deps;
    assert(s1[i].deps == deps);
    // consistency is the weakened invariant with nothing yet to exempt
    assert forall|j: int, k: int|
        0 <= j < s1.len() && s1[j].is_enabled_toggle() && 0 <= k < s1[j].deps.len() implies
        deps.contains(#[trigger] s1[j].deps[k]) || (has_feature(s1, s1[j].deps[k]) && s1[idx_of(
            s1,
            s1[j].deps[k],
        )].is_enabled_toggle()) by {
        assert(has_feature(s1, s1[j].deps[k]) && s1[idx_of(s1, s1[j].deps[k])].is_enabled_toggle());
    }
    assert(almost_closed(s1, deps));
    lemma_fold_almost_closed(s1, i, deps.len() as int);
    let s2 = enable_deps_fold(s1, deps, deps.len() as int);
    assert forall|k: int|
        0 <= k < deps.len() implies has_feature(s1, #[trigger] deps[k]) && s1[idx_of(
        s1,
        deps[k],
    )].is_toggle() by {
        assert(dep_ok(s1, i, deps[k]));
    }
    lemma_enable_deps_fold_shape(s1, deps, deps.len() as int);
    lemma_wf_same_shape(s1, s2);
    // after the fold, every exempted dependency reads enabled
    assert forall|t: int|
        0 <= t < deps.len() implies s2[idx_of(s1, #[trigger] deps[t])].is_enabled_toggle() by {
        lemma_fold_enables_dep(s1, i, deps.len() as int, t);
    }
    let t2 = with_value(s2, i, ValueModel::Toggle(true));
    assert(toggle_result(s, i, v) == t2);
    lemma_with_value_shape(s2, i, ValueModel::Toggle(true));
    assert forall|j: int, k: int|
        0 <= j < t2.len() && t2[j].is_enabled_toggle() && 0 <= k < t2[j].deps.len() implies
        has_feature(t2, #[trigger] t2[j].deps[k]) && t2[idx_of(
            t2,
            t2[j].deps[k],
        )].is_enabled_toggle() by {
        assert(t2[j].deps == s2[j].deps);
        assert(s2[j].deps == s1[j].deps && s1[j].deps == s[j].deps);
        let dn = t2[j].deps[k];
        if j == i {
            // the request's own entries are all in its exempted list
            assert(dn == deps[k]);
            assert(deps.contains(dn));
        }
        if deps.contains(dn) {
            // an exempted dependency reads enabled after the fold
            let t = choose|t: int| 0 <= t < deps.len() && deps[t] == dn;
            assert(dep_ok(s, i, deps[t]));
            assert(has_feature(s, dn));
            lemma_same_shape_lookup(s, s1, dn);
            assert(s2[idx_of(s1, deps[t])].is_enabled_toggle());
            let jd = idx_of(s, dn);
            assert(idx_of(s1, dn) == jd);
            assert(s2[jd].is_enabled_toggle());
            assert(jd != i);
            assert(t2[jd] == s2[jd]);
            lemma_same_shape_lookup(s, t2, dn);
            assert(idx_of(t2, dn) == jd);
        } else {
            // any other dependency of an enabled toggle was enabled
            // already, and enabling the requested feature removes nothing
            assert(j != i);
            assert(t2[j] == s2[j]);
            assert(s2[j].is_enabled_toggle());
            assert(has_feature(s2, dn) && s2[idx_of(s2, dn)].is_enabled_toggle());
            let jd2 = idx_of(s2, dn);
            lemma_same_shape_lookup(s2, t2, dn);
            assert(idx_of(t2, dn) == jd2);
            if jd2 == i {
                assert(t2[i].is_enabled_toggle());
            } else {
                assert(t2[jd2] == s2[jd2]);
            }
        }
    }
}

/// A state with every toggle off is consistent and has no doubly-enabled
/// pair: together with the preservation results this carries both
/// invariants from the default catalog through every sequence of requests.
pub proof fn lemma_all_off_consistent(s: Seq<FeatureModel>)
    requires
        forall|j: int| 0 <= j < s.len() ==> !(#[trigger] s[j]).is_enabled_toggle(),
    ensures
        deps_closed(s),
        excl_ok(s),
{
}

/// The consistency invariant is preserved by every slider request too:
/// the dependency cascade runs before the position is stored.
pub proof fn lemma_slider_preserves_consistency(s: Seq<FeatureModel>, i: int, c: int)
    requires
        wf(s),
        deps_closed(s),
        0 <= i < s.len(),
        s[i].is_slider(),
    ensures
        deps_closed(crate::device::slider_result(s, i, c)),
{
    let deps = s[i].deps;
    assert forall|j: int, k: int|
        0 <= j < s.len() && s[j].is_enabled_toggle() && 0 <= k < s[j].deps.len() implies
        deps.contains(#[trigger] s[j].deps[k]) || (has_feature(s, s[j].deps[k]) && s[idx_of(
            s,
            s[j].deps[k],
        )].is_enabled_toggle()) by {
        assert(has_feature(s, s[j].deps[k]) && s[idx_of(s, s[j].deps[k])].is_enabled_toggle());
    }
    assert(almost_closed(s, deps));
    lemma_fold_almost_closed(s, i, deps.len() as int);
    let s2 = enable_deps_fold(s, deps, deps.len() as int);
    assert forall|k: int|
        0 <= k < deps.len() implies has_feature(s, #[trigger] deps[k]) && s[idx_of(
        s,
        deps[k],
    )].is_toggle() by {
        assert(dep_ok(s, i, deps[k]));
    }
    lemma_enable_deps_fold_shape(s, deps, deps.len() as int);
    lemma_wf_same_shape(s, s2);
    assert forall|t: int|
        0 <= t < deps.len() implies s2[idx_of(s, #[trigger] deps[t])].is_enabled_toggle() by {
        lemma_fold_enables_dep(s, i, deps.len() as int, t);
    }
    let t2 = with_value(s2, i, ValueModel::Slider(c));
    assert(crate::device::slider_result(s, i, c) == t2);
    lemma_with_value_shape(s2, i, ValueModel::Slider(c));
    assert forall|j: int, k: int|
        0 <= j < t2.len() && t2[j].is_enabled_toggle() && 0 <= k < t2[j].deps.len() implies
        has_feature(t2, #[trigger] t2[j].deps[k]) && t2[idx_of(
            t2,
            t2[j].deps[k],
        )].is_enabled_toggle() by {
        assert(t2[j].deps == s2[j].deps && s2[j].deps == s[j].deps);
        let dn = t2[j].deps[k];
        // the stored position changes no toggle: the request's feature is
        // a slider
        assert(j != i);
        assert(t2[j] == s2[j]);
        assert(s2[j].is_enabled_toggle());
        if deps.contains(dn) {
            let t = choose|t: int| 0 <= t < deps.len() && deps[t] == dn;
            assert(dep_ok(s, i, deps[t]));
            assert(has_feature(s, dn));
            assert(s2[idx_of(s, deps[t])].is_enabled_toggle());
            let jd = idx_of(s, dn);
            assert(s2[jd].is_enabled_toggle());
            assert(jd != i);
            assert(t2[jd] == s2[jd]);
            lemma_same_shape_lookup(s, t2, dn);
            assert(idx_of(t2, dn) == jd);
        } else {
            assert(has_feature(s2, dn) && s2[idx_of(s2, dn)].is_enabled_toggle());
            let jd2 = idx_of(s2, dn);
            assert(jd2 != i);
            lemma_same_shape_lookup(s2, t2, dn);
            assert(idx_of(t2, dn) == jd2);
            assert(t2[jd2] == s2[jd2]);
        }
    }
}

/// No exclusive pair reads both members enabled.  Holds of the default
/// state and of every state a toggle request leaves behind.
pub open spec fn excl_ok(s: Seq<FeatureModel>) -> bool {
    forall|i: int|
        0 <= i < s.len() && (#[trigger] s[i]).is_enabled_toggle() ==> match partner_name(
            s[i].name,
        ) {
            Some(p) => !(has_feature(s, p) && s[idx_of(s, p)].is_enabled_toggle()),
            None => true,
        }
}

/// Every slider away from zero has all its dependencies enabled.  A
/// disable cascade deliberately leaves dependent sliders at their stored
/// positions, so this can be broken by disabling a suite under a slider;
/// the snapshot round trip is stated without such states.
pub open spec fn sliders_supported(s: Seq<FeatureModel>) -> bool {
    forall|i: int, k: int|
        0 <= i < s.len() && (s[i].value matches ValueModel::Slider(c) && c != 0) && 0 <= k
            < s[i].deps.len() ==> has_feature(s, #[trigger] s[i].deps[k]) && s[idx_of(
            s,
            s[i].deps[k],
        )].is_enabled_toggle()
}

/// The state of the same shape as `s` with every value at its default.
pub open spec fn default_state(s: Seq<FeatureModel>) -> Seq<FeatureModel> {
    Seq::new(
        s.len(),
        |j: int|
            FeatureModel {
                value: if s[j].is_toggle() {
                    ValueModel::Toggle(false)
                } else {
                    ValueModel::Slider(0)
                },
                ..s[j]
            },
    )
}

/// Replaying a prefix depends only on the entries in that prefix.
proof fn lemma_apply_entries_prefix_stable(
    d: Seq<FeatureModel>,
    es1: Seq<EntryModel>,
    es2: Seq<EntryModel>,
    m: int,
)
    requires
        0 <= m <= es1.len(),
        m <= es2.len(),
        forall|t: int| 0 <= t < m ==> es1[t] == es2[t],
    ensures
        apply_entries(d, es1, m) == apply_entries(d, es2, m),
    decreases m,
{
    if m > 0 {
        lemma_apply_entries_prefix_stable(d, es1, es2, m - 1);
    }
}

/// A disable cascade cannot create a doubly-enabled pair: it only turns
/// toggles off.
pub proof fn lemma_disable_preserves_excl(s: Seq<FeatureModel>, p: int)
    requires
        wf(s),
        excl_ok(s),
        0 <= p < s.len(),
    ensures
        excl_ok(disable_result(s, p)),
{
    let t = disable_result(s, p);
    assert forall|i: int|
        0 <= i < t.len() && (#[trigger] t[i]).is_enabled_toggle() implies match partner_name(
        t[i].name,
    ) {
        Some(q) => !(has_feature(t, q) && t[idx_of(t, q)].is_enabled_toggle()),
        None => true,
    } by {
        assert(s[i].is_enabled_toggle());
        match partner_name(t[i].name) {
            Some(q) => {
                if has_feature(t, q) && t[idx_of(t, q)].is_enabled_toggle() {
                    let qj = idx_of(t, q);
                    assert(t[qj].name == q);
                    assert(s[qj].name == q);
                    assert(has_feature(s, q));
                    assert(s[qj].is_enabled_toggle());
                    lemma_idx_of_self(s, qj);
                    assert(idx_of(s, q) == qj);
                    assert(false);
                }
            },
            None => {},
        }
    }
}

/// One dependency step cannot create a doubly-enabled pair: an enabled
/// partner is turned off before the dependency is enabled.
proof fn lemma_dep_step_excl(s: Seq<FeatureModel>, dname: Seq<char>)
    requires
        wf(s),
        excl_ok(s),
        has_feature(s, dname) ==> s[idx_of(s, dname)].is_toggle(),
    ensures
        excl_ok(dep_step(s, dname)),
{
    if !has_feature(s, dname) || s[idx_of(s, dname)].is_enabled_toggle() {
        return ;
    }
    let jd = idx_of(s, dname);
    let s1 = match partner_name(dname) {
        Some(p) => if has_feature(s, p) && s[idx_of(s, p)].is_enabled_toggle() {
            disable_result(s, idx_of(s, p))
        } else {
            s
        },
        None => s,
    };
    match partner_name(dname) {
        Some(p) => {
            if has_feature(s, p) && s[idx_of(s, p)].is_enabled_toggle() {
                assert(pair_ok(s, jd));
                lemma_disable_preserves_excl(s, idx_of(s, p));
                crate::device::lemma_disable_result_shape(s, idx_of(s, p));
            }
        },
        None => {},
    }
    assert(same_shape(s, s1));
    lemma_wf_same_shape(s, s1);
    assert(excl_ok(s1));
    let t = with_value(s1, jd, ValueModel::Toggle(true));
    assert(dep_step(s, dname) == t);
    assert forall|i: int|
        0 <= i < t.len() && (#[trigger] t[i]).is_enabled_toggle() implies match partner_name(
        t[i].name,
    ) {
        Some(q) => !(has_feature(t, q) && t[idx_of(t, q)].is_enabled_toggle()),
        None => true,
    } by {
        match partner_name(t[i].name) {
            Some(q) => {
                if has_feature(t, q) && t[idx_of(t, q)].is_enabled_toggle() {
                    let qj = idx_of(t, q);
                    assert(t[qj].name == q);
                    assert(s1[qj].name == q);
                    assert(s[qj].name == q);
                    assert(has_feature(s, q));
                    lemma_same_shape_lookup(s, s1, q);
                    lemma_idx_of_self(s1, qj);
                    assert(idx_of(s1, q) == qj);
                    if i == jd {
                        // the newly enabled dependency: its partner was
                        // just turned off, or already read disabled
                        assert(t[i].name == dname);
                        assert(partner_name(dname) == Some(q));
                        assert(pair_ok(s, jd));
                        assert(idx_of(s, q) == qj);
                        assert(qj != jd);
                        assert(t[qj] == s1[qj]);
                        if has_feature(s, q) && s[idx_of(s, q)].is_enabled_toggle() {
                            assert(s1 == disable_result(s, qj));
                            assert(!s1[qj].is_enabled_toggle());
                        } else {
                            assert(s1[qj].value == s[qj].value);
                            assert(!s1[qj].is_enabled_toggle());
                        }
                        assert(false);
                    } else {
                        // an untouched pair: both members were enabled
                        // before the step, against the invariant
                        assert(t[i] == s1[i]);
                        assert(s1[i].is_enabled_toggle());
                        if qj == jd {
                            // the partner cannot be the dependency: the
                            // pair relation is symmetric and `i` would be
                            // the partner just handled
                            assert(s1[qj].name == dname);
                            assert(partner_name(t[i].name) == Some(dname));
                            assert(partner_name(dname) == Some(t[i].name));
                            assert(pair_ok(s1, jd));
                            assert(idx_of(s1, t[i].name) == i) by {
                                lemma_idx_of_self(s1, i);
                            }
                            assert(!s1[i].is_enabled_toggle());
                            assert(false);
                        }
                        assert(t[qj] == s1[qj]);
                        assert(s1[qj].is_enabled_toggle());
                        assert(excl_ok(s1));
                        assert(false);
                    }
                }
            },
            None => {},
        }
    }
}

/// The dependency fold cannot create a doubly-enabled pair.
proof fn lemma_fold_excl(s: Seq<FeatureModel>, i: int, upto: int)
    requires
        wf(s),
        excl_ok(s),
        0 <= i < s.len(),
        0 <= upto <= s[i].deps.len(),
    ensures
        excl_ok(enable_deps_fold(s, s[i].deps, upto)),
    decreases upto,
{
    if upto <= 0 {
    } else {
        lemma_fold_excl(s, i, upto - 1);
        let deps = s[i].deps;
        assert forall|k: int|
            0 <= k < deps.len() implies has_feature(s, #[trigger] deps[k]) && s[idx_of(
            s,
            deps[k],
        )].is_toggle() by {
            assert(dep_ok(s, i, deps[k]));
        }
        let su = enable_deps_fold(s, deps, upto - 1);
        lemma_enable_deps_fold_shape(s, deps, upto - 1);
        lemma_wf_same_shape(s, su);
        lemma_same_shape_lookup(s, su, deps[upto - 1]);
        assert(su[idx_of(su, deps[upto - 1])].is_toggle());
        lemma_dep_step_excl(su, deps[upto - 1]);
    }
}

/// No toggle request leaves both members of the exclusive pair enabled.
pub proof fn lemma_toggle_preserves_excl(s: Seq<FeatureModel>, i: int, v: bool)
    requires
        wf(s),
        excl_ok(s),
        0 <= i < s.len(),
        s[i].is_toggle(),
    ensures
        excl_ok(toggle_result(s, i, v)),
{
    if !v {
        lemma_disable_preserves_excl(s, i);
        return ;
    }
    let s1 = match partner_name(s[i].name) {
        Some(p) => if has_feature(s, p) && s[idx_of(s, p)].is_enabled_toggle() {
            disable_result(s, idx_of(s, p))
        } else {
            s
        },
        None => s,
    };
    match partner_name(s[i].name) {
        Some(p) => {
            if has_feature(s, p) && s[idx_of(s, p)].is_enabled_toggle() {
                assert(pair_ok(s, i));
                lemma_disable_preserves_excl(s, idx_of(s, p));
                crate::device::lemma_disable_result_shape(s, idx_of(s, p));
            }
        },
        None => {},
    }
    assert(same_shape(s, s1));
    lemma_wf_same_shape(s, s1);
    assert(excl_ok(s1));
    let deps = s[i].deps;
    assert(s1[i].deps == deps);
    assert forall|k: int|
        0 <= k < deps.len() implies has_feature(s1, #[trigger] deps[k]) && s1[idx_of(
        s1,
        deps[k],
    )].is_toggle() by {
        assert(dep_ok(s, i, deps[k]));
        lemma_same_shape_lookup(s, s1, deps[k]);
    }
    lemma_fold_excl(s1, i, deps.len() as int);
    let s2 = enable_deps_fold(s1, deps, deps.len() as int);
    lemma_enable_deps_fold_shape(s1, deps, deps.len() as int);
    lemma_wf_same_shape(s1, s2);
    // committing the requested toggle itself: its partner, if present, was
    // turned off at the start and has no dependency entry to re-enable it
    let t = with_value(s2, i, ValueModel::Toggle(true));
    assert(toggle_result(s, i, v) == t);
    assert forall|j: int|
        0 <= j < t.len() && (#[trigger] t[j]).is_enabled_toggle() implies match partner_name(
        t[j].name,
    ) {
        Some(q) => !(has_feature(t, q) && t[idx_of(t, q)].is_enabled_toggle()),
        None => true,
    } by {
        match partner_name(t[j].name) {
            Some(q) => {
                if has_feature(t, q) && t[idx_of(t, q)].is_enabled_toggle() {
                    let qj = idx_of(t, q);
                    assert(t[qj].name == q);
                    assert(s2[qj].name == q && s1[qj].name == q && s[qj].name == q);
                    assert(has_feature(s2, q) && has_feature(s, q));
                    lemma_idx_of_self(s2, qj);
                    assert(idx_of(s2, q) == qj);
                    lemma_idx_of_self(s, qj);
                    assert(idx_of(s, q) == qj);
                    if j == i {
                        // the partner of the request: disabled at the
                        // start and, being in the pair, never a dependency
                        assert(partner_name(s[i].name) == Some(q));
                        assert(pair_ok(s, i));
                        assert(deps.len() == 0);
                        assert(s2 == s1);
                        assert(qj != i);
                        assert(t[qj] == s1[qj]);
                        if s[qj].is_enabled_toggle() {
                            assert(s1 == disable_result(s, qj));
                            assert(!s1[qj].is_enabled_toggle());
                        } else {
                            assert(s1[qj].value == s[qj].value);
                            assert(!s1[qj].is_enabled_toggle());
                        }
                        assert(false);
                    } else {
                        assert(t[j] == s2[j]);
                        assert(s2[j].is_enabled_toggle());
                        if qj == i {
                            // the request cannot be the partner of another
                            // enabled toggle: that toggle is the request's
                            // own partner, handled at the start
                            assert(s2[qj].name == s[i].name);
                            assert(partner_name(t[j].name) == Some(s[i].name));
                            assert(partner_name(s[i].name) == Some(t[j].name));
                            assert(pair_ok(s2, i));
                            lemma_idx_of_self(s2, j);
                            assert(idx_of(s2, t[j].name) == j);
                            assert(!s2[j].is_enabled_toggle());
                            assert(false);
                        }
                        assert(t[qj] == s2[qj]);
                        assert(s2[qj].is_enabled_toggle());
                        assert(excl_ok(s2));
                        assert(false);
                    }
                }
            },
            None => {},
        }
    }
}

/// No slider request leaves both members of the exclusive pair enabled.
pub proof fn lemma_slider_preserves_excl(s: Seq<FeatureModel>, i: int, c: int)
    requires
        wf(s),
        excl_ok(s),
        0 <= i < s.len(),
        s[i].is_slider(),
    ensures
        excl_ok(slider_result(s, i, c)),
{
    let deps = s[i].deps;
    assert forall|k: int|
        0 <= k < deps.len() implies has_feature(s, #[trigger] deps[k]) && s[idx_of(
        s,
        deps[k],
    )].is_toggle() by {
        assert(dep_ok(s, i, deps[k]));
    }
    lemma_fold_excl(s, i, deps.len() as int);
    let s2 = enable_deps_fold(s, deps, deps.len() as int);
    lemma_enable_deps_fold_shape(s, deps, deps.len() as int);
    lemma_wf_same_shape(s, s2);
    let t = with_value(s2, i, ValueModel::Slider(c));
    assert(slider_result(s, i, c) == t);
    // storing a slider position enables nothing
    assert forall|j: int|
        0 <= j < t.len() && (#[trigger] t[j]).is_enabled_toggle() implies match partner_name(
        t[j].name,
    ) {
        Some(q) => !(has_feature(t, q) && t[idx_of(t, q)].is_enabled_toggle()),
        None => true,
    } by {
        assert(j != i);
        assert(t[j] == s2[j]);
        match partner_name(t[j].name) {
            Some(q) => {
                if has_feature(t, q) && t[idx_of(t, q)].is_enabled_toggle() {
                    let qj = idx_of(t, q);
                    assert(t[qj].name == q);
                    assert(s2[qj].name == q);
                    assert(has_feature(s2, q));
                    lemma_idx_of_self(s2, qj);
                    assert(idx_of(s2, q) == qj);
                    assert(qj != i);
                    assert(t[qj] == s2[qj]);
                    assert(excl_ok(s2));
                    assert(false);
                }
            },
            None => {},
        }
    }
}

/// Index `j` names one of the first `upto` dependencies of the list.
pub open spec fn in_dep_indices(
    s: Seq<FeatureModel>,
    deps: Seq<Seq<char>>,
    upto: int,
    j: int,
) -> bool {
    exists|t: int| 0 <= t < upto && j == idx_of(s, #[trigger] deps[t])
}

/// When no dependency's exclusive partner reads enabled, the dependency
/// fold is pure enabling: the listed features read enabled afterwards and
/// every other value is untouched.
proof fn lemma_fold_effect(s: Seq<FeatureModel>, i: int, upto: int)
    requires
        wf(s),
        0 <= i < s.len(),
        0 <= upto <= s[i].deps.len(),
        forall|k: int|
            0 <= k < s[i].deps.len() ==> match partner_name(#[trigger] s[i].deps[k]) {
                Some(p) => has_feature(s, p) ==> !s[idx_of(s, p)].is_enabled_toggle(),
                None => true,
            },
    ensures
        forall|j: int|
            0 <= j < s.len() ==> (#[trigger] enable_deps_fold(s, s[i].deps, upto)[j]).value == (
            if in_dep_indices(s, s[i].deps, upto, j) {
                ValueModel::Toggle(true)
            } else {
                s[j].value
            }),
    decreases upto,
{
    let deps = s[i].deps;
    assert forall|k: int|
        0 <= k < deps.len() implies has_feature(s, #[trigger] deps[k]) && s[idx_of(
        s,
        deps[k],
    )].is_toggle() by {
        assert(dep_ok(s, i, deps[k]));
    }
    if upto <= 0 {
        return ;
    }
    lemma_fold_effect(s, i, upto - 1);
    let su = enable_deps_fold(s, deps, upto - 1);
    lemma_enable_deps_fold_shape(s, deps, upto - 1);
    let d = deps[upto - 1];
    assert(dep_ok(s, i, d));
    lemma_same_shape_lookup(s, su, d);
    let jd = idx_of(s, d);
    assert(idx_of(su, d) == jd);
    let r = enable_deps_fold(s, deps, upto);
    assert(r == dep_step(su, d));
    if su[jd].is_enabled_toggle() {
        // already enabled: the step changes nothing, and the target index
        // satisfies the enabled clause either way
        assert(r == su);
        assert forall|j: int|
            0 <= j < s.len() implies (#[trigger] r[j]).value == (if in_dep_indices(
                s,
                deps,
                upto,
                j,
            ) {
                ValueModel::Toggle(true)
            } else {
                s[j].value
            }) by {
            if in_dep_indices(s, deps, upto, j) && !in_dep_indices(s, deps, upto - 1, j) {
                let t = choose|t: int| 0 <= t < upto && j == idx_of(s, #[trigger] deps[t]);
                assert(t == upto - 1 || in_dep_indices(s, deps, upto - 1, j));
                assert(j == jd);
            }
        }
    } else {
        // the partner of this dependency is disabled in `s` and stands in
        // no dependency list, so it was never enabled along the fold and
        // the exclusion branch stays quiet
        match partner_name(d) {
            Some(p) => {
                if has_feature(su, p) {
                    lemma_wf_same_shape(s, su);
                    let pj = idx_of(su, p);
                    lemma_idx_of_self(su, pj);
                    assert(su[pj].name == p);
                    assert(s[pj].name == p);
                    lemma_idx_of_self(s, pj);
                    assert(idx_of(s, p) == pj);
                    assert(has_feature(s, p));
                    assert(!s[pj].is_enabled_toggle());
                    // the partner is not among the dependency indices
                    if in_dep_indices(s, deps, upto - 1, pj) {
                        let t = choose|t: int|
                            0 <= t < upto - 1 && pj == idx_of(s, #[trigger] deps[t]);
                        assert(dep_ok(s, i, deps[t]));
                        assert(s[idx_of(s, deps[t])].name == deps[t]);
                        assert(deps[t] == p);
                        assert(deps.contains(deps[t]));
                        assert(s[i].deps.contains(p));
                        assert(false);
                    }
                    assert(su[pj].value == s[pj].value);
                    assert(!su[pj].is_enabled_toggle());
                }
            },
            None => {},
        }
        assert(r == with_value(su, jd, ValueModel::Toggle(true)));
        assert forall|j: int|
            0 <= j < s.len() implies (#[trigger] r[j]).value == (if in_dep_indices(
                s,
                deps,
                upto,
                j,
            ) {
                ValueModel::Toggle(true)
            } else {
                s[j].value
            }) by {
            if j == jd {
                assert(0 <= upto - 1 < upto && jd == idx_of(s, deps[upto - 1]));
                assert(in_dep_indices(s, deps, upto, j));
            } else {
                assert(r[j] == su[j]);
                if in_dep_indices(s, deps, upto, j) {
                    let t = choose|t: int| 0 <= t < upto && j == idx_of(s, #[trigger] deps[t]);
                    assert(t < upto - 1);
                    assert(in_dep_indices(s, deps, upto - 1, j));
                } else {
                    assert(!in_dep_indices(s, deps, upto - 1, j));
                }
            }
        }
    }
}

/// Replaying the sparse snapshot of the first `u` features onto the
/// default state settles those features at their snapshot values, and
/// leaves every feature either settled or still at its default.
proof fn lemma_replay_prefix(s: Seq<FeatureModel>, u: int)
    requires
        wf(s),
        deps_closed(s),
        excl_ok(s),
        sliders_supported(s),
        0 <= u <= s.len(),
    ensures
        ({
            let es = sparse_spec(s, u);
            let r = apply_entries(default_state(s), es, es.len() as int);
            &&& same_shape(s, r)
            &&& wf(r)
            &&& forall|j: int| 0 <= j < u ==> (#[trigger] r[j]).value == s[j].value
            &&& forall|j: int|
                0 <= j < s.len() ==> (#[trigger] r[j]).value == s[j].value || r[j].value
                    == default_state(s)[j].value
        }),
    decreases u,
{
    let d = default_state(s);
    assert(same_shape(s, d));
    lemma_wf_same_shape(s, d);
    if u == 0 {
        let es = sparse_spec(s, 0);
        assert(es.len() == 0);
        assert(apply_entries(d, es, 0) == d);
        return ;
    }
    lemma_replay_prefix(s, u - 1);
    let es_prev = sparse_spec(s, u - 1);
    let m = es_prev.len() as int;
    let r_prev = apply_entries(d, es_prev, m);
    let f = s[u - 1];
    let es = sparse_spec(s, u);
    if !(f.value == ValueModel::Toggle(true) || (f.value matches ValueModel::Slider(c) && c
        != 0)) {
        // the feature is at its default: no snapshot entry, nothing moves
        assert(es == es_prev);
        assert(r_prev[u - 1].value == s[u - 1].value || r_prev[u - 1].value == d[u - 1].value);
        assert(d[u - 1].value == s[u - 1].value);
        return ;
    }
    let e = EntryModel { name: f.name, value: f.value };
    assert(es == es_prev.push(e));
    assert(es.len() == m + 1);
    lemma_apply_entries_prefix_stable(d, es, es_prev, m);
    assert(apply_entries(d, es, m) == r_prev);
    let r = apply_entries(d, es, m + 1);
    assert(es[m] == e);
    lemma_idx_of_self(s, u - 1);
    assert(has_feature(s, f.name) && idx_of(s, f.name) == u - 1);
    lemma_same_shape_lookup(s, r_prev, f.name);
    assert(has_feature(r_prev, f.name) && idx_of(r_prev, f.name) == u - 1);
    let deps = s[u - 1].deps;
    assert(r_prev[u - 1].deps == deps);
    // a feature enabled midway through the replay was enabled in the
    // snapshot state: the other disjunct, its default, reads disabled
    assert forall|j: int|
        0 <= j < s.len() && (#[trigger] r_prev[j]).is_enabled_toggle() implies s[
        j].is_enabled_toggle() by {
        if r_prev[j].value == d[j].value {
            assert(s[j].is_toggle());
            assert(d[j].value == ValueModel::Toggle(false));
            assert(false);
        }
    }
    // the dependencies of the replayed feature read enabled in the
    // snapshot state, by consistency for a toggle and by the stated
    // support for a non-zero slider
    assert forall|k: int|
        0 <= k < deps.len() implies has_feature(s, #[trigger] deps[k]) && s[idx_of(
        s,
        deps[k],
    )].is_enabled_toggle() by {
        if f.value == ValueModel::Toggle(true) {
            assert(s[u - 1].is_enabled_toggle());
            assert(deps_closed(s));
        } else {
            assert(sliders_supported(s));
        }
    }
    // no dependency's exclusive partner reads enabled during the replay
    assert forall|k: int|
        0 <= k < r_prev[u - 1].deps.len() implies match partner_name(
        #[trigger] r_prev[u - 1].deps[k],
    ) {
        Some(p) => has_feature(r_prev, p) ==> !r_prev[idx_of(r_prev, p)].is_enabled_toggle(),
        None => true,
    } by {
        match partner_name(deps[k]) {
            Some(p) => {
                if has_feature(r_prev, p) && r_prev[idx_of(r_prev, p)].is_enabled_toggle() {
                    let pj = idx_of(r_prev, p);
                    assert(0 <= pj < r_prev.len() && r_prev[pj].name == p);
                    assert(s[pj].name == p);
                    assert(has_feature(s, p));
                    lemma_same_shape_lookup(s, r_prev, p);
                    assert(idx_of(s, p) == pj);
                    assert(s[pj].is_enabled_toggle());
                    // the dependency itself reads enabled in the snapshot,
                    // so the pair would read both enabled there
                    let jd = idx_of(s, deps[k]);
                    assert(s[jd].is_enabled_toggle());
                    assert(s[jd].name == deps[k]);
                    assert(partner_name(s[jd].name) == Some(p));
                    assert(excl_ok(s));
                    assert(false);
                }
            },
            None => {},
        }
    }
    lemma_fold_effect(r_prev, u - 1, deps.len() as int);
    let fold = enable_deps_fold(r_prev, deps, deps.len() as int);
    assert forall|k: int|
        0 <= k < deps.len() implies has_feature(r_prev, #[trigger] deps[k]) && r_prev[idx_of(
        r_prev,
        deps[k],
    )].is_toggle() by {
        lemma_same_shape_lookup(s, r_prev, deps[k]);
    }
    lemma_enable_deps_fold_shape(r_prev, deps, deps.len() as int);
    assert(fold.len() == s.len());
    // translate the touched indices back to the snapshot state
    assert forall|j: int|
        0 <= j < s.len() && in_dep_indices(r_prev, r_prev[u - 1].deps, deps.len() as int, j)
        implies s[j].is_enabled_toggle() by {
        let t = choose|t: int|
            0 <= t < deps.len() && j == idx_of(r_prev, #[trigger] r_prev[u - 1].deps[t]);
        lemma_same_shape_lookup(s, r_prev, deps[t]);
        assert(j == idx_of(s, deps[t]));
        assert(s[idx_of(s, deps[t])].is_enabled_toggle());
    }
    match f.value {
        ValueModel::Toggle(b) => {
            assert(b == true);
            assert(r_prev[u - 1].is_toggle());
            assert(r == toggle_result(r_prev, u - 1, true));
            lemma_toggle_result_shape(r_prev, u - 1, true);
            // the top-level exclusive partner stays quiet: the snapshot
            // state has the replayed toggle enabled, so its partner reads
            // disabled there, hence along the replay too
            match partner_name(f.name) {
                Some(p) => {
                    if has_feature(r_prev, p) && r_prev[idx_of(r_prev, p)].is_enabled_toggle() {
                        let pj = idx_of(r_prev, p);
                        assert(r_prev[pj].name == p);
                        assert(s[pj].name == p);
                        assert(has_feature(s, p));
                        lemma_same_shape_lookup(s, r_prev, p);
                        assert(s[pj].is_enabled_toggle());
                        assert(s[u - 1].is_enabled_toggle());
                        assert(excl_ok(s));
                        assert(false);
                    }
                },
                None => {},
            }
            assert(r == with_value(fold, u - 1, ValueModel::Toggle(true)));
            assert(same_shape(s, r));
            lemma_wf_same_shape(s, r);
            assert forall|j: int|
                0 <= j < s.len() implies (#[trigger] r[j]).value == s[j].value || r[j].value == d[
                j].value by {
                if j == u - 1 {
                    assert(r[j].value == ValueModel::Toggle(true));
                } else {
                    assert(r[j] == fold[j]);
                    if in_dep_indices(r_prev, r_prev[u - 1].deps, deps.len() as int, j) {
                        assert(r[j].value == ValueModel::Toggle(true));
                        assert(s[j].is_enabled_toggle());
                    } else {
                        assert(r[j].value == r_prev[j].value);
                    }
                }
            }
            assert forall|j: int| 0 <= j < u implies (#[trigger] r[j]).value == s[j].value by {
                if j == u - 1 {
                    assert(r[j].value == ValueModel::Toggle(true));
                } else {
                    assert(r[j] == fold[j]);
                    if in_dep_indices(r_prev, r_prev[u - 1].deps, deps.len() as int, j) {
                        assert(s[j].is_enabled_toggle());
                    } else {
                        assert(r[j].value == r_prev[j].value);
                        assert(r_prev[j].value == s[j].value);
                    }
                }
            }
        },
        ValueModel::Slider(c) => {
            assert(c != 0);
            assert(r_prev[u - 1].is_slider());
            assert(r == slider_result(r_prev, u - 1, c));
            lemma_slider_result_shape(r_prev, u - 1, c);
            assert(r == with_value(fold, u - 1, ValueModel::Slider(c)));
            assert(same_shape(s, r));
            lemma_wf_same_shape(s, r);
            assert forall|j: int|
                0 <= j < s.len() implies (#[trigger] r[j]).value == s[j].value || r[j].value == d[
                j].value by {
                if j == u - 1 {
                    assert(r[j].value == ValueModel::Slider(c));
                } else {
                    assert(r[j] == fold[j]);
                    if in_dep_indices(r_prev, r_prev[u - 1].deps, deps.len() as int, j) {
                        assert(s[j].is_enabled_toggle());
                    } else {
                        assert(r[j].value == r_prev[j].value);
                    }
                }
            }
            assert forall|j: int| 0 <= j < u implies (#[trigger] r[j]).value == s[j].value by {
                if j == u - 1 {
                    assert(r[j].value == ValueModel::Slider(c));
                } else {
                    assert(r[j] == fold[j]);
                    if in_dep_indices(r_prev, r_prev[u - 1].deps, deps.len() as int, j) {
                        assert(s[j].is_enabled_toggle());
                    } else {
                        assert(r[j].value == r_prev[j].value);
                        assert(r_prev[j].value == s[j].value);
                    }
                }
            }
        },
    }
}

/// Snapshot round trip: replaying the sparse snapshot of a state onto the
/// default state reproduces the identical enabled-feature set and slider
/// values.  Stated for states whose non-zero sliders still have their
/// dependencies enabled: a disable cascade deliberately leaves dependent
/// sliders at their stored positions, and replaying such a snapshot
/// re-enables what the sliders depend on.
pub proof fn lemma_snapshot_replay_round_trip(s: Seq<FeatureModel>)
    requires
        wf(s),
        deps_closed(s),
        excl_ok(s),
        sliders_supported(s),
    ensures
        ({
            let es = sparse_spec(s, s.len() as int);
            let r = apply_entries(default_state(s), es, es.len() as int);
            &&& r.len() == s.len()
            &&& forall|j: int| 0 <= j < s.len() ==> (#[trigger] r[j]).value == s[j].value
        }),
{
    lemma_replay_prefix(s, s.len() as int);
}

/// Exclusive-pair invariant: after enabling one member of the pair and
/// then the other, the first reads disabled and the second enabled.
pub proof fn lemma_exclusive_pair(s: Seq<FeatureModel>, a: int, b: int)
    requires
        wf(s),
        0 <= a < s.len(),
        0 <= b < s.len(),
        partner_name(s[a].name) == Some(s[b].name),
        s[a].is_toggle(),
    ensures
        ({
            let s2 = toggle_result(toggle_result(s, a, true), b, true);
            &&& !s2[a].is_enabled_toggle()
            &&& s2[b].is_enabled_toggle()
        }),
{
    assert(pair_ok(s, a));
    lemma_idx_of_self(s, b);
    assert(idx_of(s, s[b].name) == b);
    assert(s[b].is_toggle());
    let s1 = toggle_result(s, a, true);
    lemma_toggle_result_shape(s, a, true);
    // the pair member has no dependencies, so enabling is the partner
    // cascade, if any, followed by its own commit
    assert(s[a].deps.len() == 0);
    assert(s1[a].is_enabled_toggle());
    // the other member: same names, and its partner is the first member
    assert(s1[b].name == s[b].name);
    assert(partner_name(s[b].name) == Some(s[a].name));
    assert(pair_ok(s1, b));
    assert(s1[b].deps.len() == 0);
    lemma_idx_of_self(s1, a);
    assert(idx_of(s1, s[a].name) == a);
    assert(has_feature(s1, s[a].name));
    let s2 = toggle_result(s1, b, true);
    assert(s1[a].is_enabled_toggle());
    let s1d = disable_result(s1, a);
    assert(!s1d[a].is_enabled_toggle());
    assert(enable_deps_fold(s1d, s1[b].deps, 0) == s1d);
    assert(a != b);
    assert(s2[a] == s1d[a]);
    assert(s2[b].is_enabled_toggle());
}

} // verus!

