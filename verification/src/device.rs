//! The device state and the dependency-and-mutual-exclusion resolver.
//!
//! `BlasterXG6` is the authoritative in-memory model of the device
//! configuration: the full catalog of features with their current values.
//! The device itself offers no readback, so every change goes through the
//! resolver here, which keeps the cross-feature invariants intact: a
//! feature is never enabled while one of its dependencies is disabled, and
//! the two features of the exclusive pair are never enabled by a request
//! that would leave both on.
//!
//! The resolver mutates the model and returns the frame pairs to transmit,
//! in the order the device must receive them; writing them is the
//! embedding program's job.

use vstd::prelude::*;

use crate::registry::{DeviceError, Feature, FeatureModel, FeatureType, Format, ValueModel};
use crate::registry::default_features;
use crate::codec::{Payload, PayloadModel, VALUE_LIMIT, create_payload, spec_payload};

verus! {

/// The other member of the declared exclusive pair, if the named feature
/// belongs to one.
pub open spec fn partner_name(name: Seq<char>) -> Option<Seq<char>> {
    if name == "SBX"@ {
        Some("Scout Mode"@)
    } else if name == "Scout Mode"@ {
        Some("SBX"@)
    } else {
        None
    }
}

/// Whether some feature carries this name.
pub open spec fn has_feature(s: Seq<FeatureModel>, name: Seq<char>) -> bool {
    exists|j: int| 0 <= j < s.len() && (#[trigger] s[j]).name == name
}

/// The index of the feature carrying this name (unique once names are).
pub open spec fn idx_of(s: Seq<FeatureModel>, name: Seq<char>) -> int {
    choose|j: int| 0 <= j < s.len() && (#[trigger] s[j]).name == name
}

/// No two features share a name.
pub open spec fn names_unique(s: Seq<FeatureModel>) -> bool {
    forall|i: int, j: int|
        0 <= i < s.len() && 0 <= j < s.len() && i != j ==> (#[trigger] s[i]).name != (
        #[trigger] s[j]).name
}

/// What the catalog guarantees about one dependency entry `d` of feature
/// `i`: the named feature exists, is a toggle other than `i` itself, its
/// own dependencies are already listed by `i` (dependency lists are
/// transitively closed), and, should the dependency belong to the
/// exclusive pair, its partner is depended on by nothing.
pub open spec fn dep_ok(s: Seq<FeatureModel>, i: int, d: Seq<char>) -> bool {
    &&& has_feature(s, d)
    &&& idx_of(s, d) != i
    &&& s[idx_of(s, d)].is_toggle()
    &&& forall|k2: int|
        0 <= k2 < s[idx_of(s, d)].deps.len() ==> s[i].deps.contains(
            #[trigger] s[idx_of(s, d)].deps[k2],
        )
    &&& match partner_name(d) {
        Some(p) => forall|j: int| 0 <= j < s.len() ==> !(#[trigger] s[j]).deps.contains(p),
        None => true,
    }
}

/// What the catalog guarantees about a feature of the exclusive pair: it
/// has no dependencies of its own and its partner exists as another toggle.
pub open spec fn pair_ok(s: Seq<FeatureModel>, i: int) -> bool {
    match partner_name(s[i].name) {
        Some(p) => {
            &&& s[i].deps.len() == 0
            &&& has_feature(s, p)
            &&& s[idx_of(s, p)].is_toggle()
            &&& idx_of(s, p) != i
        },
        None => true,
    }
}

/// Structural well-formedness of a device state: unique names, sound and
/// transitively closed dependency lists, a sound exclusive pair, and no
/// feature of the color family, which has no encoding.
pub open spec fn wf(s: Seq<FeatureModel>) -> bool {
    &&& names_unique(s)
    &&& forall|i: int, k: int|
        0 <= i < s.len() && 0 <= k < s[i].deps.len() ==> dep_ok(s, i, #[trigger] s[i].deps[k])
    &&& forall|i: int| 0 <= i < s.len() ==> #[trigger] pair_ok(s, i)
    &&& forall|i: int| 0 <= i < s.len() ==> !((#[trigger] s[i]).id is RGB)
}

/// With unique names, the index found for a feature's own name is that
/// feature's index.
pub proof fn lemma_idx_of_self(s: Seq<FeatureModel>, i: int)
    requires
        names_unique(s),
        0 <= i < s.len(),
    ensures
        has_feature(s, s[i].name),
        idx_of(s, s[i].name) == i,
{
    assert(0 <= i < s.len() && s[i].name == s[i].name);
    let j = idx_of(s, s[i].name);
    assert(0 <= j < s.len() && s[j].name == s[i].name);
}

/// Two states share their shape when they agree on everything but the
/// stored values, and every value keeps its kind.
pub open spec fn same_shape(s: Seq<FeatureModel>, t: Seq<FeatureModel>) -> bool {
    &&& s.len() == t.len()
    &&& forall|j: int|
        0 <= j < s.len() ==> {
            &&& (#[trigger] t[j]).name == s[j].name
            &&& t[j].id == s[j].id
            &&& t[j].deps == s[j].deps
            &&& (t[j].is_toggle() <==> s[j].is_toggle())
        }
}

/// Shape agreement carries every name lookup over unchanged.
pub proof fn lemma_same_shape_lookup(s: Seq<FeatureModel>, t: Seq<FeatureModel>, name: Seq<char>)
    requires
        names_unique(s),
        same_shape(s, t),
        has_feature(s, name),
    ensures
        has_feature(t, name),
        idx_of(t, name) == idx_of(s, name),
{
    let i = idx_of(s, name);
    assert(0 <= i < s.len() && s[i].name == name);
    assert(t[i].name == name);
    assert(has_feature(t, name));
    let j = idx_of(t, name);
    assert(0 <= j < t.len() && t[j].name == name);
    assert(s[j].name == name);
}

/// Well-formedness depends on the shape alone, never on the stored values.
pub proof fn lemma_wf_same_shape(s: Seq<FeatureModel>, t: Seq<FeatureModel>)
    requires
        wf(s),
        same_shape(s, t),
    ensures
        wf(t),
{
    assert(names_unique(t));
    assert forall|n: Seq<char>| has_feature(t, n) implies has_feature(s, n) && idx_of(t, n)
        == idx_of(s, n) by {
        let j = choose|j: int| 0 <= j < t.len() && (#[trigger] t[j]).name == n;
        assert(s[j].name == n);
        assert(has_feature(s, n));
        lemma_same_shape_lookup(s, t, n);
    }
    assert forall|i: int, k: int|
        0 <= i < t.len() && 0 <= k < t[i].deps.len() implies dep_ok(
        t,
        i,
        #[trigger] t[i].deps[k],
    ) by {
        let d = t[i].deps[k];
        assert(s[i].deps[k] == d);
        assert(dep_ok(s, i, d));
        lemma_same_shape_lookup(s, t, d);
        let jd = idx_of(s, d);
        assert(t[jd].is_toggle());
        assert(forall|k2: int|
            0 <= k2 < t[jd].deps.len() ==> t[i].deps.contains(#[trigger] t[jd].deps[k2]));
        match partner_name(d) {
            Some(p) => {
                assert(forall|j: int| 0 <= j < t.len() ==> !(#[trigger] t[j]).deps.contains(p));
            },
            None => {},
        }
    }
    assert forall|i: int| 0 <= i < t.len() implies #[trigger] pair_ok(t, i) by {
        assert(pair_ok(s, i));
        assert(t[i].name == s[i].name);
        match partner_name(s[i].name) {
            Some(p) => {
                lemma_same_shape_lookup(s, t, p);
            },
            None => {},
        }
    }
}

/// The state with feature `j`'s stored value replaced.
pub open spec fn with_value(s: Seq<FeatureModel>, j: int, v: ValueModel) -> Seq<FeatureModel> {
    s.update(j, FeatureModel { value: v, ..s[j] })
}

/// The centiunit value a stored value puts on the wire: an enabled toggle
/// writes one hundred units, a disabled one zero, a slider its position.
pub open spec fn wire_centi(v: ValueModel) -> int {
    match v {
        ValueModel::Toggle(b) => if b {
            10000
        } else {
            0
        },
        ValueModel::Slider(c) => c,
    }
}

/// Disabling feature `p`: every enabled toggle depending on it reads
/// disabled afterwards, `p` itself reads disabled, sliders keep their
/// stored positions so re-enabling restores them.
pub open spec fn disable_result(s: Seq<FeatureModel>, p: int) -> Seq<FeatureModel> {
    Seq::new(
        s.len(),
        |j: int|
            if j == p || (s[j].is_enabled_toggle() && s[j].deps.contains(s[p].name)) {
                FeatureModel { value: ValueModel::Toggle(false), ..s[j] }
            } else {
                s[j]
            },
    )
}

/// The frames a disable cascade sends for the dependents among the first
/// `upto` features, in catalog order.
pub open spec fn disable_frames_upto(
    s: Seq<FeatureModel>,
    p: int,
    upto: int,
) -> Seq<PayloadModel>
    decreases upto,
{
    if upto <= 0 {
        Seq::empty()
    } else {
        let rest = disable_frames_upto(s, p, upto - 1);
        let j = upto - 1;
        if j != p && s[j].is_enabled_toggle() && s[j].deps.contains(s[p].name) {
            rest.push(spec_payload(s[j].id, 0))
        } else {
            rest
        }
    }
}

/// The frames a disable cascade sends: one frame pair per disabled
/// dependent, dependents first, the feature itself last.
pub open spec fn disable_frames(s: Seq<FeatureModel>, p: int) -> Seq<PayloadModel> {
    disable_frames_upto(s, p, s.len() as int).push(spec_payload(s[p].id, 0))
}

/// Enabling one dependency by name: nothing changes when it is already
/// enabled or absent; otherwise an enabled exclusive partner is disabled
/// first, with its own cascade, and the dependency is then enabled.
pub open spec fn dep_step(s: Seq<FeatureModel>, dname: Seq<char>) -> Seq<FeatureModel> {
    if !has_feature(s, dname) || s[idx_of(s, dname)].is_enabled_toggle() {
        s
    } else {
        let s1 = match partner_name(dname) {
            Some(p) => if has_feature(s, p) && s[idx_of(s, p)].is_enabled_toggle() {
                disable_result(s, idx_of(s, p))
            } else {
                s
            },
            None => s,
        };
        with_value(s1, idx_of(s, dname), ValueModel::Toggle(true))
    }
}

/// The frames one dependency step sends.
pub open spec fn dep_step_frames(s: Seq<FeatureModel>, dname: Seq<char>) -> Seq<PayloadModel> {
    if !has_feature(s, dname) || s[idx_of(s, dname)].is_enabled_toggle() {
        Seq::empty()
    } else {
        let pre = match partner_name(dname) {
            Some(p) => if has_feature(s, p) && s[idx_of(s, p)].is_enabled_toggle() {
                disable_frames(s, idx_of(s, p))
            } else {
                Seq::empty()
            },
            None => Seq::empty(),
        };
        pre.push(spec_payload(s[idx_of(s, dname)].id, 10000))
    }
}

/// The state after the first `upto` entries of a dependency list have been
/// enabled in order.
pub open spec fn enable_deps_fold(
    s: Seq<FeatureModel>,
    deps: Seq<Seq<char>>,
    upto: int,
) -> Seq<FeatureModel>
    decreases upto,
{
    if upto <= 0 {
        s
    } else {
        dep_step(enable_deps_fold(s, deps, upto - 1), deps[upto - 1])
    }
}

/// The frames the first `upto` dependency steps send.
pub open spec fn enable_deps_frames(
    s: Seq<FeatureModel>,
    deps: Seq<Seq<char>>,
    upto: int,
) -> Seq<PayloadModel>
    decreases upto,
{
    if upto <= 0 {
        Seq::empty()
    } else {
        enable_deps_frames(s, deps, upto - 1) + dep_step_frames(
            enable_deps_fold(s, deps, upto - 1),
            deps[upto - 1],
        )
    }
}

/// The requested boolean of a toggle request: the explicit value, or the
/// inverse of the current state.
pub open spec fn resolve_toggle(s: Seq<FeatureModel>, i: int, value: Option<bool>) -> bool {
    match value {
        Some(b) => b,
        None => !s[i].is_enabled_toggle(),
    }
}

/// The state after a toggle request on feature `i`.  Enabling first forces
/// an enabled exclusive partner off (with its dependent cascade), then
/// enables every dependency, then the feature; disabling cascades over the
/// enabled toggle dependents.
pub open spec fn toggle_result(s: Seq<FeatureModel>, i: int, v: bool) -> Seq<FeatureModel> {
    if v {
        let s1 = match partner_name(s[i].name) {
            Some(p) => if has_feature(s, p) && s[idx_of(s, p)].is_enabled_toggle() {
                disable_result(s, idx_of(s, p))
            } else {
                s
            },
            None => s,
        };
        let s2 = enable_deps_fold(s1, s[i].deps, s[i].deps.len() as int);
        with_value(s2, i, ValueModel::Toggle(true))
    } else {
        disable_result(s, i)
    }
}

/// The frames a toggle request sends, in transmission order.
pub open spec fn toggle_frames(s: Seq<FeatureModel>, i: int, v: bool) -> Seq<PayloadModel> {
    if v {
        let pre = match partner_name(s[i].name) {
            Some(p) => if has_feature(s, p) && s[idx_of(s, p)].is_enabled_toggle() {
                disable_frames(s, idx_of(s, p))
            } else {
                Seq::empty()
            },
            None => Seq::empty(),
        };
        let s1 = match partner_name(s[i].name) {
            Some(p) => if has_feature(s, p) && s[idx_of(s, p)].is_enabled_toggle() {
                disable_result(s, idx_of(s, p))
            } else {
                s
            },
            None => s,
        };
        pre + enable_deps_frames(s1, s[i].deps, s[i].deps.len() as int) + seq![
            spec_payload(s[i].id, 10000),
        ]
    } else {
        disable_frames(s, i)
    }
}

/// The state after a slider request on feature `i`: every dependency is
/// enabled as by a toggle request, then the position is stored.
pub open spec fn slider_result(s: Seq<FeatureModel>, i: int, c: int) -> Seq<FeatureModel> {
    with_value(
        enable_deps_fold(s, s[i].deps, s[i].deps.len() as int),
        i,
        ValueModel::Slider(c),
    )
}

/// The frames a slider request sends, in transmission order.
pub open spec fn slider_frames(s: Seq<FeatureModel>, i: int, c: int) -> Seq<PayloadModel> {
    enable_deps_frames(s, s[i].deps, s[i].deps.len() as int) + seq![spec_payload(s[i].id, c)]
}

/// Replacing a value with one of the same kind keeps the shape.
pub proof fn lemma_with_value_shape(s: Seq<FeatureModel>, j: int, v: ValueModel)
    requires
        0 <= j < s.len(),
        v is Toggle <==> s[j].is_toggle(),
    ensures
        same_shape(s, with_value(s, j, v)),
{
}

/// A disable cascade keeps the shape: it only turns toggles off.
pub proof fn lemma_disable_result_shape(s: Seq<FeatureModel>, p: int)
    requires
        0 <= p < s.len(),
        s[p].is_toggle(),
    ensures
        same_shape(s, disable_result(s, p)),
{
}

/// One dependency step keeps the shape and well-formedness, provided the
/// dependency resolves to a toggle.
pub proof fn lemma_dep_step_shape(s: Seq<FeatureModel>, dname: Seq<char>)
    requires
        wf(s),
        has_feature(s, dname) ==> s[idx_of(s, dname)].is_toggle(),
    ensures
        same_shape(s, dep_step(s, dname)),
        wf(dep_step(s, dname)),
{
    if !has_feature(s, dname) || s[idx_of(s, dname)].is_enabled_toggle() {
        assert(same_shape(s, dep_step(s, dname)));
    } else {
        let d = idx_of(s, dname);
        let s1 = match partner_name(dname) {
            Some(p) => if has_feature(s, p) && s[idx_of(s, p)].is_enabled_toggle() {
                disable_result(s, idx_of(s, p))
            } else {
                s
            },
            None => s,
        };
        match partner_name(dname) {
            Some(p) => {
                if has_feature(s, p) && s[idx_of(s, p)].is_enabled_toggle() {
                    assert(pair_ok(s, d));
                    assert(partner_name(s[d].name) == Some(p));
                    lemma_disable_result_shape(s, idx_of(s, p));
                }
            },
            None => {},
        }
        assert(same_shape(s, s1));
        lemma_with_value_shape(s1, d, ValueModel::Toggle(true));
        assert(same_shape(s, dep_step(s, dname)));
    }
    lemma_wf_same_shape(s, dep_step(s, dname));
}

/// The dependency fold keeps the shape and well-formedness when every
/// entry resolves to a toggle.
pub proof fn lemma_enable_deps_fold_shape(s: Seq<FeatureModel>, deps: Seq<Seq<char>>, upto: int)
    requires
        wf(s),
        0 <= upto <= deps.len(),
        forall|k: int|
            0 <= k < upto ==> has_feature(s, #[trigger] deps[k]) && s[idx_of(s, deps[k])].is_toggle(),
    ensures
        same_shape(s, enable_deps_fold(s, deps, upto)),
        wf(enable_deps_fold(s, deps, upto)),
    decreases upto,
{
    if upto <= 0 {
    } else {
        lemma_enable_deps_fold_shape(s, deps, upto - 1);
        let su = enable_deps_fold(s, deps, upto - 1);
        lemma_same_shape_lookup(s, su, deps[upto - 1]);
        assert(su[idx_of(su, deps[upto - 1])].is_toggle());
        lemma_dep_step_shape(su, deps[upto - 1]);
    }
}

/// A toggle request keeps the shape and well-formedness.
pub proof fn lemma_toggle_result_shape(s: Seq<FeatureModel>, i: int, v: bool)
    requires
        wf(s),
        0 <= i < s.len(),
        s[i].is_toggle(),
    ensures
        same_shape(s, toggle_result(s, i, v)),
        wf(toggle_result(s, i, v)),
{
    if v {
        let s1 = match partner_name(s[i].name) {
            Some(p) => if has_feature(s, p) && s[idx_of(s, p)].is_enabled_toggle() {
                disable_result(s, idx_of(s, p))
            } else {
                s
            },
            None => s,
        };
        match partner_name(s[i].name) {
            Some(p) => {
                if has_feature(s, p) && s[idx_of(s, p)].is_enabled_toggle() {
                    assert(pair_ok(s, i));
                    lemma_disable_result_shape(s, idx_of(s, p));
                }
            },
            None => {},
        }
        assert(same_shape(s, s1));
        lemma_wf_same_shape(s, s1);
        assert forall|k: int|
            0 <= k < s1[i].deps.len() implies has_feature(s1, #[trigger] s1[i].deps[k])
            && s1[idx_of(s1, s1[i].deps[k])].is_toggle() by {
            assert(s1[i].deps == s[i].deps);
            assert(dep_ok(s, i, s[i].deps[k]));
            lemma_same_shape_lookup(s, s1, s[i].deps[k]);
        }
        lemma_enable_deps_fold_shape(s1, s[i].deps, s[i].deps.len() as int);
        let s2 = enable_deps_fold(s1, s[i].deps, s[i].deps.len() as int);
        assert(s2[i].is_toggle());
        lemma_with_value_shape(s2, i, ValueModel::Toggle(true));
        lemma_wf_same_shape(s2, toggle_result(s, i, v));
    } else {
        lemma_disable_result_shape(s, i);
        lemma_wf_same_shape(s, toggle_result(s, i, v));
    }
}

/// A slider request keeps the shape and well-formedness.
pub proof fn lemma_slider_result_shape(s: Seq<FeatureModel>, i: int, c: int)
    requires
        wf(s),
        0 <= i < s.len(),
        s[i].is_slider(),
    ensures
        same_shape(s, slider_result(s, i, c)),
        wf(slider_result(s, i, c)),
{
    assert forall|k: int|
        0 <= k < s[i].deps.len() implies has_feature(s, #[trigger] s[i].deps[k]) && s[idx_of(
        s,
        s[i].deps[k],
    )].is_toggle() by {
        assert(dep_ok(s, i, s[i].deps[k]));
    }
    lemma_enable_deps_fold_shape(s, s[i].deps, s[i].deps.len() as int);
    let s2 = enable_deps_fold(s, s[i].deps, s[i].deps.len() as int);
    assert(s2[i].is_slider());
    lemma_with_value_shape(s2, i, ValueModel::Slider(c));
    lemma_wf_same_shape(s2, slider_result(s, i, c));
}

/// The state after the first `upto` sliders have been returned to zero,
/// in catalog order, each through a full slider request.
pub open spec fn reset_sliders_state(s: Seq<FeatureModel>, upto: int) -> Seq<FeatureModel>
    decreases upto,
{
    if upto <= 0 {
        s
    } else {
        let su = reset_sliders_state(s, upto - 1);
        if s[upto - 1].is_slider() {
            slider_result(su, upto - 1, 0)
        } else {
            su
        }
    }
}

/// The frames those slider requests send, in order.
pub open spec fn reset_sliders_frames(s: Seq<FeatureModel>, upto: int) -> Seq<PayloadModel>
    decreases upto,
{
    if upto <= 0 {
        Seq::empty()
    } else {
        let pre = reset_sliders_frames(s, upto - 1);
        let su = reset_sliders_state(s, upto - 1);
        if s[upto - 1].is_slider() {
            pre + slider_frames(su, upto - 1, 0)
        } else {
            pre
        }
    }
}

/// The state after the first `upto` toggles have been turned off, in
/// catalog order, each through a full toggle request.
pub open spec fn reset_toggles_state(s: Seq<FeatureModel>, upto: int) -> Seq<FeatureModel>
    decreases upto,
{
    if upto <= 0 {
        s
    } else {
        let su = reset_toggles_state(s, upto - 1);
        if s[upto - 1].is_toggle() {
            toggle_result(su, upto - 1, false)
        } else {
            su
        }
    }
}

/// The frames those toggle requests send, in order.
pub open spec fn reset_toggles_frames(s: Seq<FeatureModel>, upto: int) -> Seq<PayloadModel>
    decreases upto,
{
    if upto <= 0 {
        Seq::empty()
    } else {
        let pre = reset_toggles_frames(s, upto - 1);
        let su = reset_toggles_state(s, upto - 1);
        if s[upto - 1].is_toggle() {
            pre + toggle_frames(su, upto - 1, false)
        } else {
            pre
        }
    }
}

/// The names of the features that declare `name` as a dependency, among
/// the first `upto` features, in catalog order.
pub open spec fn dependents_spec(s: Seq<FeatureModel>, name: Seq<char>, upto: int) -> Seq<
    Seq<char>,
>
    decreases upto,
{
    if upto <= 0 {
        Seq::empty()
    } else {
        let rest = dependents_spec(s, name, upto - 1);
        if s[upto - 1].deps.contains(name) {
            rest.push(s[upto - 1].name)
        } else {
            rest
        }
    }
}

/// The feature name of one equalizer snapshot slot: the pre-amp first,
/// then the ten bands in rising frequency order.
pub open spec fn eq_slot_name(k: int) -> Seq<char> {
    if k == 0 {
        "EQ Pre-Amp"@
    } else if k == 1 {
        "EQ 31Hz"@
    } else if k == 2 {
        "EQ 62Hz"@
    } else if k == 3 {
        "EQ 125Hz"@
    } else if k == 4 {
        "EQ 250Hz"@
    } else if k == 5 {
        "EQ 500Hz"@
    } else if k == 6 {
        "EQ 1kHz"@
    } else if k == 7 {
        "EQ 2kHz"@
    } else if k == 8 {
        "EQ 4kHz"@
    } else if k == 9 {
        "EQ 8kHz"@
    } else {
        "EQ 16kHz"@
    }
}

/// Executable counterpart of `eq_slot_name`.
fn eq_slot(k: usize) -> (r: &'static str)
    requires
        k < 11,
    ensures
        r@ == eq_slot_name(k as int),
{
    if k == 0 {
        "EQ Pre-Amp"
    } else if k == 1 {
        "EQ 31Hz"
    } else if k == 2 {
        "EQ 62Hz"
    } else if k == 3 {
        "EQ 125Hz"
    } else if k == 4 {
        "EQ 250Hz"
    } else if k == 5 {
        "EQ 500Hz"
    } else if k == 6 {
        "EQ 1kHz"
    } else if k == 7 {
        "EQ 2kHz"
    } else if k == 8 {
        "EQ 4kHz"
    } else if k == 9 {
        "EQ 8kHz"
    } else {
        "EQ 16kHz"
    }
}

/// The in-memory model of the device configuration.
pub struct BlasterXG6 {
    /// Every feature with its current value, in catalog order.
    pub features: Vec<Feature>,
}

impl View for BlasterXG6 {
    type V = Seq<FeatureModel>;

    open spec fn view(&self) -> Seq<FeatureModel> {
        self.features.deep_view()
    }
}

/// Copies a name list.
fn clone_names(v: &Vec<String>) -> (r: Vec<String>)
    ensures
        r.deep_view() =~= v.deep_view(),
{
    let mut r: Vec<String> = Vec::new();
    let mut l: usize = 0;
    while l < v.len()
        invariant
            l <= v@.len(),
            r@.len() == l,
            forall|t: int| 0 <= t < l ==> r.deep_view()[t] == v.deep_view()[t],
        decreases v@.len() - l,
    {
        let c = v[l].clone();
        assert(c@ == v@[l as int]@);
        r.push(c);
        l = l + 1;
    }
    assert(r.deep_view() =~= v.deep_view());
    r
}

/// Whether an owned name list contains the given name.
fn contains_name(v: &Vec<String>, name: &String) -> (r: bool)
    ensures
        r == v.deep_view().contains(name@),
{
    let mut l: usize = 0;
    while l < v.len()
        invariant
            l <= v@.len(),
            forall|t: int| 0 <= t < l ==> v.deep_view()[t] != name@,
        decreases v@.len() - l,
    {
        if v[l] == *name {
            assert(v.deep_view()[l as int] == name@);
            return true;
        }
        l = l + 1;
    }
    assert(forall|t: int| 0 <= t < v.deep_view().len() ==> v.deep_view()[t] != name@);
    false
}

/// Finds the feature carrying the given name.
pub(crate) fn find_by_name(features: &Vec<Feature>, name: &String) -> (r: Option<usize>)
    ensures
        match r {
            Some(i) => i < features.deep_view().len() && features.deep_view()[i as int].name
                == name@,
            None => !has_feature(features.deep_view(), name@),
        },
{
    let ghost s = features.deep_view();
    let mut i: usize = 0;
    while i < features.len()
        invariant
            s == features.deep_view(),
            i <= s.len(),
            forall|t: int| 0 <= t < i ==> (#[trigger] s[t]).name != name@,
        decreases s.len() - i,
    {
        if features[i].name == *name {
            assert(s[i as int].name == name@);
            return Some(i);
        }
        i = i + 1;
    }
    None
}

/// The executable side of `partner_name`.
fn partner_of(name: &String) -> (r: Option<String>)
    ensures
        match r {
            Some(p) => partner_name(name@) == Some(p@),
            None => partner_name(name@) is None,
        },
{
    let sbx: String = "SBX".to_owned();
    let scout: String = "Scout Mode".to_owned();
    if *name == sbx {
        Some(scout)
    } else if *name == scout {
        Some(sbx)
    } else {
        None
    }
}

/// Checks that no two features share a name.
fn names_unique_exec(features: &Vec<Feature>) -> (r: bool)
    ensures
        r == names_unique(features.deep_view()),
{
    let ghost s = features.deep_view();
    let n = features.len();
    let mut i: usize = 0;
    while i < n
        invariant
            s == features.deep_view(),
            n == s.len(),
            i <= n,
            forall|a: int, b: int|
                0 <= a < i && 0 <= b < s.len() && a != b ==> (#[trigger] s[a]).name != (
                #[trigger] s[b]).name,
        decreases n - i,
    {
        let mut j: usize = 0;
        while j < n
            invariant
                s == features.deep_view(),
                n == s.len(),
                i < n,
                j <= n,
                forall|a: int, b: int|
                    0 <= a < i && 0 <= b < s.len() && a != b ==> (#[trigger] s[a]).name != (
                    #[trigger] s[b]).name,
                forall|b: int|
                    0 <= b < j && b != i ==> (#[trigger] s[b]).name != s[i as int].name,
            decreases n - j,
        {
            if j != i && features[i].name == features[j].name {
                assert(s[i as int].name == s[j as int].name);
                assert(!names_unique(s));
                return false;
            }
            j = j + 1;
        }
        i = i + 1;
    }
    true
}

/// Startup-time validation of the catalog: confirms every clause of `wf`,
/// including that the dependency graph is closed and free of cycles through
/// self-reference, rather than assuming it.
fn check_catalog(features: &Vec<Feature>) -> (r: bool)
    ensures
        r == wf(features.deep_view()),
{
    let ghost s = features.deep_view();
    if !names_unique_exec(features) {
        return false;
    }
    let n = features.len();
    let mut i: usize = 0;
    while i < n
        invariant
            s == features.deep_view(),
            n == s.len(),
            names_unique(s),
            i <= n,
            forall|a: int, k: int|
                0 <= a < i && 0 <= k < s[a].deps.len() ==> dep_ok(s, a, #[trigger] s[a].deps[k]),
            forall|a: int| 0 <= a < i ==> #[trigger] pair_ok(s, a),
            forall|a: int| 0 <= a < i ==> !((#[trigger] s[a]).id is RGB),
        decreases n - i,
    {
        // no color-family feature
        if matches!(features[i].id, Format::RGB(_)) {
            return false;
        }
        // dependency entries
        let ndeps = features[i].dependencies.len();
        let mut k: usize = 0;
        while k < ndeps
            invariant
                s == features.deep_view(),
                n == s.len(),
                names_unique(s),
                i < n,
                ndeps == s[i as int].deps.len(),
                k <= ndeps,
                forall|t: int| 0 <= t < k ==> dep_ok(s, i as int, #[trigger] s[i as int].deps[t]),
            decreases ndeps - k,
        {
            let d = features[i].dependencies[k].clone();
            assert(d@ == s[i as int].deps[k as int]);
            match find_by_name(features, &d) {
                None => {
                    assert(!dep_ok(s, i as int, s[i as int].deps[k as int]));
                    return false;
                },
                Some(j) => {
                    proof {
                        lemma_idx_of_self(s, j as int);
                        assert(idx_of(s, d@) == j);
                    }
                    if j == i {
                        assert(!dep_ok(s, i as int, s[i as int].deps[k as int]));
                        return false;
                    }
                    if features[j].value.as_bool().is_none() {
                        assert(!s[j as int].is_toggle());
                        assert(!dep_ok(s, i as int, s[i as int].deps[k as int]));
                        return false;
                    }
                    // transitive closure: every dependency of the dependency
                    // is already in our own list
                    let njdeps = features[j].dependencies.len();
                    let mut k2: usize = 0;
                    while k2 < njdeps
                        invariant
                            s == features.deep_view(),
                            n == s.len(),
                            i < n,
                            j < n,
                            idx_of(s, s[i as int].deps[k as int]) == j as int,
                            k < s[i as int].deps.len(),
                            njdeps == s[j as int].deps.len(),
                            k2 <= njdeps,
                            forall|t: int|
                                0 <= t < k2 ==> s[i as int].deps.contains(
                                    #[trigger] s[j as int].deps[t],
                                ),
                        decreases njdeps - k2,
                    {
                        let e = features[j].dependencies[k2].clone();
                        assert(e@ == s[j as int].deps[k2 as int]);
                        if !contains_name(&features[i].dependencies, &e) {
                            assert(!dep_ok(s, i as int, s[i as int].deps[k as int]));
                            return false;
                        }
                        k2 = k2 + 1;
                    }
                    // a dependency of the exclusive pair: its partner may be
                    // depended on by nothing
                    match partner_of(&d) {
                        None => {},
                        Some(p) => {
                            let mut j2: usize = 0;
                            while j2 < n
                                invariant
                                    s == features.deep_view(),
                                    n == s.len(),
                                    i < n,
                                    k < s[i as int].deps.len(),
                                    partner_name(s[i as int].deps[k as int]) == Some(p@),
                                    j2 <= n,
                                    forall|t: int|
                                        0 <= t < j2 ==> !(#[trigger] s[t]).deps.contains(p@),
                                decreases n - j2,
                            {
                                if contains_name(&features[j2].dependencies, &p) {
                                    assert(s[j2 as int].deps.contains(p@));
                                    assert(!dep_ok(s, i as int, s[i as int].deps[k as int]));
                                    return false;
                                }
                                j2 = j2 + 1;
                            }
                        },
                    }
                    assert(dep_ok(s, i as int, s[i as int].deps[k as int]));
                },
            }
            k = k + 1;
        }
        // exclusive-pair soundness
        match partner_of(&features[i].name) {
            None => {
                assert(pair_ok(s, i as int));
            },
            Some(p) => {
                if features[i].dependencies.len() != 0 {
                    assert(!pair_ok(s, i as int));
                    return false;
                }
                match find_by_name(features, &p) {
                    None => {
                        assert(!pair_ok(s, i as int));
                        return false;
                    },
                    Some(jp) => {
                        proof {
                            lemma_idx_of_self(s, jp as int);
                            assert(idx_of(s, p@) == jp);
                        }
                        if jp == i {
                            assert(!pair_ok(s, i as int));
                            return false;
                        }
                        if features[jp].value.as_bool().is_none() {
                            assert(!s[jp as int].is_toggle());
                            assert(!pair_ok(s, i as int));
                            return false;
                        }
                        assert(pair_ok(s, i as int));
                    },
                }
            },
        }
        i = i + 1;
    }
    true
}

impl BlasterXG6 {
    /// Commits one value and appends the frame pair that announces it.
    fn set_one(&mut self, j: usize, value: FeatureType, out: &mut Vec<Payload>)
        requires
            j < old(self)@.len(),
            !(old(self)@[j as int].id is RGB),
            value matches FeatureType::Slider(c) ==> -VALUE_LIMIT <= c <= VALUE_LIMIT,
        ensures
            final(self)@ =~= with_value(old(self)@, j as int, value@),
            final(out).deep_view() =~= old(out).deep_view().push(
                spec_payload(old(self)@[j as int].id, wire_centi(value@)),
            ),
    {
        let id = self.features[j].id;
        let centi: i32 = match value {
            FeatureType::Toggle(b) => if b {
                10000
            } else {
                0
            },
            FeatureType::Slider(c) => c,
        };
        match create_payload(&id, centi) {
            Ok(p) => {
                out.push(p);
            },
            Err(_) => {
                // the color family is excluded by the caller's precondition
                vstd::pervasive::unreached::<()>();
            },
        }
        self.features[j].value = value;
        proof {
            assert(self.features@ =~= old(self).features@.update(
                j as int,
                Feature {
                    value,
                    ..old(self).features@[j as int]
                },
            ));
        }
    }

    /// Disables feature `p` together with every enabled toggle that depends
    /// on it, dependents first in catalog order, and appends the frames.
    fn disable_cascade(&mut self, p: usize, out: &mut Vec<Payload>)
        requires
            wf(old(self)@),
            p < old(self)@.len(),
        ensures
            final(self)@ =~= disable_result(old(self)@, p as int),
            final(out).deep_view() =~= old(out).deep_view() + disable_frames(old(self)@, p as int),
    {
        let ghost s = old(self)@;
        let pname = self.features[p].name.clone();
        assert(pname@ == s[p as int].name);
        let n = self.features.len();
        let mut j: usize = 0;
        while j < n
            invariant
                wf(s),
                n == s.len(),
                p < n,
                pname@ == s[p as int].name,
                j <= n,
                self.features@.len() == n,
                self@ =~= Seq::new(
                    s.len(),
                    |t: int|
                        if t < j && t != p && s[t].is_enabled_toggle() && s[t].deps.contains(
                            s[p as int].name,
                        ) {
                            FeatureModel { value: ValueModel::Toggle(false), ..s[t] }
                        } else {
                            s[t]
                        },
                ),
                out.deep_view() =~= old(out).deep_view() + disable_frames_upto(s, p as int, j as int),
            decreases n - j,
        {
            assert(self@[j as int] == s[j as int]);
            let enabled = match self.features[j].value {
                FeatureType::Toggle(b) => b,
                FeatureType::Slider(_) => false,
            };
            if j != p && enabled && contains_name(&self.features[j].dependencies, &pname) {
                assert(s[j as int].is_enabled_toggle());
                assert(s[j as int].deps.contains(s[p as int].name));
                self.set_one(j, FeatureType::Toggle(false), out);
            } else {
                assert(!(j != p && s[j as int].is_enabled_toggle() && s[j as int].deps.contains(
                    s[p as int].name,
                )));
            }
            j = j + 1;
        }
        self.set_one(p, FeatureType::Toggle(false), out);
        proof {
            assert(self@ =~= disable_result(s, p as int));
        }
    }

    /// Whether feature `j` is a toggle that currently reads enabled.
    fn is_enabled(&self, j: usize) -> (r: bool)
        requires
            j < self@.len(),
        ensures
            r == self@[j as int].is_enabled_toggle(),
    {
        match self.features[j].value {
            FeatureType::Toggle(b) => b,
            FeatureType::Slider(_) => false,
        }
    }

    /// Enables, in list order, every named dependency that is not already
    /// enabled; an enabled exclusive partner of a dependency is disabled
    /// first, with its cascade.
    fn enable_deps(&mut self, deps: &Vec<String>, out: &mut Vec<Payload>)
        requires
            wf(old(self)@),
            forall|k: int|
                0 <= k < deps.deep_view().len() ==> has_feature(
                    old(self)@,
                    #[trigger] deps.deep_view()[k],
                ) && old(self)@[idx_of(old(self)@, deps.deep_view()[k])].is_toggle(),
        ensures
            final(self)@ == enable_deps_fold(
                old(self)@,
                deps.deep_view(),
                deps.deep_view().len() as int,
            ),
            final(out).deep_view() == old(out).deep_view() + enable_deps_frames(
                old(self)@,
                deps.deep_view(),
                deps.deep_view().len() as int,
            ),
            wf(final(self)@),
            same_shape(old(self)@, final(self)@),
    {
        let ghost s0 = old(self)@;
        let ghost depsv = deps.deep_view();
        let n = deps.len();
        let mut k: usize = 0;
        proof {
            assert(self@ =~= enable_deps_fold(s0, depsv, 0));
            assert(out.deep_view() =~= old(out).deep_view() + enable_deps_frames(s0, depsv, 0));
        }
        while k < n
            invariant
                wf(s0),
                n == depsv.len(),
                depsv == deps.deep_view(),
                forall|t: int|
                    0 <= t < n ==> has_feature(s0, #[trigger] depsv[t]) && s0[idx_of(
                        s0,
                        depsv[t],
                    )].is_toggle(),
                k <= n,
                self@ == enable_deps_fold(s0, depsv, k as int),
                out.deep_view() == old(out).deep_view() + enable_deps_frames(s0, depsv, k as int),
                wf(self@),
                same_shape(s0, self@),
                self.features@.len() == s0.len(),
            decreases n - k,
        {
            let ghost su = self@;
            let d = deps[k].clone();
            assert(d@ == depsv[k as int]);
            proof {
                lemma_same_shape_lookup(s0, su, d@);
            }
            let jd = match find_by_name(&self.features, &d) {
                Some(j) => j,
                None => {
                    proof {
                        assert(false);
                    }
                    vstd::pervasive::unreached::<usize>()
                },
            };
            proof {
                lemma_idx_of_self(su, jd as int);
                assert(idx_of(su, d@) == jd as int);
                assert(su[jd as int].is_toggle());
            }
            if !self.is_enabled(jd) {
                match partner_of(&d) {
                    Some(p) => {
                        match find_by_name(&self.features, &p) {
                            Some(jp) => {
                                proof {
                                    lemma_idx_of_self(su, jp as int);
                                    assert(idx_of(su, p@) == jp as int);
                                }
                                if self.is_enabled(jp) {
                                    proof {
                                        assert(pair_ok(su, jd as int));
                                        assert(su[jp as int].is_toggle());
                                    }
                                    self.disable_cascade(jp, out);
                                    proof {
                                        lemma_disable_result_shape(su, jp as int);
                                        lemma_same_shape_lookup(su, self@, d@);
                                    }
                                }
                            },
                            None => {},
                        }
                    },
                    None => {},
                }
                let ghost s1 = self@;
                proof {
                    assert(s1[jd as int].id == su[jd as int].id);
                    lemma_wf_same_shape(s0, su);
                    assert(!(su[jd as int].id is RGB));
                    if same_shape(su, s1) {
                    } else {
                        assert(s1 == su);
                    }
                }
                self.set_one(jd, FeatureType::Toggle(true), out);
            }
            proof {
                assert(self@ =~= dep_step(su, depsv[k as int]));
                assert(out.deep_view() =~= old(out).deep_view() + enable_deps_frames(
                    s0,
                    depsv,
                    k + 1 as int,
                ));
                lemma_same_shape_lookup(s0, su, depsv[k as int]);
                lemma_dep_step_shape(su, depsv[k as int]);
                assert(same_shape(s0, self@));
            }
            k = k + 1;
        }
    }

    /// Sets a toggle on or off, or inverts it when no explicit value is
    /// given, and keeps every cross-feature invariant intact: enabling
    /// first forces an enabled exclusive partner off with its cascade,
    /// then enables every dependency; disabling forces every enabled
    /// toggle dependent off while dependent sliders keep their stored
    /// positions.  Returns the frame pairs to transmit, in order.
    pub fn set_feature(&mut self, feature: &str, value: Option<bool>) -> (r: Result<
        Vec<Payload>,
        DeviceError,
    >)
        requires
            wf(old(self)@),
        ensures
            wf(final(self)@),
            same_shape(old(self)@, final(self)@),
            crate::laws::deps_closed(old(self)@) ==> crate::laws::deps_closed(final(self)@),
            crate::laws::excl_ok(old(self)@) ==> crate::laws::excl_ok(final(self)@),
            match r {
                Ok(frames) => {
                    let i = idx_of(old(self)@, feature@);
                    let v = resolve_toggle(old(self)@, i, value);
                    &&& has_feature(old(self)@, feature@)
                    &&& old(self)@[i].is_toggle()
                    &&& final(self)@ == toggle_result(old(self)@, i, v)
                    &&& frames.deep_view() == toggle_frames(old(self)@, i, v)
                },
                Err(e) => {
                    &&& final(self)@ == old(self)@
                    &&& (e == DeviceError::NotFound <==> !has_feature(old(self)@, feature@))
                    &&& (e == DeviceError::WrongKind <==> has_feature(old(self)@, feature@)
                        && !old(self)@[idx_of(old(self)@, feature@)].is_toggle())
                    &&& (e == DeviceError::NotFound || e == DeviceError::WrongKind)
                },
            },
    {
        let ghost s0 = old(self)@;
        let fname: String = feature.to_owned();
        let i = match find_by_name(&self.features, &fname) {
            Some(i) => i,
            None => {
                return Err(DeviceError::NotFound);
            },
        };
        proof {
            lemma_idx_of_self(s0, i as int);
            assert(idx_of(s0, feature@) == i as int);
        }
        let curb = match self.features[i].value {
            FeatureType::Toggle(b) => b,
            FeatureType::Slider(_) => {
                return Err(DeviceError::WrongKind);
            },
        };
        let v = match value {
            Some(b) => b,
            None => !curb,
        };
        assert(v == resolve_toggle(s0, i as int, value));
        let mut out: Vec<Payload> = Vec::new();
        if v {
            match partner_of(&fname) {
                Some(p) => {
                    match find_by_name(&self.features, &p) {
                        Some(jp) => {
                            proof {
                                lemma_idx_of_self(s0, jp as int);
                                assert(idx_of(s0, p@) == jp as int);
                                assert(pair_ok(s0, i as int));
                                assert(s0[jp as int].is_toggle());
                            }
                            if self.is_enabled(jp) {
                                self.disable_cascade(jp, &mut out);
                                proof {
                                    lemma_disable_result_shape(s0, jp as int);
                                }
                            }
                        },
                        None => {},
                    }
                },
                None => {},
            }
            let ghost s1 = self@;
            proof {
                if same_shape(s0, s1) {
                } else {
                    assert(s1 == s0);
                }
                assert(same_shape(s0, s1));
                lemma_wf_same_shape(s0, s1);
            }
            let deps = clone_names(&self.features[i].dependencies);
            let ghost depsv = deps.deep_view();
            proof {
                assert(s1[i as int].deps == s0[i as int].deps);
                assert(depsv == s0[i as int].deps);
                assert forall|k: int|
                    0 <= k < depsv.len() implies has_feature(s1, #[trigger] depsv[k]) && s1[idx_of(
                    s1,
                    depsv[k],
                )].is_toggle() by {
                    assert(dep_ok(s0, i as int, s0[i as int].deps[k]));
                    lemma_same_shape_lookup(s0, s1, depsv[k]);
                }
            }
            self.enable_deps(&deps, &mut out);
            let ghost s2 = self@;
            proof {
                assert(!(s2[i as int].id is RGB));
                assert(s2[i as int].is_toggle());
            }
            self.set_one(i, FeatureType::Toggle(true), &mut out);
            proof {
                assert(self@ == toggle_result(s0, i as int, true));
                assert(out.deep_view() =~= toggle_frames(s0, i as int, true));
                lemma_with_value_shape(s2, i as int, ValueModel::Toggle(true));
                lemma_wf_same_shape(s2, self@);
                assert(same_shape(s0, self@));
            }
        } else {
            self.disable_cascade(i, &mut out);
            proof {
                assert(self@ == toggle_result(s0, i as int, false));
                assert(out.deep_view() =~= toggle_frames(s0, i as int, false));
                lemma_disable_result_shape(s0, i as int);
                lemma_wf_same_shape(s0, self@);
            }
        }
        proof {
            if crate::laws::deps_closed(s0) {
                crate::laws::lemma_toggle_preserves_consistency(s0, i as int, v);
            }
            if crate::laws::excl_ok(s0) {
                crate::laws::lemma_toggle_preserves_excl(s0, i as int, v);
            }
        }
        Ok(out)
    }

    /// Stores a slider position after enabling, with full cascades, every
    /// dependency that is currently disabled, and returns the frame pairs
    /// to transmit, in order.  No range clamping happens here: callers
    /// clamp to their own scale first, within the codec's stated domain.
    pub fn set_slider(&mut self, feature: &str, value: i32) -> (r: Result<
        Vec<Payload>,
        DeviceError,
    >)
        requires
            wf(old(self)@),
            -VALUE_LIMIT <= value <= VALUE_LIMIT,
        ensures
            wf(final(self)@),
            same_shape(old(self)@, final(self)@),
            crate::laws::deps_closed(old(self)@) ==> crate::laws::deps_closed(final(self)@),
            crate::laws::excl_ok(old(self)@) ==> crate::laws::excl_ok(final(self)@),
            match r {
                Ok(frames) => {
                    let i = idx_of(old(self)@, feature@);
                    &&& has_feature(old(self)@, feature@)
                    &&& old(self)@[i].is_slider()
                    &&& final(self)@ == slider_result(old(self)@, i, value as int)
                    &&& frames.deep_view() == slider_frames(old(self)@, i, value as int)
                },
                Err(e) => {
                    &&& final(self)@ == old(self)@
                    &&& (e == DeviceError::NotFound <==> !has_feature(old(self)@, feature@))
                    &&& (e == DeviceError::WrongKind <==> has_feature(old(self)@, feature@)
                        && !old(self)@[idx_of(old(self)@, feature@)].is_slider())
                    &&& (e == DeviceError::NotFound || e == DeviceError::WrongKind)
                },
            },
    {
        let ghost s0 = old(self)@;
        let fname: String = feature.to_owned();
        let i = match find_by_name(&self.features, &fname) {
            Some(i) => i,
            None => {
                return Err(DeviceError::NotFound);
            },
        };
        proof {
            lemma_idx_of_self(s0, i as int);
            assert(idx_of(s0, feature@) == i as int);
        }
        match self.features[i].value {
            FeatureType::Slider(_) => {},
            FeatureType::Toggle(_) => {
                return Err(DeviceError::WrongKind);
            },
        }
        let mut out: Vec<Payload> = Vec::new();
        let deps = clone_names(&self.features[i].dependencies);
        let ghost depsv = deps.deep_view();
        proof {
            assert(depsv == s0[i as int].deps);
            assert forall|k: int|
                0 <= k < depsv.len() implies has_feature(s0, #[trigger] depsv[k]) && s0[idx_of(
                s0,
                depsv[k],
            )].is_toggle() by {
                assert(dep_ok(s0, i as int, s0[i as int].deps[k]));
            }
        }
        self.enable_deps(&deps, &mut out);
        let ghost s2 = self@;
        proof {
            assert(!(s2[i as int].id is RGB));
            assert(s2[i as int].is_slider());
        }
        self.set_one(i, FeatureType::Slider(value), &mut out);
        proof {
            assert(self@ == slider_result(s0, i as int, value as int));
            assert(out.deep_view() =~= slider_frames(s0, i as int, value as int));
            lemma_with_value_shape(s2, i as int, ValueModel::Slider(value as int));
            lemma_wf_same_shape(s2, self@);
            assert(same_shape(s0, self@));
            if crate::laws::deps_closed(s0) {
                crate::laws::lemma_slider_preserves_consistency(s0, i as int, value as int);
            }
            if crate::laws::excl_ok(s0) {
                crate::laws::lemma_slider_preserves_excl(s0, i as int, value as int);
            }
        }
        Ok(out)
    }

    /// Looks a feature up by name, with its metadata and current value.
    pub fn get_feature(&self, feature: &str) -> (r: Result<&Feature, DeviceError>)
        requires
            wf(self@),
        ensures
            match r {
                Ok(f) => has_feature(self@, feature@) && f@ == self@[idx_of(self@, feature@)],
                Err(e) => e == DeviceError::NotFound && !has_feature(self@, feature@),
            },
    {
        let fname: String = feature.to_owned();
        match find_by_name(&self.features, &fname) {
            Some(i) => {
                proof {
                    lemma_idx_of_self(self@, i as int);
                }
                Ok(&self.features[i])
            },
            None => Err(DeviceError::NotFound),
        }
    }

    /// The declared dependency names of a feature, or `None` when no
    /// feature carries the name.
    pub fn get_dependencies(&self, feature: &str) -> (r: Option<Vec<String>>)
        requires
            wf(self@),
        ensures
            match r {
                Some(d) => has_feature(self@, feature@) && d.deep_view() == self@[idx_of(
                    self@,
                    feature@,
                )].deps,
                None => !has_feature(self@, feature@),
            },
    {
        let fname: String = feature.to_owned();
        match find_by_name(&self.features, &fname) {
            Some(i) => {
                proof {
                    lemma_idx_of_self(self@, i as int);
                }
                Some(clone_names(&self.features[i].dependencies))
            },
            None => None,
        }
    }

    /// The names of the features that declare the given feature as a
    /// dependency, in catalog order.
    pub fn get_dependents(&self, feature: &str) -> (r: Vec<String>)
        ensures
            r.deep_view() == dependents_spec(self@, feature@, self@.len() as int),
    {
        let fname: String = feature.to_owned();
        let mut r: Vec<String> = Vec::new();
        let n = self.features.len();
        let mut j: usize = 0;
        proof {
            assert(r.deep_view() =~= dependents_spec(self@, feature@, 0));
        }
        while j < n
            invariant
                n == self@.len(),
                self.features@.len() == n,
                fname@ == feature@,
                j <= n,
                r.deep_view() == dependents_spec(self@, feature@, j as int),
            decreases n - j,
        {
            if contains_name(&self.features[j].dependencies, &fname) {
                r.push(self.features[j].name.clone());
            }
            proof {
                assert(r.deep_view() =~= dependents_spec(self@, feature@, j + 1 as int));
            }
            j = j + 1;
        }
        r
    }

    /// The equalizer snapshot: the pre-amp position followed by the ten
    /// band positions in rising frequency order, in centiunits; `None`
    /// when any expected band feature is absent or not a slider.
    pub fn get_ten_band_eq(&self) -> (r: Option<Vec<i32>>)
        requires
            wf(self@),
        ensures
            match r {
                Some(v) => v@.len() == 11 && forall|k: int|
                    0 <= k < 11 ==> has_feature(self@, eq_slot_name(k)) && self@[idx_of(
                        self@,
                        eq_slot_name(k),
                    )].value == ValueModel::Slider((#[trigger] v@[k]) as int),
                None => exists|k: int|
                    0 <= k < 11 && (!has_feature(self@, #[trigger] eq_slot_name(k)) || !self@[
                        idx_of(self@, eq_slot_name(k))].is_slider()),
            },
    {
        let mut v: Vec<i32> = Vec::new();
        let mut k: usize = 0;
        while k < 11
            invariant
                wf(self@),
                k <= 11,
                v@.len() == k,
                forall|t: int| 0 <= t < k ==> #[trigger] has_feature(self@, eq_slot_name(t)),
                forall|t: int|
                    0 <= t < k ==> self@[idx_of(self@, eq_slot_name(t))].value
                        == ValueModel::Slider((#[trigger] v@[t]) as int),
            decreases 11 - k,
        {
            let name: String = eq_slot(k).to_owned();
            match find_by_name(&self.features, &name) {
                Some(i) => {
                    proof {
                        lemma_idx_of_self(self@, i as int);
                        assert(idx_of(self@, eq_slot_name(k as int)) == i as int);
                    }
                    match self.features[i].value {
                        FeatureType::Slider(c) => {
                            let ghost vpre = v@;
                            v.push(c);
                            proof {
                                assert(v@[k as int] == c);
                                assert(self@[i as int].value == ValueModel::Slider(c as int));
                                assert forall|t: int|
                                    0 <= t < k + 1 implies #[trigger] has_feature(
                                    self@,
                                    eq_slot_name(t),
                                ) by {
                                    if t == k {
                                        assert(has_feature(self@, eq_slot_name(k as int)));
                                    }
                                }
                                assert forall|t: int|
                                    0 <= t < k + 1 implies self@[idx_of(
                                    self@,
                                    eq_slot_name(t),
                                )].value == ValueModel::Slider((#[trigger] v@[t]) as int) by {
                                    if t < k {
                                        assert(v@[t] == vpre[t]);
                                    } else {
                                        assert(v@[t] == c);
                                    }
                                }
                            }
                        },
                        FeatureType::Toggle(_) => {
                            proof {
                                assert(!self@[idx_of(
                                    self@,
                                    eq_slot_name(k as int),
                                )].is_slider());
                            }
                            return None;
                        },
                    }
                },
                None => {
                    proof {
                        assert(!has_feature(self@, eq_slot_name(k as int)));
                    }
                    return None;
                },
            }
            k = k + 1;
        }
        Some(v)
    }

    /// Returns every slider to zero and every toggle to off, sliders first
    /// so their final frames go out before the suites shut down, and
    /// returns the frame pairs to transmit.
    pub fn reset(&mut self) -> (r: Result<Vec<Payload>, DeviceError>)
        requires
            wf(old(self)@),
        ensures
            wf(final(self)@),
            same_shape(old(self)@, final(self)@),
            crate::laws::deps_closed(final(self)@),
            crate::laws::excl_ok(final(self)@),
            match r {
                Ok(frames) => {
                    let mid = reset_sliders_state(old(self)@, old(self)@.len() as int);
                    &&& final(self)@ == reset_toggles_state(mid, old(self)@.len() as int)
                    &&& frames.deep_view() == reset_sliders_frames(
                        old(self)@,
                        old(self)@.len() as int,
                    ) + reset_toggles_frames(mid, old(self)@.len() as int)
                },
                Err(_) => false,
            },
            forall|j: int|
                0 <= j < final(self)@.len() ==> (#[trigger] final(self)@[j]).value == (if old(
                    self,
                )@[j].is_toggle() {
                    ValueModel::Toggle(false)
                } else {
                    ValueModel::Slider(0)
                }),
    {
        let ghost s0 = old(self)@;
        let mut out: Vec<Payload> = Vec::new();
        let n = self.features.len();
        proof {
            assert(out.deep_view() =~= reset_sliders_frames(s0, 0));
        }
        // sliders first: their zero positions are sent while the suites
        // may still be enabled
        let mut i: usize = 0;
        while i < n
            invariant
                wf(s0),
                n == s0.len(),
                self.features@.len() == n,
                i <= n,
                wf(self@),
                same_shape(s0, self@),
                self@ == reset_sliders_state(s0, i as int),
                out.deep_view() == reset_sliders_frames(s0, i as int),
                forall|t: int|
                    0 <= t < i && s0[t].is_slider() ==> (#[trigger] self@[t]).value
                        == ValueModel::Slider(0),
            decreases n - i,
        {
            let ghost su = self@;
            let is_slider = matches!(self.features[i].value, FeatureType::Slider(_));
            if is_slider {
                let name = self.features[i].name.clone();
                proof {
                    lemma_idx_of_self(su, i as int);
                    assert(idx_of(su, name@) == i as int);
                }
                let mut frames = match self.set_slider(name.as_str(), 0) {
                    Ok(f) => f,
                    Err(_) => {
                        proof {
                            assert(false);
                        }
                        vstd::pervasive::unreached::<Vec<Payload>>()
                    },
                };
                let ghost framesv = frames.deep_view();
                out.append(&mut frames);
                proof {
                    assert(out.deep_view() =~= reset_sliders_frames(s0, i as int) + framesv);
                    assert(s0[i as int].is_slider());
                    assert(out.deep_view() == reset_sliders_frames(s0, i + 1 as int));
                    // the other sliders keep their positions through the
                    // dependency fold, and the store touches only slider `i`
                    assert(self@ == slider_result(su, i as int, 0));
                    assert(self@ == reset_sliders_state(s0, i + 1 as int));
                    assert forall|k: int|
                        0 <= k < su[i as int].deps.len() implies has_feature(
                        su,
                        #[trigger] su[i as int].deps[k],
                    ) && su[idx_of(su, su[i as int].deps[k])].is_toggle() by {
                        assert(dep_ok(su, i as int, su[i as int].deps[k]));
                    }
                    lemma_enable_deps_fold_shape(
                        su,
                        su[i as int].deps,
                        su[i as int].deps.len() as int,
                    );
                    let fold = enable_deps_fold(
                        su,
                        su[i as int].deps,
                        su[i as int].deps.len() as int,
                    );
                    assert forall|t: int|
                        0 <= t < i + 1 && s0[t].is_slider() implies (#[trigger] self@[t]).value
                        == ValueModel::Slider(0) by {
                        if t < i {
                            assert(su[t].is_slider());
                            crate::laws::lemma_fold_keeps_sliders(
                                su,
                                su[i as int].deps,
                                su[i as int].deps.len() as int,
                                t,
                            );
                            assert(fold[t].value == su[t].value);
                            assert(self@[t] == fold[t]);
                        } else {
                            assert(self@[t].value == ValueModel::Slider(0));
                        }
                    }
                }
            } else {
                proof {
                    assert(s0[i as int].is_toggle());
                    assert(self@ == reset_sliders_state(s0, i + 1 as int));
                    assert(out.deep_view() =~= reset_sliders_frames(s0, i + 1 as int));
                }
            }
            i = i + 1;
        }
        let ghost smid = self@;
        // then the toggles, in catalog order
        let mut i: usize = 0;
        proof {
            assert(smid == reset_sliders_state(s0, n as int));
            assert(self@ == reset_toggles_state(smid, 0));
            assert(out.deep_view() =~= reset_sliders_frames(s0, n as int) + reset_toggles_frames(
                smid,
                0,
            ));
        }
        while i < n
            invariant
                wf(s0),
                n == s0.len(),
                self.features@.len() == n,
                i <= n,
                wf(self@),
                same_shape(s0, self@),
                same_shape(s0, smid),
                smid == reset_sliders_state(s0, n as int),
                self@ == reset_toggles_state(smid, i as int),
                out.deep_view() == reset_sliders_frames(s0, n as int) + reset_toggles_frames(
                    smid,
                    i as int,
                ),
                forall|t: int|
                    0 <= t < n && s0[t].is_slider() ==> (#[trigger] self@[t]).value
                        == ValueModel::Slider(0),
                forall|t: int|
                    0 <= t < i && s0[t].is_toggle() ==> (#[trigger] self@[t]).value
                        == ValueModel::Toggle(false),
            decreases n - i,
        {
            let ghost su = self@;
            let is_toggle = matches!(self.features[i].value, FeatureType::Toggle(_));
            if is_toggle {
                let name = self.features[i].name.clone();
                proof {
                    lemma_idx_of_self(su, i as int);
                    assert(idx_of(su, name@) == i as int);
                }
                let mut frames = match self.set_feature(name.as_str(), Some(false)) {
                    Ok(f) => f,
                    Err(_) => {
                        proof {
                            assert(false);
                        }
                        vstd::pervasive::unreached::<Vec<Payload>>()
                    },
                };
                let ghost framesv = frames.deep_view();
                out.append(&mut frames);
                proof {
                    assert(smid[i as int].is_toggle());
                    assert(self@ == disable_result(su, i as int));
                    assert(self@ == toggle_result(su, i as int, false));
                    assert(self@ == reset_toggles_state(smid, i + 1 as int));
                    assert(out.deep_view() =~= reset_sliders_frames(s0, n as int)
                        + reset_toggles_frames(smid, i as int) + framesv);
                    assert(out.deep_view() =~= reset_sliders_frames(s0, n as int)
                        + reset_toggles_frames(smid, i + 1 as int));
                }
            } else {
                proof {
                    assert(s0[i as int].is_slider());
                    assert(!smid[i as int].is_toggle());
                    assert(self@ == reset_toggles_state(smid, i + 1 as int));
                    assert(out.deep_view() =~= reset_sliders_frames(s0, n as int)
                        + reset_toggles_frames(smid, i + 1 as int));
                    assert(self@[i as int].value == ValueModel::Slider(0));
                }
            }
            i = i + 1;
        }
        proof {
            // every toggle is off now, so consistency holds outright
            crate::laws::lemma_all_off_consistent(self@);
        }
        Ok(out)
    }

    /// Builds the state from the registry defaults, validating the catalog
    /// at startup instead of trusting its dependency graph.
    pub fn new() -> (r: Result<BlasterXG6, DeviceError>)
        ensures
            r is Ok <==> wf(crate::registry::spec_catalog()),
            match r {
                Ok(d) => wf(d@) && d@ == crate::registry::spec_catalog(),
                Err(e) => e == DeviceError::Malformed,
            },
    {
        let features = default_features();
        if check_catalog(&features) {
            Ok(BlasterXG6 { features })
        } else {
            Err(DeviceError::Malformed)
        }
    }
}

} // verus!
