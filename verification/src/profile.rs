//! Sparse profile snapshot and replay.
//!
//! A profile holds only what differs from the defaults: toggles that read
//! enabled and sliders away from zero, keyed by feature name.  Replaying a
//! profile routes every entry through the resolver, so dependency and
//! exclusivity invariants are re-established rather than trusted; a profile
//! naming an unknown feature, mismatching a value kind or carrying a value
//! outside the codec's domain fails as a whole before any mutation.
//! Reading and writing profile documents on disk is the embedding
//! program's job; this layer works on plain records.

use vstd::prelude::*;

use crate::registry::{DeviceError, FeatureModel, FeatureType, ValueModel};
use crate::codec::{Payload, PayloadModel, VALUE_LIMIT};
use crate::device::{
    BlasterXG6, has_feature, idx_of, lemma_idx_of_self, lemma_same_shape_lookup, same_shape,
    slider_frames, slider_result, toggle_frames, toggle_result, wf,
};

verus! {

/// One profile record: a feature name and the value to restore.
pub struct ProfileEntry {
    /// The feature the record belongs to.
    pub name: String,
    /// The value to restore, of the feature's own kind.
    pub value: FeatureType,
}

/// The mathematical value of a `ProfileEntry`.
pub struct EntryModel {
    pub name: Seq<char>,
    pub value: ValueModel,
}

impl View for ProfileEntry {
    type V = EntryModel;

    open spec fn view(&self) -> EntryModel {
        EntryModel { name: self.name@, value: self.value@ }
    }
}

impl DeepView for ProfileEntry {
    type V = EntryModel;

    open spec fn deep_view(&self) -> EntryModel {
        self.view()
    }
}

/// The sparse snapshot of the first `upto` features: enabled toggles and
/// non-zero sliders, in catalog order.
pub open spec fn sparse_spec(s: Seq<FeatureModel>, upto: int) -> Seq<EntryModel>
    decreases upto,
{
    if upto <= 0 {
        Seq::empty()
    } else {
        let rest = sparse_spec(s, upto - 1);
        let f = s[upto - 1];
        if f.value == ValueModel::Toggle(true) || (f.value matches ValueModel::Slider(c) && c
            != 0) {
            rest.push(EntryModel { name: f.name, value: f.value })
        } else {
            rest
        }
    }
}

/// Every entry names a feature of the state.
pub open spec fn entries_known(s: Seq<FeatureModel>, es: Seq<EntryModel>) -> bool {
    forall|k: int| 0 <= k < es.len() ==> has_feature(s, (#[trigger] es[k]).name)
}

/// Every entry carries a value of its feature's kind.
pub open spec fn entries_kinds_ok(s: Seq<FeatureModel>, es: Seq<EntryModel>) -> bool {
    forall|k: int|
        0 <= k < es.len() ==> ((#[trigger] es[k]).value is Toggle <==> s[idx_of(
            s,
            es[k].name,
        )].is_toggle())
}

/// Every slider entry stays inside the codec's stated domain.
pub open spec fn entries_in_range(es: Seq<EntryModel>) -> bool {
    forall|k: int|
        0 <= k < es.len() ==> ((#[trigger] es[k]).value matches ValueModel::Slider(c)
            ==> -VALUE_LIMIT <= c <= VALUE_LIMIT)
}

/// The state after the first `upto` entries have been replayed through the
/// resolver, zero-valued slider entries skipped.
pub open spec fn apply_entries(
    s: Seq<FeatureModel>,
    es: Seq<EntryModel>,
    upto: int,
) -> Seq<FeatureModel>
    decreases upto,
{
    if upto <= 0 {
        s
    } else {
        let su = apply_entries(s, es, upto - 1);
        let e = es[upto - 1];
        if !has_feature(su, e.name) {
            su
        } else {
            let i = idx_of(su, e.name);
            match e.value {
                ValueModel::Toggle(b) => if su[i].is_toggle() {
                    toggle_result(su, i, b)
                } else {
                    su
                },
                ValueModel::Slider(c) => if su[i].is_slider() && c != 0 {
                    slider_result(su, i, c)
                } else {
                    su
                },
            }
        }
    }
}

/// The frames the first `upto` replayed entries send, in order.
pub open spec fn apply_entries_frames(
    s: Seq<FeatureModel>,
    es: Seq<EntryModel>,
    upto: int,
) -> Seq<PayloadModel>
    decreases upto,
{
    if upto <= 0 {
        Seq::empty()
    } else {
        let pre = apply_entries_frames(s, es, upto - 1);
        let su = apply_entries(s, es, upto - 1);
        let e = es[upto - 1];
        if !has_feature(su, e.name) {
            pre
        } else {
            let i = idx_of(su, e.name);
            match e.value {
                ValueModel::Toggle(b) => if su[i].is_toggle() {
                    pre + toggle_frames(su, i, b)
                } else {
                    pre
                },
                ValueModel::Slider(c) => if su[i].is_slider() && c != 0 {
                    pre + slider_frames(su, i, c)
                } else {
                    pre
                },
            }
        }
    }
}

impl BlasterXG6 {
    /// Walks the state and emits only what differs from the defaults:
    /// enabled toggles and non-zero sliders, keyed by feature name, in
    /// catalog order.
    pub fn snapshot_sparse(&self) -> (r: Vec<ProfileEntry>)
        ensures
            r.deep_view() == sparse_spec(self@, self@.len() as int),
    {
        let mut r: Vec<ProfileEntry> = Vec::new();
        let n = self.features.len();
        let mut i: usize = 0;
        proof {
            assert(r.deep_view() =~= sparse_spec(self@, 0));
        }
        while i < n
            invariant
                n == self@.len(),
                self.features@.len() == n,
                i <= n,
                r.deep_view() == sparse_spec(self@, i as int),
            decreases n - i,
        {
            let changed = match self.features[i].value {
                FeatureType::Toggle(b) => b,
                FeatureType::Slider(c) => c != 0,
            };
            if changed {
                let entry = ProfileEntry {
                    name: self.features[i].name.clone(),
                    value: self.features[i].value,
                };
                assert(entry@ == (EntryModel {
                    name: self@[i as int].name,
                    value: self@[i as int].value,
                }));
                r.push(entry);
            }
            proof {
                assert(r.deep_view() =~= sparse_spec(self@, i + 1 as int));
            }
            i = i + 1;
        }
        r
    }

    /// Replays a profile through the resolver, validating every record
    /// before any mutation: an unknown feature name fails the whole load
    /// with `NotFound`, a record whose value kind does not match its
    /// feature with `WrongKind`, and a slider value outside the codec's
    /// domain with `Malformed`, each time leaving the state untouched.
    pub fn apply_profile(&mut self, entries: &Vec<ProfileEntry>) -> (r: Result<
        Vec<Payload>,
        DeviceError,
    >)
        requires
            wf(old(self)@),
        ensures
            wf(final(self)@),
            same_shape(old(self)@, final(self)@),
            crate::laws::deps_closed(old(self)@) ==> crate::laws::deps_closed(final(self)@),
            crate::laws::excl_ok(old(self)@) ==> crate::laws::excl_ok(final(self)@),
            match r {
                Ok(frames) => {
                    &&& entries_known(old(self)@, entries.deep_view())
                    &&& entries_kinds_ok(old(self)@, entries.deep_view())
                    &&& entries_in_range(entries.deep_view())
                    &&& final(self)@ == apply_entries(
                        old(self)@,
                        entries.deep_view(),
                        entries.deep_view().len() as int,
                    )
                    &&& frames.deep_view() == apply_entries_frames(
                        old(self)@,
                        entries.deep_view(),
                        entries.deep_view().len() as int,
                    )
                },
                Err(e) => {
                    &&& final(self)@ == old(self)@
                    &&& (e == DeviceError::NotFound <==> !entries_known(
                        old(self)@,
                        entries.deep_view(),
                    ))
                    &&& (e == DeviceError::WrongKind <==> entries_known(
                        old(self)@,
                        entries.deep_view(),
                    ) && !entries_kinds_ok(old(self)@, entries.deep_view()))
                    &&& (e == DeviceError::Malformed <==> entries_known(
                        old(self)@,
                        entries.deep_view(),
                    ) && entries_kinds_ok(old(self)@, entries.deep_view()) && !entries_in_range(
                        entries.deep_view(),
                    ))
                    &&& (e == DeviceError::NotFound || e == DeviceError::WrongKind || e
                        == DeviceError::Malformed)
                },
            },
    {
        let ghost s0 = old(self)@;
        let ghost esv = entries.deep_view();
        let n = entries.len();
        // validation: names first, then kinds, then ranges, before any change
        let mut k: usize = 0;
        while k < n
            invariant
                wf(s0),
                s0 == self@,
                n == esv.len(),
                esv == entries.deep_view(),
                k <= n,
                forall|t: int| 0 <= t < k ==> has_feature(s0, (#[trigger] esv[t]).name),
            decreases n - k,
        {
            proof {
                assert(esv[k as int] == entries@[k as int]@);
            }
            match crate::device::find_by_name(&self.features, &entries[k].name) {
                Some(_) => {},
                None => {
                    proof {
                        assert(!has_feature(s0, esv[k as int].name));
                        assert(!entries_known(s0, esv));
                    }
                    return Err(DeviceError::NotFound);
                },
            }
            k = k + 1;
        }
        let mut k: usize = 0;
        while k < n
            invariant
                wf(s0),
                s0 == self@,
                n == esv.len(),
                esv == entries.deep_view(),
                entries_known(s0, esv),
                k <= n,
                forall|t: int|
                    0 <= t < k ==> ((#[trigger] esv[t]).value is Toggle <==> s0[idx_of(
                        s0,
                        esv[t].name,
                    )].is_toggle()),
            decreases n - k,
        {
            proof {
                assert(esv[k as int] == entries@[k as int]@);
                assert(has_feature(s0, esv[k as int].name));
            }
            let i = match crate::device::find_by_name(&self.features, &entries[k].name) {
                Some(i) => i,
                None => {
                    proof {
                        assert(false);
                    }
                    vstd::pervasive::unreached::<usize>()
                },
            };
            proof {
                lemma_idx_of_self(s0, i as int);
                assert(idx_of(s0, esv[k as int].name) == i as int);
            }
            let entry_is_toggle = matches!(entries[k].value, FeatureType::Toggle(_));
            let feature_is_toggle = matches!(self.features[i].value, FeatureType::Toggle(_));
            assert(entry_is_toggle == (esv[k as int].value is Toggle));
            assert(feature_is_toggle == s0[i as int].is_toggle());
            if entry_is_toggle != feature_is_toggle {
                proof {
                    assert(!entries_kinds_ok(s0, esv));
                }
                return Err(DeviceError::WrongKind);
            }
            k = k + 1;
        }
        let mut k: usize = 0;
        while k < n
            invariant
                wf(s0),
                s0 == self@,
                n == esv.len(),
                esv == entries.deep_view(),
                entries_known(s0, esv),
                entries_kinds_ok(s0, esv),
                k <= n,
                forall|t: int|
                    0 <= t < k ==> ((#[trigger] esv[t]).value matches ValueModel::Slider(c)
                        ==> -VALUE_LIMIT <= c <= VALUE_LIMIT),
            decreases n - k,
        {
            proof {
                assert(esv[k as int] == entries@[k as int]@);
            }
            match entries[k].value {
                FeatureType::Toggle(_) => {},
                FeatureType::Slider(c) => {
                    if !(-VALUE_LIMIT <= c && c <= VALUE_LIMIT) {
                        proof {
                            assert(esv[k as int].value == ValueModel::Slider(c as int));
                            assert(!entries_in_range(esv));
                        }
                        return Err(DeviceError::Malformed);
                    }
                },
            }
            k = k + 1;
        }
        // replay
        let mut out: Vec<Payload> = Vec::new();
        let mut k: usize = 0;
        proof {
            assert(out.deep_view() =~= apply_entries_frames(s0, esv, 0));
        }
        while k < n
            invariant
                wf(s0),
                n == esv.len(),
                esv == entries.deep_view(),
                entries_known(s0, esv),
                entries_kinds_ok(s0, esv),
                entries_in_range(esv),
                k <= n,
                self@ == apply_entries(s0, esv, k as int),
                out.deep_view() == apply_entries_frames(s0, esv, k as int),
                wf(self@),
                same_shape(s0, self@),
                crate::laws::deps_closed(s0) ==> crate::laws::deps_closed(self@),
                crate::laws::excl_ok(s0) ==> crate::laws::excl_ok(self@),
            decreases n - k,
        {
            let ghost su = self@;
            proof {
                lemma_same_shape_lookup(s0, su, esv[k as int].name);
            }
            let name = entries[k].name.clone();
            let ghost i = idx_of(su, esv[k as int].name);
            let mut frames: Vec<Payload> = match entries[k].value {
                FeatureType::Toggle(b) => {
                    proof {
                        assert(su[i].is_toggle());
                    }
                    match self.set_feature(name.as_str(), Some(b)) {
                        Ok(f) => f,
                        Err(_) => {
                            proof {
                                assert(false);
                            }
                            vstd::pervasive::unreached::<Vec<Payload>>()
                        },
                    }
                },
                FeatureType::Slider(c) => {
                    proof {
                        assert(su[i].is_slider());
                    }
                    if c != 0 {
                        match self.set_slider(name.as_str(), c) {
                            Ok(f) => f,
                            Err(_) => {
                                proof {
                                    assert(false);
                                }
                                vstd::pervasive::unreached::<Vec<Payload>>()
                            },
                        }
                    } else {
                        Vec::new()
                    }
                },
            };
            let ghost framesv = frames.deep_view();
            out.append(&mut frames);
            proof {
                assert(out.deep_view() =~= apply_entries_frames(s0, esv, k as int) + framesv);
            }
            proof {
                assert(self@ == apply_entries(s0, esv, k + 1 as int));
                assert(out.deep_view() == apply_entries_frames(s0, esv, k + 1 as int));
            }
            k = k + 1;
        }
        Ok(out)
    }
}

} // verus!
