//! The feature catalog: addresses, value kinds, defaults and dependencies.
//!
//! The registry is an immutable description of every controllable feature of
//! the device.  Each feature has a unique name, a wire address (family plus
//! sub-feature index), a value that is either a boolean toggle or a numeric
//! slider, and an ordered list of feature names that must be enabled before
//! the feature itself may be enabled.
//!
//! Slider positions are carried as signed centiunits: one hundred times the
//! engineering value, so `350` stands for 3.5 dB on an equalizer band and
//! `7500` for a 75 % effect strength.  This keeps every stored value exact.

use vstd::prelude::*;

verus! {

/// The error kinds every fallible operation of this crate reports.
#[derive(Clone, Copy, Debug, PartialEq, Eq, Structural)]
pub enum DeviceError {
    /// A feature, device or file was not present.
    NotFound,
    /// A toggle operation named a slider, or the other way round.
    WrongKind,
    /// A frame pair could not be written to the device.
    TransportFailure,
    /// The address family has no encoding.
    Unimplemented,
    /// A profile document could not be understood.
    Malformed,
}

/// A wire address: the command family and the sub-feature index within it.
#[derive(Clone, Copy, Debug, PartialEq, Eq, Structural)]
pub enum Format {
    /// Process-wide suite toggles.
    Global(u8),
    /// Per-effect toggles and sliders within the enabled suite.
    SBX(u8),
    /// Lighting control; present in the protocol but without an encoding.
    RGB(u8),
    /// Output-mode toggles.
    Routing(u8),
}

/// The current value of a feature: a toggle or a slider in centiunits.
#[derive(Clone, Copy, Debug, PartialEq, Eq, Structural)]
pub enum FeatureType {
    /// An on/off switch.
    Toggle(bool),
    /// A position, one hundredth of a unit per step.
    Slider(i32),
}

/// The mathematical value of a `FeatureType`.
pub enum ValueModel {
    Toggle(bool),
    Slider(int),
}

impl View for FeatureType {
    type V = ValueModel;

    open spec fn view(&self) -> ValueModel {
        match *self {
            FeatureType::Toggle(b) => ValueModel::Toggle(b),
            FeatureType::Slider(c) => ValueModel::Slider(c as int),
        }
    }
}

impl FeatureType {
    /// The toggle state, or `None` for a slider.
    pub fn as_bool(&self) -> (r: Option<bool>)
        ensures
            r == (match self@ {
                ValueModel::Toggle(b) => Some(b),
                ValueModel::Slider(_) => None::<bool>,
            }),
    {
        match *self {
            FeatureType::Toggle(v) => Some(v),
            _ => None,
        }
    }

    /// The slider position in centiunits, or `None` for a toggle.
    pub fn as_centi(&self) -> (r: Option<i32>)
        ensures
            r matches Some(c) ==> self@ == ValueModel::Slider(c as int),
            r is None ==> self@ is Toggle,
    {
        match *self {
            FeatureType::Slider(v) => Some(v),
            _ => None,
        }
    }
}

/// One catalog entry together with its current value.
#[derive(Clone, Debug, PartialEq)]
pub struct Feature {
    /// Unique key of the feature.
    pub name: String,
    /// Wire address.
    pub id: Format,
    /// Current value; its kind never changes over the feature's lifetime.
    pub value: FeatureType,
    /// Names of the features that must be enabled before this one.
    pub dependencies: Vec<String>,
}

/// The mathematical value of a `Feature`.
#[verifier::ext_equal]
pub struct FeatureModel {
    pub name: Seq<char>,
    pub id: Format,
    pub value: ValueModel,
    pub deps: Seq<Seq<char>>,
}

impl View for Feature {
    type V = FeatureModel;

    open spec fn view(&self) -> FeatureModel {
        FeatureModel {
            name: self.name@,
            id: self.id,
            value: self.value@,
            deps: self.dependencies.deep_view(),
        }
    }
}

impl DeepView for Feature {
    type V = FeatureModel;

    open spec fn deep_view(&self) -> FeatureModel {
        self.view()
    }
}

impl FeatureModel {
    /// Whether the feature is a toggle that currently reads enabled.
    pub open spec fn is_enabled_toggle(self) -> bool {
        self.value == ValueModel::Toggle(true)
    }

    /// Whether the feature is a toggle.
    pub open spec fn is_toggle(self) -> bool {
        self.value is Toggle
    }

    /// Whether the feature is a slider.
    pub open spec fn is_slider(self) -> bool {
        self.value is Slider
    }
}

/// One catalog entry at its default value.
pub open spec fn entry(
    name: Seq<char>,
    id: Format,
    value: ValueModel,
    deps: Seq<Seq<char>>,
) -> FeatureModel {
    FeatureModel { name, id, value, deps }
}

/// The full catalog with every feature at its default value: the wire
/// addresses, value kinds and transitively closed dependency lists of the
/// device.
pub open spec fn spec_catalog() -> Seq<FeatureModel> {
    let off = ValueModel::Toggle(false);
    let zero = ValueModel::Slider(0);
    let none = Seq::<Seq<char>>::empty();
    seq![
        entry("SBX"@, Format::Global(0x01), off, none),
        entry("Scout Mode"@, Format::Global(0x02), off, none),
        entry("Surround"@, Format::SBX(0x00), off, seq!["SBX"@]),
        entry("Surround Slider"@, Format::SBX(0x01), zero, seq!["SBX"@, "Surround"@]),
        entry("Dialog+"@, Format::SBX(0x02), off, seq!["SBX"@]),
        entry("Dialog+ Slider"@, Format::SBX(0x03), zero, seq!["SBX"@, "Dialog+"@]),
        entry("Smart Volume"@, Format::SBX(0x04), off, seq!["SBX"@]),
        entry("Smart Volume Slider"@, Format::SBX(0x05), zero, seq!["SBX"@, "Smart Volume"@]),
        entry("Smart Volume Special"@, Format::SBX(0x06), zero, seq!["SBX"@, "Smart Volume"@]),
        entry("Crystalizer"@, Format::SBX(0x07), off, seq!["SBX"@]),
        entry("Crystalizer Slider"@, Format::SBX(0x08), zero, seq!["SBX"@, "Crystalizer"@]),
        entry("Equalizer"@, Format::SBX(0x09), off, seq!["SBX"@]),
        entry("EQ Pre-Amp"@, Format::SBX(0x0a), zero, seq!["SBX"@, "Equalizer"@]),
        entry("EQ 31Hz"@, Format::SBX(0x0b), zero, seq!["SBX"@, "Equalizer"@]),
        entry("EQ 62Hz"@, Format::SBX(0x0c), zero, seq!["SBX"@, "Equalizer"@]),
        entry("EQ 125Hz"@, Format::SBX(0x0d), zero, seq!["SBX"@, "Equalizer"@]),
        entry("EQ 250Hz"@, Format::SBX(0x0e), zero, seq!["SBX"@, "Equalizer"@]),
        entry("EQ 500Hz"@, Format::SBX(0x0f), zero, seq!["SBX"@, "Equalizer"@]),
        entry("EQ 1kHz"@, Format::SBX(0x10), zero, seq!["SBX"@, "Equalizer"@]),
        entry("EQ 2kHz"@, Format::SBX(0x11), zero, seq!["SBX"@, "Equalizer"@]),
        entry("EQ 4kHz"@, Format::SBX(0x12), zero, seq!["SBX"@, "Equalizer"@]),
        entry("EQ 8kHz"@, Format::SBX(0x13), zero, seq!["SBX"@, "Equalizer"@]),
        entry("EQ 16kHz"@, Format::SBX(0x14), zero, seq!["SBX"@, "Equalizer"@]),
        entry("Bass"@, Format::SBX(0x18), off, seq!["SBX"@]),
        entry("Bass Slider"@, Format::SBX(0x19), zero, seq!["SBX"@, "Bass"@]),
        entry("Output Mode"@, Format::Routing(0x05), off, none),
    ]
}

/// Builds an owned dependency list from string literals.
fn dep_list(a: Option<&str>, b: Option<&str>) -> (v: Vec<String>)
    ensures
        v.deep_view() =~= (match (a, b) {
            (None, _) => Seq::<Seq<char>>::empty(),
            (Some(x), None) => seq![x@],
            (Some(x), Some(y)) => seq![x@, y@],
        }),
{
    let mut v: Vec<String> = Vec::new();
    match a {
        None => {},
        Some(x) => {
            v.push(x.to_owned());
            match b {
                None => {},
                Some(y) => {
                    v.push(y.to_owned());
                },
            }
        },
    }
    v
}

/// Builds one catalog entry.
fn feat(name: &str, id: Format, value: FeatureType, deps: Vec<String>) -> (f: Feature)
    ensures
        f@.name == name@,
        f@.id == id,
        f@.value == value@,
        f@.deps == deps.deep_view(),
{
    Feature { name: name.to_owned(), id, value, dependencies: deps }
}

/// The default catalog: every controllable feature of the device, each at
/// its default value (toggles off, sliders at zero).  Dependency lists are
/// transitively closed, so a feature names every feature that must be
/// enabled before it, not only its immediate prerequisite.
pub fn default_features() -> (r: Vec<Feature>)
    ensures
        r.deep_view() == spec_catalog(),
{
    let off = FeatureType::Toggle(false);
    let zero = FeatureType::Slider(0);
    let mut r: Vec<Feature> = Vec::new();
    r.push(feat("SBX", Format::Global(0x01), off, dep_list(None, None)));
    r.push(feat("Scout Mode", Format::Global(0x02), off, dep_list(None, None)));
    r.push(feat("Surround", Format::SBX(0x00), off, dep_list(Some("SBX"), None)));
    r.push(
        feat("Surround Slider", Format::SBX(0x01), zero, dep_list(Some("SBX"), Some("Surround"))),
    );
    r.push(feat("Dialog+", Format::SBX(0x02), off, dep_list(Some("SBX"), None)));
    r.push(feat("Dialog+ Slider", Format::SBX(0x03), zero, dep_list(Some("SBX"), Some("Dialog+"))));
    r.push(feat("Smart Volume", Format::SBX(0x04), off, dep_list(Some("SBX"), None)));
    r.push(
        feat(
            "Smart Volume Slider",
            Format::SBX(0x05),
            zero,
            dep_list(Some("SBX"), Some("Smart Volume")),
        ),
    );
    r.push(
        feat(
            "Smart Volume Special",
            Format::SBX(0x06),
            zero,
            dep_list(Some("SBX"), Some("Smart Volume")),
        ),
    );
    r.push(feat("Crystalizer", Format::SBX(0x07), off, dep_list(Some("SBX"), None)));
    r.push(
        feat(
            "Crystalizer Slider",
            Format::SBX(0x08),
            zero,
            dep_list(Some("SBX"), Some("Crystalizer")),
        ),
    );
    r.push(feat("Equalizer", Format::SBX(0x09), off, dep_list(Some("SBX"), None)));
    r.push(
        feat("EQ Pre-Amp", Format::SBX(0x0a), zero, dep_list(Some("SBX"), Some("Equalizer"))),
    );
    r.push(feat("EQ 31Hz", Format::SBX(0x0b), zero, dep_list(Some("SBX"), Some("Equalizer"))));
    r.push(feat("EQ 62Hz", Format::SBX(0x0c), zero, dep_list(Some("SBX"), Some("Equalizer"))));
    r.push(feat("EQ 125Hz", Format::SBX(0x0d), zero, dep_list(Some("SBX"), Some("Equalizer"))));
    r.push(feat("EQ 250Hz", Format::SBX(0x0e), zero, dep_list(Some("SBX"), Some("Equalizer"))));
    r.push(feat("EQ 500Hz", Format::SBX(0x0f), zero, dep_list(Some("SBX"), Some("Equalizer"))));
    r.push(feat("EQ 1kHz", Format::SBX(0x10), zero, dep_list(Some("SBX"), Some("Equalizer"))));
    r.push(feat("EQ 2kHz", Format::SBX(0x11), zero, dep_list(Some("SBX"), Some("Equalizer"))));
    r.push(feat("EQ 4kHz", Format::SBX(0x12), zero, dep_list(Some("SBX"), Some("Equalizer"))));
    r.push(feat("EQ 8kHz", Format::SBX(0x13), zero, dep_list(Some("SBX"), Some("Equalizer"))));
    r.push(feat("EQ 16kHz", Format::SBX(0x14), zero, dep_list(Some("SBX"), Some("Equalizer"))));
    r.push(feat("Bass", Format::SBX(0x18), off, dep_list(Some("SBX"), None)));
    r.push(feat("Bass Slider", Format::SBX(0x19), zero, dep_list(Some("SBX"), Some("Bass"))));
    r.push(feat("Output Mode", Format::Routing(0x05), off, dep_list(None, None)));
    proof {
        assert(r.deep_view() =~~= spec_catalog());
    }
    r
}

/// The channel-family sub-feature indices, by effect.  Two effects share
/// index six on the wire and are told apart by the value written.
#[derive(Clone, Copy, Debug, PartialEq, Eq, Structural)]
pub enum SoundFeature {
    SurroundSound,
    Crystalizer,
    Bass,
    SmartVolume,
    DialogPlus,
    NightMode,
    LoudMode,
    Equalizer,
    /// One equalizer band, carrying its own index.
    EqBand(EqBand),
}

/// One equalizer band: its stored position and its wire index.
#[derive(Clone, Copy, Debug, PartialEq, Eq, Structural)]
pub struct EqBand {
    /// Stored position of the band.
    pub value: u8,
    /// Channel-family sub-feature index of the band.
    pub feature_id: u8,
}

impl SoundFeature {
    /// The channel-family sub-feature index of this effect.
    pub fn id(&self) -> (r: u8)
        ensures
            r == (match *self {
                SoundFeature::SurroundSound => 0x00,
                SoundFeature::Crystalizer => 0x07,
                SoundFeature::Bass => 0x18,
                SoundFeature::SmartVolume => 0x04,
                SoundFeature::DialogPlus => 0x02,
                SoundFeature::NightMode => 0x06,
                SoundFeature::LoudMode => 0x06,
                SoundFeature::Equalizer => 0x09,
                SoundFeature::EqBand(band) => band.feature_id,
            }),
    {
        match *self {
            SoundFeature::SurroundSound => 0x00,
            SoundFeature::Crystalizer => 0x07,
            SoundFeature::Bass => 0x18,
            SoundFeature::SmartVolume => 0x04,
            SoundFeature::DialogPlus => 0x02,
            SoundFeature::NightMode => 0x06,
            SoundFeature::LoudMode => 0x06,
            SoundFeature::Equalizer => 0x09,
            SoundFeature::EqBand(band) => band.feature_id,
        }
    }
}

/// The ten-band equalizer as a unit.
#[derive(Clone, Copy, Debug, PartialEq, Eq, Structural)]
pub struct Equalizer {}

impl Default for Equalizer {
    fn default() -> (r: Self)
        ensures
            r == (Equalizer {  }),
    {
        Equalizer {  }
    }
}

impl Equalizer {
    /// The ten bands in rising frequency order: their wire indices are
    /// consecutive from `0x0b`.
    pub fn bands(&self) -> (r: Vec<EqBand>)
        ensures
            r@.len() == 10,
            forall|k: int|
                0 <= k < 10 ==> (#[trigger] r@[k]) == (EqBand {
                    value: 0,
                    feature_id: (0x0b + k) as u8,
                }),
    {
        let mut r: Vec<EqBand> = Vec::new();
        let mut i: u8 = 0;
        while i < 10
            invariant
                i <= 10,
                r@.len() == i as int,
                forall|k: int|
                    0 <= k < i as int ==> (#[trigger] r@[k]) == (EqBand {
                        value: 0,
                        feature_id: (0x0b + k) as u8,
                    }),
            decreases 10 - i,
        {
            r.push(EqBand { value: 0, feature_id: 0x0b + i });
            i = i + 1;
        }
        r
    }
}

} // verus!
