//! The effects panel: which controls there are, what they show and what editing them does.

use vstd::prelude::*;

use crate::bits::at_least;

verus! {

/// The groups of the panel.
#[derive(Clone, Copy, Debug, PartialEq, Eq, Structural)]
pub enum Group {
    EnvMap,
    Ao,
    ContactShadows,
    Ssgi,
    Ssr,
    Bloom,
    Dof,
    Tonemap,
    ColorGrade,
    Vignette,
    FilmGrain,
    Fxaa,
    Fog,
}

/// The controls of the panel.
#[derive(Clone, Copy, Debug, PartialEq, Eq, Structural)]
pub enum Control {
    EnvEnabled,
    EnvIntensity,
    EnvRotation,
    AoEnabled,
    AoMethod,
    AoRadius,
    AoIntensity,
    AoBias,
    AoDirections,
    AoSteps,
    AoThickness,
    CsEnabled,
    CsLength,
    CsThickness,
    CsIntensity,
    CsSamples,
    CsBias,
    SsgiEnabled,
    SsgiQuality,
    SsgiRadius,
    SsgiThickness,
    SsgiIntensity,
    SsgiEnergy,
    SsgiSecondBounce,
    SsgiAmbientDim,
    SsgiTemporal,
    SsgiHistory,
    SsrEnabled,
    SsrDistance,
    SsrThickness,
    SsrIntensity,
    SsrSteps,
    SsrRoughness,
    SsrTemporal,
    BloomEnabled,
    BloomThreshold,
    BloomIntensity,
    DofEnabled,
    DofAutoFocus,
    DofFocus,
    DofFStop,
    DofRange,
    DofMaxCoc,
    DofScale,
    DofHalfRes,
    DofTemporal,
    ToneEnabled,
    ToneAces,
    ToneExposure,
    GradeEnabled,
    GradeContrast,
    GradeSaturation,
    GradeBrightness,
    VignetteEnabled,
    VignetteIntensity,
    VignetteSmoothness,
    GrainEnabled,
    GrainIntensity,
    FxaaEnabled,
    FogEnabled,
    FogColor,
    FogDensity,
    FogHeight,
    FogFalloff,
}

/// What a control edits.
#[derive(Clone, Copy, Debug, PartialEq, Eq, Structural)]
pub enum Kind {
    /// A mark that is on or off.
    Check,
    /// A number between two others, all by bit pattern.
    Slider { low: u32, high: u32 },
    /// A whole number between two others, which are given by bit pattern.
    Count { low: u32, high: u32 },
    /// One of several options.
    Choice,
    /// A colour.
    Color,
}

impl Group {
    /// The groups in the order of the panel.
    pub const ALL: [Group; 13] = [
        Group::EnvMap,
        Group::Ao,
        Group::ContactShadows,
        Group::Ssgi,
        Group::Ssr,
        Group::Bloom,
        Group::Dof,
        Group::Tonemap,
        Group::ColorGrade,
        Group::Vignette,
        Group::FilmGrain,
        Group::Fxaa,
        Group::Fog,
    ];

    /// The title of the group.
    pub open spec fn text(self) -> Seq<char> {
        match self {
            Group::EnvMap => "Env Map"@,
            Group::Ao => "AO"@,
            Group::ContactShadows => "Contact Shadows"@,
            Group::Ssgi => "SSGI"@,
            Group::Ssr => "SSR"@,
            Group::Bloom => "Bloom"@,
            Group::Dof => "DOF"@,
            Group::Tonemap => "Tonemap"@,
            Group::ColorGrade => "Color Grade"@,
            Group::Vignette => "Vignette"@,
            Group::FilmGrain => "Film Grain"@,
            Group::Fxaa => "FXAA"@,
            Group::Fog => "Fog"@,
        }
    }

    /// The title of the group.
    pub fn title(self) -> (s: &'static str)
        ensures
            s@ == self.text(),
    {
        match self {
            Group::EnvMap => "Env Map",
            Group::Ao => "AO",
            Group::ContactShadows => "Contact Shadows",
            Group::Ssgi => "SSGI",
            Group::Ssr => "SSR",
            Group::Bloom => "Bloom",
            Group::Dof => "DOF",
            Group::Tonemap => "Tonemap",
            Group::ColorGrade => "Color Grade",
            Group::Vignette => "Vignette",
            Group::FilmGrain => "Film Grain",
            Group::Fxaa => "FXAA",
            Group::Fog => "Fog",
        }
    }

    /// The control that switches the whole group on and off.
    pub open spec fn switch(self) -> Control {
        match self {
            Group::EnvMap => Control::EnvEnabled,
            Group::Ao => Control::AoEnabled,
            Group::ContactShadows => Control::CsEnabled,
            Group::Ssgi => Control::SsgiEnabled,
            Group::Ssr => Control::SsrEnabled,
            Group::Bloom => Control::BloomEnabled,
            Group::Dof => Control::DofEnabled,
            Group::Tonemap => Control::ToneEnabled,
            Group::ColorGrade => Control::GradeEnabled,
            Group::Vignette => Control::VignetteEnabled,
            Group::FilmGrain => Control::GrainEnabled,
            Group::Fxaa => Control::FxaaEnabled,
            Group::Fog => Control::FogEnabled,
        }
    }
}

impl Control {
    /// The controls in the order of the panel.
    pub const ALL: [Control; 64] = [
        Control::EnvEnabled,
        Control::EnvIntensity,
        Control::EnvRotation,
        Control::AoEnabled,
        Control::AoMethod,
        Control::AoRadius,
        Control::AoIntensity,
        Control::AoBias,
        Control::AoDirections,
        Control::AoSteps,
        Control::AoThickness,
        Control::CsEnabled,
        Control::CsLength,
        Control::CsThickness,
        Control::CsIntensity,
        Control::CsSamples,
        Control::CsBias,
        Control::SsgiEnabled,
        Control::SsgiQuality,
        Control::SsgiRadius,
        Control::SsgiThickness,
        Control::SsgiIntensity,
        Control::SsgiEnergy,
        Control::SsgiSecondBounce,
        Control::SsgiAmbientDim,
        Control::SsgiTemporal,
        Control::SsgiHistory,
        Control::SsrEnabled,
        Control::SsrDistance,
        Control::SsrThickness,
        Control::SsrIntensity,
        Control::SsrSteps,
        Control::SsrRoughness,
        Control::SsrTemporal,
        Control::BloomEnabled,
        Control::BloomThreshold,
        Control::BloomIntensity,
        Control::DofEnabled,
        Control::DofAutoFocus,
        Control::DofFocus,
        Control::DofFStop,
        Control::DofRange,
        Control::DofMaxCoc,
        Control::DofScale,
        Control::DofHalfRes,
        Control::DofTemporal,
        Control::ToneEnabled,
        Control::ToneAces,
        Control::ToneExposure,
        Control::GradeEnabled,
        Control::GradeContrast,
        Control::GradeSaturation,
        Control::GradeBrightness,
        Control::VignetteEnabled,
        Control::VignetteIntensity,
        Control::VignetteSmoothness,
        Control::GrainEnabled,
        Control::GrainIntensity,
        Control::FxaaEnabled,
        Control::FogEnabled,
        Control::FogColor,
        Control::FogDensity,
        Control::FogHeight,
        Control::FogFalloff,
    ];

    /// Position among the controls.
    pub open spec fn position(self) -> int {
        match self {
            Control::EnvEnabled => 0,
            Control::EnvIntensity => 1,
            Control::EnvRotation => 2,
            Control::AoEnabled => 3,
            Control::AoMethod => 4,
            Control::AoRadius => 5,
            Control::AoIntensity => 6,
            Control::AoBias => 7,
            Control::AoDirections => 8,
            Control::AoSteps => 9,
            Control::AoThickness => 10,
            Control::CsEnabled => 11,
            Control::CsLength => 12,
            Control::CsThickness => 13,
            Control::CsIntensity => 14,
            Control::CsSamples => 15,
            Control::CsBias => 16,
            Control::SsgiEnabled => 17,
            Control::SsgiQuality => 18,
            Control::SsgiRadius => 19,
            Control::SsgiThickness => 20,
            Control::SsgiIntensity => 21,
            Control::SsgiEnergy => 22,
            Control::SsgiSecondBounce => 23,
            Control::SsgiAmbientDim => 24,
            Control::SsgiTemporal => 25,
            Control::SsgiHistory => 26,
            Control::SsrEnabled => 27,
            Control::SsrDistance => 28,
            Control::SsrThickness => 29,
            Control::SsrIntensity => 30,
            Control::SsrSteps => 31,
            Control::SsrRoughness => 32,
            Control::SsrTemporal => 33,
            Control::BloomEnabled => 34,
            Control::BloomThreshold => 35,
            Control::BloomIntensity => 36,
            Control::DofEnabled => 37,
            Control::DofAutoFocus => 38,
            Control::DofFocus => 39,
            Control::DofFStop => 40,
            Control::DofRange => 41,
            Control::DofMaxCoc => 42,
            Control::DofScale => 43,
            Control::DofHalfRes => 44,
            Control::DofTemporal => 45,
            Control::ToneEnabled => 46,
            Control::ToneAces => 47,
            Control::ToneExposure => 48,
            Control::GradeEnabled => 49,
            Control::GradeContrast => 50,
            Control::GradeSaturation => 51,
            Control::GradeBrightness => 52,
            Control::VignetteEnabled => 53,
            Control::VignetteIntensity => 54,
            Control::VignetteSmoothness => 55,
            Control::GrainEnabled => 56,
            Control::GrainIntensity => 57,
            Control::FxaaEnabled => 58,
            Control::FogEnabled => 59,
            Control::FogColor => 60,
            Control::FogDensity => 61,
            Control::FogHeight => 62,
            Control::FogFalloff => 63,
        }
    }

    /// Position among the controls.
    pub fn index(self) -> (i: usize)
        ensures
            i == self.position(),
            i < 64,
    {
        match self {
            Control::EnvEnabled => 0,
            Control::EnvIntensity => 1,
            Control::EnvRotation => 2,
            Control::AoEnabled => 3,
            Control::AoMethod => 4,
            Control::AoRadius => 5,
            Control::AoIntensity => 6,
            Control::AoBias => 7,
            Control::AoDirections => 8,
            Control::AoSteps => 9,
            Control::AoThickness => 10,
            Control::CsEnabled => 11,
            Control::CsLength => 12,
            Control::CsThickness => 13,
            Control::CsIntensity => 14,
            Control::CsSamples => 15,
            Control::CsBias => 16,
            Control::SsgiEnabled => 17,
            Control::SsgiQuality => 18,
            Control::SsgiRadius => 19,
            Control::SsgiThickness => 20,
            Control::SsgiIntensity => 21,
            Control::SsgiEnergy => 22,
            Control::SsgiSecondBounce => 23,
            Control::SsgiAmbientDim => 24,
            Control::SsgiTemporal => 25,
            Control::SsgiHistory => 26,
            Control::SsrEnabled => 27,
            Control::SsrDistance => 28,
            Control::SsrThickness => 29,
            Control::SsrIntensity => 30,
            Control::SsrSteps => 31,
            Control::SsrRoughness => 32,
            Control::SsrTemporal => 33,
            Control::BloomEnabled => 34,
            Control::BloomThreshold => 35,
            Control::BloomIntensity => 36,
            Control::DofEnabled => 37,
            Control::DofAutoFocus => 38,
            Control::DofFocus => 39,
            Control::DofFStop => 40,
            Control::DofRange => 41,
            Control::DofMaxCoc => 42,
            Control::DofScale => 43,
            Control::DofHalfRes => 44,
            Control::DofTemporal => 45,
            Control::ToneEnabled => 46,
            Control::ToneAces => 47,
            Control::ToneExposure => 48,
            Control::GradeEnabled => 49,
            Control::GradeContrast => 50,
            Control::GradeSaturation => 51,
            Control::GradeBrightness => 52,
            Control::VignetteEnabled => 53,
            Control::VignetteIntensity => 54,
            Control::VignetteSmoothness => 55,
            Control::GrainEnabled => 56,
            Control::GrainIntensity => 57,
            Control::FxaaEnabled => 58,
            Control::FogEnabled => 59,
            Control::FogColor => 60,
            Control::FogDensity => 61,
            Control::FogHeight => 62,
            Control::FogFalloff => 63,
        }
    }

    /// The text beside the control.
    pub open spec fn text(self) -> Seq<char> {
        match self {
            Control::EnvEnabled => "Enabled"@,
            Control::EnvIntensity => "Intensity"@,
            Control::EnvRotation => "Rotation Y (°)"@,
            Control::AoEnabled => "Enabled"@,
            Control::AoMethod => "Method"@,
            Control::AoRadius => "Radius"@,
            Control::AoIntensity => "Intensity"@,
            Control::AoBias => "Bias"@,
            Control::AoDirections => "Directions"@,
            Control::AoSteps => "Steps"@,
            Control::AoThickness => "Thickness"@,
            Control::CsEnabled => "Enabled"@,
            Control::CsLength => "Length"@,
            Control::CsThickness => "Thickness"@,
            Control::CsIntensity => "Intensity"@,
            Control::CsSamples => "Samples"@,
            Control::CsBias => "Bias"@,
            Control::SsgiEnabled => "Enabled"@,
            Control::SsgiQuality => "Quality"@,
            Control::SsgiRadius => "Radius"@,
            Control::SsgiThickness => "Thickness"@,
            Control::SsgiIntensity => "Intensity"@,
            Control::SsgiEnergy => "Energy"@,
            Control::SsgiSecondBounce => "2nd bounce"@,
            Control::SsgiAmbientDim => "Ambient dim"@,
            Control::SsgiTemporal => "Temporal"@,
            Control::SsgiHistory => "History"@,
            Control::SsrEnabled => "Enabled"@,
            Control::SsrDistance => "Max distance"@,
            Control::SsrThickness => "Thickness"@,
            Control::SsrIntensity => "Intensity"@,
            Control::SsrSteps => "Steps"@,
            Control::SsrRoughness => "Roughness cutoff"@,
            Control::SsrTemporal => "Temporal"@,
            Control::BloomEnabled => "Enabled"@,
            Control::BloomThreshold => "Threshold"@,
            Control::BloomIntensity => "Intensity"@,
            Control::DofEnabled => "Enabled"@,
            Control::DofAutoFocus => "Auto focus"@,
            Control::DofFocus => "Focus distance"@,
            Control::DofFStop => "F-stop"@,
            Control::DofRange => "Focus range"@,
            Control::DofMaxCoc => "Max CoC"@,
            Control::DofScale => "Scale"@,
            Control::DofHalfRes => "Half-res gather"@,
            Control::DofTemporal => "Temporal"@,
            Control::ToneEnabled => "Enabled"@,
            Control::ToneAces => "ACES"@,
            Control::ToneExposure => "Exposure"@,
            Control::GradeEnabled => "Enabled"@,
            Control::GradeContrast => "Contrast"@,
            Control::GradeSaturation => "Saturation"@,
            Control::GradeBrightness => "Brightness"@,
            Control::VignetteEnabled => "Enabled"@,
            Control::VignetteIntensity => "Intensity"@,
            Control::VignetteSmoothness => "Smoothness"@,
            Control::GrainEnabled => "Enabled"@,
            Control::GrainIntensity => "Intensity"@,
            Control::FxaaEnabled => "Enabled"@,
            Control::FogEnabled => "Enabled"@,
            Control::FogColor => "Color"@,
            Control::FogDensity => "Density"@,
            Control::FogHeight => "Height"@,
            Control::FogFalloff => "Height falloff"@,
        }
    }

    /// The text beside the control.
    pub fn label(self) -> (s: &'static str)
        ensures
            s@ == self.text(),
    {
        match self {
            Control::EnvEnabled => "Enabled",
            Control::EnvIntensity => "Intensity",
            Control::EnvRotation => "Rotation Y (°)",
            Control::AoEnabled => "Enabled",
            Control::AoMethod => "Method",
            Control::AoRadius => "Radius",
            Control::AoIntensity => "Intensity",
            Control::AoBias => "Bias",
            Control::AoDirections => "Directions",
            Control::AoSteps => "Steps",
            Control::AoThickness => "Thickness",
            Control::CsEnabled => "Enabled",
            Control::CsLength => "Length",
            Control::CsThickness => "Thickness",
            Control::CsIntensity => "Intensity",
            Control::CsSamples => "Samples",
            Control::CsBias => "Bias",
            Control::SsgiEnabled => "Enabled",
            Control::SsgiQuality => "Quality",
            Control::SsgiRadius => "Radius",
            Control::SsgiThickness => "Thickness",
            Control::SsgiIntensity => "Intensity",
            Control::SsgiEnergy => "Energy",
            Control::SsgiSecondBounce => "2nd bounce",
            Control::SsgiAmbientDim => "Ambient dim",
            Control::SsgiTemporal => "Temporal",
            Control::SsgiHistory => "History",
            Control::SsrEnabled => "Enabled",
            Control::SsrDistance => "Max distance",
            Control::SsrThickness => "Thickness",
            Control::SsrIntensity => "Intensity",
            Control::SsrSteps => "Steps",
            Control::SsrRoughness => "Roughness cutoff",
            Control::SsrTemporal => "Temporal",
            Control::BloomEnabled => "Enabled",
            Control::BloomThreshold => "Threshold",
            Control::BloomIntensity => "Intensity",
            Control::DofEnabled => "Enabled",
            Control::DofAutoFocus => "Auto focus",
            Control::DofFocus => "Focus distance",
            Control::DofFStop => "F-stop",
            Control::DofRange => "Focus range",
            Control::DofMaxCoc => "Max CoC",
            Control::DofScale => "Scale",
            Control::DofHalfRes => "Half-res gather",
            Control::DofTemporal => "Temporal",
            Control::ToneEnabled => "Enabled",
            Control::ToneAces => "ACES",
            Control::ToneExposure => "Exposure",
            Control::GradeEnabled => "Enabled",
            Control::GradeContrast => "Contrast",
            Control::GradeSaturation => "Saturation",
            Control::GradeBrightness => "Brightness",
            Control::VignetteEnabled => "Enabled",
            Control::VignetteIntensity => "Intensity",
            Control::VignetteSmoothness => "Smoothness",
            Control::GrainEnabled => "Enabled",
            Control::GrainIntensity => "Intensity",
            Control::FxaaEnabled => "Enabled",
            Control::FogEnabled => "Enabled",
            Control::FogColor => "Color",
            Control::FogDensity => "Density",
            Control::FogHeight => "Height",
            Control::FogFalloff => "Height falloff",
        }
    }

    /// The name by which the panel tells the control from others.
    pub open spec fn name(self) -> Seq<char> {
        match self {
            Control::EnvEnabled => "Enabled"@,
            Control::EnvIntensity => "env_intensity"@,
            Control::EnvRotation => "env_rot"@,
            Control::AoEnabled => "Enabled"@,
            Control::AoMethod => "ao_method"@,
            Control::AoRadius => "ao_radius"@,
            Control::AoIntensity => "ao_intensity"@,
            Control::AoBias => "ao_bias"@,
            Control::AoDirections => "ao_dirs"@,
            Control::AoSteps => "ao_steps"@,
            Control::AoThickness => "ao_thickness"@,
            Control::CsEnabled => "Enabled"@,
            Control::CsLength => "cs_length"@,
            Control::CsThickness => "cs_thickness"@,
            Control::CsIntensity => "cs_intensity"@,
            Control::CsSamples => "cs_samples"@,
            Control::CsBias => "cs_bias"@,
            Control::SsgiEnabled => "Enabled"@,
            Control::SsgiQuality => "ssgi_quality"@,
            Control::SsgiRadius => "ssgi_radius"@,
            Control::SsgiThickness => "ssgi_thickness"@,
            Control::SsgiIntensity => "ssgi_intensity"@,
            Control::SsgiEnergy => "ssgi_energy"@,
            Control::SsgiSecondBounce => "ssgi_2nd"@,
            Control::SsgiAmbientDim => "ssgi_amb"@,
            Control::SsgiTemporal => "Temporal"@,
            Control::SsgiHistory => "ssgi_hist"@,
            Control::SsrEnabled => "Enabled"@,
            Control::SsrDistance => "ssr_dist"@,
            Control::SsrThickness => "ssr_thickness"@,
            Control::SsrIntensity => "ssr_intensity"@,
            Control::SsrSteps => "ssr_steps"@,
            Control::SsrRoughness => "ssr_rough"@,
            Control::SsrTemporal => "Temporal"@,
            Control::BloomEnabled => "Enabled"@,
            Control::BloomThreshold => "bloom_th"@,
            Control::BloomIntensity => "bloom_int"@,
            Control::DofEnabled => "Enabled"@,
            Control::DofAutoFocus => "Auto focus"@,
            Control::DofFocus => "dof_focus"@,
            Control::DofFStop => "dof_fstop"@,
            Control::DofRange => "dof_range"@,
            Control::DofMaxCoc => "dof_coc"@,
            Control::DofScale => "dof_scale"@,
            Control::DofHalfRes => "Half-res gather"@,
            Control::DofTemporal => "Temporal"@,
            Control::ToneEnabled => "Enabled"@,
            Control::ToneAces => "ACES"@,
            Control::ToneExposure => "tm_exp"@,
            Control::GradeEnabled => "Enabled"@,
            Control::GradeContrast => "cg_contrast"@,
            Control::GradeSaturation => "cg_sat"@,
            Control::GradeBrightness => "cg_bright"@,
            Control::VignetteEnabled => "Enabled"@,
            Control::VignetteIntensity => "vig_int"@,
            Control::VignetteSmoothness => "vig_smooth"@,
            Control::GrainEnabled => "Enabled"@,
            Control::GrainIntensity => "grain_int"@,
            Control::FxaaEnabled => "Enabled"@,
            Control::FogEnabled => "Enabled"@,
            Control::FogColor => "fog_color"@,
            Control::FogDensity => "fog_dens"@,
            Control::FogHeight => "fog_height"@,
            Control::FogFalloff => "fog_falloff"@,
        }
    }

    /// The name by which the panel tells the control from others.
    pub fn id(self) -> (s: &'static str)
        ensures
            s@ == self.name(),
    {
        match self {
            Control::EnvEnabled => "Enabled",
            Control::EnvIntensity => "env_intensity",
            Control::EnvRotation => "env_rot",
            Control::AoEnabled => "Enabled",
            Control::AoMethod => "ao_method",
            Control::AoRadius => "ao_radius",
            Control::AoIntensity => "ao_intensity",
            Control::AoBias => "ao_bias",
            Control::AoDirections => "ao_dirs",
            Control::AoSteps => "ao_steps",
            Control::AoThickness => "ao_thickness",
            Control::CsEnabled => "Enabled",
            Control::CsLength => "cs_length",
            Control::CsThickness => "cs_thickness",
            Control::CsIntensity => "cs_intensity",
            Control::CsSamples => "cs_samples",
            Control::CsBias => "cs_bias",
            Control::SsgiEnabled => "Enabled",
            Control::SsgiQuality => "ssgi_quality",
            Control::SsgiRadius => "ssgi_radius",
            Control::SsgiThickness => "ssgi_thickness",
            Control::SsgiIntensity => "ssgi_intensity",
            Control::SsgiEnergy => "ssgi_energy",
            Control::SsgiSecondBounce => "ssgi_2nd",
            Control::SsgiAmbientDim => "ssgi_amb",
            Control::SsgiTemporal => "Temporal",
            Control::SsgiHistory => "ssgi_hist",
            Control::SsrEnabled => "Enabled",
            Control::SsrDistance => "ssr_dist",
            Control::SsrThickness => "ssr_thickness",
            Control::SsrIntensity => "ssr_intensity",
            Control::SsrSteps => "ssr_steps",
            Control::SsrRoughness => "ssr_rough",
            Control::SsrTemporal => "Temporal",
            Control::BloomEnabled => "Enabled",
            Control::BloomThreshold => "bloom_th",
            Control::BloomIntensity => "bloom_int",
            Control::DofEnabled => "Enabled",
            Control::DofAutoFocus => "Auto focus",
            Control::DofFocus => "dof_focus",
            Control::DofFStop => "dof_fstop",
            Control::DofRange => "dof_range",
            Control::DofMaxCoc => "dof_coc",
            Control::DofScale => "dof_scale",
            Control::DofHalfRes => "Half-res gather",
            Control::DofTemporal => "Temporal",
            Control::ToneEnabled => "Enabled",
            Control::ToneAces => "ACES",
            Control::ToneExposure => "tm_exp",
            Control::GradeEnabled => "Enabled",
            Control::GradeContrast => "cg_contrast",
            Control::GradeSaturation => "cg_sat",
            Control::GradeBrightness => "cg_bright",
            Control::VignetteEnabled => "Enabled",
            Control::VignetteIntensity => "vig_int",
            Control::VignetteSmoothness => "vig_smooth",
            Control::GrainEnabled => "Enabled",
            Control::GrainIntensity => "grain_int",
            Control::FxaaEnabled => "Enabled",
            Control::FogEnabled => "Enabled",
            Control::FogColor => "fog_color",
            Control::FogDensity => "fog_dens",
            Control::FogHeight => "fog_height",
            Control::FogFalloff => "fog_falloff",
        }
    }

    /// What the control edits.
    pub open spec fn edits(self) -> Kind {
        match self {
            Control::EnvEnabled => Kind::Check,
            Control::EnvIntensity => Kind::Slider { low: 0x0000_0000, high: 0x4040_0000 },
            Control::EnvRotation => Kind::Slider { low: 0x0000_0000, high: 0x43b4_0000 },
            Control::AoEnabled => Kind::Check,
            Control::AoMethod => Kind::Choice,
            Control::AoRadius => Kind::Slider { low: 0x3dcc_cccd, high: 0x4040_0000 },
            Control::AoIntensity => Kind::Slider { low: 0x0000_0000, high: 0x4000_0000 },
            Control::AoBias => Kind::Slider { low: 0x0000_0000, high: 0x3e4c_cccd },
            Control::AoDirections => Kind::Count { low: 0x4000_0000, high: 0x4100_0000 },
            Control::AoSteps => Kind::Count { low: 0x4000_0000, high: 0x4140_0000 },
            Control::AoThickness => Kind::Slider { low: 0x3e4c_cccd, high: 0x4040_0000 },
            Control::CsEnabled => Kind::Check,
            Control::CsLength => Kind::Slider { low: 0x3d4c_cccd, high: 0x3fc0_0000 },
            Control::CsThickness => Kind::Slider { low: 0x3c23_d70a, high: 0x4000_0000 },
            Control::CsIntensity => Kind::Slider { low: 0x0000_0000, high: 0x4000_0000 },
            Control::CsSamples => Kind::Count { low: 0x4080_0000, high: 0x4200_0000 },
            Control::CsBias => Kind::Slider { low: 0x0000_0000, high: 0x3d4c_cccd },
            Control::SsgiEnabled => Kind::Check,
            Control::SsgiQuality => Kind::Choice,
            Control::SsgiRadius => Kind::Slider { low: 0x3e4c_cccd, high: 0x4080_0000 },
            Control::SsgiThickness => Kind::Slider { low: 0x3ca3_d70a, high: 0x3f80_0000 },
            Control::SsgiIntensity => Kind::Slider { low: 0x0000_0000, high: 0x40a0_0000 },
            Control::SsgiEnergy => Kind::Slider { low: 0x3e80_0000, high: 0x4040_0000 },
            Control::SsgiSecondBounce => Kind::Slider { low: 0x0000_0000, high: 0x3fc0_0000 },
            Control::SsgiAmbientDim => Kind::Slider { low: 0x0000_0000, high: 0x3f80_0000 },
            Control::SsgiTemporal => Kind::Check,
            Control::SsgiHistory => Kind::Slider { low: 0x3f00_0000, high: 0x3f7a_e148 },
            Control::SsrEnabled => Kind::Check,
            Control::SsrDistance => Kind::Slider { low: 0x3f00_0000, high: 0x41a0_0000 },
            Control::SsrThickness => Kind::Slider { low: 0x3ca3_d70a, high: 0x3f80_0000 },
            Control::SsrIntensity => Kind::Slider { low: 0x0000_0000, high: 0x4000_0000 },
            Control::SsrSteps => Kind::Count { low: 0x4100_0000, high: 0x4280_0000 },
            Control::SsrRoughness => Kind::Slider { low: 0x3dcc_cccd, high: 0x3f80_0000 },
            Control::SsrTemporal => Kind::Check,
            Control::BloomEnabled => Kind::Check,
            Control::BloomThreshold => Kind::Slider { low: 0x0000_0000, high: 0x4080_0000 },
            Control::BloomIntensity => Kind::Slider { low: 0x0000_0000, high: 0x4000_0000 },
            Control::DofEnabled => Kind::Check,
            Control::DofAutoFocus => Kind::Check,
            Control::DofFocus => Kind::Slider { low: 0x3e4c_cccd, high: 0x4220_0000 },
            Control::DofFStop => Kind::Slider { low: 0x3f4c_cccd, high: 0x41b0_0000 },
            Control::DofRange => Kind::Slider { low: 0x0000_0000, high: 0x4000_0000 },
            Control::DofMaxCoc => Kind::Slider { low: 0x4080_0000, high: 0x4240_0000 },
            Control::DofScale => Kind::Slider { low: 0x3f80_0000, high: 0x4220_0000 },
            Control::DofHalfRes => Kind::Check,
            Control::DofTemporal => Kind::Check,
            Control::ToneEnabled => Kind::Check,
            Control::ToneAces => Kind::Check,
            Control::ToneExposure => Kind::Slider { low: 0x3dcc_cccd, high: 0x4080_0000 },
            Control::GradeEnabled => Kind::Check,
            Control::GradeContrast => Kind::Slider { low: 0x0000_0000, high: 0x4000_0000 },
            Control::GradeSaturation => Kind::Slider { low: 0x0000_0000, high: 0x4000_0000 },
            Control::GradeBrightness => Kind::Slider { low: 0xbf00_0000, high: 0x3f00_0000 },
            Control::VignetteEnabled => Kind::Check,
            Control::VignetteIntensity => Kind::Slider { low: 0x0000_0000, high: 0x3f80_0000 },
            Control::VignetteSmoothness => Kind::Slider { low: 0x3d4c_cccd, high: 0x3fc0_0000 },
            Control::GrainEnabled => Kind::Check,
            Control::GrainIntensity => Kind::Slider { low: 0x0000_0000, high: 0x3e4c_cccd },
            Control::FxaaEnabled => Kind::Check,
            Control::FogEnabled => Kind::Check,
            Control::FogColor => Kind::Color,
            Control::FogDensity => Kind::Slider { low: 0x0000_0000, high: 0x3e4c_cccd },
            Control::FogHeight => Kind::Slider { low: 0xc0a0_0000, high: 0x40a0_0000 },
            Control::FogFalloff => Kind::Slider { low: 0x0000_0000, high: 0x4000_0000 },
        }
    }

    /// What the control edits.
    pub fn kind(self) -> (k: Kind)
        ensures
            k == self.edits(),
    {
        match self {
            Control::EnvEnabled => Kind::Check,
            Control::EnvIntensity => Kind::Slider { low: 0x0000_0000, high: 0x4040_0000 },
            Control::EnvRotation => Kind::Slider { low: 0x0000_0000, high: 0x43b4_0000 },
            Control::AoEnabled => Kind::Check,
            Control::AoMethod => Kind::Choice,
            Control::AoRadius => Kind::Slider { low: 0x3dcc_cccd, high: 0x4040_0000 },
            Control::AoIntensity => Kind::Slider { low: 0x0000_0000, high: 0x4000_0000 },
            Control::AoBias => Kind::Slider { low: 0x0000_0000, high: 0x3e4c_cccd },
            Control::AoDirections => Kind::Count { low: 0x4000_0000, high: 0x4100_0000 },
            Control::AoSteps => Kind::Count { low: 0x4000_0000, high: 0x4140_0000 },
            Control::AoThickness => Kind::Slider { low: 0x3e4c_cccd, high: 0x4040_0000 },
            Control::CsEnabled => Kind::Check,
            Control::CsLength => Kind::Slider { low: 0x3d4c_cccd, high: 0x3fc0_0000 },
            Control::CsThickness => Kind::Slider { low: 0x3c23_d70a, high: 0x4000_0000 },
            Control::CsIntensity => Kind::Slider { low: 0x0000_0000, high: 0x4000_0000 },
            Control::CsSamples => Kind::Count { low: 0x4080_0000, high: 0x4200_0000 },
            Control::CsBias => Kind::Slider { low: 0x0000_0000, high: 0x3d4c_cccd },
            Control::SsgiEnabled => Kind::Check,
            Control::SsgiQuality => Kind::Choice,
            Control::SsgiRadius => Kind::Slider { low: 0x3e4c_cccd, high: 0x4080_0000 },
            Control::SsgiThickness => Kind::Slider { low: 0x3ca3_d70a, high: 0x3f80_0000 },
            Control::SsgiIntensity => Kind::Slider { low: 0x0000_0000, high: 0x40a0_0000 },
            Control::SsgiEnergy => Kind::Slider { low: 0x3e80_0000, high: 0x4040_0000 },
            Control::SsgiSecondBounce => Kind::Slider { low: 0x0000_0000, high: 0x3fc0_0000 },
            Control::SsgiAmbientDim => Kind::Slider { low: 0x0000_0000, high: 0x3f80_0000 },
            Control::SsgiTemporal => Kind::Check,
            Control::SsgiHistory => Kind::Slider { low: 0x3f00_0000, high: 0x3f7a_e148 },
            Control::SsrEnabled => Kind::Check,
            Control::SsrDistance => Kind::Slider { low: 0x3f00_0000, high: 0x41a0_0000 },
            Control::SsrThickness => Kind::Slider { low: 0x3ca3_d70a, high: 0x3f80_0000 },
            Control::SsrIntensity => Kind::Slider { low: 0x0000_0000, high: 0x4000_0000 },
            Control::SsrSteps => Kind::Count { low: 0x4100_0000, high: 0x4280_0000 },
            Control::SsrRoughness => Kind::Slider { low: 0x3dcc_cccd, high: 0x3f80_0000 },
            Control::SsrTemporal => Kind::Check,
            Control::BloomEnabled => Kind::Check,
            Control::BloomThreshold => Kind::Slider { low: 0x0000_0000, high: 0x4080_0000 },
            Control::BloomIntensity => Kind::Slider { low: 0x0000_0000, high: 0x4000_0000 },
            Control::DofEnabled => Kind::Check,
            Control::DofAutoFocus => Kind::Check,
            Control::DofFocus => Kind::Slider { low: 0x3e4c_cccd, high: 0x4220_0000 },
            Control::DofFStop => Kind::Slider { low: 0x3f4c_cccd, high: 0x41b0_0000 },
            Control::DofRange => Kind::Slider { low: 0x0000_0000, high: 0x4000_0000 },
            Control::DofMaxCoc => Kind::Slider { low: 0x4080_0000, high: 0x4240_0000 },
            Control::DofScale => Kind::Slider { low: 0x3f80_0000, high: 0x4220_0000 },
            Control::DofHalfRes => Kind::Check,
            Control::DofTemporal => Kind::Check,
            Control::ToneEnabled => Kind::Check,
            Control::ToneAces => Kind::Check,
            Control::ToneExposure => Kind::Slider { low: 0x3dcc_cccd, high: 0x4080_0000 },
            Control::GradeEnabled => Kind::Check,
            Control::GradeContrast => Kind::Slider { low: 0x0000_0000, high: 0x4000_0000 },
            Control::GradeSaturation => Kind::Slider { low: 0x0000_0000, high: 0x4000_0000 },
            Control::GradeBrightness => Kind::Slider { low: 0xbf00_0000, high: 0x3f00_0000 },
            Control::VignetteEnabled => Kind::Check,
            Control::VignetteIntensity => Kind::Slider { low: 0x0000_0000, high: 0x3f80_0000 },
            Control::VignetteSmoothness => Kind::Slider { low: 0x3d4c_cccd, high: 0x3fc0_0000 },
            Control::GrainEnabled => Kind::Check,
            Control::GrainIntensity => Kind::Slider { low: 0x0000_0000, high: 0x3e4c_cccd },
            Control::FxaaEnabled => Kind::Check,
            Control::FogEnabled => Kind::Check,
            Control::FogColor => Kind::Color,
            Control::FogDensity => Kind::Slider { low: 0x0000_0000, high: 0x3e4c_cccd },
            Control::FogHeight => Kind::Slider { low: 0xc0a0_0000, high: 0x40a0_0000 },
            Control::FogFalloff => Kind::Slider { low: 0x0000_0000, high: 0x4000_0000 },
        }
    }
}

/// The list of controls and the index of a control are inverse to each other, so that no two
/// controls share a place.
pub proof fn law_index_finds_control(c: Control, i: int)
    ensures
        Control::ALL@[c.position()] == c,
        0 <= c.position() < 64,
        0 <= i < 64 ==> Control::ALL@[i].position() == i,
{
}

/// The settings that the panel edits.
pub struct Effects {
    /// One value per control: one or zero for a mark, a bit pattern for a number, the number
    /// itself for a count, the option for a choice. The quality and the colour are held apart.
    pub values: Vec<u32>,
    pub fog_color: [u32; 3],
    pub ssgi_samples: u32,
    pub ssgi_steps: u32,
    /// How slowly the camera changes its focus, by bit pattern.
    pub focus_smooth: u32,
    /// Where the camera is focused, by bit pattern.
    pub focus_distance: u32,
}

/// Up to this, 0.001, the focus follows at once.
pub const AT_ONCE: u32 = 0x3a83_126f;

/// What an edit leaves to do.
#[derive(Clone, Copy, Debug, PartialEq, Eq, Structural)]
pub enum Followup {
    Nothing,
    /// A preset of the indirect light is to be applied.
    Quality(usize),
}

impl Effects {
    /// The invariant: there is a value for every control.
    pub open spec fn wf(self) -> bool {
        self.values@.len() == 64
    }

    /// The value of a control.
    pub open spec fn value(self, c: Control) -> u32 {
        self.values@[c.position()]
    }

    /// A mark is set.
    pub open spec fn is_on(self, c: Control) -> bool {
        self.value(c) != 0
    }

    /// Whether a mark is set.
    pub fn on(&self, c: Control) -> (r: bool)
        requires
            self.wf(),
        ensures
            r == self.is_on(c),
    {
        self.values[c.index()] != 0
    }

    /// The better occlusion method is chosen.
    pub open spec fn is_gtao(self) -> bool {
        self.value(Control::AoMethod) != 0
    }

    /// The preset of the indirect light that the settings come closest to: low up to four by
    /// four, high from twelve on in either number.
    pub open spec fn quality(self) -> int {
        if self.ssgi_samples <= 4 && self.ssgi_steps <= 4 {
            0
        } else if self.ssgi_samples >= 12 || self.ssgi_steps >= 12 {
            2
        } else {
            1
        }
    }

    /// The preset of the indirect light that the settings come closest to.
    pub fn quality_index(&self) -> (q: usize)
        ensures
            q == self.quality(),
            q < 3,
    {
        if self.ssgi_samples <= 4 && self.ssgi_steps <= 4 {
            0
        } else if self.ssgi_samples >= 12 || self.ssgi_steps >= 12 {
            2
        } else {
            1
        }
    }

    /// What a choice shows.
    pub fn chosen(&self, c: Control) -> (i: usize)
        requires
            self.wf(),
            c.edits() == Kind::Choice,
        ensures
            i == if c == Control::SsgiQuality {
                self.quality()
            } else if self.is_gtao() {
                1
            } else {
                0
            },
    {
        match c {
            Control::SsgiQuality => self.quality_index(),
            _ => if self.on(Control::AoMethod) {
                1
            } else {
                0
            },
        }
    }

    /// Sets a mark.
    pub fn set_check(&mut self, c: Control, on: bool)
        requires
            old(self).wf(),
            c.edits() == Kind::Check,
        ensures
            final(self).wf(),
            final(self).is_on(c) == on,
            forall|d: Control| d != c ==> #[trigger] final(self).value(d) == old(self).value(d),
            *final(self) == (Effects { values: final(self).values, ..*old(self) }),
    {
        self.put(c, if on {
            1
        } else {
            0
        });
    }

    fn put(&mut self, c: Control, v: u32)
        requires
            old(self).wf(),
        ensures
            final(self).wf(),
            final(self).value(c) == v,
            forall|d: Control| d != c ==> #[trigger] final(self).value(d) == old(self).value(d),
            *final(self) == (Effects { values: final(self).values, ..*old(self) }),
    {
        self.values.set(c.index(), v);
        proof {
            assert forall|d: Control| d != c implies #[trigger] self.value(d) == old(self).value(
                d,
            ) by {
                law_index_finds_control(c, 0);
                law_index_finds_control(d, 0);
            }
        }
    }

    /// Sets a number or a count. A new focus is taken at once if the camera does not smooth it.
    pub fn set_number(&mut self, c: Control, v: u32)
        requires
            old(self).wf(),
            c.edits() is Slider || c.edits() is Count,
        ensures
            final(self).wf(),
            final(self).value(c) == v,
            forall|d: Control| d != c ==> #[trigger] final(self).value(d) == old(self).value(d),
            *final(self) == (Effects {
                values: final(self).values,
                focus_distance: if c == Control::DofFocus && crate::bits::is_at_least(
                    AT_ONCE,
                    old(self).focus_smooth,
                ) {
                    v
                } else {
                    old(self).focus_distance
                },
                ..*old(self)
            }),
    {
        self.put(c, v);
        let ghost mid = *self;
        if c == Control::DofFocus && at_least(AT_ONCE, self.focus_smooth) {
            self.focus_distance = v;
        }
        proof {
            assert forall|d: Control| d != c implies #[trigger] self.value(d) == old(self).value(
                d,
            ) by {
                assert(self.value(d) == mid.value(d));
            }
        }
    }

    /// Makes a choice. The method of the occlusion is set; a preset of the indirect light is left
    /// to be applied.
    pub fn set_choice(&mut self, c: Control, i: usize) -> (f: Followup)
        requires
            old(self).wf(),
            c.edits() == Kind::Choice,
        ensures
            final(self).wf(),
            c == Control::SsgiQuality ==> *final(self) == *old(self) && f == Followup::Quality(i),
            c == Control::AoMethod ==> {
                &&& f == Followup::Nothing
                &&& final(self).is_gtao() == (i != 0)
                &&& forall|d: Control|
                    d != c ==> #[trigger] final(self).value(d) == old(self).value(d)
                &&& *final(self) == (Effects { values: final(self).values, ..*old(self) })
            },
    {
        if c == Control::SsgiQuality {
            return Followup::Quality(i);
        }
        self.put(Control::AoMethod, if i == 0 {
            0
        } else {
            1
        });
        Followup::Nothing
    }

    /// Sets the colour of the fog.
    pub fn set_fog_color(&mut self, color: [u32; 3])
        ensures
            *final(self) == (Effects { fog_color: color, ..*old(self) }),
    {
        self.fog_color = color;
    }
}

/// An edit of the panel.
#[derive(Clone, Copy, Debug, PartialEq, Eq)]
pub enum EffectEdit {
    /// A mark was set or taken away.
    Check(Control, bool),
    /// A number, by bit pattern, or a count.
    Number(Control, u32),
    /// An option was chosen.
    Choice(Control, usize),
    FogColor([u32; 3]),
}

impl EffectEdit {
    /// The edit is one that its control takes.
    pub open spec fn fits(self) -> bool {
        match self {
            EffectEdit::Check(c, on) => c.edits() == Kind::Check,
            EffectEdit::Number(c, v) => c.edits() is Slider || c.edits() is Count,
            EffectEdit::Choice(c, i) => c.edits() == Kind::Choice,
            EffectEdit::FogColor(color) => true,
        }
    }

    /// What the edit leaves to do: a preset of the indirect light is to be applied.
    pub fn followup(self) -> (f: Followup)
        ensures
            f == match self {
                EffectEdit::Choice(c, i) => if c == Control::SsgiQuality {
                    Followup::Quality(i)
                } else {
                    Followup::Nothing
                },
                _ => Followup::Nothing,
            },
    {
        match self {
            EffectEdit::Choice(c, i) => if c == Control::SsgiQuality {
                Followup::Quality(i)
            } else {
                Followup::Nothing
            },
            _ => Followup::Nothing,
        }
    }
}

/// Settings before and after an edit.
pub open spec fn is_applied(before: Effects, edit: EffectEdit, after: Effects) -> bool {
    match edit {
        EffectEdit::Check(c, on) => {
            &&& after.is_on(c) == on
            &&& forall|d: Control| d != c ==> #[trigger] after.value(d) == before.value(d)
            &&& after == (Effects { values: after.values, ..before })
        },
        EffectEdit::Number(c, v) => {
            &&& after.value(c) == v
            &&& forall|d: Control| d != c ==> #[trigger] after.value(d) == before.value(d)
            &&& after == (Effects {
                values: after.values,
                focus_distance: if c == Control::DofFocus && crate::bits::is_at_least(
                    AT_ONCE,
                    before.focus_smooth,
                ) {
                    v
                } else {
                    before.focus_distance
                },
                ..before
            })
        },
        EffectEdit::Choice(c, i) => if c == Control::SsgiQuality {
            after == before
        } else {
            &&& after.is_gtao() == (i != 0)
            &&& forall|d: Control| d != c ==> #[trigger] after.value(d) == before.value(d)
            &&& after == (Effects { values: after.values, ..before })
        },
        EffectEdit::FogColor(color) => after == (Effects { fog_color: color, ..before }),
    }
}

/// What a widget of the panel leads to, whether it was edited or not: the settings after it, and
/// whether the panel wants another frame.
pub open spec fn is_edited(
    before: Effects,
    edit: Option<EffectEdit>,
    after: Effects,
    keep: bool,
) -> bool {
    &&& keep == (edit is Some)
    &&& match edit {
        Some(x) => is_applied(before, x, after),
        None => after == before,
    }
}

/// Applies the edit of a widget, if there was one. Says whether the panel wants another frame:
/// exactly if the widget was edited. Else nothing changes.
pub fn edit_effects(e: &mut Effects, edit: Option<EffectEdit>) -> (keep: bool)
    requires
        old(e).wf(),
        match edit {
            Some(x) => x.fits(),
            None => true,
        },
    ensures
        final(e).wf(),
        keep == (edit is Some),
        !keep ==> *final(e) == *old(e),
        is_edited(*old(e), edit, *final(e), keep),
{
    let x = match edit {
        Some(x) => x,
        None => {
            return false;
        },
    };
    match x {
        EffectEdit::Check(c, on) => e.set_check(c, on),
        EffectEdit::Number(c, v) => e.set_number(c, v),
        EffectEdit::Choice(c, i) => {
            let _ = e.set_choice(c, i);
        },
        EffectEdit::FogColor(color) => e.set_fog_color(color),
    }
    true
}

/// The widgets of a panel, one after the other: the settings between them, and what each says.
pub open spec fn is_run(
    states: Seq<Effects>,
    edits: Seq<Option<EffectEdit>>,
    keeps: Seq<bool>,
) -> bool {
    &&& states.len() == edits.len() + 1
    &&& keeps.len() == edits.len()
    &&& forall|i: int|
        0 <= i < edits.len() ==> is_edited(
            #[trigger] states[i],
            edits[i],
            states[i + 1],
            keeps[i],
        )
}

/// The panel wants another frame exactly if some widget of it was edited. If none was, the
/// settings are as they were.
pub proof fn law_panel_keeps_on_edits(
    states: Seq<Effects>,
    edits: Seq<Option<EffectEdit>>,
    keeps: Seq<bool>,
)
    requires
        is_run(states, edits, keeps),
    ensures
        keeps.contains(true) <==> exists|i: int| 0 <= i < edits.len() && #[trigger] edits[i] is Some,
        !keeps.contains(true) ==> states.last() == states[0],
    decreases edits.len(),
{
    assert forall|i: int| 0 <= i < edits.len() implies keeps[i] == (#[trigger] edits[i] is Some) by {
        assert(is_edited(states[i], edits[i], states[i + 1], keeps[i]));
    }
    if exists|i: int| 0 <= i < edits.len() && #[trigger] edits[i] is Some {
        let i = choose|i: int| 0 <= i < edits.len() && #[trigger] edits[i] is Some;
        assert(keeps[i]);
    }
    if keeps.contains(true) {
        let i = choose|i: int| 0 <= i < keeps.len() && keeps[i];
        assert(edits[i] is Some);
    }
    if edits.len() > 0 && !keeps.contains(true) {
        let n = edits.len() - 1;
        let s = states.drop_last();
        let x = edits.drop_last();
        let k = keeps.drop_last();
        assert forall|i: int| 0 <= i < x.len() implies is_edited(
            #[trigger] s[i],
            x[i],
            s[i + 1],
            k[i],
        ) by {
            assert(is_edited(states[i], edits[i], states[i + 1], keeps[i]));
        }
        assert(!k.contains(true)) by {
            if k.contains(true) {
                let i = choose|i: int| 0 <= i < k.len() && k[i];
                assert(keeps[i]);
            }
        }
        law_panel_keeps_on_edits(s, x, k);
        assert(is_edited(states[n], edits[n], states[n + 1], keeps[n]));
        assert(!keeps[n]);
    }
}

/// A row of the panel.
#[derive(Clone, Copy, Debug, PartialEq, Eq, Structural)]
pub enum Row {
    /// The title of a group that can be folded.
    Title(Group),
    /// The remark on what the environment map does.
    Note,
    /// A control, which can be edited only if it is live.
    Edit { control: Control, live: bool },
}

impl Effects {
    /// The rows of a group. Everything but the switch is live only while the group is on; the
    /// occlusion methods have controls of their own.
    pub open spec fn group_rows(self, g: Group) -> Seq<Row> {
        let live = self.is_on(g.switch());
        match g {
            Group::EnvMap => seq![
                Row::Title(Group::EnvMap),
                Row::Edit { control: Control::EnvEnabled, live: true },
                Row::Note,
                Row::Edit { control: Control::EnvIntensity, live },
                Row::Edit { control: Control::EnvRotation, live },
            ],
            Group::Ao => seq![
                Row::Title(Group::Ao),
                Row::Edit { control: Control::AoEnabled, live: true },
                Row::Edit { control: Control::AoMethod, live },
                Row::Edit { control: Control::AoRadius, live },
                Row::Edit { control: Control::AoIntensity, live },
            ] + if self.is_gtao() {
                seq![
                    Row::Edit { control: Control::AoDirections, live },
                    Row::Edit { control: Control::AoSteps, live },
                    Row::Edit { control: Control::AoThickness, live },
                ]
            } else {
                seq![Row::Edit { control: Control::AoBias, live }]
            },
            Group::ContactShadows => seq![
                Row::Title(Group::ContactShadows),
                Row::Edit { control: Control::CsEnabled, live: true },
                Row::Edit { control: Control::CsLength, live },
                Row::Edit { control: Control::CsThickness, live },
                Row::Edit { control: Control::CsIntensity, live },
                Row::Edit { control: Control::CsSamples, live },
                Row::Edit { control: Control::CsBias, live },
            ],
            Group::Ssgi => seq![
                Row::Title(Group::Ssgi),
                Row::Edit { control: Control::SsgiEnabled, live: true },
                Row::Edit { control: Control::SsgiQuality, live },
                Row::Edit { control: Control::SsgiRadius, live },
                Row::Edit { control: Control::SsgiThickness, live },
                Row::Edit { control: Control::SsgiIntensity, live },
                Row::Edit { control: Control::SsgiEnergy, live },
                Row::Edit { control: Control::SsgiSecondBounce, live },
                Row::Edit { control: Control::SsgiAmbientDim, live },
                Row::Edit { control: Control::SsgiTemporal, live },
                Row::Edit { control: Control::SsgiHistory, live: live && self.is_on(Control::SsgiTemporal) },
            ],
            Group::Ssr => seq![
                Row::Title(Group::Ssr),
                Row::Edit { control: Control::SsrEnabled, live: true },
                Row::Edit { control: Control::SsrDistance, live },
                Row::Edit { control: Control::SsrThickness, live },
                Row::Edit { control: Control::SsrIntensity, live },
                Row::Edit { control: Control::SsrSteps, live },
                Row::Edit { control: Control::SsrRoughness, live },
                Row::Edit { control: Control::SsrTemporal, live },
            ],
            Group::Bloom => seq![
                Row::Title(Group::Bloom),
                Row::Edit { control: Control::BloomEnabled, live: true },
                Row::Edit { control: Control::BloomThreshold, live },
                Row::Edit { control: Control::BloomIntensity, live },
            ],
            Group::Dof => seq![
                Row::Title(Group::Dof),
                Row::Edit { control: Control::DofEnabled, live: true },
                Row::Edit { control: Control::DofAutoFocus, live },
                Row::Edit { control: Control::DofFocus, live },
                Row::Edit { control: Control::DofFStop, live },
                Row::Edit { control: Control::DofRange, live },
                Row::Edit { control: Control::DofMaxCoc, live },
                Row::Edit { control: Control::DofScale, live },
                Row::Edit { control: Control::DofHalfRes, live },
                Row::Edit { control: Control::DofTemporal, live },
            ],
            Group::Tonemap => seq![
                Row::Title(Group::Tonemap),
                Row::Edit { control: Control::ToneEnabled, live: true },
                Row::Edit { control: Control::ToneAces, live },
                Row::Edit { control: Control::ToneExposure, live },
            ],
            Group::ColorGrade => seq![
                Row::Title(Group::ColorGrade),
                Row::Edit { control: Control::GradeEnabled, live: true },
                Row::Edit { control: Control::GradeContrast, live },
                Row::Edit { control: Control::GradeSaturation, live },
                Row::Edit { control: Control::GradeBrightness, live },
            ],
            Group::Vignette => seq![
                Row::Title(Group::Vignette),
                Row::Edit { control: Control::VignetteEnabled, live: true },
                Row::Edit { control: Control::VignetteIntensity, live },
                Row::Edit { control: Control::VignetteSmoothness, live },
            ],
            Group::FilmGrain => seq![
                Row::Title(Group::FilmGrain),
                Row::Edit { control: Control::GrainEnabled, live: true },
                Row::Edit { control: Control::GrainIntensity, live },
            ],
            Group::Fxaa => seq![
                Row::Title(Group::Fxaa),
                Row::Edit { control: Control::FxaaEnabled, live: true },
            ],
            Group::Fog => seq![
                Row::Title(Group::Fog),
                Row::Edit { control: Control::FogEnabled, live: true },
                Row::Edit { control: Control::FogColor, live },
                Row::Edit { control: Control::FogDensity, live },
                Row::Edit { control: Control::FogHeight, live },
                Row::Edit { control: Control::FogFalloff, live },
            ],
        }
    }

    fn rows_of(&self, g: Group) -> (rows: Vec<Row>)
        requires
            self.wf(),
        ensures
            rows@ == self.group_rows(g),
    {
        let live = self.on(switch_of(g));
        let mut rows: Vec<Row> = match g {
            Group::EnvMap => vec![
                Row::Title(Group::EnvMap),
                Row::Edit { control: Control::EnvEnabled, live: true },
                Row::Note,
                Row::Edit { control: Control::EnvIntensity, live },
                Row::Edit { control: Control::EnvRotation, live },
            ],
            Group::Ao => vec![
                Row::Title(Group::Ao),
                Row::Edit { control: Control::AoEnabled, live: true },
                Row::Edit { control: Control::AoMethod, live },
                Row::Edit { control: Control::AoRadius, live },
                Row::Edit { control: Control::AoIntensity, live },
            ],
            Group::ContactShadows => vec![
                Row::Title(Group::ContactShadows),
                Row::Edit { control: Control::CsEnabled, live: true },
                Row::Edit { control: Control::CsLength, live },
                Row::Edit { control: Control::CsThickness, live },
                Row::Edit { control: Control::CsIntensity, live },
                Row::Edit { control: Control::CsSamples, live },
                Row::Edit { control: Control::CsBias, live },
            ],
            Group::Ssgi => vec![
                Row::Title(Group::Ssgi),
                Row::Edit { control: Control::SsgiEnabled, live: true },
                Row::Edit { control: Control::SsgiQuality, live },
                Row::Edit { control: Control::SsgiRadius, live },
                Row::Edit { control: Control::SsgiThickness, live },
                Row::Edit { control: Control::SsgiIntensity, live },
                Row::Edit { control: Control::SsgiEnergy, live },
                Row::Edit { control: Control::SsgiSecondBounce, live },
                Row::Edit { control: Control::SsgiAmbientDim, live },
                Row::Edit { control: Control::SsgiTemporal, live },
                Row::Edit { control: Control::SsgiHistory, live: live && self.on(Control::SsgiTemporal) },
            ],
            Group::Ssr => vec![
                Row::Title(Group::Ssr),
                Row::Edit { control: Control::SsrEnabled, live: true },
                Row::Edit { control: Control::SsrDistance, live },
                Row::Edit { control: Control::SsrThickness, live },
                Row::Edit { control: Control::SsrIntensity, live },
                Row::Edit { control: Control::SsrSteps, live },
                Row::Edit { control: Control::SsrRoughness, live },
                Row::Edit { control: Control::SsrTemporal, live },
            ],
            Group::Bloom => vec![
                Row::Title(Group::Bloom),
                Row::Edit { control: Control::BloomEnabled, live: true },
                Row::Edit { control: Control::BloomThreshold, live },
                Row::Edit { control: Control::BloomIntensity, live },
            ],
            Group::Dof => vec![
                Row::Title(Group::Dof),
                Row::Edit { control: Control::DofEnabled, live: true },
                Row::Edit { control: Control::DofAutoFocus, live },
                Row::Edit { control: Control::DofFocus, live },
                Row::Edit { control: Control::DofFStop, live },
                Row::Edit { control: Control::DofRange, live },
                Row::Edit { control: Control::DofMaxCoc, live },
                Row::Edit { control: Control::DofScale, live },
                Row::Edit { control: Control::DofHalfRes, live },
                Row::Edit { control: Control::DofTemporal, live },
            ],
            Group::Tonemap => vec![
                Row::Title(Group::Tonemap),
                Row::Edit { control: Control::ToneEnabled, live: true },
                Row::Edit { control: Control::ToneAces, live },
                Row::Edit { control: Control::ToneExposure, live },
            ],
            Group::ColorGrade => vec![
                Row::Title(Group::ColorGrade),
                Row::Edit { control: Control::GradeEnabled, live: true },
                Row::Edit { control: Control::GradeContrast, live },
                Row::Edit { control: Control::GradeSaturation, live },
                Row::Edit { control: Control::GradeBrightness, live },
            ],
            Group::Vignette => vec![
                Row::Title(Group::Vignette),
                Row::Edit { control: Control::VignetteEnabled, live: true },
                Row::Edit { control: Control::VignetteIntensity, live },
                Row::Edit { control: Control::VignetteSmoothness, live },
            ],
            Group::FilmGrain => vec![
                Row::Title(Group::FilmGrain),
                Row::Edit { control: Control::GrainEnabled, live: true },
                Row::Edit { control: Control::GrainIntensity, live },
            ],
            Group::Fxaa => vec![
                Row::Title(Group::Fxaa),
                Row::Edit { control: Control::FxaaEnabled, live: true },
            ],
            Group::Fog => vec![
                Row::Title(Group::Fog),
                Row::Edit { control: Control::FogEnabled, live: true },
                Row::Edit { control: Control::FogColor, live },
                Row::Edit { control: Control::FogDensity, live },
                Row::Edit { control: Control::FogHeight, live },
                Row::Edit { control: Control::FogFalloff, live },
            ],
        };
        if g == Group::Ao {
            if self.on(Control::AoMethod) {
                rows.push(Row::Edit { control: Control::AoDirections, live });
                rows.push(Row::Edit { control: Control::AoSteps, live });
                rows.push(Row::Edit { control: Control::AoThickness, live });
            } else {
                rows.push(Row::Edit { control: Control::AoBias, live });
            }
        }
        assert(rows@ =~= self.group_rows(g));
        rows
    }

    /// The rows of the first `n` groups.
    pub open spec fn rows_up_to(self, n: nat) -> Seq<Row>
        decreases n,
    {
        if n == 0 {
            Seq::empty()
        } else {
            self.rows_up_to((n - 1) as nat) + self.group_rows(Group::ALL@[n - 1])
        }
    }
}

/// The rows of the effects panel, group by group.
pub fn post_effects_panel(effects: &Effects) -> (rows: Vec<Row>)
    requires
        effects.wf(),
    ensures
        rows@ == effects.rows_up_to(13),
{
    let mut rows: Vec<Row> = Vec::new();
    let mut i: usize = 0;
    while i < 13
        invariant
            i <= 13,
            effects.wf(),
            rows@ == effects.rows_up_to(i as nat),
        decreases 13 - i,
    {
        let more = effects.rows_of(Group::ALL[i]);
        let ghost before = rows@;
        let mut k: usize = 0;
        while k < more.len()
            invariant
                k <= more@.len(),
                rows@ =~= before + more@.take(k as int),
            decreases more@.len() - k,
        {
            rows.push(more[k]);
            k += 1;
        }
        assert(more@.take(k as int) =~= more@);
        i += 1;
    }
    rows
}

fn switch_of(g: Group) -> (c: Control)
    ensures
        c == g.switch(),
{
    match g {
        Group::EnvMap => Control::EnvEnabled,
        Group::Ao => Control::AoEnabled,
        Group::ContactShadows => Control::CsEnabled,
        Group::Ssgi => Control::SsgiEnabled,
        Group::Ssr => Control::SsrEnabled,
        Group::Bloom => Control::BloomEnabled,
        Group::Dof => Control::DofEnabled,
        Group::Tonemap => Control::ToneEnabled,
        Group::ColorGrade => Control::GradeEnabled,
        Group::Vignette => Control::VignetteEnabled,
        Group::FilmGrain => Control::GrainEnabled,
        Group::Fxaa => Control::FxaaEnabled,
        Group::Fog => Control::FogEnabled,
    }
}

/// A group that is off can only be switched on: all its other controls are dead.
pub proof fn law_switched_off_groups_are_dead(e: Effects, g: Group, i: int)
    requires
        !e.is_on(g.switch()),
        0 <= i < e.group_rows(g).len(),
    ensures
        match e.group_rows(g)[i] {
            Row::Edit { control, live } => live <==> control == g.switch(),
            _ => true,
        },
{
}

/// A group begins with its title and its switch, which is always live. While the group is on all
/// of its controls are live, but for the weight of the history, which also needs the history.
pub proof fn law_switched_on_groups_are_live(e: Effects, g: Group, i: int)
    requires
        e.is_on(g.switch()),
        0 <= i < e.group_rows(g).len(),
    ensures
        e.group_rows(g)[0] == Row::Title(g),
        e.group_rows(g)[1] == (Row::Edit { control: g.switch(), live: true }),
        match e.group_rows(g)[i] {
            Row::Edit { control, live } => live <==> control != Control::SsgiHistory || e.is_on(
                Control::SsgiTemporal,
            ),
            Row::Title(h) => h == g && i == 0,
            Row::Note => g == Group::EnvMap,
        },
{
}

/// The controls of a group follow each other in the order of all controls, so that none is shown
/// twice; the switch of a group is a mark.
pub proof fn law_controls_come_in_order(e: Effects, g: Group, i: int, j: int)
    requires
        0 <= i < j < e.group_rows(g).len(),
    ensures
        g.switch().edits() == Kind::Check,
        match (e.group_rows(g)[i], e.group_rows(g)[j]) {
            (Row::Edit { control: a, live: x }, Row::Edit { control: b, live: y }) => a.position()
                < b.position(),
            _ => true,
        },
{
}

/// The occlusion shows the bias for the plain method alone, and the three controls of the better
/// method for that alone.
pub proof fn law_occlusion_methods_have_their_own(e: Effects)
    ensures
        e.is_gtao() ==> e.group_rows(Group::Ao).len() == 8,
        e.is_gtao() ==> (match e.group_rows(Group::Ao)[5] {
            Row::Edit { control, live } => control == Control::AoDirections,
            _ => false,
        }),
        !e.is_gtao() ==> e.group_rows(Group::Ao).len() == 6,
        !e.is_gtao() ==> (match e.group_rows(Group::Ao)[5] {
            Row::Edit { control, live } => control == Control::AoBias,
            _ => false,
        }),
{
}

/// The quality is low while both numbers are four at most, high as soon as one of them is twelve at
/// least, and in between otherwise; with more samples or steps it never falls.
pub proof fn law_more_samples_are_no_worse(e: Effects, f: Effects)
    ensures
        e.ssgi_samples <= 4 && e.ssgi_steps <= 4 <==> e.quality() == 0,
        e.ssgi_samples >= 12 || e.ssgi_steps >= 12 <==> e.quality() == 2,
        e.ssgi_samples <= f.ssgi_samples && e.ssgi_steps <= f.ssgi_steps ==> e.quality()
            <= f.quality(),
{
}

/// Every slider has a range: its lower end is below its upper end.
pub proof fn law_sliders_have_a_range(c: Control)
    ensures
        match c.edits() {
            Kind::Slider { low, high } => crate::bits::is_less(low, high),
            Kind::Count { low, high } => low < high,
            _ => true,
        },
{
}

/// An edit changes the value of its own control and of no other. A mark is then set or not, as it
/// was asked for; a number is taken as it is; the focus is taken at once only where it is not
/// smoothed.
pub proof fn law_effect_edits_change_their_own(before: Effects, edit: EffectEdit, after: Effects, d: Control)
    requires
        is_applied(before, edit, after),
        edit.fits(),
    ensures
        match edit {
            EffectEdit::Check(c, on) => (after.value(c) != 0 <==> on) && (d != c ==> after.value(d)
                == before.value(d)) && after.fog_color == before.fog_color,
            EffectEdit::Number(c, v) => after.value(c) == v && (d != c ==> after.value(d)
                == before.value(d)) && after.fog_color == before.fog_color && (c
                != Control::DofFocus ==> after.focus_distance == before.focus_distance),
            EffectEdit::Choice(c, i) => (d != c ==> after.value(d) == before.value(d)) && (c
                == Control::AoMethod ==> (after.value(c) != 0 <==> i != 0)),
            EffectEdit::FogColor(color) => after.fog_color == color && after.value(d)
                == before.value(d),
        },
        after.ssgi_samples == before.ssgi_samples && after.ssgi_steps == before.ssgi_steps,
        after.focus_smooth == before.focus_smooth,
{
}

/// Intensities begin at nothing; only the brightness and the height of the fog go below zero, as far
/// as they go above it. A mark goes by its text, and every switch says what it does.
pub proof fn law_controls_are_what_they_say(c: Control, g: Group)
    ensures
        c.edits() == Kind::Check ==> c.name() == c.text(),
        g.switch().text() == "Enabled"@,
        c is EnvIntensity || c is AoIntensity || c is CsIntensity || c is SsgiIntensity || c
            is SsrIntensity || c is BloomIntensity || c is VignetteIntensity || c is GrainIntensity
            ==> c.text() == "Intensity"@ && (match c.edits() {
            Kind::Slider { low, high } => low == 0,
            _ => false,
        }),
        c is AoThickness || c is CsThickness || c is SsgiThickness || c is SsrThickness ==> c.text()
            == "Thickness"@ && (match c.edits() {
            Kind::Slider { low, high } => low > 0,
            _ => false,
        }),
        c is SsgiTemporal || c is SsrTemporal || c is DofTemporal ==> c.text() == "Temporal"@
            && c.edits() == Kind::Check,
        c is AoSteps || c is SsrSteps ==> c.text() == "Steps"@ && c.edits() is Count,
        match c.edits() {
            Kind::Slider { low, high } => if c is GradeBrightness || c is FogHeight {
                low == high + 0x8000_0000
            } else {
                low < 0x8000_0000
            },
            _ => true,
        },
{
}

} // verus!
