//! Shared appearance vocabulary for operational screens.
//!
//! Semantic rather than widget-specific: cashier, kitchen and dispatch screens
//! can arrange their information differently while still looking like
//! terminals from the same installation.

use vstd::prelude::*;
use std::str::FromStr;

verus! {

/// The two looks an installation can choose between.
#[derive(Debug, Clone, Copy, PartialEq, Eq, Structural)]
pub enum Appearance {
    IndustrialLight,
    IndustrialDark,
}

/// The colours of one appearance, by what they mean.
#[derive(Debug, Clone, Copy, PartialEq, Eq, Structural)]
pub struct OperationalPalette {
    pub canvas: u32,
    pub surface: u32,
    pub surface_raised: u32,
    pub border: u32,
    pub border_strong: u32,
    pub header: u32,
    pub text: u32,
    pub text_muted: u32,
    pub accent: u32,
    pub information: u32,
    pub positive: u32,
    pub caution: u32,
    pub danger: u32,
    pub selection: u32,
    pub developer: u32,
}

/// The light palette: near-white surfaces, dark text.
pub open spec fn light_palette() -> OperationalPalette {
    OperationalPalette {
        canvas: 0x00f7_f8f8,
        surface: 0x00ff_ffff,
        surface_raised: 0x00f0_f2f2,
        border: 0x00b8_bfc1,
        border_strong: 0x0077_8184,
        header: 0x00e8_ebeb,
        text: 0x001d_2426,
        text_muted: 0x005d_686b,
        accent: 0x002c_626c,
        information: 0x003e_6875,
        positive: 0x003f_6b55,
        caution: 0x0080_6328,
        danger: 0x0085_4542,
        selection: 0x00d9_e5e7,
        developer: 0x0038_6651,
    }
}

/// The dark palette: neutral graphite, deliberately neither black nor blue.
pub open spec fn dark_palette() -> OperationalPalette {
    OperationalPalette {
        canvas: 0x0029_2b2c,
        surface: 0x0034_3738,
        surface_raised: 0x003e_4243,
        border: 0x0059_5f61,
        border_strong: 0x0084_8b8d,
        header: 0x0030_3233,
        text: 0x00f0_f2f2,
        text_muted: 0x00b2_b8ba,
        accent: 0x007f_acb3,
        information: 0x008a_b2bd,
        positive: 0x008d_b39b,
        caution: 0x00cf_af70,
        danger: 0x00cc_8580,
        selection: 0x0047_5558,
        developer: 0x008e_b99f,
    }
}

/// How `{:?}` writes a string: quoted, with its special characters escaped.
pub uninterp spec fn debug_text(text: Seq<char>) -> Seq<char>;

/// `<str as Debug>::fmt`, through `format!("{:?}")`: the string in double
/// quotes with quotes, backslashes and control characters escaped. The text
/// it gives is named, not spelled out.
#[verifier::external_body]
fn debug_quoted(text: &str) -> (result: String)
    ensures
        result@ == debug_text(text@),
{
    format!("{text:?}")
}

/// What parsing `value` as an appearance gives: the light look for `light`
/// or `industrial-light`, the dark look for `dark` or `industrial-dark`,
/// and otherwise a message naming the value and what was expected.
pub open spec fn parsed_appearance(value: Seq<char>) -> Result<Appearance, Seq<char>> {
    if value == "light"@ || value == "industrial-light"@ {
        Ok(Appearance::IndustrialLight)
    } else if value == "dark"@ || value == "industrial-dark"@ {
        Ok(Appearance::IndustrialDark)
    } else {
        Err("unknown appearance "@ + debug_text(value) + "; expected "@ + "light or dark"@)
    }
}

impl Appearance {
    /// What a user may write for an appearance.
    pub const HELP: &'static str = "light or dark";

    /// The colours of this appearance.
    pub fn palette(self) -> (result: OperationalPalette)
        ensures
            result == (match self {
                Appearance::IndustrialLight => light_palette(),
                Appearance::IndustrialDark => dark_palette(),
            }),
    {
        match self {
            Appearance::IndustrialLight => OperationalPalette {
                canvas: 0x00f7_f8f8,
                surface: 0x00ff_ffff,
                surface_raised: 0x00f0_f2f2,
                border: 0x00b8_bfc1,
                border_strong: 0x0077_8184,
                header: 0x00e8_ebeb,
                text: 0x001d_2426,
                text_muted: 0x005d_686b,
                accent: 0x002c_626c,
                information: 0x003e_6875,
                positive: 0x003f_6b55,
                caution: 0x0080_6328,
                danger: 0x0085_4542,
                selection: 0x00d9_e5e7,
                developer: 0x0038_6651,
            },
            Appearance::IndustrialDark => OperationalPalette {
                canvas: 0x0029_2b2c,
                surface: 0x0034_3738,
                surface_raised: 0x003e_4243,
                border: 0x0059_5f61,
                border_strong: 0x0084_8b8d,
                header: 0x0030_3233,
                text: 0x00f0_f2f2,
                text_muted: 0x00b2_b8ba,
                accent: 0x007f_acb3,
                information: 0x008a_b2bd,
                positive: 0x008d_b39b,
                caution: 0x00cf_af70,
                danger: 0x00cc_8580,
                selection: 0x0047_5558,
                developer: 0x008e_b99f,
            },
        }
    }

    /// Read an appearance by name: `light` or `industrial-light`, `dark` or
    /// `industrial-dark`. Anything else is refused with a message naming it.
    pub fn parse(value: &str) -> (result: Result<Appearance, String>)
        ensures
            match (result, parsed_appearance(value@)) {
                (Ok(found), Ok(expected)) => found == expected,
                (Err(message), Err(expected)) => message@ == expected,
                _ => false,
            },
    {
        let given = value.to_owned();
        if given == "light".to_owned() || given == "industrial-light".to_owned() {
            Ok(Appearance::IndustrialLight)
        } else if given == "dark".to_owned() || given == "industrial-dark".to_owned() {
            Ok(Appearance::IndustrialDark)
        } else {
            let mut message = "unknown appearance ".to_owned();
            let quoted = debug_quoted(value);
            message.append(quoted.as_str());
            message.append("; expected ");
            message.append(Appearance::HELP);
            Err(message)
        }
    }
}

impl Default for Appearance {
    fn default() -> (result: Appearance)
        ensures
            result == Appearance::IndustrialLight,
    {
        Appearance::IndustrialLight
    }
}

impl FromStr for Appearance {
    type Err = String;

    fn from_str(value: &str) -> (result: Result<Appearance, String>)
        ensures
            match (result, parsed_appearance(value@)) {
                (Ok(found), Ok(expected)) => found == expected,
                (Err(message), Err(expected)) => message@ == expected,
                _ => false,
            },
    {
        Appearance::parse(value)
    }
}

} // verus!
