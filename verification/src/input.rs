//! Input identities.
//!
//! An input is one concrete, source-defined stimulus a device can produce,
//! such as one key being held or one button being pressed. It is identified
//! by the name of the input source that defines it, its canonical textual
//! form (the one used in configuration files), and the payload type it
//! produces. Exactly one payload type belongs to each input value; two
//! stimuli sharing a textual form but producing different payload types are
//! distinct inputs.

use vstd::prelude::*;

use crate::types::TypeTag;

verus! {

/// Mathematical model of an input identity.
pub struct InputModel {
    pub source: Seq<char>,
    pub text: Seq<char>,
    pub tag: TypeTag,
}

/// One concrete bindable input.
#[derive(Clone, Debug)]
pub struct Input {
    /// Name of the input source that defines this input, as used in
    /// configuration files to select the source's binding table.
    pub source: String,
    /// Canonical human-readable form of this input. Parsing this text with
    /// the defining source yields an input equivalent to this one.
    pub text: String,
    /// The payload type this input produces.
    pub tag: TypeTag,
}

impl View for Input {
    type V = InputModel;

    open spec fn view(&self) -> InputModel {
        InputModel { source: self.source@, text: self.text@, tag: self.tag }
    }
}

impl PartialEq for Input {
    fn eq(&self, other: &Input) -> (r: bool) {
        self.source == other.source && self.text == other.text && self.tag == other.tag
    }
}

impl vstd::std_specs::cmp::PartialEqSpecImpl for Input {
    open spec fn obeys_eq_spec() -> bool {
        true
    }

    open spec fn eq_spec(&self, other: &Input) -> bool {
        self@ == other@
    }
}

impl Input {
    /// Make an identical copy of this input.
    pub fn duplicate(&self) -> (r: Input)
        ensures
            r@ == self@,
    {
        Input { source: self.source.clone(), text: self.text.clone(), tag: self.tag }
    }
}

} // verus!
