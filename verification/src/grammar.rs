//! The sentinels that a pipeline is written with.

use vstd::prelude::*;

verus! {

/// The tokens with a meaning of their own, and the bound on group nesting.
#[derive(Debug, Clone, PartialEq, Eq)]
pub struct Grammar {
    /// The atom that separates two stages.
    pub separator: String,
    /// The atom that stands for the value of the previous stage.
    pub placeholder: String,
    /// The name that every stage's value is bound to.
    pub carried: String,
    /// How many groups may be open at once while a stage is rewritten.
    pub max_depth: usize,
}

/// A grammar as plain values.
pub struct Sentinels {
    pub separator: Seq<char>,
    pub placeholder: Seq<char>,
    pub carried: Seq<char>,
    pub max_depth: nat,
}

impl View for Grammar {
    type V = Sentinels;

    open spec fn view(&self) -> Sentinels {
        Sentinels {
            separator: self.separator@,
            placeholder: self.placeholder@,
            carried: self.carried@,
            max_depth: self.max_depth as nat,
        }
    }
}

/// The grammar of `=>`, `_` and `ret`, with groups nested up to 128 deep.
pub open spec fn standard_sentinels() -> Sentinels {
    Sentinels { separator: "=>"@, placeholder: "_"@, carried: "ret"@, max_depth: 128 }
}

impl Grammar {
    /// The grammar of `=>`, `_` and `ret`.
    pub fn standard() -> (grammar: Grammar)
        ensures
            grammar@ == standard_sentinels(),
    {
        Grammar {
            separator: "=>".to_owned(),
            placeholder: "_".to_owned(),
            carried: "ret".to_owned(),
            max_depth: 128,
        }
    }
}

} // verus!
