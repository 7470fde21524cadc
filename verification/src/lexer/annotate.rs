use vstd::prelude::*;

verus! {

/// The effect that a recognised pragma name stands for.
#[derive(Debug, Clone, Copy, PartialEq, Eq, Structural)]
pub enum Annotation {
    PartialEval,
    NoPartialEval,
    Static,
    Dynamic,
}

/// The annotation that a pragma name spells, if any. Names are matched
/// letter for letter; every other name spells none.
pub open spec fn annotation_of(name: Seq<char>) -> Option<Annotation> {
    if name == "pe"@ {
        Some(Annotation::PartialEval)
    } else if name == "nope"@ {
        Some(Annotation::NoPartialEval)
    } else if name == "static"@ {
        Some(Annotation::Static)
    } else if name == "dynamic"@ {
        Some(Annotation::Dynamic)
    } else {
        None
    }
}

/// The partial-evaluation mode after a pragma named `name` is seen in mode
/// `pe`: switched on or off by a recognised name, unchanged by any other.
pub open spec fn mode_after(pe: bool, name: Seq<char>) -> bool {
    match annotation_of(name) {
        Some(a) => a.enables(),
        None => pe,
    }
}

impl Annotation {
    /// Whether this annotation switches partial evaluation on.
    pub open spec fn enables(self) -> bool {
        self == Annotation::PartialEval || self == Annotation::Static
    }

    /// Whether this annotation switches partial evaluation on.
    pub fn enables_pe(&self) -> (r: bool)
        ensures
            r == self.enables(),
    {
        match self {
            Annotation::PartialEval => true,
            Annotation::Static => true,
            Annotation::NoPartialEval => false,
            Annotation::Dynamic => false,
        }
    }

    /// Recognises a pragma name.
    pub fn from_str(s: &str) -> (r: Option<Annotation>)
        ensures
            r == annotation_of(s@),
    {
        if *s == *"pe" {
            Some(Annotation::PartialEval)
        } else if *s == *"nope" {
            Some(Annotation::NoPartialEval)
        } else if *s == *"static" {
            Some(Annotation::Static)
        } else if *s == *"dynamic" {
            Some(Annotation::Dynamic)
        } else {
            None
        }
    }
}

/// A name other than the four recognised ones leaves the mode as it was.
pub proof fn lemma_unrecognised_name_keeps_mode(pe: bool, name: Seq<char>)
    requires
        name != "pe"@,
        name != "nope"@,
        name != "static"@,
        name != "dynamic"@,
    ensures
        mode_after(pe, name) == pe,
{
}

} // verus!
