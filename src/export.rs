use vstd::prelude::*;

use crate::source::same_text;

verus! {

/// What `str::to_lowercase` returns for a string.
pub uninterp spec fn lower_of(s: Seq<char>) -> Seq<char>;

/// Relies on `str::to_lowercase`: the result depends on the characters alone.
#[verifier::external_body]
fn lowercase(s: &str) -> (r: String)
    ensures
        r@ == lower_of(s@),
{
    s.to_lowercase()
}

/// Where a debug dump goes: a file, standard output, or nowhere.
#[derive(Debug, Clone)]
pub enum ExportTo {
    Path(String),
    Print,
    NoExport,
}

impl ExportTo {
    /// The choice that an argument names, given the argument and its
    /// lowercase form: `print` and `none` name themselves, anything else is
    /// a path, in its lowercase form.
    pub fn from_lowered(arg: &str, lowered: &str) -> (r: ExportTo)
        ensures
            lowered@ == "print"@ ==> r is Print,
            lowered@ == "none"@ ==> r is NoExport,
            lowered@ != "print"@ && lowered@ != "none"@ ==> (r matches ExportTo::Path(p) && p@ == lowered@),
    {
        proof {
            reveal_strlit("print");
            reveal_strlit("none");
            assert("print"@.len() != "none"@.len());
        }
        if same_text(lowered, "print") {
            ExportTo::Print
        } else if same_text(lowered, "none") {
            ExportTo::NoExport
        } else {
            ExportTo::Path(String::from_str(lowered))
        }
    }

    /// The choice that a command-line argument names, in any letter case.
    pub fn from_arg(arg: &str) -> (r: ExportTo)
        ensures
            lower_of(arg@) == "print"@ ==> r is Print,
            lower_of(arg@) == "none"@ ==> r is NoExport,
            lower_of(arg@) != "print"@ && lower_of(arg@) != "none"@ ==> (r matches ExportTo::Path(p) && p@ == lower_of(arg@)),
    {
        let lowered = lowercase(arg);
        ExportTo::from_lowered(arg, lowered.as_str())
    }

    /// The argument that names this choice.
    pub fn as_arg(&self) -> (r: String)
        ensures
            self matches ExportTo::Path(p) ==> r@ == p@,
            self is Print ==> r@ == "print"@,
            self is NoExport ==> r@ == "none"@,
    {
        match self {
            ExportTo::Path(p) => p.clone(),
            ExportTo::Print => String::from_str("print"),
            ExportTo::NoExport => String::from_str("none"),
        }
    }
}

} // verus!
