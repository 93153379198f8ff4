pub mod data_reader;
pub mod text;

use text::chars_of;
use vstd::prelude::*;

verus! {

/// How the fields of a line are separated.
#[derive(Clone, Copy, Debug, PartialEq, Eq, Structural)]
pub enum DataFormat {
    /// Fields separated by white space.
    Space,
    /// Comma-separated fields.
    Comma,
    /// Tab-separated fields.
    Tab,
}

/// Why a line could not be read.
#[derive(Debug)]
pub enum DataReaderError {
    /// The label column is not among the fields of the line with index `line`.
    LabelColumnOutOfBounds { label_column: usize, line: usize },
    /// The label field is not a non-negative integer.
    InvalidLabel { token: String, line: usize, column: usize },
    /// A feature field is not a number (`line` and `column` counted from one).
    InvalidValue { token: String, line: usize, column: usize },
}

/// `a` and `b` hold the same characters.
pub fn str_equal(a: &str, b: &str) -> (r: bool)
    ensures
        r == (a@ == b@),
{
    let ca = chars_of(a);
    let cb = chars_of(b);
    if ca.len() != cb.len() {
        return false;
    }
    let mut i: usize = 0;
    while i < ca.len()
        invariant
            ca@ == a@,
            cb@ == b@,
            ca@.len() == cb@.len(),
            0 <= i <= ca@.len(),
            forall|k: int| 0 <= k < i ==> ca@[k] == cb@[k],
        decreases ca@.len() - i,
    {
        if ca[i] != cb[i] {
            return false;
        }
        i += 1;
    }
    proof {
        assert(ca@ =~= cb@);
    }
    true
}

impl DataFormat {
    /// The separator of the fields.
    pub open spec fn spec_delimiter(self) -> char {
        match self {
            DataFormat::Space => ' ',
            DataFormat::Comma => ',',
            DataFormat::Tab => '\t',
        }
    }

    #[verifier::when_used_as_spec(spec_delimiter)]
    pub fn delimiter(self) -> (c: char)
        ensures
            c == self.spec_delimiter(),
    {
        match self {
            DataFormat::Space => ' ',
            DataFormat::Comma => ',',
            DataFormat::Tab => '\t',
        }
    }

    /// The format that a file extension names: `csv` is comma-separated, `tsv`
    /// tab-separated, anything else separated by white space.
    pub fn from_extension(extension: &str) -> (f: Self)
        ensures
            f == (if extension@ == "csv"@ {
                DataFormat::Comma
            } else if extension@ == "tsv"@ {
                DataFormat::Tab
            } else {
                DataFormat::Space
            }),
    {
        if str_equal(extension, "csv") {
            DataFormat::Comma
        } else if str_equal(extension, "tsv") {
            DataFormat::Tab
        } else {
            DataFormat::Space
        }
    }
}

} // verus!
