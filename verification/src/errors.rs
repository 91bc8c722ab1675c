use vstd::prelude::*;
use vstd::string::StringExecFns;
use crate::text::{dec_digits, push_decimal};

verus! {

/// Why a safe-tier accessor refused: the node was not of the kind the caller
/// asked about, a key was absent, or an index lay past the end.
#[derive(Debug, Clone, PartialEq)]
pub enum ErrorCause {
    FieldNotExist(String),
    WrongTypeRequested(String, &'static str),
    IndexOutOfBound(usize),
    NodeIsNotArray,
    NodeIsNotDictionary,
}

impl ErrorCause {
    /// The message that describes this cause.
    pub open spec fn message(self) -> Seq<char> {
        match self {
            ErrorCause::FieldNotExist(name) => "Field with a name '"@ + name@
                + "' do not exist"@,
            ErrorCause::WrongTypeRequested(name, kind) => "Trying to look at field '"@ + name@
                + "' like it was of a type `"@ + kind@
                + "`, but found something other instead"@,
            ErrorCause::IndexOutOfBound(idx) => "Index "@ + dec_digits(idx as nat)
                + " is out of bounds"@,
            ErrorCause::NodeIsNotArray => "Trying to work with a node like it was an array, but it didn't"@,
            ErrorCause::NodeIsNotDictionary => "Trying to work with a node like it was a dictionary, but it didn't"@,
        }
    }

    /// Writes the cause out for a reader.
    pub fn to_string(&self) -> (r: String)
        ensures
            r@ == self.message(),
    {
        match self {
            ErrorCause::FieldNotExist(name) => {
                let mut s = String::from_str("Field with a name '");
                s.append(name.as_str());
                s.append("' do not exist");
                assert(s@ =~= self.message());
                s
            },
            ErrorCause::WrongTypeRequested(name, kind) => {
                let mut s = String::from_str("Trying to look at field '");
                s.append(name.as_str());
                s.append("' like it was of a type `");
                s.append(kind);
                s.append("`, but found something other instead");
                assert(s@ =~= self.message());
                s
            },
            ErrorCause::IndexOutOfBound(idx) => {
                let mut s = String::from_str("Index ");
                push_decimal(&mut s, *idx);
                s.append(" is out of bounds");
                assert(s@ =~= self.message());
                s
            },
            ErrorCause::NodeIsNotArray => {
                String::from_str("Trying to work with a node like it was an array, but it didn't")
            },
            ErrorCause::NodeIsNotDictionary => {
                String::from_str(
                    "Trying to work with a node like it was a dictionary, but it didn't",
                )
            },
        }
    }
}

} // verus!
