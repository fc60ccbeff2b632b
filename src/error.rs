use vstd::prelude::*;
use crate::value::{Tree, Value};

verus! {

/// Every way in which recipe generation can fail.
#[derive(Debug, Clone, PartialEq)]
pub enum Error {
    MissingDefaultTemplate,
    UnknownTemplate(String),
    UnknownStaticProperty(String),
    InvalidStaticProperty { prop: String, value: Value },
    ExpectedObjectToSetProperty { path: String, prop: String },
    ExpectedObjectToRemoveProperty { path: String, prop: String },
    UnknownPropertyInObjectPath { path: String, prop: String },
    IndexOutOfBounds { index: usize, len: usize, path: String },
    ExpectedArrayToSetIndex { path: String, index: usize },
    ExpectedArrayToRemoveIndex { path: String, index: usize },
    ExpectedWildcardToSetProperty { path: String, value: Value },
    ExpectedWildcardToRemoveProperty { path: String, value: Value },
    /// An edited tree no longer has the shape of a recipe; `field` names the offending field.
    InvalidRecipe { field: String },
}

/// The mathematical model of an [`Error`].
pub ghost enum Fault {
    MissingDefaultTemplate,
    UnknownTemplate(Seq<char>),
    UnknownStaticProperty(Seq<char>),
    InvalidStaticProperty { prop: Seq<char>, value: Tree },
    ExpectedObjectToSetProperty { path: Seq<char>, prop: Seq<char> },
    ExpectedObjectToRemoveProperty { path: Seq<char>, prop: Seq<char> },
    UnknownPropertyInObjectPath { path: Seq<char>, prop: Seq<char> },
    IndexOutOfBounds { index: usize, len: usize, path: Seq<char> },
    ExpectedArrayToSetIndex { path: Seq<char>, index: usize },
    ExpectedArrayToRemoveIndex { path: Seq<char>, index: usize },
    ExpectedWildcardToSetProperty { path: Seq<char>, value: Tree },
    ExpectedWildcardToRemoveProperty { path: Seq<char>, value: Tree },
    InvalidRecipe { field: Seq<char> },
}

impl View for Error {
    type V = Fault;

    open spec fn view(&self) -> Fault {
        match self {
            Error::MissingDefaultTemplate => Fault::MissingDefaultTemplate,
            Error::UnknownTemplate(t) => Fault::UnknownTemplate(t@),
            Error::UnknownStaticProperty(p) => Fault::UnknownStaticProperty(p@),
            Error::InvalidStaticProperty { prop, value } => Fault::InvalidStaticProperty {
                prop: prop@,
                value: value@,
            },
            Error::ExpectedObjectToSetProperty { path, prop } =>
                Fault::ExpectedObjectToSetProperty { path: path@, prop: prop@ },
            Error::ExpectedObjectToRemoveProperty { path, prop } =>
                Fault::ExpectedObjectToRemoveProperty { path: path@, prop: prop@ },
            Error::UnknownPropertyInObjectPath { path, prop } =>
                Fault::UnknownPropertyInObjectPath { path: path@, prop: prop@ },
            Error::IndexOutOfBounds { index, len, path } => Fault::IndexOutOfBounds {
                index: *index,
                len: *len,
                path: path@,
            },
            Error::ExpectedArrayToSetIndex { path, index } =>
                Fault::ExpectedArrayToSetIndex { path: path@, index: *index },
            Error::ExpectedArrayToRemoveIndex { path, index } =>
                Fault::ExpectedArrayToRemoveIndex { path: path@, index: *index },
            Error::ExpectedWildcardToSetProperty { path, value } =>
                Fault::ExpectedWildcardToSetProperty { path: path@, value: value@ },
            Error::ExpectedWildcardToRemoveProperty { path, value } =>
                Fault::ExpectedWildcardToRemoveProperty { path: path@, value: value@ },
            Error::InvalidRecipe { field } => Fault::InvalidRecipe { field: field@ },
        }
    }
}

} // verus!
