use crate::action::{ID, MAX_DEPTH};
use crate::text::{decimal, decimal_text};
use vstd::prelude::*;

verus! {

/// Why a declared list of actions cannot be turned into a graph.
#[derive(Debug)]
pub enum BuildError {
    /// Templates are nested deeper than `MAX_DEPTH`.
    TemplateTooDeep,
    /// An identifier holds a character other than a letter, a digit, `_` or `-`.
    IllegalId,
    /// A declared identifier is made of digits alone.
    NumericId,
    /// A declared identifier is `entry` or `exit`.
    ReservedId,
    /// Two actions of one scope share an identifier; `template` names the scope's document,
    /// and is absent for the scope of a block.
    DuplicateId { id: ID, template: Option<String> },
    /// A parameter is given that the template's document never mentions.
    UnknownParameter { key: String, source: String },
    /// The template's document mentions a parameter that is not given.
    UnresolvedParameter,
    /// An action waits for itself.
    SelfSuccessor(ID),
    /// An action names itself as its companion.
    SelfDependent(ID),
    /// A predecessor names no action.
    InvalidReference(ID),
    /// No action of the block goes by this name.
    UnknownAction(ID),
}

pub enum BuildErrorView {
    TemplateTooDeep,
    IllegalId,
    NumericId,
    ReservedId,
    DuplicateId { id: Seq<char>, template: Option<Seq<char>> },
    UnknownParameter { key: Seq<char>, source: Seq<char> },
    UnresolvedParameter,
    SelfSuccessor(Seq<char>),
    SelfDependent(Seq<char>),
    InvalidReference(Seq<char>),
    UnknownAction(Seq<char>),
}

impl View for BuildError {
    type V = BuildErrorView;

    open spec fn view(&self) -> BuildErrorView {
        match self {
            BuildError::TemplateTooDeep => BuildErrorView::TemplateTooDeep,
            BuildError::IllegalId => BuildErrorView::IllegalId,
            BuildError::NumericId => BuildErrorView::NumericId,
            BuildError::ReservedId => BuildErrorView::ReservedId,
            BuildError::DuplicateId { id, template } => BuildErrorView::DuplicateId {
                id: id@,
                template: match template {
                    Some(t) => Some(t@),
                    None => None,
                },
            },
            BuildError::UnknownParameter { key, source } => BuildErrorView::UnknownParameter {
                key: key@,
                source: source@,
            },
            BuildError::UnresolvedParameter => BuildErrorView::UnresolvedParameter,
            BuildError::SelfSuccessor(id) => BuildErrorView::SelfSuccessor(id@),
            BuildError::SelfDependent(id) => BuildErrorView::SelfDependent(id@),
            BuildError::InvalidReference(id) => BuildErrorView::InvalidReference(id@),
            BuildError::UnknownAction(id) => BuildErrorView::UnknownAction(id@),
        }
    }
}

impl BuildErrorView {
    /// The sentence that tells a person what went wrong.
    pub open spec fn message(self) -> Seq<char> {
        match self {
            BuildErrorView::TemplateTooDeep => "Maximum allowed template depth reached: "@
                + decimal_text(MAX_DEPTH as nat) + "."@,
            BuildErrorView::IllegalId =>
                "Only alphanumeric (a-z|A-Z|0-9), '-', and '_' are allowed in actions IDs."@,
            BuildErrorView::NumericId => "Custom action ID cannot be digits only."@,
            BuildErrorView::ReservedId => "`entry` and `exit` are reserved action IDs."@,
            BuildErrorView::DuplicateId { id, template } => match template {
                Some(t) => "Action ID `"@ + id + "` used more than once in template: "@ + t,
                None => "Action ID `"@ + id + "` used more than once; IDs should be unique"@,
            },
            BuildErrorView::UnknownParameter { key, source } => "Invalid template parameter \""@
                + key + "\" specified for template file: \""@ + source + "\""@,
            BuildErrorView::UnresolvedParameter =>
                "All parameters in a template should have specified values"@,
            BuildErrorView::SelfSuccessor(id) => "Action cannot be a successor of itself: "@ + id,
            BuildErrorView::SelfDependent(id) => "Action cannot be a dependent of itself: "@ + id,
            BuildErrorView::InvalidReference(id) => "Invalid action ID: "@ + id,
            BuildErrorView::UnknownAction(id) => "Invalid reference to action: "@ + id,
        }
    }
}

impl BuildError {
    /// The sentence that tells a person what went wrong.
    pub fn message(&self) -> (r: String)
        ensures
            r@ == self@.message(),
    {
        match self {
            BuildError::TemplateTooDeep => {
                let mut r = String::from_str("Maximum allowed template depth reached: ");
                r.append(decimal(MAX_DEPTH as usize).as_str());
                r.append(".");
                r
            },
            BuildError::IllegalId => String::from_str(
                "Only alphanumeric (a-z|A-Z|0-9), '-', and '_' are allowed in actions IDs.",
            ),
            BuildError::NumericId => String::from_str("Custom action ID cannot be digits only."),
            BuildError::ReservedId => String::from_str(
                "`entry` and `exit` are reserved action IDs.",
            ),
            BuildError::DuplicateId { id, template } => {
                let mut r = String::from_str("Action ID `");
                r.append(id.as_str());
                match template {
                    Some(t) => {
                        r.append("` used more than once in template: ");
                        r.append(t.as_str());
                    },
                    None => {
                        r.append("` used more than once; IDs should be unique");
                    },
                }
                r
            },
            BuildError::UnknownParameter { key, source } => {
                let mut r = String::from_str("Invalid template parameter \"");
                r.append(key.as_str());
                r.append("\" specified for template file: \"");
                r.append(source.as_str());
                r.append("\"");
                r
            },
            BuildError::UnresolvedParameter => String::from_str(
                "All parameters in a template should have specified values",
            ),
            BuildError::SelfSuccessor(id) => {
                let mut r = String::from_str("Action cannot be a successor of itself: ");
                r.append(id.as_str());
                r
            },
            BuildError::SelfDependent(id) => {
                let mut r = String::from_str("Action cannot be a dependent of itself: ");
                r.append(id.as_str());
                r
            },
            BuildError::InvalidReference(id) => {
                let mut r = String::from_str("Invalid action ID: ");
                r.append(id.as_str());
                r
            },
            BuildError::UnknownAction(id) => {
                let mut r = String::from_str("Invalid reference to action: ");
                r.append(id.as_str());
                r
            },
        }
    }
}

} // verus!
