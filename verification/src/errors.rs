//! Error reports. Every user-facing error is prefixed with "nabla:".
use vstd::prelude::*;

use crate::text::view_of_option;

verus! {

pub const SHAPES_HINT: &'static str = "Accepted shapes: (1) projection: SELECT expr [AS alias][, ...] FROM table [WHERE predicate], where the primary key columns are selected as plain columns; (2) aggregate: SELECT key [AS alias][, ...], count(*) [AS a][, sum(expr) [AS b]]... FROM table [WHERE predicate] GROUP BY key[, ...]. Expressions may only use IMMUTABLE functions and operators over the base table's columns.";

/// The class of an error report.
#[derive(Clone, Copy, Debug, PartialEq, Eq, Structural)]
pub enum ErrorCode {
    FeatureNotSupported,
    InvalidParameterValue,
    ObjectNotInPrerequisiteState,
    Internal,
    UndefinedObject,
}

impl ErrorCode {
    /// The five characters by which clients tell error classes apart.
    pub fn sqlstate(self) -> (result: &'static str)
        ensures
            result@ == match self {
                ErrorCode::FeatureNotSupported => "0A000"@,
                ErrorCode::InvalidParameterValue => "22023"@,
                ErrorCode::ObjectNotInPrerequisiteState => "55000"@,
                ErrorCode::Internal => "XX000"@,
                ErrorCode::UndefinedObject => "42704"@,
            },
    {
        match self {
            ErrorCode::FeatureNotSupported => "0A000",
            ErrorCode::InvalidParameterValue => "22023",
            ErrorCode::ObjectNotInPrerequisiteState => "55000",
            ErrorCode::Internal => "XX000",
            ErrorCode::UndefinedObject => "42704",
        }
    }
}

/// An error for the caller.
#[derive(Debug)]
pub struct Report {
    pub code: ErrorCode,
    pub message: String,
    pub hint: Option<String>,
}

pub struct ReportModel {
    pub code: ErrorCode,
    pub message: Seq<char>,
    pub hint: Option<Seq<char>>,
}

impl View for Report {
    type V = ReportModel;

    open spec fn view(&self) -> ReportModel {
        ReportModel {
            code: self.code,
            message: self.message@,
            hint: view_of_option(self.hint),
        }
    }
}

pub fn raise(code: ErrorCode, message: String, hint: Option<&str>) -> (result: Report)
    ensures
        result@ == (ReportModel { code, message: message@, hint: view_of_option(hint) }),
{
    let hint = match hint {
        Some(hint) => Some(hint.to_string()),
        None => None,
    };
    Report { code, message, hint }
}

/// The report for a definition outside the accepted shapes.
pub open spec fn unsupported(reason: Seq<char>) -> ReportModel {
    ReportModel {
        code: ErrorCode::FeatureNotSupported,
        message: "nabla: unsupported view definition: "@ + reason,
        hint: Some(SHAPES_HINT@),
    }
}

pub fn unsupported_definition(reason: &str) -> (result: Report)
    ensures
        result@ == unsupported(reason@),
{
    raise(
        ErrorCode::FeatureNotSupported,
        "nabla: unsupported view definition: ".to_string().concat(reason),
        Some(SHAPES_HINT),
    )
}

pub fn invalid(message: String, hint: Option<&str>) -> (result: Report)
    ensures
        result@ == (ReportModel {
            code: ErrorCode::InvalidParameterValue,
            message: message@,
            hint: view_of_option(hint),
        }),
{
    raise(ErrorCode::InvalidParameterValue, message, hint)
}

pub fn prerequisite(message: String, hint: Option<&str>) -> (result: Report)
    ensures
        result@ == (ReportModel {
            code: ErrorCode::ObjectNotInPrerequisiteState,
            message: message@,
            hint: view_of_option(hint),
        }),
{
    raise(ErrorCode::ObjectNotInPrerequisiteState, message, hint)
}

/// A refused definition is reported as not supported, with its reason behind the prefix
/// of every report, and with a hint.
pub proof fn law_refusals_give_their_reason(reason: Seq<char>)
    ensures
        unsupported(reason).code == ErrorCode::FeatureNotSupported,
        unsupported(reason).message.take(7) == "nabla: "@,
        reason.is_suffix_of(unsupported(reason).message),
        unsupported(reason).hint is Some,
{
    reveal_strlit("nabla: ");
    reveal_strlit("nabla: unsupported view definition: ");
    assert(unsupported(reason).message.take(7) =~= "nabla: "@);
    let m = unsupported(reason).message;
    assert(m.subrange(m.len() - reason.len(), m.len() as int) =~= reason);
}

} // verus!
