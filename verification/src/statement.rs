//! SQL statements as values: the text and the parameters bound to it. Values
//! are bound, never interpolated.
use vstd::prelude::*;

use crate::text::{view_of_option, views};

verus! {

/// A parameter of a statement.
#[derive(Debug, PartialEq, Eq)]
pub enum Arg {
    Text(Option<String>),
    Int4(i32),
    Int8(i64),
    Texts(Vec<String>),
}

pub enum ArgModel {
    Text(Option<Seq<char>>),
    Int4(i32),
    Int8(i64),
    Texts(Seq<Seq<char>>),
}

impl View for Arg {
    type V = ArgModel;

    open spec fn view(&self) -> ArgModel {
        match self {
            Arg::Text(text) => ArgModel::Text(view_of_option(*text)),
            Arg::Int4(n) => ArgModel::Int4(*n),
            Arg::Int8(n) => ArgModel::Int8(*n),
            Arg::Texts(texts) => ArgModel::Texts(views(texts@)),
        }
    }
}

impl Clone for Arg {
    fn clone(&self) -> (result: Self)
        ensures
            result@ == self@,
    {
        match self {
            Arg::Text(text) => Arg::Text(text.clone()),
            Arg::Int4(n) => Arg::Int4(*n),
            Arg::Int8(n) => Arg::Int8(*n),
            Arg::Texts(texts) => {
                let copies = texts.clone();
                assert(views(copies@) =~= views(texts@));
                Arg::Texts(copies)
            },
        }
    }
}

/// A statement with its parameters.
#[derive(Debug, PartialEq, Eq)]
pub struct Statement {
    pub sql: String,
    pub args: Vec<Arg>,
}

pub struct StatementModel {
    pub sql: Seq<char>,
    pub args: Seq<ArgModel>,
}

impl View for Statement {
    type V = StatementModel;

    open spec fn view(&self) -> StatementModel {
        StatementModel { sql: self.sql@, args: views(self.args@) }
    }
}

impl Clone for Statement {
    fn clone(&self) -> (result: Self)
        ensures
            result@ == self@,
    {
        let args = self.args.clone();
        assert(views(args@) =~= views(self.args@));
        Statement { sql: self.sql.clone(), args }
    }
}

/// How much a line for the operator's log matters.
#[derive(Clone, Copy, Debug, PartialEq, Eq, Structural)]
pub enum Level {
    Warning,
    Log,
}

/// A line for the operator's log.
#[derive(Debug, PartialEq, Eq)]
pub struct Notice {
    pub level: Level,
    pub text: String,
}

pub struct NoticeModel {
    pub level: Level,
    pub text: Seq<char>,
}

impl View for Notice {
    type V = NoticeModel;

    open spec fn view(&self) -> NoticeModel {
        NoticeModel { level: self.level, text: self.text@ }
    }
}

pub open spec fn warning(text: Seq<char>) -> NoticeModel {
    NoticeModel { level: Level::Warning, text }
}

impl Notice {
    pub fn warning(text: String) -> (result: Notice)
        ensures
            result@ == warning(text@),
    {
        Notice { level: Level::Warning, text }
    }
}

/// A line behind others.
pub fn push_notice(log: &mut Vec<Notice>, notice: Notice)
    ensures
        views(final(log)@) == views(old(log)@).push(notice@),
{
    let ghost before = views(log@);
    let ghost added = notice@;
    log.push(notice);
    assert(views(log@) =~= before.push(added));
}

/// A statement without parameters.
pub open spec fn bare(sql: Seq<char>) -> StatementModel {
    StatementModel { sql, args: Seq::empty() }
}

/// Optional texts as parameters.
pub open spec fn text_args(values: Seq<Option<Seq<char>>>) -> Seq<ArgModel> {
    values.map_values(|v: Option<Seq<char>>| ArgModel::Text(v))
}

/// The views of optional texts.
pub open spec fn texts(values: Seq<Option<String>>) -> Seq<Option<Seq<char>>> {
    values.map_values(|v: Option<String>| view_of_option(v))
}

impl Statement {
    pub fn bare(sql: String) -> (result: Statement)
        ensures
            result@ == bare(sql@),
    {
        let s = Statement { sql, args: Vec::new() };
        assert(s@.args =~= Seq::empty());
        s
    }

    pub fn with_texts(sql: String, values: &Vec<Option<String>>) -> (result: Statement)
        ensures
            result@ == (StatementModel { sql: sql@, args: text_args(texts(values@)) }),
    {
        let mut args: Vec<Arg> = Vec::new();
        let mut i: usize = 0;
        while i < values.len()
            invariant
                i <= values@.len(),
                args@.len() == i,
                forall|j: int|
                    0 <= j < i ==> (#[trigger] args@[j])@ == ArgModel::Text(
                        view_of_option(values@[j]),
                    ),
            decreases values@.len() - i,
        {
            args.push(Arg::Text(values[i].clone()));
            i = i + 1;
        }
        assert(views(args@) =~= text_args(texts(values@)));
        Statement { sql, args }
    }
}

/// A text as a parameter.
pub fn text_arg(text: &str) -> (result: Arg)
    ensures
        result@ == ArgModel::Text(Some(text@)),
{
    Arg::Text(Some(text.to_string()))
}

/// An object identifier as a parameter.
pub fn oid_arg(oid: u32) -> (result: Arg)
    ensures
        result@ == ArgModel::Int8(oid as i64),
{
    Arg::Int8(oid as i64)
}

/// A statement without parameters is its text alone; texts are passed as parameters one for one,
/// in their order, and what is missing stays missing.
pub proof fn law_parameters_are_passed_in_order(
    sql: Seq<char>,
    values: Seq<Option<Seq<char>>>,
    i: int,
)
    requires
        0 <= i < values.len(),
    ensures
        bare(sql).sql == sql,
        bare(sql).args.len() == 0,
        text_args(values).len() == values.len(),
        text_args(values)[i] == ArgModel::Text(values[i]),
{
}

} // verus!
