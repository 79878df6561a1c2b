//! What the assertions of a test tell where they do not hold.

use vstd::prelude::*;
use vstd::string::*;
use crate::numeral::{signed_decimal, signed_text};
use crate::text::copy_text;

verus! {

/// A Lua value, as far as it is told of.
pub enum LuaShown {
    Nil,
    Boolean(bool),
    Integer(i64),
    /// A number that is no integer, as it is printed.
    Number(String),
    Text(String),
    /// A text that is not UTF-8.
    Bytes,
    Table,
    Function,
    Thread,
    UserData,
    LightUserData,
    Error(String),
    Other,
}

/// A text between quotation marks, with the characters escaped that are not printed as they are.
pub uninterp spec fn quoted_text(s: Seq<char>) -> Seq<char>;

/// Prints a text with the `Debug` impl of `str`: between quotation marks, with escapes. Which
/// characters are escaped is a long table, so the result has a name only.
#[verifier::external_body]
fn quote(s: &str) -> (r: String)
    ensures
        r@ == quoted_text(s@),
{
    format!("{s:?}")
}

pub open spec fn shown(v: LuaShown) -> Seq<char> {
    match v {
        LuaShown::Nil => "nil"@,
        LuaShown::Boolean(b) => if b {
            "true"@
        } else {
            "false"@
        },
        LuaShown::Integer(n) => signed_decimal(n as int),
        LuaShown::Number(s) => s@,
        LuaShown::Text(s) => quoted_text(s@),
        LuaShown::Bytes => "<non-utf8-string>"@,
        LuaShown::Table => "<table>"@,
        LuaShown::Function => "<function>"@,
        LuaShown::Thread => "<thread>"@,
        LuaShown::UserData => "<userdata>"@,
        LuaShown::LightUserData => "<lightuserdata>"@,
        LuaShown::Error(e) => "<error:"@ + e@ + ">"@,
        LuaShown::Other => "<other>"@,
    }
}

/// How a value is told of.
pub fn display_value(v: &LuaShown) -> (r: String)
    ensures
        r@ == shown(*v),
{
    match v {
        LuaShown::Nil => copy_text("nil"),
        LuaShown::Boolean(b) => if *b {
            copy_text("true")
        } else {
            copy_text("false")
        },
        LuaShown::Integer(n) => signed_text(*n),
        LuaShown::Number(s) => copy_text(s.as_str()),
        LuaShown::Text(s) => quote(s.as_str()),
        LuaShown::Bytes => copy_text("<non-utf8-string>"),
        LuaShown::Table => copy_text("<table>"),
        LuaShown::Function => copy_text("<function>"),
        LuaShown::Thread => copy_text("<thread>"),
        LuaShown::UserData => copy_text("<userdata>"),
        LuaShown::LightUserData => copy_text("<lightuserdata>"),
        LuaShown::Error(e) => {
            let mut out: String = copy_text("<error:");
            out.append(e.as_str());
            out.append(">");
            out
        },
        LuaShown::Other => copy_text("<other>"),
    }
}

/// What an assertion tells: its name, what the test says of it where it says anything, and what was
/// found.
pub open spec fn assertion_text(name: Seq<char>, message: Option<String>, detail: Seq<char>) -> Seq<
    char,
> {
    match message {
        Some(m) => if m@.len() > 0 {
            name + ": "@ + m@ + ": "@ + detail
        } else {
            name + ": "@ + detail
        },
        None => name + ": "@ + detail,
    }
}

pub fn assertion_error(name: &str, message: &Option<String>, detail: &str) -> (r: String)
    ensures
        r@ == assertion_text(name@, *message, detail@),
{
    let mut out: String = copy_text(name);
    out.append(": ");
    match message {
        Some(m) => {
            if !m.as_str().is_empty() {
                out.append(m.as_str());
                out.append(": ");
            }
        },
        None => {},
    }
    out.append(detail);
    out
}

/// What is told where two values are not the same.
pub fn check_eq(
    same: bool,
    actual: &LuaShown,
    expected: &LuaShown,
    message: &Option<String>,
) -> (r: Result<(), String>)
    ensures
        same ==> r is Ok,
        !same ==> (r matches Err(text) && text@ == assertion_text(
            "eq"@,
            *message,
            "expected "@ + shown(*expected) + ", got "@ + shown(*actual),
        )),
{
    if same {
        return Ok(());
    }
    let mut detail: String = copy_text("expected ");
    let wanted: String = display_value(expected);
    let got: String = display_value(actual);
    detail.append(wanted.as_str());
    detail.append(", got ");
    detail.append(got.as_str());
    Err(assertion_error("eq", message, detail.as_str()))
}

fn got(value: &LuaShown) -> (r: String)
    ensures
        r@ == "got "@ + shown(*value),
{
    let mut detail: String = copy_text("got ");
    let text: String = display_value(value);
    detail.append(text.as_str());
    detail
}

/// Whether a value counts as false.
pub open spec fn is_false(value: LuaShown) -> bool {
    value is Nil || value == LuaShown::Boolean(false)
}

/// What is told where a value counts as false.
pub fn check_is_true(value: &LuaShown, message: &Option<String>) -> (r: Result<(), String>)
    ensures
        !is_false(*value) ==> r is Ok,
        is_false(*value) ==> (r matches Err(text) && text@ == assertion_text(
            "is_true"@,
            *message,
            "got "@ + shown(*value),
        )),
{
    let holds: bool = match value {
        LuaShown::Nil => false,
        LuaShown::Boolean(b) => *b,
        _ => true,
    };
    if holds {
        return Ok(());
    }
    Err(assertion_error("is_true", message, got(value).as_str()))
}

/// What is told where a function raises no error.
pub fn check_raises(raised: bool, message: &Option<String>) -> (r: Result<(), String>)
    ensures
        raised ==> r is Ok,
        !raised ==> (r matches Err(text) && text@ == assertion_text(
            "raises"@,
            *message,
            "function did not raise"@,
        )),
{
    if raised {
        return Ok(());
    }
    Err(assertion_error("raises", message, "function did not raise"))
}

/// What is told where a value is not nil.
pub fn check_is_nil(value: &LuaShown, message: &Option<String>) -> (r: Result<(), String>)
    ensures
        value is Nil ==> r is Ok,
        !(value is Nil) ==> (r matches Err(text) && text@ == assertion_text(
            "is_nil"@,
            *message,
            "got "@ + shown(*value),
        )),
{
    match value {
        LuaShown::Nil => Ok(()),
        _ => Err(assertion_error("is_nil", message, got(value).as_str())),
    }
}

} // verus!
