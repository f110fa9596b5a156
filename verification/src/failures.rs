use vstd::prelude::*;

use crate::strings::{safe, safe_text};
use crate::text::push_str;

verus! {

/// A command ran out of arguments.
#[derive(Clone, Copy, Debug, PartialEq, Eq, Structural)]
pub struct Eos;

/// An argument could not be read as the type asked for: the argument and
/// the reason.
#[derive(Clone, Debug, PartialEq, Eq)]
pub struct ParseError<E>(pub String, pub E);

/// Why a text is not an integer.
#[derive(Clone, Copy, Debug, PartialEq, Eq, Structural)]
pub enum IntErrorKind {
    Empty,
    InvalidDigit,
    PosOverflow,
    NegOverflow,
    Zero,
}

/// Why a command failed, as far as the members are told.
pub enum CommandFailure {
    /// Too few arguments.
    MissingArgument,
    /// An argument that is not an integer.
    NotAnInteger(String, IntErrorKind),
    /// No member matches the argument.
    MemberNotFound,
    /// Anything else; it is reported to the developer.
    Other,
}

/// The answer to a failed command: a plain reply, or an embed with a title
/// and a description.
pub enum FailureReply {
    Text(String),
    Embed { title: String, description: String },
}

/// The explanation of why a text is not an integer.
pub open spec fn reason_text(kind: IntErrorKind) -> Seq<char> {
    match kind {
        IntErrorKind::Empty => "空文字列です"@,
        IntErrorKind::InvalidDigit => "無効な文字が含まれています"@,
        IntErrorKind::PosOverflow => "値が大きすぎます"@,
        IntErrorKind::NegOverflow => "値が小さすぎます"@,
        IntErrorKind::Zero => "0は使用できません"@,
    }
}

/// The view of a failure reply: `Ok` text, or `Err` title and description.
pub open spec fn failure_view(r: FailureReply) -> Result<Seq<char>, (Seq<char>, Seq<char>)> {
    match r {
        FailureReply::Text(t) => Ok(t@),
        FailureReply::Embed { title, description } => Err((title@, description@)),
    }
}

/// How the members are told that a command failed.
pub open spec fn failure_spec(f: CommandFailure) -> Result<Seq<char>, (Seq<char>, Seq<char>)> {
    match f {
        CommandFailure::MissingArgument => Ok("引数が足りません"@),
        CommandFailure::NotAnInteger(raw, kind) => Ok("引数として与えられた\""@ + safe_text(raw@)
            + "\"を整数に変換できませんでした("@ + reason_text(kind) + ")"@),
        CommandFailure::MemberNotFound => Ok("メンバーが見つかりませんでした"@),
        CommandFailure::Other => Err(("エラーが発生しました"@, "開発者に報告しました。修正をお待ちください"@)),
    }
}

/// Builds a string from a literal.
fn text_of(t: &str) -> (s: String)
    ensures
        s@ == t@,
{
    let mut s = String::new();
    push_str(&mut s, t);
    s
}

/// Tells the members why a command failed; a quoted argument is made safe.
pub fn failure_reply(f: &CommandFailure) -> (r: FailureReply)
    ensures
        failure_view(r) == failure_spec(*f),
{
    match f {
        CommandFailure::MissingArgument => FailureReply::Text(text_of("引数が足りません")),
        CommandFailure::NotAnInteger(raw, kind) => {
            let mut t = text_of("引数として与えられた\"");
            push_str(&mut t, safe(raw.as_str()).as_str());
            push_str(&mut t, "\"を整数に変換できませんでした(");
            let reason = match kind {
                IntErrorKind::Empty => "空文字列です",
                IntErrorKind::InvalidDigit => "無効な文字が含まれています",
                IntErrorKind::PosOverflow => "値が大きすぎます",
                IntErrorKind::NegOverflow => "値が小さすぎます",
                IntErrorKind::Zero => "0は使用できません",
            };
            push_str(&mut t, reason);
            push_str(&mut t, ")");
            FailureReply::Text(t)
        },
        CommandFailure::MemberNotFound => FailureReply::Text(text_of("メンバーが見つかりませんでした")),
        CommandFailure::Other => FailureReply::Embed {
            title: text_of("エラーが発生しました"),
            description: text_of("開発者に報告しました。修正をお待ちください"),
        },
    }
}

} // verus!
