//! Flattening message content and describing tool calls.
use vstd::prelude::*;
use vstd::string::StringExecFns;
use vstd::string::StrSliceExecFns;
use crate::json::{Json, json_text, member, member_str, str_or, str_value, write_json};
use crate::text::{bytes_of, preview, preview_of, text_eq};

verus! {

broadcast use vstd::string::group_string_axioms;

/// The text of a content block whose type is `text`.
pub open spec fn block_text(b: Json) -> Option<Seq<char>> {
    if str_value(member(Some(b), "type"@)) == Some("text"@) {
        str_value(member(Some(b), "text"@))
    } else {
        None
    }
}

/// The texts of the text blocks, in order.
pub open spec fn block_texts(bs: Seq<Json>) -> Seq<Seq<char>>
    decreases bs.len(),
{
    if bs.len() == 0 {
        Seq::empty()
    } else {
        match block_text(bs.last()) {
            Some(t) => block_texts(bs.drop_last()).push(t),
            None => block_texts(bs.drop_last()),
        }
    }
}

/// The parts joined with one space between neighbours.
pub open spec fn join_space(parts: Seq<Seq<char>>) -> Seq<char>
    decreases parts.len(),
{
    if parts.len() == 0 {
        Seq::empty()
    } else if parts.len() == 1 {
        parts[0]
    } else {
        join_space(parts.drop_last()) + " "@ + parts.last()
    }
}

/// A message's content as flat text: a string as it is, the text blocks of
/// an array joined by spaces, anything else empty.
pub open spec fn content_text(msg: Option<Json>) -> Seq<char> {
    match member(msg, "content"@) {
        Some(Json::Str(s)) => s@,
        Some(Json::Array(a)) => join_space(block_texts(a@)),
        _ => Seq::empty(),
    }
}

/// Flattens a message's content into plain text.
pub fn extract_content(msg: Option<&Json>) -> (r: String)
    ensures
        r@ == content_text(
            match msg {
                Some(x) => Some(*x),
                None => None,
            },
        ),
{
    let content = match msg {
        Some(m) => m.get("content"),
        None => None,
    };
    match content {
        Some(Json::Str(s)) => s.clone(),
        Some(Json::Array(a)) => {
            let mut out = String::new();
            let mut n: usize = 0;
            let mut i: usize = 0;
            while i < a.len()
                invariant
                    i <= a@.len(),
                    n <= i,
                    n == block_texts(a@.subrange(0, i as int)).len(),
                    out@ == join_space(block_texts(a@.subrange(0, i as int))),
                decreases a.len() - i,
            {
                assert(a@.subrange(0, i + 1).drop_last() =~= a@.subrange(0, i as int));
                let b = &a[i];
                let is_text = match b.get("type") {
                    Some(t) => match t.as_str() {
                        Some(s) => text_eq(s, "text"),
                        None => false,
                    },
                    None => false,
                };
                if is_text {
                    match b.get("text") {
                        Some(t) => match t.as_str() {
                            Some(s) => {
                                let ghost p = block_texts(a@.subrange(0, i as int));
                                assert(block_texts(a@.subrange(0, i + 1)) == p.push(s@));
                                assert(p.push(s@).drop_last() =~= p);
                                if n > 0 {
                                    out.append(" ");
                                }
                                out.append(s);
                                n = n + 1;
                            },
                            None => {},
                        },
                        None => {},
                    }
                }
                i = i + 1;
            }
            assert(a@.subrange(0, i as int) =~= a@);
            out
        },
        _ => String::new(),
    }
}

/// The decimal digits of `n`.
pub open spec fn decimal(n: nat) -> Seq<char>
    decreases n,
{
    if n < 10 {
        seq!["0123456789"@[n as int]]
    } else {
        decimal(n / 10).push("0123456789"@[(n % 10) as int])
    }
}

/// `n` written in decimal.
pub fn decimal_text(n: usize) -> (r: String)
    ensures
        r@ == decimal(n as nat),
    decreases n,
{
    let digits = "0123456789";
    proof {
        reveal_strlit("0123456789");
    }
    let d = n % 10;
    let one = digits.substring_char(d, d + 1);
    assert(one@ =~= seq!["0123456789"@[d as int]]);
    if n < 10 {
        one.to_string()
    } else {
        let mut s = decimal_text(n / 10);
        s.append(one);
        s
    }
}

/// A short description of a tool call, chosen by the tool's name; an
/// absent input reads as the empty object, whose JSON text is `{}`.
pub open spec fn tool_preview(name: Seq<char>, input: Option<Json>) -> Seq<char> {
    if name == "Bash"@ {
        str_or(member(input, "command"@), ""@)
    } else if name == "Read"@ || name == "Glob"@ {
        match member(input, "file_path"@) {
            Some(v) => str_or(Some(v), ""@),
            None => str_or(member(input, "pattern"@), ""@),
        }
    } else if name == "Write"@ {
        let size = match str_value(member(input, "content"@)) {
            Some(c) => bytes_of(c).len(),
            None => 0,
        };
        str_or(member(input, "file_path"@), ""@) + " ("@ + decimal(size) + " chars)"@
    } else if name == "Edit"@ {
        str_or(member(input, "file_path"@), ""@)
    } else if name == "Grep"@ {
        "/"@ + str_or(member(input, "pattern"@), ""@) + "/ in "@ + str_or(
            member(input, "path"@),
            "."@,
        )
    } else if name == "Task"@ {
        str_or(member(input, "description"@), ""@)
    } else {
        let text = match input {
            Some(v) => json_text(v),
            None => "{}"@,
        };
        preview_of(text, 200)
    }
}

/// Describes a tool call from its name and its input; an absent input
/// counts as the empty object, written `{}`.
pub fn tool_input_preview(name: &str, input: Option<&Json>) -> (r: String)
    ensures
        r@ == tool_preview(
            name@,
            match input {
                Some(x) => Some(*x),
                None => None,
            },
        ),
{
    if text_eq(name, "Bash") {
        member_str(input, "command", "").to_string()
    } else if text_eq(name, "Read") || text_eq(name, "Glob") {
        let has_path = match input {
            Some(x) => x.get("file_path").is_some(),
            None => false,
        };
        if has_path {
            member_str(input, "file_path", "").to_string()
        } else {
            member_str(input, "pattern", "").to_string()
        }
    } else if text_eq(name, "Write") {
        let path = member_str(input, "file_path", "");
        let size: usize = match input {
            Some(x) => match x.get("content") {
                Some(c) => match c.as_str() {
                    Some(s) => s.as_bytes().len(),
                    None => 0,
                },
                None => 0,
            },
            None => 0,
        };
        let mut out = path.to_string();
        out.append(" (");
        let digits = decimal_text(size);
        out.append(digits.as_str());
        out.append(" chars)");
        out
    } else if text_eq(name, "Edit") {
        member_str(input, "file_path", "").to_string()
    } else if text_eq(name, "Grep") {
        let mut out = String::from_str("/");
        out.append(member_str(input, "pattern", ""));
        out.append("/ in ");
        out.append(member_str(input, "path", "."));
        out
    } else if text_eq(name, "Task") {
        member_str(input, "description", "").to_string()
    } else {
        let empty = Json::Object(Vec::new());
        let value = match input {
            Some(x) => x,
            None => &empty,
        };
        let whole = write_json(value);
        preview(whole.as_str(), 200)
    }
}

} // verus!
