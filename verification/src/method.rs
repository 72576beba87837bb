//! The HTTP methods an operation can be keyed by inside a path item.

use vstd::prelude::*;

use crate::location::str_eq;

verus! {

/// An HTTP request method.
#[derive(Debug, Clone, Copy, PartialEq, Eq, Structural)]
pub enum Method {
    Get,
    Put,
    Post,
    Delete,
    Options,
    Head,
    Patch,
    Trace,
}

/// The text was not a lower-case HTTP method name.
#[derive(Debug, Clone, Copy, PartialEq, Eq, Structural)]
pub struct MethodParseError;

/// What parsing a method text yields: the lower-case method names and
/// nothing else.
pub open spec fn parse_method(s: Seq<char>) -> Option<Method> {
    if s == seq!['g', 'e', 't'] {
        Some(Method::Get)
    } else if s == seq!['p', 'u', 't'] {
        Some(Method::Put)
    } else if s == seq!['p', 'o', 's', 't'] {
        Some(Method::Post)
    } else if s == seq!['d', 'e', 'l', 'e', 't', 'e'] {
        Some(Method::Delete)
    } else if s == seq!['o', 'p', 't', 'i', 'o', 'n', 's'] {
        Some(Method::Options)
    } else if s == seq!['h', 'e', 'a', 'd'] {
        Some(Method::Head)
    } else if s == seq!['p', 'a', 't', 'c', 'h'] {
        Some(Method::Patch)
    } else if s == seq!['t', 'r', 'a', 'c', 'e'] {
        Some(Method::Trace)
    } else {
        None
    }
}

impl Method {
    /// The text a method is written as.
    pub open spec fn text(self) -> Seq<char> {
        match self {
            Method::Get => seq!['g', 'e', 't'],
            Method::Put => seq!['p', 'u', 't'],
            Method::Post => seq!['p', 'o', 's', 't'],
            Method::Delete => seq!['d', 'e', 'l', 'e', 't', 'e'],
            Method::Options => seq!['o', 'p', 't', 'i', 'o', 'n', 's'],
            Method::Head => seq!['h', 'e', 'a', 'd'],
            Method::Patch => seq!['p', 'a', 't', 'c', 'h'],
            Method::Trace => seq!['t', 'r', 'a', 'c', 'e'],
        }
    }

    /// Reads a method from its text, exactly when the text is one of the
    /// lower-case method names.
    pub fn parse(value: &str) -> (r: Result<Method, MethodParseError>)
        ensures
            match parse_method(value@) {
                Some(m) => r == Ok::<Method, MethodParseError>(m),
                None => r == Err::<Method, MethodParseError>(MethodParseError),
            },
    {
        proof {
            reveal_strlit("get");
            reveal_strlit("put");
            reveal_strlit("post");
            reveal_strlit("delete");
            reveal_strlit("options");
            reveal_strlit("head");
            reveal_strlit("patch");
            reveal_strlit("trace");
            assert("get"@ =~= seq!['g', 'e', 't']);
            assert("put"@ =~= seq!['p', 'u', 't']);
            assert("post"@ =~= seq!['p', 'o', 's', 't']);
            assert("delete"@ =~= seq!['d', 'e', 'l', 'e', 't', 'e']);
            assert("options"@ =~= seq!['o', 'p', 't', 'i', 'o', 'n', 's']);
            assert("head"@ =~= seq!['h', 'e', 'a', 'd']);
            assert("patch"@ =~= seq!['p', 'a', 't', 'c', 'h']);
            assert("trace"@ =~= seq!['t', 'r', 'a', 'c', 'e']);
        }
        if str_eq(value, "get") {
            Ok(Method::Get)
        } else if str_eq(value, "put") {
            Ok(Method::Put)
        } else if str_eq(value, "post") {
            Ok(Method::Post)
        } else if str_eq(value, "delete") {
            Ok(Method::Delete)
        } else if str_eq(value, "options") {
            Ok(Method::Options)
        } else if str_eq(value, "head") {
            Ok(Method::Head)
        } else if str_eq(value, "patch") {
            Ok(Method::Patch)
        } else if str_eq(value, "trace") {
            Ok(Method::Trace)
        } else {
            Err(MethodParseError)
        }
    }

    /// Prints the method name.
    pub fn to_text(&self) -> (r: String)
        ensures
            r@ == self.text(),
    {
        let raw = match self {
            Method::Get => "get",
            Method::Put => "put",
            Method::Post => "post",
            Method::Delete => "delete",
            Method::Options => "options",
            Method::Head => "head",
            Method::Patch => "patch",
            Method::Trace => "trace",
        };
        let r = String::from_str(raw);
        proof {
            reveal_strlit("get");
            reveal_strlit("put");
            reveal_strlit("post");
            reveal_strlit("delete");
            reveal_strlit("options");
            reveal_strlit("head");
            reveal_strlit("patch");
            reveal_strlit("trace");
            assert(r@ =~= self.text());
        }
        r
    }
}

} // verus!
