//! The protocol: messages, tool arguments and replies.

use crate::text;
use vstd::prelude::*;

pub mod catalog;
pub mod files;
pub mod knowledge;
pub mod lookup;

verus! {

// ---------------------------------------------------------------------------
// Messages
// ---------------------------------------------------------------------------

/// The version of the protocol.
pub const MCP_PROTOCOL_VERSION: &'static str = "2024-11-05";

/// The code for input that is not a message.
pub const PARSE_ERROR: i32 = -32700;

/// The code for a failure of the server itself.
pub const INTERNAL_ERROR: i32 = -32603;

/// What a message asks for.
#[derive(Clone, Copy, PartialEq, Eq, Structural, Debug)]
pub enum Route {
    /// The input is not a message.
    ParseError,
    /// A notification, which is not answered.
    Notification,
    Initialize,
    ToolsList,
    ToolsCall,
    Ping,
    /// A method that is not known.
    UnknownMethod,
}

/// What a message with a method asks for.
pub open spec fn method_route(method: Seq<char>) -> Route {
    if method == "initialize"@ {
        Route::Initialize
    } else if method == "tools/list"@ {
        Route::ToolsList
    } else if method == "tools/call"@ {
        Route::ToolsCall
    } else if method == "ping"@ {
        Route::Ping
    } else {
        Route::UnknownMethod
    }
}

/// Decides what to do with a message. `method` is missing where the input could not be read.
pub fn route_message(method: Option<&str>, has_id: bool) -> (r: Route)
    ensures
        r == (match method {
            None => Route::ParseError,
            Some(m) => if has_id {
                method_route(m@)
            } else {
                Route::Notification
            },
        }),
{
    match method {
        None => Route::ParseError,
        Some(m) => {
            if !has_id {
                Route::Notification
            } else if text::str_eq(m, "initialize") {
                Route::Initialize
            } else if text::str_eq(m, "tools/list") {
                Route::ToolsList
            } else if text::str_eq(m, "tools/call") {
                Route::ToolsCall
            } else if text::str_eq(m, "ping") {
                Route::Ping
            } else {
                Route::UnknownMethod
            }
        },
    }
}

/// Whether a message is answered: a notification is not, whatever its method, and everything
/// else is.
pub fn is_answered(route: Route) -> (r: bool)
    ensures
        r == (route != Route::Notification),
{
    route != Route::Notification
}

// ---------------------------------------------------------------------------
// Arguments
// ---------------------------------------------------------------------------

/// The value of an argument. Items of a list that are not texts are left empty.
pub enum ArgValue {
    Text(String),
    Flag(bool),
    Number(u64),
    List(Vec<Option<String>>),
    Other,
}

/// A named argument.
pub struct Arg {
    pub name: String,
    pub value: ArgValue,
}

/// The arguments of a call.
pub struct Args {
    pub items: Vec<Arg>,
}

/// The first argument with a name, from place `i` on.
pub open spec fn find_arg(items: Seq<Arg>, name: Seq<char>, i: int) -> Option<ArgValue>
    decreases items.len() - i,
{
    if i >= items.len() {
        None
    } else if items[i].name@ == name {
        Some(items[i].value)
    } else {
        find_arg(items, name, i + 1)
    }
}

/// The texts of a list, without its other items.
pub open spec fn texts_in(items: Seq<Option<String>>, n: nat) -> Seq<Seq<char>>
    decreases n,
{
    if n == 0 {
        Seq::empty()
    } else {
        match items[n - 1] {
            Some(t) => texts_in(items, (n - 1) as nat).push(t@),
            None => texts_in(items, (n - 1) as nat),
        }
    }
}

impl Args {
    /// The value of an argument.
    pub open spec fn value(self, name: Seq<char>) -> Option<ArgValue> {
        find_arg(self.items@, name, 0)
    }

    /// The text of an argument, if it is one.
    pub open spec fn text(self, name: Seq<char>) -> Option<Seq<char>> {
        match self.value(name) {
            Some(ArgValue::Text(t)) => Some(t@),
            _ => None,
        }
    }

    /// The flag of an argument, if it is one.
    pub open spec fn flag(self, name: Seq<char>) -> Option<bool> {
        match self.value(name) {
            Some(ArgValue::Flag(b)) => Some(b),
            _ => None,
        }
    }

    /// The number of an argument, if it is one.
    pub open spec fn number(self, name: Seq<char>) -> Option<u64> {
        match self.value(name) {
            Some(ArgValue::Number(n)) => Some(n),
            _ => None,
        }
    }

    /// The texts of an argument that is a list, none where it is not.
    pub open spec fn texts(self, name: Seq<char>) -> Seq<Seq<char>> {
        match self.value(name) {
            Some(ArgValue::List(v)) => texts_in(v@, v@.len()),
            _ => Seq::empty(),
        }
    }

    fn get(&self, name: &str) -> (r: Option<&ArgValue>)
        ensures
            r is Some <==> self.value(name@) is Some,
            r matches Some(v) ==> self.value(name@) == Some(*v),
    {
        let mut i: usize = 0;
        while i < self.items.len()
            invariant
                i <= self.items@.len(),
                find_arg(self.items@, name@, 0) == find_arg(self.items@, name@, i as int),
            decreases self.items@.len() - i,
        {
            if text::str_eq(self.items[i].name.as_str(), name) {
                return Some(&self.items[i].value);
            }
            i += 1;
        }
        None
    }

    /// Reads a text.
    pub fn get_text(&self, name: &str) -> (r: Option<String>)
        ensures
            r is Some <==> self.text(name@) is Some,
            r matches Some(t) ==> self.text(name@) == Some(t@),
    {
        match self.get(name) {
            Some(ArgValue::Text(t)) => Some(t.clone()),
            _ => None,
        }
    }

    /// Reads a flag.
    pub fn get_flag(&self, name: &str) -> (r: Option<bool>)
        ensures
            r == self.flag(name@),
    {
        match self.get(name) {
            Some(ArgValue::Flag(b)) => Some(*b),
            _ => None,
        }
    }

    /// Reads a number.
    pub fn get_number(&self, name: &str) -> (r: Option<u64>)
        ensures
            r == self.number(name@),
    {
        match self.get(name) {
            Some(ArgValue::Number(n)) => Some(*n),
            _ => None,
        }
    }

    /// Reads the texts of a list.
    pub fn get_texts(&self, name: &str) -> (r: Vec<String>)
        ensures
            text::views(r@) == self.texts(name@),
    {
        let mut r: Vec<String> = Vec::new();
        assert(text::views(r@) =~= Seq::<Seq<char>>::empty());
        match self.get(name) {
            Some(ArgValue::List(v)) => {
                let mut i: usize = 0;
                while i < v.len()
                    invariant
                        i <= v@.len(),
                        text::views(r@) == texts_in(v@, i as nat),
                    decreases v@.len() - i,
                {
                    if let Some(t) = &v[i] {
                        let ghost before = r@;
                        r.push(t.clone());
                        proof {
                            text::lemma_views_push(before, r@.last());
                        }
                    }
                    i += 1;
                }
            },
            _ => {},
        }
        r
    }

    /// Reads a text that has to be there.
    pub fn required(&self, name: &str) -> (r: Result<String, String>)
        ensures
            match self.text(name@) {
                Some(t) => r matches Ok(s) && s@ == t,
                None => r matches Err(e) && e@ == missing_text(name@),
            },
    {
        match self.get_text(name) {
            Some(t) => Ok(t),
            None => {
                let mut e = text::copy("Missing required field: ");
                e.append(name);
                Err(e)
            },
        }
    }
}

/// The message for a required argument that is missing.
pub open spec fn missing_text(name: Seq<char>) -> Seq<char> {
    "Missing required field: "@ + name
}

/// The first of some names that has no text, from place `i` on.
pub open spec fn first_missing(args: Args, names: Seq<Seq<char>>, i: int) -> Option<Seq<char>>
    decreases names.len() - i,
{
    if i >= names.len() {
        None
    } else if args.text(names[i]) is None {
        Some(names[i])
    } else {
        first_missing(args, names, i + 1)
    }
}

/// Two required texts, or the message for the first that is missing.
pub fn required_pair(args: &Args, first: &str, second: &str) -> (r: Result<(String, String), String>)
    ensures
        match first_missing(*args, seq![first@, second@], 0) {
            Some(n) => r matches Err(e) && e@ == missing_text(n),
            None => r matches Ok(p) && args.text(first@) == Some(p.0@) && args.text(second@)
                == Some(p.1@),
        },
{
    proof {
        reveal_with_fuel(first_missing, 3);
    }
    match args.required(first) {
        Err(e) => Err(e),
        Ok(a) => match args.required(second) {
            Err(e) => Err(e),
            Ok(b) => Ok((a, b)),
        },
    }
}

/// Three required texts, or the message for the first that is missing.
pub fn required_triple(args: &Args, first: &str, second: &str, third: &str) -> (r: Result<
    (String, String, String),
    String,
>)
    ensures
        match first_missing(*args, seq![first@, second@, third@], 0) {
            Some(n) => r matches Err(e) && e@ == missing_text(n),
            None => r matches Ok(p) && args.text(first@) == Some(p.0@) && args.text(second@)
                == Some(p.1@) && args.text(third@) == Some(p.2@),
        },
{
    proof {
        reveal_with_fuel(first_missing, 4);
    }
    match args.required(first) {
        Err(e) => Err(e),
        Ok(a) => match args.required(second) {
            Err(e) => Err(e),
            Ok(b) => match args.required(third) {
                Err(e) => Err(e),
                Ok(c) => Ok((a, b, c)),
            },
        },
    }
}

// ---------------------------------------------------------------------------
// Replies
// ---------------------------------------------------------------------------

/// The reply to a tool call.
pub struct Reply {
    pub text: String,
    pub is_error: bool,
}

impl Reply {
    /// Whether a reply is a text.
    pub open spec fn tells(self, t: Seq<char>) -> bool {
        !self.is_error && self.text@ == t
    }

    /// Whether a reply is an error.
    pub open spec fn fails(self, t: Seq<char>) -> bool {
        self.is_error && self.text@ == t
    }
}

/// A reply that is a text.
pub fn text_content(text: String) -> (r: Reply)
    ensures
        r.tells(text@),
{
    Reply { text, is_error: false }
}

/// A reply that is an error.
pub fn error_content(text: String) -> (r: Reply)
    ensures
        r.fails(text@),
{
    Reply { text, is_error: true }
}

/// An error with a cause.
pub fn error_because(what: &str, cause: &str) -> (r: Reply)
    ensures
        r.fails(what@ + cause@),
{
    let mut t = text::copy(what);
    t.append(cause);
    error_content(t)
}

// ---------------------------------------------------------------------------
// Laws
// ---------------------------------------------------------------------------

/// Each method asks for its own thing, and every other method is unknown.
pub proof fn law_methods_have_their_routes(method: Seq<char>)
    ensures
        method_route(method) == Route::Initialize <==> method == "initialize"@,
        method_route(method) == Route::ToolsList <==> method == "tools/list"@,
        method_route(method) == Route::ToolsCall <==> method == "tools/call"@,
        method_route(method) == Route::Ping <==> method == "ping"@,
        method_route(method) != Route::ParseError,
        method_route(method) != Route::Notification,
{
    reveal_strlit("initialize");
    reveal_strlit("tools/list");
    reveal_strlit("tools/call");
    reveal_strlit("ping");
    assert("initialize"@[0] != "tools/list"@[0]);
    assert("initialize"@[0] != "tools/call"@[0]);
    assert("tools/list"@[6] != "tools/call"@[6]);
    assert("ping"@.len() == 4);
}

/// Of several arguments with a name, the first counts, whatever its kind.
pub proof fn law_the_first_argument_with_a_name_counts(args: Args, name: Seq<char>, i: int)
    requires
        0 <= i < args.items@.len(),
        args.items@[i].name@ == name,
        forall|j: int| 0 <= j < i ==> (#[trigger] args.items@[j]).name@ != name,
    ensures
        args.value(name) == Some(args.items@[i].value),
        args.text(name) is Some <==> args.items@[i].value is Text,
        args.items@[i].value matches ArgValue::Text(t) ==> args.text(name) == Some(t@),
        args.items@[i].value matches ArgValue::Flag(b) ==> args.flag(name) == Some(b),
        args.items@[i].value matches ArgValue::Number(n) ==> args.number(name) == Some(n),
        !(args.items@[i].value is Flag) ==> args.flag(name) is None,
        !(args.items@[i].value is Number) ==> args.number(name) is None,
        !(args.items@[i].value is List) ==> args.texts(name).len() == 0,
{
    lemma_find_arg_at(args.items@, name, 0, i);
}

/// An argument that is not there has no value.
pub proof fn law_missing_arguments_have_no_value(args: Args, name: Seq<char>)
    requires
        forall|j: int| 0 <= j < args.items@.len() ==> (#[trigger] args.items@[j]).name@ != name,
    ensures
        args.value(name) is None,
        args.text(name) is None,
        args.flag(name) is None,
        args.number(name) is None,
        args.texts(name).len() == 0,
{
    lemma_find_arg_at(args.items@, name, 0, args.items@.len() as int);
}

proof fn lemma_find_arg_at(items: Seq<Arg>, name: Seq<char>, k: int, i: int)
    requires
        0 <= k <= i <= items.len(),
        i < items.len() ==> items[i].name@ == name,
        forall|j: int| k <= j < i ==> (#[trigger] items[j]).name@ != name,
    ensures
        find_arg(items, name, k) == (if i < items.len() {
            Some(items[i].value)
        } else {
            None
        }),
    decreases i - k,
{
    if k < i {
        lemma_find_arg_at(items, name, k + 1, i);
    }
}

/// The texts of a list are its items that are texts, in order.
pub proof fn law_the_texts_of_a_list_are_kept_in_order(items: Seq<Option<String>>)
    ensures
        texts_in(items, items.len()) == items.filter(|t: Option<String>| t is Some).map_values(
            |t: Option<String>| t->0@,
        ),
{
    lemma_texts_in(items, items.len());
    assert(items.take(items.len() as int) =~= items);
}

proof fn lemma_texts_in(items: Seq<Option<String>>, n: nat)
    requires
        n <= items.len(),
    ensures
        texts_in(items, n) == items.take(n as int).filter(
            |t: Option<String>| t is Some,
        ).map_values(|t: Option<String>| t->0@),
    decreases n,
{
    reveal(Seq::filter);
    let is_text = |t: Option<String>| t is Some;
    let held = |t: Option<String>| t->0@;
    let front = items.take(n as int);
    if n > 0 {
        lemma_texts_in(items, (n - 1) as nat);
        assert(front.drop_last() =~= items.take(n - 1));
        assert(front.last() == items[n - 1]);
        let before = front.drop_last().filter(is_text);
        if items[n - 1] is Some {
            assert(before.push(items[n - 1]).map_values(held) =~= before.map_values(held).push(
                items[n - 1]->0@,
            ));
        }
    }
    assert(texts_in(items, n) =~= front.filter(is_text).map_values(held));
}

/// Of several required arguments, the first that has no text is reported; none where all have one.
pub proof fn law_the_first_missing_argument_is_reported(
    args: Args,
    names: Seq<Seq<char>>,
    i: int,
)
    requires
        0 <= i <= names.len(),
        i < names.len() ==> args.text(names[i]) is None,
        forall|j: int| 0 <= j < i ==> args.text(#[trigger] names[j]) is Some,
    ensures
        i < names.len() ==> first_missing(args, names, 0) == Some(names[i]),
        i == names.len() ==> first_missing(args, names, 0) is None,
{
    lemma_first_missing_at(args, names, 0, i);
}

proof fn lemma_first_missing_at(args: Args, names: Seq<Seq<char>>, k: int, i: int)
    requires
        0 <= k <= i <= names.len(),
        i < names.len() ==> args.text(names[i]) is None,
        forall|j: int| k <= j < i ==> args.text(#[trigger] names[j]) is Some,
    ensures
        first_missing(args, names, k) == (if i < names.len() {
            Some(names[i])
        } else {
            None
        }),
    decreases i - k,
{
    if k < i {
        assert(args.text(names[k]) is Some);
        lemma_first_missing_at(args, names, k + 1, i);
    }
}

/// The codes of errors, and the version, are those of the protocol.
pub proof fn law_the_protocol_has_its_codes()
    ensures
        PARSE_ERROR == -32700,
        INTERNAL_ERROR == -32603,
        MCP_PROTOCOL_VERSION@ == "2024-11-05"@,
{
}

/// A reply is either a text or an error, and holds one text.
pub proof fn law_a_reply_tells_or_fails(reply: Reply, t: Seq<char>)
    ensures
        reply.tells(t) <==> !reply.is_error && reply.text@ == t,
        !(reply.tells(t) && reply.fails(t)),
        reply.tells(reply.text@) || reply.fails(reply.text@),
{
}

} // verus!
