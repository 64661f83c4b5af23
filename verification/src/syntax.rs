//! The shape of the contract-source expressions that storage inference reads,
//! and the decisions made on them: whether a receiver chain reaches contract
//! storage, which key an argument names, which method calls are storage
//! accesses, and which receivers look like contract clients.

use vstd::prelude::*;
use vstd::utf8::{decode_utf8, valid_utf8};

use crate::analysis::{AccessKind, AccessRecord, CallRecord, StaticKey, DYNAMIC_SEGMENT};
use crate::text::{decimal, decimal_string, same_text, texts};

verus! {

/// The member named by a field access: an identifier or a tuple index.
#[derive(Debug, Clone, PartialEq, Eq)]
pub enum Member {
    Named(String),
    Unnamed(u32),
}

/// An expression of contract source, as far as storage inference reads it.
#[derive(Debug, PartialEq, Eq)]
pub enum ExprNode {
    /// `&expr`
    Reference(Box<ExprNode>),
    /// `(expr)`
    Paren(Box<ExprNode>),
    /// An invisible group around an expression.
    Group(Box<ExprNode>),
    /// A string literal, by its value.
    Str(String),
    /// A byte-string literal, by its bytes.
    ByteStr(Vec<u8>),
    /// Any other literal.
    Lit,
    /// A path, by its segment identifiers.
    Path(Vec<String>),
    /// A call: the callee and the first argument, if any.
    Call { func: Box<ExprNode>, first_arg: Option<Box<ExprNode>> },
    /// A macro invocation: its path segments and its tokens read as an
    /// expression, when they form one.
    Macro { path: Vec<String>, body: Option<Box<ExprNode>> },
    /// A field access.
    Field { base: Box<ExprNode>, member: Member },
    /// A method call: the receiver and the method name.
    MethodCall { receiver: Box<ExprNode>, method: String },
    /// Any other expression.
    Other,
}

/// Every path in the expression has at least one segment, as every path of
/// parsed source does.
pub open spec fn paths_nonempty(e: ExprNode) -> bool
    decreases e,
{
    match e {
        ExprNode::Reference(inner) => paths_nonempty(*inner),
        ExprNode::Paren(inner) => paths_nonempty(*inner),
        ExprNode::Group(inner) => paths_nonempty(*inner),
        ExprNode::Path(segs) => segs@.len() > 0,
        ExprNode::Call { func, first_arg } => paths_nonempty(*func) && match first_arg {
            Some(a) => paths_nonempty(*a),
            None => true,
        },
        ExprNode::Macro { path, body } => match body {
            Some(b) => paths_nonempty(*b),
            None => true,
        },
        ExprNode::Field { base, .. } => paths_nonempty(*base),
        ExprNode::MethodCall { receiver, .. } => paths_nonempty(*receiver),
        _ => true,
    }
}

/// Whether a receiver chain references a `storage` object: a path with a
/// `storage` segment, a `storage` field, or a `storage` method call, through
/// calls, references, fields and method calls.
pub open spec fn storage_chain(e: ExprNode) -> bool
    decreases e,
{
    match e {
        ExprNode::Path(segs) => texts(segs@).contains("storage"@),
        ExprNode::Field { base, member } => (match member {
            Member::Named(n) => n@ == "storage"@,
            Member::Unnamed(_) => false,
        }) || storage_chain(*base),
        ExprNode::MethodCall { receiver, method } => method@ == "storage"@ || storage_chain(*receiver),
        ExprNode::Call { func, .. } => storage_chain(*func),
        ExprNode::Reference(inner) => storage_chain(*inner),
        _ => false,
    }
}

/// Whether any of `segs` is `name`.
fn has_segment(segs: &Vec<String>, name: &str) -> (r: bool)
    ensures
        r == texts(segs@).contains(name@),
{
    let mut i: usize = 0;
    while i < segs.len()
        invariant
            i <= segs.len(),
            forall|j: int| 0 <= j < i ==> segs@[j]@ != name@,
        decreases segs.len() - i,
    {
        if same_text(segs[i].as_str(), name) {
            assert(texts(segs@)[i as int] == name@);
            return true;
        }
        i = i + 1;
    }
    assert forall|j: int| 0 <= j < texts(segs@).len() implies texts(segs@)[j] != name@ by {
        assert(texts(segs@)[j] == segs@[j]@);
    }
    false
}

/// Walks a method-call receiver chain and checks whether it references a
/// `storage` object (e.g. `env.storage().instance()`).
pub fn is_storage_chain(e: &ExprNode) -> (r: bool)
    ensures
        r == storage_chain(*e),
    decreases e,
{
    match e {
        ExprNode::Path(segs) => has_segment(segs, "storage"),
        ExprNode::Field { base, member } => {
            let named = match member {
                Member::Named(n) => same_text(n.as_str(), "storage"),
                Member::Unnamed(_) => false,
            };
            named || is_storage_chain(&**base)
        },
        ExprNode::MethodCall { receiver, method } => same_text(method.as_str(), "storage") || is_storage_chain(&**receiver),
        ExprNode::Call { func, .. } => is_storage_chain(&**func),
        ExprNode::Reference(inner) => is_storage_chain(&**inner),
        _ => false,
    }
}

/// The text `String::from_utf8_lossy` decodes from `bytes`.
pub uninterp spec fn utf8_lossy(bytes: Seq<u8>) -> Seq<char>;

/// Decodes bytes as UTF-8 with `String::from_utf8_lossy` (std), which
/// replaces each invalid sequence by U+FFFD. The contract names the result by
/// `utf8_lossy` of the bytes, and states what std documents of valid UTF-8:
/// the text is then the bytes' decoding. What the replacement gives on
/// invalid input is not stated.
#[verifier::external_body]
fn decode_lossy(bytes: &[u8]) -> (r: String)
    ensures
        r@ == utf8_lossy(bytes@),
        valid_utf8(bytes@) ==> r@ == decode_utf8(bytes@),
{
    String::from_utf8_lossy(bytes).into_owned()
}

/// The key of an expression that cannot be resolved statically.
pub open spec fn dynamic_key() -> Seq<Seq<char>> {
    seq![DYNAMIC_SEGMENT@]
}

/// Whether `e` is a path whose last segment is `new`: a constructor such as
/// `Symbol::new`.
pub open spec fn is_constructor(e: ExprNode) -> bool {
    match e {
        ExprNode::Path(segs) => segs@.len() > 0 && segs@.last()@ == "new"@,
        _ => false,
    }
}

/// Whether a macro path ends in `symbol_short` or `symbol_long`.
pub open spec fn is_symbol_macro(path: Seq<String>) -> bool {
    path.len() > 0 && (path.last()@ == "symbol_short"@ || path.last()@ == "symbol_long"@)
}

/// The static key named by an expression: string and byte-string literals,
/// the last segment of a multi-segment path, the argument of a `new`
/// constructor or of a `symbol_short!`/`symbol_long!` macro, through
/// parentheses and groups; one leading reference is looked through.
/// Anything else is dynamic.
pub open spec fn key_of_node(e: ExprNode, may_strip: bool) -> Seq<Seq<char>>
    decreases e,
{
    match e {
        ExprNode::Reference(inner) => if may_strip {
            key_of_node(*inner, false)
        } else {
            dynamic_key()
        },
        ExprNode::Paren(inner) => key_of_node(*inner, true),
        ExprNode::Group(inner) => key_of_node(*inner, true),
        ExprNode::Str(s) => seq![s@],
        ExprNode::ByteStr(b) => seq![utf8_lossy(b@)],
        ExprNode::Path(segs) => if segs@.len() > 1 {
            seq![segs@.last()@]
        } else {
            dynamic_key()
        },
        ExprNode::Call { func, first_arg } => if is_constructor(*func) {
            match first_arg {
                Some(a) => key_of_node(*a, true),
                None => dynamic_key(),
            }
        } else {
            dynamic_key()
        },
        ExprNode::Macro { path, body } => if is_symbol_macro(path@) {
            match body {
                Some(b) => key_of_node(*b, true),
                None => dynamic_key(),
            }
        } else {
            dynamic_key()
        },
        _ => dynamic_key(),
    }
}

/// The static key named by a storage call's first argument (dynamic when
/// there is none).
pub open spec fn key_of(arg: Option<ExprNode>) -> Seq<Seq<char>> {
    match arg {
        Some(e) => key_of_node(e, true),
        None => dynamic_key(),
    }
}

/// Whether the path's last segment is `new`.
fn ends_with_new(segs: &Vec<String>) -> (r: bool)
    ensures
        r == (segs@.len() > 0 && segs@.last()@ == "new"@),
{
    if segs.len() == 0 {
        false
    } else {
        same_text(segs[segs.len() - 1].as_str(), "new")
    }
}

fn key_from_node(e: &ExprNode, may_strip: bool) -> (r: StaticKey)
    ensures
        r@ == key_of_node(*e, may_strip),
    decreases e,
{
    match e {
        ExprNode::Reference(inner) => if may_strip {
            key_from_node(&**inner, false)
        } else {
            StaticKey::dynamic()
        },
        ExprNode::Paren(inner) => key_from_node(&**inner, true),
        ExprNode::Group(inner) => key_from_node(&**inner, true),
        ExprNode::Str(s) => StaticKey::from_segment(s.clone()),
        ExprNode::ByteStr(b) => StaticKey::from_segment(decode_lossy(b.as_slice())),
        ExprNode::Path(segs) => if segs.len() > 1 {
            StaticKey::from_segment(segs[segs.len() - 1].clone())
        } else {
            StaticKey::dynamic()
        },
        ExprNode::Call { func, first_arg } => {
            let ctor = match &**func {
                ExprNode::Path(segs) => ends_with_new(segs),
                _ => false,
            };
            if ctor {
                match first_arg {
                    Some(a) => key_from_node(&**a, true),
                    None => StaticKey::dynamic(),
                }
            } else {
                StaticKey::dynamic()
            }
        },
        ExprNode::Macro { path, body } => {
            let symbol = if path.len() == 0 {
                false
            } else {
                let last = path[path.len() - 1].as_str();
                same_text(last, "symbol_short") || same_text(last, "symbol_long")
            };
            if symbol {
                match body {
                    Some(b) => key_from_node(&**b, true),
                    None => StaticKey::dynamic(),
                }
            } else {
                StaticKey::dynamic()
            }
        },
        _ => StaticKey::dynamic(),
    }
}

/// Extracts a best-effort static representation of a storage key
/// expression.
pub fn extract_key(arg: Option<&ExprNode>) -> (r: StaticKey)
    ensures
        r@ == key_of(match arg {
            Some(e) => Some(*e),
            None => None,
        }),
{
    match arg {
        Some(e) => key_from_node(e, true),
        None => StaticKey::dynamic(),
    }
}

/// The display name of a receiver that looks like a contract client: the
/// first segment of a path other than a bare `env`, or a field's member,
/// through references, parentheses, groups, calls and method calls; none for
/// storage chains and anything else.
pub open spec fn receiver_of(e: ExprNode) -> Option<Seq<char>>
    decreases e,
{
    if storage_chain(e) {
        None
    } else {
        match e {
            ExprNode::Reference(inner) => receiver_of(*inner),
            ExprNode::Paren(inner) => receiver_of(*inner),
            ExprNode::Group(inner) => receiver_of(*inner),
            ExprNode::Path(segs) => if segs@.len() == 1 && segs@[0]@ == "env"@ {
                None
            } else {
                Some(segs@[0]@)
            },
            ExprNode::Field { member, .. } => Some(
                match member {
                    Member::Named(n) => n@,
                    Member::Unnamed(i) => decimal(i as nat),
                },
            ),
            ExprNode::Call { func, .. } => receiver_of(*func),
            ExprNode::MethodCall { receiver, .. } => receiver_of(*receiver),
            _ => None,
        }
    }
}

/// Returns a display name for a receiver that looks like a contract client
/// (e.g. `client.increment(...)`, `self.helper(...)`), or `None` for
/// receivers that are not client candidates (storage chains, `env`, ...).
pub fn call_receiver(e: &ExprNode) -> (r: Option<String>)
    requires
        paths_nonempty(*e),
    ensures
        match r {
            Some(s) => receiver_of(*e) == Some(s@),
            None => receiver_of(*e).is_none(),
        },
    decreases e,
{
    if is_storage_chain(e) {
        return None;
    }
    match e {
        ExprNode::Reference(inner) => call_receiver(&**inner),
        ExprNode::Paren(inner) => call_receiver(&**inner),
        ExprNode::Group(inner) => call_receiver(&**inner),
        ExprNode::Path(segs) => {
            if segs.len() == 1 && same_text(segs[0].as_str(), "env") {
                None
            } else {
                Some(segs[0].clone())
            }
        },
        ExprNode::Field { member, .. } => match member {
            Member::Named(n) => Some(n.clone()),
            Member::Unnamed(i) => Some(decimal_string(*i as u64)),
        },
        ExprNode::Call { func, .. } => call_receiver(&**func),
        ExprNode::MethodCall { receiver, .. } => call_receiver(&**receiver),
        _ => None,
    }
}

/// The access kind of a storage method: `get` and `has` read; `put`, `set`,
/// `remove` and `del` write.
pub open spec fn access_kind_of(method: Seq<char>) -> Option<AccessKind> {
    if method == "get"@ || method == "has"@ {
        Some(AccessKind::Read)
    } else if method == "put"@ || method == "set"@ || method == "remove"@ || method == "del"@ {
        Some(AccessKind::Write)
    } else {
        None
    }
}

/// Classifies a storage method as a read or a write.
pub fn classify(method: &str) -> (r: Option<AccessKind>)
    ensures
        r == access_kind_of(method@),
{
    if same_text(method, "get") || same_text(method, "has") {
        Some(AccessKind::Read)
    } else if same_text(method, "put") || same_text(method, "set") || same_text(method, "remove") || same_text(method, "del") {
        Some(AccessKind::Write)
    } else {
        None
    }
}

/// The access and call records of a function body, in source order.
#[derive(Debug, Clone, PartialEq, Eq)]
pub struct BodyRecords {
    pub accesses: Vec<AccessRecord>,
    pub calls: Vec<CallRecord>,
}

impl BodyRecords {
    /// No records yet.
    pub fn new() -> (r: Self)
        ensures
            r.accesses@.len() == 0,
            r.calls@.len() == 0,
    {
        BodyRecords { accesses: Vec::new(), calls: Vec::new() }
    }

    /// Records one method call `receiver.method(first_arg, ..)` seen inside
    /// `function` (none outside any function), `in_loop` when inside a loop
    /// body. A storage read or write on a storage chain adds an access; a
    /// receiver that looks like a contract client adds a call.
    pub fn record_method_call(
        &mut self,
        function: Option<&str>,
        in_loop: bool,
        method: &str,
        receiver: &ExprNode,
        first_arg: Option<&ExprNode>,
    )
        requires
            paths_nonempty(*receiver),
        ensures
            final(self).accesses@ == if function.is_some() && access_kind_of(method@).is_some() && storage_chain(*receiver) {
                old(self).accesses@.push(final(self).accesses@.last())
            } else {
                old(self).accesses@
            },
            function.is_some() && access_kind_of(method@).is_some() && storage_chain(*receiver) ==> {
                let a = final(self).accesses@.last();
                &&& a.function@ == function.unwrap()@
                &&& Some(a.kind) == access_kind_of(method@)
                &&& a.key@ == key_of(
                    match first_arg {
                        Some(e) => Some(*e),
                        None => None,
                    },
                )
                &&& a.method@ == method@
                &&& a.in_loop == in_loop
            },
            final(self).calls@ == if function.is_some() && receiver_of(*receiver).is_some() {
                old(self).calls@.push(final(self).calls@.last())
            } else {
                old(self).calls@
            },
            function.is_some() && receiver_of(*receiver).is_some() ==> {
                let c = final(self).calls@.last();
                &&& c.function@ == function.unwrap()@
                &&& c.method@ == method@
                &&& Some(c.receiver@) == receiver_of(*receiver)
                &&& c.in_loop == in_loop
            },
    {
        match classify(method) {
            Some(kind) => {
                if is_storage_chain(receiver) {
                    match function {
                        Some(f) => {
                            let key = extract_key(first_arg);
                            self.accesses.push(
                                AccessRecord {
                                    function: String::from_str(f),
                                    kind,
                                    key,
                                    method: String::from_str(method),
                                    in_loop,
                                },
                            );
                        },
                        None => {},
                    }
                }
            },
            None => {},
        }
        match call_receiver(receiver) {
            Some(name) => match function {
                Some(f) => {
                    self.calls.push(
                        CallRecord {
                            function: String::from_str(f),
                            method: String::from_str(method),
                            receiver: name,
                            in_loop,
                        },
                    );
                },
                None => {},
            },
            None => {},
        }
    }
}

} // verus!
