//! The decisions behind exposing a value and calling it from the other side:
//! what an incoming event is, what an exposed object does for each request,
//! how a proxy's path grows, and what is said when a request fails.
use crate::origin::{admits, is_allowed_origin, refuses, Origin};
use crate::protocol::{Envelope, MessageType};
use crate::thrown::{is_error_with, stack_text, Thrown};
use crate::value::path_keys;
use vstd::prelude::*;
use vstd::string::StringExecFns;

verus! {

// ------------------------------------------------------------------------- //
// Paths in messages                                                          //
// ------------------------------------------------------------------------- //

/// The keys of a path joined with dots, as `path.join(".")`.
pub open spec fn dotted(keys: Seq<Seq<char>>) -> Seq<char>
    decreases keys.len(),
{
    if keys.len() == 0 {
        Seq::empty()
    } else if keys.len() == 1 {
        keys[0]
    } else {
        dotted(keys.drop_last()) + "."@ + keys.last()
    }
}

/// The path joined with dots.
pub fn join_path(path: &[String]) -> (r: String)
    ensures
        r@ == dotted(path_keys(path@)),
{
    let ghost keys = path_keys(path@);
    let mut out = String::new();
    let mut i: usize = 0;
    while i < path.len()
        invariant
            i <= path@.len(),
            keys == path_keys(path@),
            out@ == dotted(keys.take(i as int)),
        decreases path.len() - i,
    {
        assert(keys.take(i + 1).drop_last() =~= keys.take(i as int));
        assert(keys.take(i + 1).last() == path@[i as int]@);
        if i > 0 {
            out.append(".");
        } else {
            assert(keys.take(1).len() == 1);
        }
        out.append(path[i].as_str());
        i = i + 1;
    }
    assert(keys.take(path@.len() as int) =~= keys);
    out
}

/// The path a proxy reaches after one more property.
pub fn extend_path(path: &Vec<String>, prop: &str) -> (r: Vec<String>)
    ensures
        path_keys(r@) == path_keys(path@).push(prop@),
{
    let mut out: Vec<String> = Vec::new();
    let mut i: usize = 0;
    while i < path.len()
        invariant
            i <= path@.len(),
            out@.len() == i,
            forall|j: int| 0 <= j < i ==> #[trigger] out@[j]@ == path@[j]@,
        decreases path.len() - i,
    {
        out.push(path[i].clone());
        i = i + 1;
    }
    out.push(prop.to_owned());
    assert(path_keys(out@) =~= path_keys(path@).push(prop@));
    out
}

/// A proxy ignores a trailing `bind`: calling `f.bind` is calling `f`. The
/// path without it, when the path ends in `bind`.
pub fn unbound_path(path: &Vec<String>) -> (r: Option<Vec<String>>)
    ensures
        match r {
            Some(p) => path@.len() > 0 && path@.last()@ == "bind"@ && path_keys(p@) == path_keys(
                path@,
            ).drop_last(),
            None => path@.len() == 0 || path@.last()@ != "bind"@,
        },
{
    if path.len() == 0 {
        return None;
    }
    let last = path.len() - 1;
    let a = path[last].as_str().as_bytes();
    let b = "bind".as_bytes();
    if crate::value::compare_bytes(a, b) != 0 {
        proof {
            if path@.last()@ == "bind"@ {
                assert(a@ == b@);
            }
        }
        return None;
    }
    proof {
        crate::value::lemma_key_bytes_injective(path@[last as int]@, "bind"@);
    }
    let mut out: Vec<String> = Vec::new();
    let mut i: usize = 0;
    while i < last
        invariant
            i <= last,
            last == path@.len() - 1,
            out@.len() == i,
            forall|j: int| 0 <= j < i ==> #[trigger] out@[j]@ == path@[j]@,
        decreases last - i,
    {
        out.push(path[i].clone());
        i = i + 1;
    }
    assert(path_keys(out@) =~= path_keys(path@).drop_last());
    Some(out)
}

// ------------------------------------------------------------------------- //
// What is said when a request fails                                          //
// ------------------------------------------------------------------------- //

/// `"<path> is not a function"`, as a `TypeError`.
pub fn not_a_function(path: &[String]) -> (r: Thrown)
    ensures
        is_error_with(
            r,
            "TypeError"@,
            dotted(path_keys(path@)) + " is not a function"@,
            stack_text("TypeError"@, dotted(path_keys(path@)) + " is not a function"@),
        ),
{
    let mut m = join_path(path);
    m.append(" is not a function");
    Thrown::type_error(m.as_str())
}

/// `"<path> is not a constructor"`, as a `TypeError`.
pub fn not_a_constructor(path: &[String]) -> (r: Thrown)
    ensures
        is_error_with(
            r,
            "TypeError"@,
            dotted(path_keys(path@)) + " is not a constructor"@,
            stack_text("TypeError"@, dotted(path_keys(path@)) + " is not a constructor"@),
        ),
{
    let mut m = join_path(path);
    m.append(" is not a constructor");
    Thrown::type_error(m.as_str())
}

/// `"cannot set <path>"`, as a `TypeError`.
pub fn cannot_set(path: &[String]) -> (r: Thrown)
    ensures
        is_error_with(
            r,
            "TypeError"@,
            "cannot set "@ + dotted(path_keys(path@)),
            stack_text("TypeError"@, "cannot set "@ + dotted(path_keys(path@))),
        ),
{
    let mut m = String::from_str("cannot set ");
    let joined = join_path(path);
    m.append(joined.as_str());
    Thrown::type_error(m.as_str())
}

/// What assigning to an exposed object itself answers.
pub fn assign_root_error() -> (r: Thrown)
    ensures
        is_error_with(
            r,
            "TypeError"@,
            "cannot assign to the root object"@,
            stack_text("TypeError"@, "cannot assign to the root object"@),
        ),
{
    Thrown::type_error("cannot assign to the root object")
}

/// What calling an exposed object that is no function answers.
pub fn root_not_a_function() -> (r: Thrown)
    ensures
        is_error_with(
            r,
            "TypeError"@,
            "the exposed object is not a function"@,
            stack_text("TypeError"@, "the exposed object is not a function"@),
        ),
{
    Thrown::type_error("the exposed object is not a function")
}

/// What constructing an exposed object that is no constructor answers.
pub fn root_not_a_constructor() -> (r: Thrown)
    ensures
        is_error_with(
            r,
            "TypeError"@,
            "the exposed object is not a constructor"@,
            stack_text("TypeError"@, "the exposed object is not a constructor"@),
        ),
{
    Thrown::type_error("the exposed object is not a constructor")
}

/// What a released proxy answers every request with.
pub fn released_error() -> (r: Thrown)
    ensures
        is_error_with(
            r,
            "Error"@,
            "Proxy has been released and is not useable"@,
            stack_text("Error"@, "Proxy has been released and is not useable"@),
        ),
{
    Thrown::error("Proxy has been released and is not useable")
}

/// What a function or class property answers when it is read: it cannot be
/// cloned onto the other side.
pub fn unserializable_error() -> (r: Thrown)
    ensures
        is_error_with(
            r,
            "TypeError"@,
            "Unserializable return value"@,
            stack_text("TypeError"@, "Unserializable return value"@),
        ),
{
    Thrown::type_error("Unserializable return value")
}

/// What a value sent under a handler name that is not registered here turns
/// into: `"no transfer handler registered under '<name>'"`, as a `TypeError`.
pub fn unknown_handler_error(name: &str) -> (r: Thrown)
    ensures
        is_error_with(
            r,
            "TypeError"@,
            "no transfer handler registered under '"@ + name@ + "'"@,
            stack_text("TypeError"@, "no transfer handler registered under '"@ + name@ + "'"@),
        ),
{
    let mut m = String::from_str("no transfer handler registered under '");
    m.append(name);
    m.append("'");
    Thrown::type_error(m.as_str())
}

// ------------------------------------------------------------------------- //
// Incoming events                                                            //
// ------------------------------------------------------------------------- //

/// What an exposed value does with an incoming event.
#[derive(Clone, Copy, Debug, PartialEq, Eq)]
pub enum Incoming {
    /// The origin is not allowed: the event is refused.
    Refused,
    /// An answer or plain data: none of the exposed value's business.
    Ignored,
    /// A request to answer.
    Request,
}

/// Sorts an incoming event, carrying `data` from `origin`: refused by origin,
/// ignored when it is no request, answered otherwise.
pub fn classify_event<P: Fn(&str) -> bool>(allowed: &[Origin<P>], data: &Envelope, origin: &str) -> (r: Incoming)
    requires
        forall|i: int|
            0 <= i < allowed@.len() ==> (#[trigger] allowed@[i] matches Origin::Predicate(p)
                ==> call_requires(p, (origin,))),
    ensures
        r is Refused ==> forall|i: int|
            0 <= i < allowed@.len() ==> refuses(#[trigger] allowed@[i], origin),
        !(r is Refused) ==> exists|i: int|
            0 <= i < allowed@.len() && admits(#[trigger] allowed@[i], origin),
        r is Ignored <==> !(r is Refused) && !(*data is Request),
        r is Request <==> !(r is Refused) && *data is Request,
{
    if !is_allowed_origin(allowed, origin) {
        return Incoming::Refused;
    }
    match data {
        Envelope::Request(_) => Incoming::Request,
        _ => Incoming::Ignored,
    }
}

// ------------------------------------------------------------------------- //
// How an exposed value answers a request                                     //
// ------------------------------------------------------------------------- //

/// Which operation of the exposed value a request asks for.
#[derive(Clone, Copy, Debug, PartialEq, Eq)]
pub enum RequestStep {
    /// Read the value at the path.
    Read,
    /// Assign the sent value at the path.
    Assign,
    /// Call the function at the path with the sent arguments.
    Call,
    /// Construct with the class at the path and the sent arguments.
    Construct,
    /// Open a new channel and expose the same value on its far end.
    NewEndpoint,
    /// Let go of the exposed value.
    Release,
}

/// The operation for each kind of request, one for one.
pub open spec fn request_step(kind: MessageType) -> RequestStep {
    match kind {
        MessageType::Get => RequestStep::Read,
        MessageType::Assign => RequestStep::Assign,
        MessageType::Apply => RequestStep::Call,
        MessageType::Construct => RequestStep::Construct,
        MessageType::Endpoint => RequestStep::NewEndpoint,
        MessageType::Release => RequestStep::Release,
    }
}

/// The operation a request of this kind asks for.
pub fn plan_request(kind: MessageType) -> (r: RequestStep)
    ensures
        r == request_step(kind),
{
    match kind {
        MessageType::Get => RequestStep::Read,
        MessageType::Assign => RequestStep::Assign,
        MessageType::Apply => RequestStep::Call,
        MessageType::Construct => RequestStep::Construct,
        MessageType::Endpoint => RequestStep::NewEndpoint,
        MessageType::Release => RequestStep::Release,
    }
}

/// What a successful request is answered with.
#[derive(Clone, Copy, Debug, PartialEq, Eq)]
pub enum AnswerShape {
    /// What the operation returned, as it returned it.
    AsReturned,
    /// `true`.
    True,
    /// A proxy onto what the operation returned.
    Proxied,
    /// The near port of the new channel, transferred.
    NewPort,
    /// `undefined`.
    Undefined,
}

/// What a successful request of this kind is answered with: an assignment
/// with `true`, a construction with a proxy, a new endpoint with its port, a
/// release with `undefined`, a read or a call with what it returned.
pub open spec fn shape_of(kind: MessageType) -> AnswerShape {
    match kind {
        MessageType::Assign => AnswerShape::True,
        MessageType::Construct => AnswerShape::Proxied,
        MessageType::Endpoint => AnswerShape::NewPort,
        MessageType::Release => AnswerShape::Undefined,
        _ => AnswerShape::AsReturned,
    }
}

/// What a successful request of this kind is answered with.
pub fn answer_shape(kind: MessageType) -> (r: AnswerShape)
    ensures
        r == shape_of(kind),
{
    match kind {
        MessageType::Assign => AnswerShape::True,
        MessageType::Construct => AnswerShape::Proxied,
        MessageType::Endpoint => AnswerShape::NewPort,
        MessageType::Release => AnswerShape::Undefined,
        _ => AnswerShape::AsReturned,
    }
}

/// The one answer an exposed value sends for a request, built from what its
/// operation gave back.
#[derive(Clone, Debug)]
pub enum Answer<T> {
    /// What the operation returned.
    Returned(T),
    /// `true`.
    True,
    /// A proxy onto what the operation returned.
    Proxied(T),
    /// What the operation returned, with the new port it holds transferred.
    NewPort(T),
    /// `undefined`.
    Undefined,
    /// The operation failed: what it threw travels as a thrown value.
    Thrown(Thrown),
}

/// The answer to a request of kind `kind` whose operation came back with
/// `outcome`: a failure is sent as what was thrown, a success in the shape
/// `shape_of(kind)` gives.
pub open spec fn answer_for<T>(kind: MessageType, outcome: Result<T, Thrown>) -> Answer<T> {
    match outcome {
        Err(t) => Answer::Thrown(t),
        Ok(v) => match shape_of(kind) {
            AnswerShape::AsReturned => Answer::Returned(v),
            AnswerShape::True => Answer::True,
            AnswerShape::Proxied => Answer::Proxied(v),
            AnswerShape::NewPort => Answer::NewPort(v),
            AnswerShape::Undefined => Answer::Undefined,
        },
    }
}

/// Builds the answer to a request of kind `kind` from its operation's outcome.
pub fn answer<T>(kind: MessageType, outcome: Result<T, Thrown>) -> (r: Answer<T>)
    ensures
        r == answer_for(kind, outcome),
{
    match outcome {
        Err(t) => Answer::Thrown(t),
        Ok(v) => match answer_shape(kind) {
            AnswerShape::AsReturned => Answer::Returned(v),
            AnswerShape::True => Answer::True,
            AnswerShape::Proxied => Answer::Proxied(v),
            AnswerShape::NewPort => Answer::NewPort(v),
            AnswerShape::Undefined => Answer::Undefined,
        },
    }
}

/// What an exposed value does after it has sent its answer.
#[derive(Clone, Copy, Debug, PartialEq, Eq)]
pub struct Teardown {
    /// Stop listening on the endpoint.
    pub stop_listening: bool,
    /// Close the endpoint.
    pub close: bool,
    /// Run the exposed value's finalizer.
    pub finalize: bool,
}

/// After answering: a release stops the listener, closes the endpoint when
/// it is a message port, and runs the finalizer; any other request leaves
/// everything as it is.
pub fn after_answer(kind: MessageType, is_message_port: bool) -> (r: Teardown)
    ensures
        r.stop_listening == (kind == MessageType::Release),
        r.close == (kind == MessageType::Release && is_message_port),
        r.finalize == (kind == MessageType::Release),
{
    let release = match kind {
        MessageType::Release => true,
        _ => false,
    };
    Teardown { stop_listening: release, close: release && is_message_port, finalize: release }
}

// ------------------------------------------------------------------------- //
// When proxies release their endpoint                                        //
// ------------------------------------------------------------------------- //

/// The live proxies on one endpoint and whether it has been released. The
/// endpoint is released once: when the last proxy goes, or when a proxy asks
/// for it, whichever comes first.
pub struct ProxyCount {
    live: usize,
    released: bool,
}

impl ProxyCount {
    /// How many proxies are live.
    pub closed spec fn live(&self) -> nat {
        self.live as nat
    }

    /// Whether the endpoint has been released.
    pub closed spec fn released(&self) -> bool {
        self.released
    }

    /// The count for a freshly wrapped endpoint: one proxy, not released.
    pub fn new() -> (r: ProxyCount)
        ensures
            r.live() == 1,
            !r.released(),
    {
        ProxyCount { live: 1, released: false }
    }

    /// How many proxies are live.
    pub fn live_count(&self) -> (r: usize)
        ensures
            r == self.live(),
    {
        self.live
    }

    /// Whether the endpoint has been released.
    pub fn is_released(&self) -> (r: bool)
        ensures
            r == self.released(),
    {
        self.released
    }

    /// A proxy was copied.
    pub fn add(&mut self)
        requires
            old(self).live() < usize::MAX,
        ensures
            final(self).live() == old(self).live() + 1,
            final(self).released() == old(self).released(),
    {
        self.live = self.live + 1;
    }

    /// A proxy went away. Answers whether the endpoint is to be released now:
    /// exactly when this was the last proxy and it was not released before.
    pub fn drop_one(&mut self) -> (release: bool)
        requires
            old(self).live() > 0,
        ensures
            final(self).live() == old(self).live() - 1,
            release == (old(self).live() == 1 && !old(self).released()),
            final(self).released() == (old(self).released() || release),
    {
        self.live = self.live - 1;
        let release = self.live == 0 && !self.released;
        if release {
            self.released = true;
        }
        release
    }

    /// A proxy asks for the release. Answers whether to release now: exactly
    /// when it was not released before.
    pub fn release(&mut self) -> (release: bool)
        ensures
            final(self).live() == old(self).live(),
            release == !old(self).released(),
            final(self).released(),
    {
        let release = !self.released;
        self.released = true;
        release
    }
}

// ------------------------------------------------------------------------- //
// What an exposed object does for each request                              //
// ------------------------------------------------------------------------- //

/// What an exposed object holds under a property name.
#[derive(Clone, Copy, Debug, PartialEq, Eq)]
pub enum EntryKind {
    /// A plain, cloneable value.
    Data,
    /// A value marked for transfer around a plain one.
    Wrapped,
    /// Any other value: a proxy marker, a remote, a tagged or thrown value.
    Held,
    /// A getter, a setter, or both.
    Accessor { get: bool, set: bool },
    Method,
    /// A nested exposed object, cloned when read.
    Child,
    /// A nested exposed object, handed out as a proxy when read.
    Proxied,
    Class,
}

/// How an exposed object answers a read of a path.
#[derive(Clone, Copy, Debug, PartialEq, Eq)]
pub enum GetStep {
    /// The path is empty: a clone of the object's own plain properties.
    Snapshot,
    Undefined,
    /// The value stored under the name, as it is.
    Stored,
    CallGetter,
    /// A function or class cannot be cloned: the read fails.
    Unserializable,
    /// The nested object's answer for the empty path.
    WholeChild,
    /// The nested object, as a proxy.
    ProxyChild,
    /// The nested object answers the rest of the path.
    Delegate,
    /// The rest of the path, walked into the stored plain value.
    WalkStored,
    /// The rest of the path, walked into what the getter returns.
    WalkGotten,
}

/// The answer to a read of a path whose first name holds `entry` (`None`
/// when the name is not there) and which has `path_len` names.
pub open spec fn get_step(entry: Option<EntryKind>, path_len: nat) -> GetStep {
    if path_len == 0 {
        GetStep::Snapshot
    } else {
        match entry {
            None => GetStep::Undefined,
            Some(kind) => if path_len == 1 {
                match kind {
                    EntryKind::Data | EntryKind::Wrapped | EntryKind::Held => GetStep::Stored,
                    EntryKind::Accessor { get, .. } => if get {
                        GetStep::CallGetter
                    } else {
                        GetStep::Undefined
                    },
                    EntryKind::Method | EntryKind::Class => GetStep::Unserializable,
                    EntryKind::Child => GetStep::WholeChild,
                    EntryKind::Proxied => GetStep::ProxyChild,
                }
            } else {
                match kind {
                    EntryKind::Child | EntryKind::Proxied | EntryKind::Class => GetStep::Delegate,
                    EntryKind::Data | EntryKind::Wrapped => GetStep::WalkStored,
                    EntryKind::Accessor { get, .. } => if get {
                        GetStep::WalkGotten
                    } else {
                        GetStep::Undefined
                    },
                    EntryKind::Held | EntryKind::Method => GetStep::Undefined,
                }
            },
        }
    }
}

pub fn plan_get(entry: Option<EntryKind>, path_len: usize) -> (r: GetStep)
    ensures
        r == get_step(entry, path_len as nat),
{
    if path_len == 0 {
        return GetStep::Snapshot;
    }
    match entry {
        None => GetStep::Undefined,
        Some(kind) => if path_len == 1 {
            match kind {
                EntryKind::Data | EntryKind::Wrapped | EntryKind::Held => GetStep::Stored,
                EntryKind::Accessor { get, .. } => if get {
                    GetStep::CallGetter
                } else {
                    GetStep::Undefined
                },
                EntryKind::Method | EntryKind::Class => GetStep::Unserializable,
                EntryKind::Child => GetStep::WholeChild,
                EntryKind::Proxied => GetStep::ProxyChild,
            }
        } else {
            match kind {
                EntryKind::Child | EntryKind::Proxied | EntryKind::Class => GetStep::Delegate,
                EntryKind::Data | EntryKind::Wrapped => GetStep::WalkStored,
                EntryKind::Accessor { get, .. } => if get {
                    GetStep::WalkGotten
                } else {
                    GetStep::Undefined
                },
                EntryKind::Held | EntryKind::Method => GetStep::Undefined,
            }
        },
    }
}

/// How an exposed object answers an assignment through a path.
#[derive(Clone, Copy, Debug, PartialEq, Eq)]
pub enum SetStep {
    /// The path is empty: the object itself cannot be assigned.
    AssignRoot,
    CallSetter,
    /// The value is stored under the name, replacing what was there.
    Store,
    /// The nested object takes the rest of the path.
    Delegate,
    /// The rest of the path is written into the stored plain value.
    WriteInto,
    CannotSet,
}

pub open spec fn set_step(entry: Option<EntryKind>, path_len: nat) -> SetStep {
    if path_len == 0 {
        SetStep::AssignRoot
    } else if path_len == 1 {
        match entry {
            Some(EntryKind::Accessor { set, .. }) => if set {
                SetStep::CallSetter
            } else {
                SetStep::Store
            },
            _ => SetStep::Store,
        }
    } else {
        match entry {
            Some(EntryKind::Child) | Some(EntryKind::Proxied) | Some(EntryKind::Class) => SetStep::Delegate,
            Some(EntryKind::Data) => SetStep::WriteInto,
            _ => SetStep::CannotSet,
        }
    }
}

pub fn plan_set(entry: Option<EntryKind>, path_len: usize) -> (r: SetStep)
    ensures
        r == set_step(entry, path_len as nat),
{
    if path_len == 0 {
        SetStep::AssignRoot
    } else if path_len == 1 {
        match entry {
            Some(EntryKind::Accessor { set, .. }) => if set {
                SetStep::CallSetter
            } else {
                SetStep::Store
            },
            _ => SetStep::Store,
        }
    } else {
        match entry {
            Some(EntryKind::Child) | Some(EntryKind::Proxied) | Some(EntryKind::Class) => SetStep::Delegate,
            Some(EntryKind::Data) => SetStep::WriteInto,
            _ => SetStep::CannotSet,
        }
    }
}

/// How an exposed object answers a call, or a construction, through a path.
#[derive(Clone, Copy, Debug, PartialEq, Eq)]
pub enum CallStep {
    /// The path is empty: the object itself is neither a function nor a
    /// constructor.
    Root,
    /// The method stored under the name runs.
    Invoke,
    /// The nested object takes the rest of the path.
    Delegate,
    /// Nothing callable is there.
    NotCallable,
}

pub open spec fn apply_step(entry: Option<EntryKind>, path_len: nat) -> CallStep {
    if path_len == 0 {
        CallStep::Root
    } else if path_len == 1 {
        match entry {
            Some(EntryKind::Method) => CallStep::Invoke,
            _ => CallStep::NotCallable,
        }
    } else {
        match entry {
            Some(EntryKind::Child) | Some(EntryKind::Proxied) | Some(EntryKind::Class) => CallStep::Delegate,
            _ => CallStep::NotCallable,
        }
    }
}

pub fn plan_apply(entry: Option<EntryKind>, path_len: usize) -> (r: CallStep)
    ensures
        r == apply_step(entry, path_len as nat),
{
    if path_len == 0 {
        CallStep::Root
    } else if path_len == 1 {
        match entry {
            Some(EntryKind::Method) => CallStep::Invoke,
            _ => CallStep::NotCallable,
        }
    } else {
        match entry {
            Some(EntryKind::Child) | Some(EntryKind::Proxied) | Some(EntryKind::Class) => CallStep::Delegate,
            _ => CallStep::NotCallable,
        }
    }
}

/// A construction is handed to a class or a nested object under the first
/// name, which takes the rest of the path (a class with nothing left runs its
/// constructor); nothing else can construct.
pub open spec fn construct_step(entry: Option<EntryKind>, path_len: nat) -> CallStep {
    if path_len == 0 {
        CallStep::Root
    } else {
        match entry {
            Some(EntryKind::Child) | Some(EntryKind::Proxied) | Some(EntryKind::Class) => CallStep::Delegate,
            _ => CallStep::NotCallable,
        }
    }
}

pub fn plan_construct(entry: Option<EntryKind>, path_len: usize) -> (r: CallStep)
    ensures
        r == construct_step(entry, path_len as nat),
{
    if path_len == 0 {
        CallStep::Root
    } else {
        match entry {
            Some(EntryKind::Child) | Some(EntryKind::Proxied) | Some(EntryKind::Class) => CallStep::Delegate,
            _ => CallStep::NotCallable,
        }
    }
}

// ------------------------------------------------------------------------- //
// Laws of the exposed object                                                 //
// ------------------------------------------------------------------------- //

/// The entry is a nested exposed object: a child, a proxied object or a
/// class, each of which answers requests of its own.
pub open spec fn nested(kind: EntryKind) -> bool {
    kind is Child || kind is Proxied || kind is Class
}

/// Reading through a nested object hands the rest of the path to it: a read
/// of two or more names whose first holds a child, a proxied object or a
/// class is answered by that object.
pub proof fn lemma_read_through_nested_delegates(kind: EntryKind, path_len: nat)
    requires
        nested(kind),
        path_len >= 2,
    ensures
        get_step(Some(kind), path_len) == GetStep::Delegate,
{
}

/// Reads of a path: the empty path reads the object's own plain properties;
/// a name that is not there reads as `undefined`; a stored value reads as
/// itself and a plain one can be walked into; a getter is called, and what
/// it gives can be walked into, while an accessor without a getter reads as
/// `undefined`; a function or a class cannot be read; a nested object reads
/// whole, or as a proxy when it was marked so; a marked or held value and a
/// function cannot be walked into.
pub proof fn lemma_read_answers(entry: Option<EntryKind>, path_len: nat)
    ensures
        path_len == 0 ==> get_step(entry, path_len) == GetStep::Snapshot,
        path_len >= 1 && entry is None ==> get_step(entry, path_len) == GetStep::Undefined,
        entry matches Some(k) && (k is Data || k is Wrapped || k is Held) ==> get_step(entry, 1)
            == GetStep::Stored,
        entry matches Some(k) && (k is Data || k is Wrapped) && path_len >= 2 ==> get_step(
            entry,
            path_len,
        ) == GetStep::WalkStored,
        entry matches Some(EntryKind::Accessor { get, set }) && get ==> get_step(entry, 1)
            == GetStep::CallGetter,
        entry matches Some(EntryKind::Accessor { get, set }) && get && path_len >= 2 ==> get_step(
            entry,
            path_len,
        ) == GetStep::WalkGotten,
        entry matches Some(EntryKind::Accessor { get, set }) && !get && path_len >= 1 ==> get_step(
            entry,
            path_len,
        ) == GetStep::Undefined,
        entry matches Some(k) && (k is Method || k is Class) ==> get_step(entry, 1)
            == GetStep::Unserializable,
        entry == Some(EntryKind::Child) ==> get_step(entry, 1) == GetStep::WholeChild,
        entry == Some(EntryKind::Proxied) ==> get_step(entry, 1) == GetStep::ProxyChild,
        entry matches Some(k) && (k is Held || k is Method) && path_len >= 2 ==> get_step(
            entry,
            path_len,
        ) == GetStep::Undefined,
{
}

/// Assigning one name stores the value there, unless the name holds an
/// accessor with a setter, which is called instead.
pub proof fn lemma_assign_one_name_stores(entry: Option<EntryKind>)
    ensures
        (entry matches Some(EntryKind::Accessor { get, set }) && set) ==> set_step(entry, 1)
            == SetStep::CallSetter,
        !(entry matches Some(EntryKind::Accessor { get, set }) && set) ==> set_step(entry, 1)
            == SetStep::Store,
{
}

/// Assignments of a path: the object itself cannot be assigned; through a
/// nested object the rest of the path is handed to it; into a plain stored
/// value the rest of the path is written; through anything else the
/// assignment fails.
pub proof fn lemma_assign_answers(entry: Option<EntryKind>, path_len: nat)
    ensures
        path_len == 0 ==> set_step(entry, path_len) == SetStep::AssignRoot,
        entry matches Some(k) && nested(k) && path_len >= 2 ==> set_step(entry, path_len)
            == SetStep::Delegate,
        entry == Some(EntryKind::Data) && path_len >= 2 ==> set_step(entry, path_len)
            == SetStep::WriteInto,
        !(entry matches Some(k) && (nested(k) || k is Data)) && path_len >= 2 ==> set_step(
            entry,
            path_len,
        ) == SetStep::CannotSet,
{
}

/// Calling through a nested object hands the rest of the path to it: a call
/// of two or more names whose first holds a child, a proxied object or a
/// class is answered by that object.
pub proof fn lemma_call_through_nested_delegates(kind: EntryKind, path_len: nat)
    requires
        nested(kind),
        path_len >= 2,
    ensures
        apply_step(Some(kind), path_len) == CallStep::Delegate,
{
}

/// Calls of a path: the object itself is no function; one name runs the
/// method stored there and nothing else; a longer path runs only through a
/// nested object.
pub proof fn lemma_call_answers(entry: Option<EntryKind>, path_len: nat)
    ensures
        path_len == 0 ==> apply_step(entry, path_len) == CallStep::Root,
        entry == Some(EntryKind::Method) ==> apply_step(entry, 1) == CallStep::Invoke,
        entry != Some(EntryKind::Method) ==> apply_step(entry, 1) == CallStep::NotCallable,
        !(entry matches Some(k) && nested(k)) && path_len >= 2 ==> apply_step(entry, path_len)
            == CallStep::NotCallable,
{
}

/// Constructing through a nested object hands the rest of the path to it: a
/// construction of one or more names whose first holds a child, a proxied
/// object or a class is answered by that object.
pub proof fn lemma_construct_through_nested_delegates(kind: EntryKind, path_len: nat)
    requires
        nested(kind),
        path_len >= 1,
    ensures
        construct_step(Some(kind), path_len) == CallStep::Delegate,
{
}

/// Constructions of a path: the object itself is no constructor, and
/// nothing but a nested object constructs.
pub proof fn lemma_construct_answers(entry: Option<EntryKind>, path_len: nat)
    ensures
        path_len == 0 ==> construct_step(entry, path_len) == CallStep::Root,
        !(entry matches Some(k) && nested(k)) && path_len >= 1 ==> construct_step(
            entry,
            path_len,
        ) == CallStep::NotCallable,
{
}

/// Whatever was asked, a failed operation is answered with what it threw,
/// so the caller re-raises it.
pub proof fn lemma_failures_travel_as_thrown<T>(kind: MessageType, thrown: Thrown)
    ensures
        answer_for(kind, Err::<T, Thrown>(thrown)) == Answer::<T>::Thrown(thrown),
{
}

/// A successful operation is answered as its request asks: a read or a call
/// with what it returned, an assignment with `true`, a construction with a
/// proxy onto what it made, a new endpoint with its port, a release with
/// `undefined`.
pub proof fn lemma_successes_are_shaped_by_the_request<T>(kind: MessageType, v: T)
    ensures
        kind == MessageType::Get ==> answer_for(kind, Ok::<T, Thrown>(v)) == Answer::Returned(v),
        kind == MessageType::Apply ==> answer_for(kind, Ok::<T, Thrown>(v)) == Answer::Returned(v),
        kind == MessageType::Assign ==> answer_for(kind, Ok::<T, Thrown>(v)) == Answer::<T>::True,
        kind == MessageType::Construct ==> answer_for(kind, Ok::<T, Thrown>(v)) == Answer::Proxied(
            v,
        ),
        kind == MessageType::Endpoint ==> answer_for(kind, Ok::<T, Thrown>(v)) == Answer::NewPort(
            v,
        ),
        kind == MessageType::Release ==> answer_for(kind, Ok::<T, Thrown>(v))
            == Answer::<T>::Undefined,
{
}

/// Each kind of request asks for its own operation.
pub proof fn lemma_requests_ask_for_their_operation(kind: MessageType)
    ensures
        kind == MessageType::Get ==> request_step(kind) == RequestStep::Read,
        kind == MessageType::Assign ==> request_step(kind) == RequestStep::Assign,
        kind == MessageType::Apply ==> request_step(kind) == RequestStep::Call,
        kind == MessageType::Construct ==> request_step(kind) == RequestStep::Construct,
        kind == MessageType::Endpoint ==> request_step(kind) == RequestStep::NewEndpoint,
        kind == MessageType::Release ==> request_step(kind) == RequestStep::Release,
{
}

// ------------------------------------------------------------------------- //
// Message ids                                                                //
// ------------------------------------------------------------------------- //

/// A lower-case hexadecimal digit.
pub open spec fn hex_digit(d: nat) -> char {
    if d == 0 { '0' }
    else if d == 1 { '1' }
    else if d == 2 { '2' }
    else if d == 3 { '3' }
    else if d == 4 { '4' }
    else if d == 5 { '5' }
    else if d == 6 { '6' }
    else if d == 7 { '7' }
    else if d == 8 { '8' }
    else if d == 9 { '9' }
    else if d == 10 { 'a' }
    else if d == 11 { 'b' }
    else if d == 12 { 'c' }
    else if d == 13 { 'd' }
    else if d == 14 { 'e' }
    else { 'f' }
}

/// `n` in lower-case hexadecimal without leading zeros, as `{:x}` writes it.
pub open spec fn hex_text(n: nat) -> Seq<char>
    decreases n,
{
    if n < 16 {
        seq![hex_digit(n)]
    } else {
        hex_text(n / 16).push(hex_digit(n % 16))
    }
}

fn hex_digit_text(d: u128) -> (r: &'static str)
    requires
        d < 16,
    ensures
        r@ == seq![hex_digit(d as nat)],
{
    proof {
        reveal_strlit("0");
        reveal_strlit("1");
        reveal_strlit("2");
        reveal_strlit("3");
        reveal_strlit("4");
        reveal_strlit("5");
        reveal_strlit("6");
        reveal_strlit("7");
        reveal_strlit("8");
        reveal_strlit("9");
        reveal_strlit("a");
        reveal_strlit("b");
        reveal_strlit("c");
        reveal_strlit("d");
        reveal_strlit("e");
        reveal_strlit("f");
    }
    if d == 0 { "0" }
    else if d == 1 { "1" }
    else if d == 2 { "2" }
    else if d == 3 { "3" }
    else if d == 4 { "4" }
    else if d == 5 { "5" }
    else if d == 6 { "6" }
    else if d == 7 { "7" }
    else if d == 8 { "8" }
    else if d == 9 { "9" }
    else if d == 10 { "a" }
    else if d == 11 { "b" }
    else if d == 12 { "c" }
    else if d == 13 { "d" }
    else if d == 14 { "e" }
    else { "f" }
}

fn append_hex(out: &mut String, n: u128)
    ensures
        final(out)@ == old(out)@ + hex_text(n as nat),
    decreases n,
{
    if n >= 16 {
        append_hex(out, n / 16);
    }
    let digit = hex_digit_text(n % 16);
    out.append(digit);
    assert(hex_text(n as nat) =~= if n < 16 {
        seq![hex_digit(n as nat)]
    } else {
        hex_text((n / 16) as nat).push(hex_digit((n % 16) as nat))
    });
}

/// The hash a thread's name contributes to a message id: each byte folded in
/// as `h * 31 + b`, wrapping.
pub open spec fn tag_hash(bytes: Seq<u8>) -> u128
    decreases bytes.len(),
{
    if bytes.len() == 0 {
        0
    } else {
        vstd::wrapping::u128_specs::wrapping_add(
            vstd::wrapping::u128_specs::wrapping_mul(tag_hash(bytes.drop_last()), 31),
            bytes.last() as u128,
        )
    }
}

/// Four hexadecimal chunks joined by dashes: the low 48 bits of the clock, the
/// counter, the low 32 bits of the thread's hash, and the clock's high bits
/// mixed with the counter.
pub open spec fn message_id_text(nanos: u128, seq: u128, tag: Seq<u8>) -> Seq<char> {
    hex_text((nanos & 0xffff_ffff_ffffu128) as nat) + "-"@ + hex_text(seq as nat) + "-"@
        + hex_text((tag_hash(tag) & 0xffff_ffffu128) as nat) + "-"@ + hex_text(
        ((nanos >> 48u128) ^ seq) as nat,
    )
}

/// A message id from the time in nanoseconds, a counter and the calling
/// thread's name.
pub fn format_message_id(nanos: u128, seq: u128, thread_tag: &str) -> (r: String)
    ensures
        r@ == message_id_text(nanos, seq, crate::value::key_bytes(thread_tag@)),
{
    let bytes = thread_tag.as_bytes();
    let mut hash: u128 = 0;
    let mut i: usize = 0;
    while i < bytes.len()
        invariant
            i <= bytes@.len(),
            hash == tag_hash(bytes@.take(i as int)),
        decreases bytes.len() - i,
    {
        assert(bytes@.take(i + 1).drop_last() =~= bytes@.take(i as int));
        hash = hash.wrapping_mul(31).wrapping_add(bytes[i] as u128);
        i = i + 1;
    }
    assert(bytes@.take(bytes@.len() as int) =~= bytes@);
    let mut out = String::new();
    append_hex(&mut out, nanos & 0xffff_ffff_ffff);
    out.append("-");
    append_hex(&mut out, seq);
    out.append("-");
    append_hex(&mut out, hash & 0xffff_ffff);
    out.append("-");
    append_hex(&mut out, (nanos >> 48) ^ seq);
    assert(out@ =~= message_id_text(nanos, seq, crate::value::key_bytes(thread_tag@)));
    out
}

} // verus!
