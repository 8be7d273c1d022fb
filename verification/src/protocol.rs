//! The wire protocol: the requests one side sends, the answers the other side
//! gives, and the values they carry.
use crate::value::{detached, held, lemma_same_value_refl, same_value, ArrayBuffer, BufferStore, Value};
use vstd::prelude::*;

verus! {

/// How a value travels.
#[derive(Clone, Debug, PartialEq)]
pub enum WireValue {
    /// The value itself, cloned.
    Raw { value: Value },
    /// A transfer handler claimed the value and is named here, so the other
    /// side can pick the same one.
    Handler { name: String, value: Value },
}

/// The kinds of request.
#[derive(Clone, Copy, Debug, PartialEq, Eq)]
pub enum MessageType {
    Get,
    Assign,
    Apply,
    Construct,
    Endpoint,
    Release,
}

/// A request.
#[derive(Clone, Debug)]
pub enum Message {
    Get { id: String, path: Vec<String> },
    Assign { id: String, path: Vec<String>, value: WireValue },
    Apply { id: String, path: Vec<String>, argument_list: Vec<WireValue> },
    Construct { id: String, path: Vec<String>, argument_list: Vec<WireValue> },
    Endpoint { id: String },
    Release { id: String },
}

/// The id a request carries.
pub open spec fn message_id(m: Message) -> Seq<char> {
    match m {
        Message::Get { id, .. } => id@,
        Message::Assign { id, .. } => id@,
        Message::Apply { id, .. } => id@,
        Message::Construct { id, .. } => id@,
        Message::Endpoint { id } => id@,
        Message::Release { id } => id@,
    }
}

/// The kind of a request.
pub open spec fn message_kind(m: Message) -> MessageType {
    match m {
        Message::Get { .. } => MessageType::Get,
        Message::Assign { .. } => MessageType::Assign,
        Message::Apply { .. } => MessageType::Apply,
        Message::Construct { .. } => MessageType::Construct,
        Message::Endpoint { .. } => MessageType::Endpoint,
        Message::Release { .. } => MessageType::Release,
    }
}

/// The property path a request acts on; empty for the two that have none.
pub open spec fn message_path(m: Message) -> Seq<String> {
    match m {
        Message::Get { path, .. } => path@,
        Message::Assign { path, .. } => path@,
        Message::Apply { path, .. } => path@,
        Message::Construct { path, .. } => path@,
        Message::Endpoint { .. } => Seq::empty(),
        Message::Release { .. } => Seq::empty(),
    }
}

impl Message {
    pub fn id(&self) -> (r: &str)
        ensures
            r@ == message_id(*self),
    {
        match self {
            Message::Get { id, .. } => id.as_str(),
            Message::Assign { id, .. } => id.as_str(),
            Message::Apply { id, .. } => id.as_str(),
            Message::Construct { id, .. } => id.as_str(),
            Message::Endpoint { id } => id.as_str(),
            Message::Release { id } => id.as_str(),
        }
    }

    pub fn message_type(&self) -> (r: MessageType)
        ensures
            r == message_kind(*self),
    {
        match self {
            Message::Get { .. } => MessageType::Get,
            Message::Assign { .. } => MessageType::Assign,
            Message::Apply { .. } => MessageType::Apply,
            Message::Construct { .. } => MessageType::Construct,
            Message::Endpoint { .. } => MessageType::Endpoint,
            Message::Release { .. } => MessageType::Release,
        }
    }

    pub fn path(&self) -> (r: &[String])
        ensures
            r@ == message_path(*self),
    {
        match self {
            Message::Get { path, .. } => path.as_slice(),
            Message::Assign { path, .. } => path.as_slice(),
            Message::Apply { path, .. } => path.as_slice(),
            Message::Construct { path, .. } => path.as_slice(),
            Message::Endpoint { .. } => &[],
            Message::Release { .. } => &[],
        }
    }
}

/// What travels over an endpoint: a request, the answer to one, or plain data
/// that is no part of an exchange.
#[derive(Clone, Debug)]
pub enum Envelope {
    Request(Message),
    Response { id: String, value: WireValue },
    Data(Value),
}

/// An incoming message together with the origin stamped on it.
#[derive(Clone, Debug)]
pub struct MessageEvent {
    pub data: Envelope,
    pub origin: String,
}

/// Something named in a transfer list: it is moved, not copied.
#[derive(Clone, Debug)]
pub enum Transferable {
    Buffer(ArrayBuffer),
    /// A message port, by the id the endpoint layer gave it.
    Port(u64),
}

// ------------------------------------------------------------------------- //
// Moving transferred buffers                                                 //
// ------------------------------------------------------------------------- //

/// Buffer `id` occurs somewhere in `v`.
pub open spec fn occurs(v: Value, id: usize) -> bool
    decreases v,
{
    match v {
        Value::Buffer(x) => x@ == id,
        Value::Array(x) => exists|i: int| 0 <= i < x@.len() && occurs(#[trigger] x@[i], id),
        Value::Object(x) => exists|i: int| 0 <= i < x@.len() && occurs((#[trigger] x@[i]).1, id),
        _ => false,
    }
}

/// `b` is `a` with its first occurrence of buffer `id` -- the first met
/// going down before going across -- replaced by buffer `fresh`. Where `id`
/// does not occur, `b` is a copy of `a`.
pub open spec fn replaced_first(a: Value, b: Value, id: usize, fresh: usize) -> bool
    decreases a,
{
    if !occurs(a, id) {
        same_value(a, b)
    } else {
        match a {
            Value::Buffer(_) => b matches Value::Buffer(y) && y@ == fresh,
            Value::Array(x) => {
                &&& b is Array
                &&& x@.len() == b->Array_0@.len()
                &&& exists|k: int|
                    0 <= k < x@.len() && occurs(#[trigger] x@[k], id) && (forall|j: int|
                        0 <= j < k ==> !occurs(x@[j], id)) && replaced_first(
                        x@[k],
                        b->Array_0@[k],
                        id,
                        fresh,
                    ) && (forall|j: int|
                        0 <= j < x@.len() && j != k ==> same_value(x@[j], b->Array_0@[j]))
            },
            Value::Object(x) => {
                &&& b is Object
                &&& x@.len() == b->Object_0@.len()
                &&& forall|j: int| 0 <= j < x@.len() ==> x@[j].0 == (#[trigger] b->Object_0@[j]).0
                &&& exists|k: int|
                    0 <= k < x@.len() && occurs((#[trigger] x@[k]).1, id) && (forall|j: int|
                        0 <= j < k ==> !occurs(x@[j].1, id)) && replaced_first(
                        x@[k].1,
                        b->Object_0@[k].1,
                        id,
                        fresh,
                    ) && (forall|j: int|
                        0 <= j < x@.len() && j != k ==> same_value(x@[j].1, b->Object_0@[j].1))
            },
            _ => false,
        }
    }
}

/// The value a wire value carries.
pub open spec fn carried(w: WireValue) -> Value {
    match w {
        WireValue::Raw { value } => value,
        WireValue::Handler { value, .. } => value,
    }
}

/// `a` and `b` are wire values of one kind, under one handler name if any.
pub open spec fn same_wire_kind(a: WireValue, b: WireValue) -> bool {
    match (a, b) {
        (WireValue::Raw { .. }, WireValue::Raw { .. }) => true,
        (WireValue::Handler { name: m, .. }, WireValue::Handler { name: n, .. }) => m == n,
        _ => false,
    }
}

/// `replaced_first` across wire values in order: the first that carries
/// buffer `id` has it replaced, the others are copies.
pub open spec fn replaced_first_wires(a: Seq<WireValue>, b: Seq<WireValue>, id: usize, fresh: usize) -> bool {
    &&& a.len() == b.len()
    &&& forall|j: int| 0 <= j < a.len() ==> same_wire_kind(a[j], #[trigger] b[j])
    &&& if forall|j: int| 0 <= j < a.len() ==> !occurs(carried(a[j]), id) {
        forall|j: int| 0 <= j < a.len() ==> same_value(carried(a[j]), #[trigger] carried(b[j]))
    } else {
        exists|k: int|
            0 <= k < a.len() && #[trigger] occurs(carried(a[k]), id) && (forall|j: int|
                0 <= j < k ==> !occurs(carried(a[j]), id)) && replaced_first(
                carried(a[k]),
                carried(b[k]),
                id,
                fresh,
            ) && (forall|j: int|
                0 <= j < a.len() && j != k ==> same_value(carried(a[j]), carried(b[j])))
    }
}

/// The values an envelope carries, in order.
pub open spec fn envelope_values(e: Envelope) -> Seq<WireValue> {
    match e {
        Envelope::Data(v) => seq![WireValue::Raw { value: v }],
        Envelope::Response { value, .. } => seq![value],
        Envelope::Request(m) => match m {
            Message::Assign { value, .. } => seq![value],
            Message::Apply { argument_list, .. } => argument_list@,
            Message::Construct { argument_list, .. } => argument_list@,
            _ => Seq::empty(),
        },
    }
}

/// `a` and `b` are the same envelope apart from the values they carry.
pub open spec fn same_frame(a: Envelope, b: Envelope) -> bool {
    match (a, b) {
        (Envelope::Data(_), Envelope::Data(_)) => true,
        (Envelope::Response { id: i, .. }, Envelope::Response { id: j, .. }) => i == j,
        (Envelope::Request(m), Envelope::Request(n)) => match (m, n) {
            (Message::Get { id: i, path: p }, Message::Get { id: j, path: q }) => i == j && p == q,
            (Message::Assign { id: i, path: p, .. }, Message::Assign { id: j, path: q, .. }) => i
                == j && p == q,
            (Message::Apply { id: i, path: p, .. }, Message::Apply { id: j, path: q, .. }) => i
                == j && p == q,
            (Message::Construct { id: i, path: p, .. }, Message::Construct { id: j, path: q, .. }) => {
                i == j && p == q
            },
            (Message::Endpoint { id: i }, Message::Endpoint { id: j }) => i == j,
            (Message::Release { id: i }, Message::Release { id: j }) => i == j,
            _ => false,
        },
        _ => false,
    }
}

/// Buffer `id` occurs in a value the envelope carries.
pub open spec fn occurs_in_envelope(e: Envelope, id: usize) -> bool {
    exists|j: int| 0 <= j < envelope_values(e).len() && #[trigger] occurs(carried(envelope_values(e)[j]), id)
}

/// `b` is the envelope `a` with the first occurrence of buffer `id` among the
/// values it carries replaced by buffer `fresh`; everything else is copied.
pub open spec fn replaced_first_in_envelope(a: Envelope, b: Envelope, id: usize, fresh: usize) -> bool {
    &&& same_frame(a, b)
    &&& replaced_first_wires(envelope_values(a), envelope_values(b), id, fresh)
}

/// One entry of a transfer list, taken from envelope `e0` and store `s0` to
/// `e1` and `s1`. A port is moved by the endpoint layer and changes nothing
/// here. A buffer is detached, and its bytes go into a new buffer that takes
/// the place of the buffer's first occurrence in the envelope; where the
/// envelope does not carry the buffer, the bytes are dropped.
pub open spec fn transfer_step(
    e0: Envelope,
    e1: Envelope,
    s0: Seq<Seq<u8>>,
    s1: Seq<Seq<u8>>,
    t: Transferable,
) -> bool {
    match t {
        Transferable::Port(_) => e1 == e0 && s1 == s0,
        Transferable::Buffer(b) => {
            let d = detached(s0, b@);
            if occurs_in_envelope(e0, b@) {
                &&& s1 == d.push(held(s0, b@))
                &&& replaced_first_in_envelope(e0, e1, b@, d.len() as usize)
            } else {
                &&& s1 == d
                &&& replaced_first_in_envelope(e0, e1, b@, d.len() as usize)
            }
        },
    }
}

/// Puts `bytes` into a new buffer in place of the first occurrence of
/// `source` in `v`. Hands the bytes back when `source` does not occur.
fn place_bytes(v: &mut Value, source: ArrayBuffer, bytes: Vec<u8>, store: &mut BufferStore) -> (rest:
    Option<Vec<u8>>)
    ensures
        replaced_first(*old(v), *final(v), source@, old(store)@.len() as usize),
        occurs(*old(v), source@) ==> rest is None && final(store)@ == old(store)@.push(bytes@),
        !occurs(*old(v), source@) ==> rest == Some(bytes) && final(store)@ == old(store)@,
    decreases *old(v),
{
    let hit = match v {
        Value::Buffer(b) => b.same(&source),
        _ => false,
    };
    if hit {
        let fresh = ArrayBuffer::new(store, bytes);
        *v = Value::Buffer(fresh);
        return None;
    }
    match v {
        Value::Array(items) => {
            let ghost orig = items@;
            let ghost orig_vec = *items;
            let ghost s0 = store@;
            let ghost mut k: int = 0;
            let mut rest = Some(bytes);
            let mut i: usize = 0;
            while i < items.len() && rest.is_some()
                invariant
                    *old(v) == Value::Array(orig_vec),
                    orig == orig_vec@,
                    s0 == old(store)@,
                    items@.len() == orig.len(),
                    i <= items@.len(),
                    0 <= k <= i,
                    forall|j: int| i <= j < items@.len() ==> #[trigger] items@[j] == orig[j],
                    forall|j: int| 0 <= j < k ==> !#[trigger] occurs(orig[j], source@),
                    forall|j: int| 0 <= j < i && j != k ==> same_value(orig[j], #[trigger] items@[j]),
                    rest is Some ==> rest == Some(bytes) && store@ == s0 && k == i,
                    rest is None ==> {
                        &&& k < i
                        &&& store@ == s0.push(bytes@)
                        &&& occurs(orig[k], source@)
                        &&& replaced_first(orig[k], items@[k], source@, s0.len() as usize)
                    },
                decreases items.len() - i,
            {
                proof {
                    broadcast use vstd::std_specs::vec::group_vec_axioms;
                    assert(decreases_to!(*old(v) => (*old(v))->Array_0));
                    assert(decreases_to!(orig_vec => orig_vec@));
                    assert(decreases_to!(orig_vec@ => orig[i as int]));
                }
                let taken = rest.take();
                let b = match taken {
                    Some(b) => b,
                    None => Vec::new(),
                };
                let ghost before = items@;
                rest = place_bytes(&mut items[i], source, b, store);
                proof {
                    assert forall|j: int| 0 <= j < i implies same_value(orig[j], #[trigger] items@[j]) by {
                        assert(items@[j] == before[j]);
                    }
                    if rest is Some {
                        k = i + 1;
                    }
                }
                i = i + 1;
            }
            proof {
                assert forall|j: int| i <= j < items@.len() implies same_value(orig[j], #[trigger] items@[j]) by {
                    lemma_same_value_refl(orig[j]);
                }
                if rest is None {
                    assert(occurs(orig_vec@[k], source@));
                    assert(occurs(Value::Array(orig_vec), source@));
                } else {
                    assert(!occurs(*old(v), source@)) by {
                        if occurs(*old(v), source@) {
                            let j = choose|j: int| 0 <= j < orig_vec@.len() && occurs(orig_vec@[j], source@);
                            assert(!occurs(orig_vec@[j], source@));
                        }
                    }
                }
            }
            rest
        },
        Value::Object(entries) => {
            let ghost orig = entries@;
            let ghost orig_vec = *entries;
            let ghost s0 = store@;
            let ghost mut k: int = 0;
            let mut rest = Some(bytes);
            let mut i: usize = 0;
            while i < entries.len() && rest.is_some()
                invariant
                    *old(v) == Value::Object(orig_vec),
                    orig == orig_vec@,
                    s0 == old(store)@,
                    entries@.len() == orig.len(),
                    i <= entries@.len(),
                    0 <= k <= i,
                    forall|j: int| i <= j < entries@.len() ==> #[trigger] entries@[j] == orig[j],
                    forall|j: int| 0 <= j < i ==> orig[j].0 == #[trigger] entries@[j].0,
                    forall|j: int| 0 <= j < k ==> !#[trigger] occurs(orig[j].1, source@),
                    forall|j: int| 0 <= j < i && j != k ==> same_value(orig[j].1, #[trigger] entries@[j].1),
                    rest is Some ==> rest == Some(bytes) && store@ == s0 && k == i,
                    rest is None ==> {
                        &&& k < i
                        &&& store@ == s0.push(bytes@)
                        &&& occurs(orig[k].1, source@)
                        &&& replaced_first(orig[k].1, entries@[k].1, source@, s0.len() as usize)
                    },
                decreases entries.len() - i,
            {
                proof {
                    broadcast use vstd::std_specs::vec::group_vec_axioms;
                    assert(decreases_to!(*old(v) => (*old(v))->Object_0));
                    assert(decreases_to!(orig_vec => orig_vec@));
                    assert(decreases_to!(orig_vec@ => orig[i as int]));
                    assert(decreases_to!(orig[i as int] => orig[i as int].1));
                }
                let taken = rest.take();
                let b = match taken {
                    Some(b) => b,
                    None => Vec::new(),
                };
                let ghost before = entries@;
                rest = place_bytes(&mut entries[i].1, source, b, store);
                proof {
                    assert forall|j: int| 0 <= j <= i implies orig[j].0 == #[trigger] entries@[j].0 by {
                        if j < i {
                            assert(entries@[j] == before[j]);
                        }
                    }
                    assert forall|j: int| 0 <= j < i implies same_value(orig[j].1, #[trigger] entries@[j].1) by {
                        assert(entries@[j] == before[j]);
                    }
                    if rest is Some {
                        k = i + 1;
                    }
                }
                i = i + 1;
            }
            proof {
                assert forall|j: int| i <= j < entries@.len() implies same_value(orig[j].1, #[trigger] entries@[j].1) by {
                    lemma_same_value_refl(orig[j].1);
                }
                if rest is None {
                    assert(occurs(orig_vec@[k].1, source@));
                    assert(occurs(Value::Object(orig_vec), source@));
                } else {
                    assert(!occurs(*old(v), source@)) by {
                        if occurs(*old(v), source@) {
                            let j = choose|j: int| 0 <= j < orig_vec@.len() && occurs(orig_vec@[j].1, source@);
                            assert(!occurs(orig_vec@[j].1, source@));
                        }
                    }
                }
            }
            rest
        },
        _ => {
            proof {
                lemma_same_value_refl(*v);
            }
            Some(bytes)
        },
    }
}

fn place_in_wire(w: &mut WireValue, source: ArrayBuffer, bytes: Vec<u8>, store: &mut BufferStore) -> (rest:
    Option<Vec<u8>>)
    ensures
        same_wire_kind(*old(w), *final(w)),
        replaced_first(carried(*old(w)), carried(*final(w)), source@, old(store)@.len() as usize),
        occurs(carried(*old(w)), source@) ==> rest is None && final(store)@ == old(store)@.push(
            bytes@,
        ),
        !occurs(carried(*old(w)), source@) ==> rest == Some(bytes) && final(store)@ == old(store)@,
{
    match w {
        WireValue::Raw { value } => place_bytes(value, source, bytes, store),
        WireValue::Handler { value, .. } => place_bytes(value, source, bytes, store),
    }
}

/// One wire value placed into is the sequence of one placed into.
proof fn lemma_one_wire(a: WireValue, b: WireValue, id: usize, fresh: usize)
    requires
        same_wire_kind(a, b),
        replaced_first(carried(a), carried(b), id, fresh),
    ensures
        replaced_first_wires(seq![a], seq![b], id, fresh),
        (exists|j: int| 0 <= j < 1 && #[trigger] occurs(carried(seq![a][j]), id)) <==> occurs(
            carried(a),
            id,
        ),
{
    let sa = seq![a];
    let sb = seq![b];
    assert(sa[0] == a && sb[0] == b);
    if occurs(carried(a), id) {
        assert(occurs(carried(sa[0]), id));
    } else {
        assert(same_value(carried(a), carried(b)));
    }
}

fn place_in_wires(ws: &mut Vec<WireValue>, source: ArrayBuffer, bytes: Vec<u8>, store: &mut BufferStore) -> (rest:
    Option<Vec<u8>>)
    ensures
        replaced_first_wires(old(ws)@, final(ws)@, source@, old(store)@.len() as usize),
        (exists|j: int| 0 <= j < old(ws)@.len() && #[trigger] occurs(carried(old(ws)@[j]), source@))
            ==> rest is None && final(store)@ == old(store)@.push(bytes@),
        !(exists|j: int| 0 <= j < old(ws)@.len() && #[trigger] occurs(carried(old(ws)@[j]), source@))
            ==> rest == Some(bytes) && final(store)@ == old(store)@,
{
    let ghost orig = ws@;
    let ghost s0 = store@;
    let ghost mut k: int = 0;
    let mut rest = Some(bytes);
    let mut i: usize = 0;
    while i < ws.len() && rest.is_some()
        invariant
            orig == old(ws)@,
            s0 == old(store)@,
            ws@.len() == orig.len(),
            i <= ws@.len(),
            0 <= k <= i,
            forall|j: int| i <= j < ws@.len() ==> #[trigger] ws@[j] == orig[j],
            forall|j: int| 0 <= j < i ==> same_wire_kind(orig[j], #[trigger] ws@[j]),
            forall|j: int| 0 <= j < k ==> !#[trigger] occurs(carried(orig[j]), source@),
            forall|j: int|
                0 <= j < i && j != k ==> same_value(carried(orig[j]), #[trigger] carried(ws@[j])),
            rest is Some ==> rest == Some(bytes) && store@ == s0 && k == i,
            rest is None ==> {
                &&& k < i
                &&& store@ == s0.push(bytes@)
                &&& occurs(carried(orig[k]), source@)
                &&& replaced_first(carried(orig[k]), carried(ws@[k]), source@, s0.len() as usize)
            },
        decreases ws.len() - i,
    {
        let taken = rest.take();
        let b = match taken {
            Some(b) => b,
            None => Vec::new(),
        };
        let ghost before = ws@;
        rest = place_in_wire(&mut ws[i], source, b, store);
        proof {
            assert forall|j: int| 0 <= j < i implies ws@[j] == before[j] by {}
            assert forall|j: int| 0 <= j <= i implies same_wire_kind(orig[j], #[trigger] ws@[j]) by {
                if j < i {
                    assert(ws@[j] == before[j]);
                }
            }
            assert forall|j: int| 0 <= j < i implies same_value(
                carried(orig[j]),
                #[trigger] carried(ws@[j]),
            ) by {
                assert(ws@[j] == before[j]);
            }
            if rest is Some {
                k = i + 1;
            }
        }
        i = i + 1;
    }
    proof {
        assert forall|j: int| i <= j < ws@.len() implies same_value(
            carried(orig[j]),
            #[trigger] carried(ws@[j]),
        ) by {
            lemma_same_value_refl(carried(orig[j]));
        }
        assert forall|j: int| i <= j < ws@.len() implies same_wire_kind(orig[j], #[trigger] ws@[j]) by {
            assert(ws@[j] == orig[j]);
        }
        if rest is None {
            assert(occurs(carried(orig[k]), source@));
        } else {
            assert forall|j: int| 0 <= j < orig.len() implies !#[trigger] occurs(carried(orig[j]), source@) by {}
        }
    }
    rest
}

fn place_in_envelope(e: &mut Envelope, source: ArrayBuffer, bytes: Vec<u8>, store: &mut BufferStore) -> (rest:
    Option<Vec<u8>>)
    ensures
        replaced_first_in_envelope(*old(e), *final(e), source@, old(store)@.len() as usize),
        occurs_in_envelope(*old(e), source@) ==> rest is None && final(store)@ == old(store)@.push(
            bytes@,
        ),
        !occurs_in_envelope(*old(e), source@) ==> rest == Some(bytes) && final(store)@ == old(
            store,
        )@,
{
    let ghost s0 = store@;
    match e {
        Envelope::Data(value) => {
            let ghost v0 = *value;
            let rest = place_bytes(value, source, bytes, store);
            proof {
                lemma_one_wire(WireValue::Raw { value: v0 }, WireValue::Raw { value: *value }, source@, s0.len() as usize);
            }
            rest
        },
        Envelope::Response { value, .. } => {
            let ghost w0 = *value;
            let rest = place_in_wire(value, source, bytes, store);
            proof {
                lemma_one_wire(w0, *value, source@, s0.len() as usize);
            }
            rest
        },
        Envelope::Request(msg) => match msg {
            Message::Assign { value, .. } => {
                let ghost w0 = *value;
                let rest = place_in_wire(value, source, bytes, store);
                proof {
                    lemma_one_wire(w0, *value, source@, s0.len() as usize);
                }
                rest
            },
            Message::Apply { argument_list, .. } => place_in_wires(argument_list, source, bytes, store),
            Message::Construct { argument_list, .. } => place_in_wires(
                argument_list,
                source,
                bytes,
                store,
            ),
            _ => Some(bytes),
        },
    }
}

/// Transferring is a move. For each entry of the transfer list in turn, a
/// buffer is detached -- every copy of it is left empty -- and its bytes go
/// into a new buffer that takes the place of the buffer's first occurrence in
/// the envelope (`transfer_step`). Every buffer of this store that the list
/// names is left empty.
pub fn move_transferred_buffers(
    envelope: &mut Envelope,
    transfer: &Vec<Transferable>,
    store: &mut BufferStore,
)
    ensures
        exists|es: Seq<Envelope>, ss: Seq<Seq<Seq<u8>>>|
            {
                &&& es.len() == transfer@.len() + 1
                &&& ss.len() == transfer@.len() + 1
                &&& es[0] == *old(envelope)
                &&& ss[0] == old(store)@
                &&& es.last() == *final(envelope)
                &&& ss.last() == final(store)@
                &&& forall|i: int|
                    0 <= i < transfer@.len() ==> #[trigger] transfer_step(
                        es[i],
                        es[i + 1],
                        ss[i],
                        ss[i + 1],
                        transfer@[i],
                    )
            },
        forall|i: int|
            0 <= i < transfer@.len() && #[trigger] transfer@[i] is Buffer && transfer@[i]->Buffer_0@
                < old(store)@.len() ==> held(final(store)@, transfer@[i]->Buffer_0@).len() == 0,
{
    let ghost mut es: Seq<Envelope> = seq![*envelope];
    let ghost mut ss: Seq<Seq<Seq<u8>>> = seq![store@];
    let mut i: usize = 0;
    while i < transfer.len()
        invariant
            i <= transfer@.len(),
            es.len() == i + 1,
            ss.len() == i + 1,
            es[0] == *old(envelope),
            ss[0] == old(store)@,
            es.last() == *envelope,
            ss.last() == store@,
            old(store)@.len() <= store@.len(),
            forall|j: int|
                0 <= j < i ==> #[trigger] transfer_step(es[j], es[j + 1], ss[j], ss[j + 1], transfer@[j]),
            forall|j: int|
                0 <= j < i && #[trigger] transfer@[j] is Buffer && transfer@[j]->Buffer_0@
                    < old(store)@.len() ==> held(store@, transfer@[j]->Buffer_0@).len() == 0,
        decreases transfer.len() - i,
    {
        let ghost e0 = *envelope;
        let ghost s0 = store@;
        match &transfer[i] {
            Transferable::Buffer(buf) => {
                let bytes = buf.detach(store);
                let _ = place_in_envelope(envelope, *buf, bytes, store);
                proof {
                    assert(transfer_step(e0, *envelope, s0, store@, transfer@[i as int]));
                    assert forall|j: int|
                        0 <= j <= i && #[trigger] transfer@[j] is Buffer && transfer@[j]->Buffer_0@
                        < old(store)@.len() implies held(store@, transfer@[j]->Buffer_0@).len() == 0 by {
                        if let Transferable::Buffer(b) = transfer@[j] {
                            if b@ < old(store)@.len() {
                                if j < i {
                                    assert(held(s0, b@).len() == 0);
                                }
                            }
                        }
                    }
                }
            },
            Transferable::Port(_) => {},
        }
        proof {
            let es1 = es.push(*envelope);
            let ss1 = ss.push(store@);
            assert forall|j: int| 0 <= j <= i implies #[trigger] transfer_step(
                es1[j],
                es1[j + 1],
                ss1[j],
                ss1[j + 1],
                transfer@[j],
            ) by {
                if j < i {
                    assert(es1[j] == es[j] && es1[j + 1] == es[j + 1]);
                    assert(ss1[j] == ss[j] && ss1[j + 1] == ss[j + 1]);
                    assert(transfer_step(es[j], es[j + 1], ss[j], ss[j + 1], transfer@[j]));
                }
            }
            es = es1;
            ss = ss1;
        }
        i = i + 1;
    }
}

} // verus!
