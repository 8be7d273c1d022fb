//! The structured-clone value model.
//!
//! The set of things that can travel between two endpoints is spelled out as
//! one enum. Objects keep their properties as a vector of `(key, value)` pairs
//! ordered by the keys' UTF-8 bytes, which is the order an ordered string map
//! would give them; every operation here keeps that order and keeps keys unique.
use vstd::prelude::*;
use vstd::utf8::encode_utf8;

verus! {

broadcast use vstd::utf8::encode_utf8_decode_utf8;

// ------------------------------------------------------------------------- //
// Shared byte buffers                                                        //
// ------------------------------------------------------------------------- //

/// The bytes of every buffer, by buffer id. A buffer is an id into a store;
/// copies of a buffer name the same bytes, so detaching one detaches them all.
pub struct BufferStore {
    buffers: Vec<Vec<u8>>,
}

impl View for BufferStore {
    type V = Seq<Seq<u8>>;

    closed spec fn view(&self) -> Seq<Seq<u8>> {
        self.buffers@.map_values(|b: Vec<u8>| b@)
    }
}

/// The bytes buffer `id` holds in `store`; an id the store never handed out
/// holds none.
pub open spec fn held(store: Seq<Seq<u8>>, id: usize) -> Seq<u8> {
    if id < store.len() {
        store[id as int]
    } else {
        Seq::empty()
    }
}

/// `store` after buffer `id` is detached: it holds no bytes.
pub open spec fn detached(store: Seq<Seq<u8>>, id: usize) -> Seq<Seq<u8>> {
    if id < store.len() {
        store.update(id as int, Seq::empty())
    } else {
        store
    }
}

impl BufferStore {
    /// A store with no buffers.
    pub fn new() -> (r: BufferStore)
        ensures
            r@ == Seq::<Seq<u8>>::empty(),
    {
        BufferStore { buffers: Vec::new() }
    }
}

/// A byte buffer that can be transferred rather than copied: the id of its
/// bytes in a `BufferStore`. Copies name the same buffer.
#[derive(Clone, Copy, Debug, PartialEq, Eq, Structural)]
pub struct ArrayBuffer {
    id: usize,
}

impl View for ArrayBuffer {
    type V = usize;

    closed spec fn view(&self) -> usize {
        self.id
    }
}

/// A buffer is its id.
pub proof fn lemma_buffer_is_its_id(a: ArrayBuffer, b: ArrayBuffer)
    ensures
        (a == b) <==> (a@ == b@),
{
}

impl ArrayBuffer {
    /// A new buffer holding `bytes`, distinct from every buffer made before.
    pub fn new(store: &mut BufferStore, bytes: Vec<u8>) -> (r: ArrayBuffer)
        ensures
            r@ == old(store)@.len(),
            final(store)@ == old(store)@.push(bytes@),
    {
        let id = store.buffers.len();
        store.buffers.push(bytes);
        proof {
            assert(store@ =~= old(store)@.push(bytes@));
        }
        ArrayBuffer { id }
    }

    /// The number of bytes the buffer holds.
    pub fn byte_length(&self, store: &BufferStore) -> (r: usize)
        ensures
            r == held(store@, self@).len(),
    {
        if self.id < store.buffers.len() {
            store.buffers[self.id].len()
        } else {
            0
        }
    }

    /// A copy of the bytes the buffer holds.
    pub fn to_vec(&self, store: &BufferStore) -> (r: Vec<u8>)
        ensures
            r@ == held(store@, self@),
    {
        if self.id < store.buffers.len() {
            store.buffers[self.id].clone()
        } else {
            Vec::new()
        }
    }

    /// Hands out the bytes and leaves the buffer empty, for every copy of it.
    pub fn detach(&self, store: &mut BufferStore) -> (r: Vec<u8>)
        ensures
            r@ == held(old(store)@, self@),
            final(store)@ == detached(old(store)@, self@),
    {
        if self.id < store.buffers.len() {
            let mut taken: Vec<u8> = Vec::new();
            std::mem::swap(&mut taken, &mut store.buffers[self.id]);
            proof {
                assert(store@ =~= detached(old(store)@, self@));
            }
            taken
        } else {
            Vec::new()
        }
    }

    /// Identity, not contents: is this the very same buffer?
    pub fn same(&self, other: &ArrayBuffer) -> (r: bool)
        ensures
            r == (self@ == other@),
    {
        self.id == other.id
    }

    /// Whether the buffer holds no bytes, as a detached buffer does.
    pub fn is_detached(&self, store: &BufferStore) -> (r: bool)
        ensures
            r == (held(store@, self@).len() == 0),
    {
        self.byte_length(store) == 0
    }

    /// Buffer equality: the same buffer, or two holding the same bytes.
    pub fn equals(&self, other: &ArrayBuffer, store: &BufferStore) -> (r: bool)
        ensures
            r == (self@ == other@ || held(store@, self@) == held(store@, other@)),
    {
        if self.same(other) {
            return true;
        }
        let a = self.to_vec(store);
        let b = other.to_vec(store);
        compare_bytes(a.as_slice(), b.as_slice()) == 0
    }
}

// ------------------------------------------------------------------------- //
// Keys: byte order and array indices                                         //
// ------------------------------------------------------------------------- //

/// Lexicographic order on byte strings, the order in which `str` compares.
pub open spec fn bytes_lt(a: Seq<u8>, b: Seq<u8>) -> bool
    decreases a.len(),
{
    if b.len() == 0 {
        false
    } else if a.len() == 0 {
        true
    } else if a[0] != b[0] {
        a[0] < b[0]
    } else {
        bytes_lt(a.drop_first(), b.drop_first())
    }
}

/// `bytes_lt` is irreflexive.
pub proof fn lemma_bytes_lt_irreflexive(a: Seq<u8>)
    ensures
        !bytes_lt(a, a),
    decreases a.len(),
{
    if a.len() > 0 {
        lemma_bytes_lt_irreflexive(a.drop_first());
    }
}

/// `bytes_lt` is transitive.
pub proof fn lemma_bytes_lt_transitive(a: Seq<u8>, b: Seq<u8>, c: Seq<u8>)
    requires
        bytes_lt(a, b),
        bytes_lt(b, c),
    ensures
        bytes_lt(a, c),
    decreases a.len(),
{
    if a.len() > 0 && b.len() > 0 && c.len() > 0 && a[0] == b[0] && b[0] == c[0] {
        lemma_bytes_lt_transitive(a.drop_first(), b.drop_first(), c.drop_first());
    }
}

/// `bytes_lt` is total on distinct byte strings.
pub proof fn lemma_bytes_lt_total(a: Seq<u8>, b: Seq<u8>)
    requires
        a != b,
    ensures
        bytes_lt(a, b) || bytes_lt(b, a),
    decreases a.len(),
{
    if a.len() > 0 && b.len() > 0 && a[0] == b[0] {
        if a.drop_first() == b.drop_first() {
            assert(a =~= seq![a[0]] + a.drop_first());
            assert(b =~= seq![b[0]] + b.drop_first());
        }
        lemma_bytes_lt_total(a.drop_first(), b.drop_first());
    } else if a.len() == 0 && b.len() == 0 {
        assert(a =~= b);
    }
}

/// Whether two strings are equal.
pub(crate) fn same_text(a: &str, b: &str) -> (r: bool)
    ensures
        r == (a@ == b@),
{
    let c = compare_bytes(a.as_bytes(), b.as_bytes());
    proof {
        if c == 0 {
            lemma_key_bytes_injective(a@, b@);
        }
    }
    c == 0
}

/// Three-way comparison of byte strings: -1, 0 or 1 as `a` sorts before,
/// equal to, or after `b`.
pub fn compare_bytes(a: &[u8], b: &[u8]) -> (r: i8)
    ensures
        r == -1 <==> bytes_lt(a@, b@),
        r == 0 <==> a@ == b@,
        r == 1 <==> bytes_lt(b@, a@),
        -1 <= r <= 1,
{
    let mut i: usize = 0;
    assert(a@.skip(0) =~= a@);
    assert(b@.skip(0) =~= b@);
    while i < a.len() && i < b.len()
        invariant
            i <= a.len(),
            i <= b.len(),
            a@.subrange(0, i as int) == b@.subrange(0, i as int),
            bytes_lt(a@, b@) == bytes_lt(a@.skip(i as int), b@.skip(i as int)),
            bytes_lt(b@, a@) == bytes_lt(b@.skip(i as int), a@.skip(i as int)),
        decreases a.len() - i,
    {
        assert(a@.skip(i as int).drop_first() =~= a@.skip(i + 1));
        assert(b@.skip(i as int).drop_first() =~= b@.skip(i + 1));
        if a[i] < b[i] {
            assert(a@ != b@ && a@[i as int] != b@[i as int]);
            return -1;
        } else if a[i] > b[i] {
            assert(a@ != b@ && a@[i as int] != b@[i as int]);
            return 1;
        }
        assert(a@.subrange(0, i + 1) =~= a@.subrange(0, i as int).push(a@[i as int]));
        assert(b@.subrange(0, i + 1) =~= b@.subrange(0, i as int).push(b@[i as int]));
        i = i + 1;
    }
    if a.len() == b.len() {
        assert(a@ =~= a@.subrange(0, i as int));
        assert(b@ =~= b@.subrange(0, i as int));
        proof { lemma_bytes_lt_irreflexive(a@); }
        0
    } else if a.len() < b.len() {
        assert(a@.skip(i as int).len() == 0);
        assert(a@.len() != b@.len());
        -1
    } else {
        assert(b@.skip(i as int).len() == 0);
        assert(a@.len() != b@.len());
        1
    }
}

/// The bytes of a key, as UTF-8.
pub open spec fn key_bytes(key: Seq<char>) -> Seq<u8> {
    encode_utf8(key)
}

/// Two keys with the same bytes are the same key.
pub proof fn lemma_key_bytes_injective(a: Seq<char>, b: Seq<char>)
    requires
        key_bytes(a) == key_bytes(b),
    ensures
        a == b,
{
    vstd::utf8::encode_utf8_decode_utf8(a);
    vstd::utf8::encode_utf8_decode_utf8(b);
}

/// The value of a string of ASCII decimal digits.
pub open spec fn digits_value(digits: Seq<u8>) -> nat
    decreases digits.len(),
{
    if digits.len() == 0 {
        0
    } else {
        digits_value(digits.drop_last()) * 10 + (digits.last() - 48) as nat
    }
}

pub open spec fn is_digit(b: u8) -> bool {
    48 <= b <= 57
}

pub open spec fn all_digits(digits: Seq<u8>) -> bool {
    forall|i: int| 0 <= i < digits.len() ==> is_digit(#[trigger] digits[i])
}

/// What `usize::from_str` accepts: an optional `+`, then one or more ASCII
/// digits, whose value fits in a `usize`.
pub open spec fn index_digits(bytes: Seq<u8>) -> Seq<u8> {
    if bytes.len() > 0 && bytes[0] == 43 {
        bytes.drop_first()
    } else {
        bytes
    }
}

pub open spec fn parse_index_spec(bytes: Seq<u8>) -> Option<nat> {
    let digits = index_digits(bytes);
    if digits.len() > 0 && all_digits(digits) && digits_value(digits) <= usize::MAX {
        Some(digits_value(digits))
    } else {
        None
    }
}

/// Extending a digit string never makes its value smaller.
proof fn lemma_digits_value_monotone(digits: Seq<u8>, k: int)
    requires
        0 <= k <= digits.len(),
        all_digits(digits),
    ensures
        digits_value(digits.subrange(0, k)) <= digits_value(digits),
    decreases digits.len() - k,
{
    if k < digits.len() {
        lemma_digits_value_monotone(digits, k + 1);
        let longer = digits.subrange(0, k + 1);
        assert(longer.drop_last() =~= digits.subrange(0, k));
        assert(is_digit(digits[k]));
    } else {
        assert(digits.subrange(0, k) =~= digits);
    }
}

/// Parses an array index the way `usize::from_str` does.
pub fn parse_index(key: &str) -> (r: Option<usize>)
    ensures
        match parse_index_spec(key_bytes(key@)) {
            Some(n) => r == Some(n as usize),
            None => r is None,
        },
{
    let bytes = key.as_bytes();
    let ghost all = bytes@;
    assert(all == key_bytes(key@));
    let mut start: usize = 0;
    if bytes.len() > 0 && bytes[0] == 43 {
        start = 1;
    }
    let ghost digits = index_digits(all);
    assert(digits =~= all.subrange(start as int, all.len() as int));
    if start >= bytes.len() {
        return None;
    }
    let mut acc: usize = 0;
    let mut i: usize = start;
    while i < bytes.len()
        invariant
            start <= i <= bytes.len(),
            bytes@ == all,
            all == key_bytes(key@),
            digits == index_digits(all),
            digits == all.subrange(start as int, all.len() as int),
            all_digits(digits.subrange(0, i - start)),
            acc as nat == digits_value(digits.subrange(0, i - start)),
        decreases bytes.len() - i,
    {
        let b = bytes[i];
        let ghost k = (i - start) as int;
        assert(digits[k] == b);
        if b < 48 || b > 57 {
            assert(!is_digit(digits[k]));
            assert(!all_digits(digits));
            return None;
        }
        assert(digits.subrange(0, k + 1).drop_last() =~= digits.subrange(0, k));
        assert(all_digits(digits.subrange(0, k + 1)));
        let d = (b - 48) as usize;
        let next = match acc.checked_mul(10) {
            Some(m) => m.checked_add(d),
            None => None,
        };
        match next {
            Some(n) => {
                acc = n;
            },
            None => {
                proof {
                    let longer = digits.subrange(0, k + 1);
                    assert(longer.last() == b);
                    assert(digits_value(longer) == acc * 10 + d);
                    if all_digits(digits) {
                        lemma_digits_value_monotone(digits, k + 1);
                    }
                }
                return None;
            },
        }
        i = i + 1;
    }
    assert(digits.subrange(0, i - start) =~= digits);
    Some(acc)
}

// ------------------------------------------------------------------------- //
// Values                                                                     //
// ------------------------------------------------------------------------- //

/// A value that survives the trip between two endpoints.
#[derive(Debug)]
pub enum Value {
    Undefined,
    Null,
    Bool(bool),
    /// A number, held as the bits of its IEEE-754 double.
    Number(u64),
    String(String),
    /// A copied byte sequence -- the typed-array analogue.
    Bytes(Vec<u8>),
    /// A transferable byte buffer.
    Buffer(ArrayBuffer),
    Array(Vec<Value>),
    /// Properties in increasing byte order of their keys, each key once.
    Object(Vec<(String, Value)>),
    /// A transferred message port, by the id the endpoint layer gave it.
    Port(u64),
}

/// `i` is the first position of `key` among the entries.
pub open spec fn is_first_key(entries: Seq<(String, Value)>, key: Seq<char>, i: int) -> bool {
    &&& 0 <= i < entries.len()
    &&& entries[i].0@ == key
    &&& forall|j: int| 0 <= j < i ==> entries[j].0@ != key
}

/// The value stored under `key`: the first entry with that key.
pub open spec fn entries_get(entries: Seq<(String, Value)>, key: Seq<char>) -> Option<Value> {
    if exists|i: int| is_first_key(entries, key, i) {
        Some(entries[choose|i: int| is_first_key(entries, key, i)].1)
    } else {
        None
    }
}

/// Keys strictly increase in byte order, so none occurs twice.
pub open spec fn entries_ordered(entries: Seq<(String, Value)>) -> bool {
    forall|i: int, j: int|
        0 <= i < j < entries.len() ==> bytes_lt(
            key_bytes(#[trigger] entries[i].0@),
            key_bytes(#[trigger] entries[j].0@),
        )
}

/// The first position of a key determines the lookup.
pub proof fn lemma_first_key_get(entries: Seq<(String, Value)>, key: Seq<char>, i: int)
    requires
        is_first_key(entries, key, i),
    ensures
        entries_get(entries, key) == Some(entries[i].1),
{
    let j = choose|j: int| is_first_key(entries, key, j);
    assert(is_first_key(entries, key, j));
    if j < i {
        assert(entries[j].0@ != key);
    } else if i < j {
        assert(entries[i].0@ != key);
    }
}

/// In ordered entries, every position of a key is its first.
pub proof fn lemma_ordered_get(entries: Seq<(String, Value)>, key: Seq<char>, i: int)
    requires
        entries_ordered(entries),
        0 <= i < entries.len(),
        entries[i].0@ == key,
    ensures
        entries_get(entries, key) == Some(entries[i].1),
{
    assert forall|j: int| 0 <= j < i implies entries[j].0@ != key by {
        if entries[j].0@ == key {
            assert(bytes_lt(key_bytes(entries[j].0@), key_bytes(entries[i].0@)));
            lemma_bytes_lt_irreflexive(key_bytes(key));
        }
    }
    lemma_first_key_get(entries, key, i);
}

/// Looks a key up: the first entry with that key, as `entries_get` says.
pub fn entries_find(entries: &Vec<(String, Value)>, key: &str) -> (r: Option<usize>)
    ensures
        match r {
            Some(i) => is_first_key(entries@, key@, i as int),
            None => entries_get(entries@, key@) is None,
        },
{
    let mut i: usize = 0;
    while i < entries.len()
        invariant
            i <= entries.len(),
            forall|j: int| 0 <= j < i ==> entries@[j].0@ != key@,
        decreases entries.len() - i,
    {
        let found = entries[i].0.as_str().as_bytes();
        let wanted = key.as_bytes();
        if compare_bytes(found, wanted) == 0 {
            proof {
                lemma_key_bytes_injective(entries@[i as int].0@, key@);
            }
            return Some(i);
        }
        i = i + 1;
    }
    None
}

/// Where `key` goes in entries ordered by key: `Ok(i)` when the entry at `i`
/// holds it, `Err(p)` when it belongs at `p`.
fn entries_slot(entries: &Vec<(String, Value)>, key: &str) -> (r: Result<usize, usize>)
    ensures
        match r {
            Ok(i) => is_first_key(entries@, key@, i as int),
            Err(p) => {
                &&& p <= entries.len()
                &&& forall|j: int| 0 <= j < p ==> bytes_lt(
                    key_bytes(#[trigger] entries@[j].0@),
                    key_bytes(key@),
                )
                &&& p < entries.len() ==> bytes_lt(key_bytes(key@), key_bytes(entries@[p as int].0@))
            },
        },
{
    let mut i: usize = 0;
    while i < entries.len()
        invariant
            i <= entries.len(),
            forall|j: int| 0 <= j < i ==> bytes_lt(
                key_bytes(#[trigger] entries@[j].0@),
                key_bytes(key@),
            ),
        decreases entries.len() - i,
    {
        let found = entries[i].0.as_str().as_bytes();
        let wanted = key.as_bytes();
        let c = compare_bytes(wanted, found);
        if c == 0 {
            proof {
                lemma_key_bytes_injective(entries@[i as int].0@, key@);
                assert forall|j: int| 0 <= j < i implies entries@[j].0@ != key@ by {
                    if entries@[j].0@ == key@ {
                        lemma_bytes_lt_irreflexive(key_bytes(key@));
                    }
                }
            }
            return Ok(i);
        } else if c == -1 {
            return Err(i);
        }
        i = i + 1;
    }
    Err(i)
}

/// Replacing the value at the first position of a key changes the lookup of
/// that key only.
proof fn lemma_replace_get(
    before: Seq<(String, Value)>,
    after: Seq<(String, Value)>,
    i: int,
    key: Seq<char>,
    value: Value,
)
    requires
        is_first_key(before, key, i),
        after.len() == before.len(),
        after[i].0@ == key,
        after[i].1 == value,
        forall|j: int| 0 <= j < before.len() && j != i ==> after[j] == before[j],
    ensures
        forall|k: Seq<char>|
            #[trigger] entries_get(after, k) == if k == key {
                Some(value)
            } else {
                entries_get(before, k)
            },
{
    assert forall|k: Seq<char>|
        #[trigger] entries_get(after, k) == if k == key {
            Some(value)
        } else {
            entries_get(before, k)
        } by {
        assert forall|m: int| #[trigger] is_first_key(after, k, m) <==> is_first_key(before, k, m) by {
            if m == i {
            } else if 0 <= m < before.len() {
                assert(after[m] == before[m]);
                assert forall|q: int| 0 <= q < m implies (after[q].0@ == k <==> before[q].0@ == k) by {
                    if q != i {
                        assert(after[q] == before[q]);
                    }
                }
            }
        }
        if k == key {
            lemma_first_key_get(after, k, i);
        } else if exists|m: int| is_first_key(before, k, m) {
            let m = choose|m: int| is_first_key(before, k, m);
            lemma_first_key_get(after, k, m);
            lemma_first_key_get(before, k, m);
        }
    }
}

/// Inserting an entry for a key at a position that no earlier entry holds it
/// makes the entry the key's value, and leaves every other key's lookup alone.
proof fn lemma_insert_get(
    before: Seq<(String, Value)>,
    after: Seq<(String, Value)>,
    p: int,
    key: Seq<char>,
    value: Value,
)
    requires
        0 <= p <= before.len(),
        after.len() == before.len() + 1,
        after[p].0@ == key,
        after[p].1 == value,
        forall|j: int| 0 <= j < p ==> after[j] == before[j],
        forall|j: int| p < j < after.len() ==> after[j] == before[j - 1],
        forall|j: int| 0 <= j < p ==> before[j].0@ != key,
    ensures
        forall|k: Seq<char>|
            #[trigger] entries_get(after, k) == if k == key {
                Some(value)
            } else {
                entries_get(before, k)
            },
{
    assert forall|k: Seq<char>|
        #[trigger] entries_get(after, k) == if k == key {
            Some(value)
        } else {
            entries_get(before, k)
        } by {
        if k == key {
            lemma_first_key_get(after, k, p);
        } else {
            assert forall|m: int| #[trigger] is_first_key(before, k, m)
                implies is_first_key(after, k, if m < p { m } else { m + 1 }) by {
                let m2 = if m < p { m } else { m + 1 };
                assert forall|q: int| 0 <= q < m2 implies after[q].0@ != k by {
                    if q > p {
                        assert(after[q] == before[q - 1]);
                    }
                }
            }
            assert forall|m: int| #[trigger] is_first_key(after, k, m)
                implies is_first_key(before, k, if m < p { m } else { m - 1 }) by {
                let m0 = if m < p { m } else { m - 1 };
                assert(m != p);
                assert forall|q: int| 0 <= q < m0 implies before[q].0@ != k by {
                    if q >= p {
                        assert(after[q + 1] == before[q]);
                    }
                }
            }
            if exists|m: int| is_first_key(before, k, m) {
                let m = choose|m: int| is_first_key(before, k, m);
                let m2 = if m < p { m } else { m + 1 };
                assert(is_first_key(after, k, m2));
                lemma_first_key_get(after, k, m2);
                lemma_first_key_get(before, k, m);
            } else if exists|m: int| is_first_key(after, k, m) {
                let m = choose|m: int| is_first_key(after, k, m);
                assert(is_first_key(before, k, if m < p { m } else { m - 1 }));
            }
        }
    }
}

/// Inserting between strictly smaller and strictly larger keys keeps the
/// entries ordered, and the key was nowhere before.
proof fn lemma_insert_ordered(
    before: Seq<(String, Value)>,
    after: Seq<(String, Value)>,
    p: int,
    key: Seq<char>,
)
    requires
        entries_ordered(before),
        0 <= p <= before.len(),
        after.len() == before.len() + 1,
        after[p].0@ == key,
        forall|j: int| 0 <= j < p ==> after[j] == before[j],
        forall|j: int| p < j < after.len() ==> after[j] == before[j - 1],
        forall|j: int| 0 <= j < p ==> bytes_lt(key_bytes(#[trigger] before[j].0@), key_bytes(key)),
        p < before.len() ==> bytes_lt(key_bytes(key), key_bytes(before[p].0@)),
    ensures
        entries_ordered(after),
        forall|j: int| 0 <= j < before.len() ==> before[j].0@ != key,
{
    assert forall|a: int, b: int| 0 <= a < b < after.len() implies bytes_lt(
        key_bytes(#[trigger] after[a].0@),
        key_bytes(#[trigger] after[b].0@),
    ) by {
        if b < p {
            assert(after[a] == before[a] && after[b] == before[b]);
        } else if b == p {
            assert(after[a] == before[a]);
        } else if a > p {
            assert(after[a] == before[a - 1] && after[b] == before[b - 1]);
        } else if a == p {
            assert(after[b] == before[b - 1]);
            if b - 1 > p {
                lemma_bytes_lt_transitive(
                    key_bytes(key),
                    key_bytes(before[p].0@),
                    key_bytes(before[b - 1].0@),
                );
            }
        } else {
            assert(after[a] == before[a] && after[b] == before[b - 1]);
            assert(bytes_lt(key_bytes(before[a].0@), key_bytes(key)));
            if b - 1 > p {
                lemma_bytes_lt_transitive(
                    key_bytes(before[a].0@),
                    key_bytes(key),
                    key_bytes(before[p].0@),
                );
                lemma_bytes_lt_transitive(
                    key_bytes(before[a].0@),
                    key_bytes(before[p].0@),
                    key_bytes(before[b - 1].0@),
                );
            } else {
                lemma_bytes_lt_transitive(
                    key_bytes(before[a].0@),
                    key_bytes(key),
                    key_bytes(before[p].0@),
                );
            }
        }
    }
    assert forall|j: int| 0 <= j < before.len() implies before[j].0@ != key by {
        if before[j].0@ == key {
            if j < p {
                assert(bytes_lt(key_bytes(before[j].0@), key_bytes(key)));
            } else if j == p {
            } else {
                assert(bytes_lt(key_bytes(before[p].0@), key_bytes(before[j].0@)));
                lemma_bytes_lt_transitive(key_bytes(key), key_bytes(before[p].0@), key_bytes(key));
            }
            lemma_bytes_lt_irreflexive(key_bytes(key));
        }
    }
}

/// Stores `value` under `key`, replacing what was there.
pub fn entries_insert(entries: &mut Vec<(String, Value)>, key: String, value: Value)
    ensures
        forall|k: Seq<char>|
            #[trigger] entries_get(final(entries)@, k) == if k == key@ {
                Some(value)
            } else {
                entries_get(old(entries)@, k)
            },
        entries_ordered(old(entries)@) ==> entries_ordered(final(entries)@),
        entries_ordered(old(entries)@) ==> final(entries)@.len() == old(entries)@.len() + if entries_get(
            old(entries)@,
            key@,
        ) is Some {
            0int
        } else {
            1int
        },
{
    let ghost before = entries@;
    let ghost kv = key@;
    match entries_slot(entries, key.as_str()) {
        Ok(i) => {
            entries.set(i, (key, value));
            proof {
                lemma_replace_get(before, entries@, i as int, kv, value);
                lemma_first_key_get(before, kv, i as int);
                if entries_ordered(before) {
                    let after = entries@;
                    assert forall|a: int, b: int| 0 <= a < b < after.len() implies bytes_lt(
                        key_bytes(#[trigger] after[a].0@),
                        key_bytes(#[trigger] after[b].0@),
                    ) by {
                        assert(after[a].0@ == before[a].0@);
                        assert(after[b].0@ == before[b].0@);
                    }
                }
            }
        },
        Err(p) => {
            entries.insert(p, (key, value));
            proof {
                let after = entries@;
                assert forall|j: int| 0 <= j < p implies before[j].0@ != kv by {
                    if before[j].0@ == kv {
                        lemma_bytes_lt_irreflexive(key_bytes(kv));
                    }
                }
                lemma_insert_get(before, after, p as int, kv, value);
                if entries_ordered(before) {
                    lemma_insert_ordered(before, after, p as int, kv);
                }
            }
        },
    }
}

// ------------------------------------------------------------------------- //
// Walking and writing paths                                                  //
// ------------------------------------------------------------------------- //

/// The keys of a path, as character sequences.
pub open spec fn path_keys(path: Seq<String>) -> Seq<Seq<char>> {
    path.map_values(|s: String| s@)
}

/// One step down: a property of an object, or an element of an array named by
/// its decimal index.
pub open spec fn child(v: Value, key: Seq<char>) -> Option<Value> {
    match v {
        Value::Object(entries) => entries_get(entries@, key),
        Value::Array(items) => match parse_index_spec(key_bytes(key)) {
            Some(n) => if n < items@.len() {
                Some(items@[n as int])
            } else {
                None
            },
            None => None,
        },
        _ => None,
    }
}

/// The value a path leads to, if every step exists.
pub open spec fn value_at(v: Value, path: Seq<Seq<char>>) -> Option<Value>
    decreases path.len(),
{
    if path.len() == 0 {
        Some(v)
    } else {
        match child(v, path[0]) {
            Some(c) => value_at(c, path.drop_first()),
            None => None,
        }
    }
}

/// `key` can be assigned in `v`: `v` is an object, or an array and `key` an
/// index inside it.
pub open spec fn assignable(v: Value, key: Seq<char>) -> bool {
    match v {
        Value::Object(_) => true,
        Value::Array(items) => match parse_index_spec(key_bytes(key)) {
            Some(n) => n < items@.len(),
            None => false,
        },
        _ => false,
    }
}

/// A write through `path` succeeds: the path is not empty, its parents lead
/// somewhere, and the last key can be assigned there.
pub open spec fn writable(v: Value, path: Seq<Seq<char>>) -> bool {
    &&& path.len() > 0
    &&& match value_at(v, path.drop_last()) {
        Some(parent) => assignable(parent, path.last()),
        None => false,
    }
}

/// `fin` is `before` with `new` assigned under `key`.
pub open spec fn assigned(before: Value, key: Seq<char>, new: Value, fin: Value) -> bool {
    match (before, fin) {
        (Value::Object(e), Value::Object(f)) => {
            &&& forall|k: Seq<char>|
                #[trigger] entries_get(f@, k) == if k == key {
                    Some(new)
                } else {
                    entries_get(e@, k)
                }
            &&& entries_ordered(e@) ==> entries_ordered(f@)
        },
        (Value::Array(items), Value::Array(g)) => match parse_index_spec(key_bytes(key)) {
            Some(n) => n < items@.len() && g@ == items@.update(n as int, new),
            None => false,
        },
        _ => false,
    }
}

/// `fin` is `before` with `new` written at the end of `path`, everything else
/// left as it was.
pub open spec fn written(before: Value, path: Seq<Seq<char>>, new: Value, fin: Value) -> bool
    decreases path.len(),
{
    if path.len() == 0 {
        false
    } else if path.len() == 1 {
        assigned(before, path[0], new, fin)
    } else {
        match (before, fin) {
            (Value::Object(e), Value::Object(f)) => {
                &&& exists|i: int| is_first_key(e@, path[0], i)
                &&& {
                    let i = choose|i: int| is_first_key(e@, path[0], i);
                    &&& f@.len() == e@.len()
                    &&& f@[i].0@ == e@[i].0@
                    &&& forall|j: int| 0 <= j < e@.len() && j != i ==> f@[j] == e@[j]
                    &&& written(e@[i].1, path.drop_first(), new, f@[i].1)
                }
            },
            (Value::Array(items), Value::Array(g)) => match parse_index_spec(key_bytes(path[0])) {
                Some(n) => {
                    &&& n < items@.len()
                    &&& g@.len() == items@.len()
                    &&& forall|j: int| 0 <= j < items@.len() && j != n ==> g@[j] == items@[j]
                    &&& written(items@[n as int], path.drop_first(), new, g@[n as int])
                },
                None => false,
            },
            _ => false,
        }
    }
}

/// The value stored last under `key` among `pairs`.
pub open spec fn last_pair(pairs: Seq<(&str, Value)>, key: Seq<char>) -> Option<Value>
    decreases pairs.len(),
{
    if pairs.len() == 0 {
        None
    } else if pairs.last().0@ == key {
        Some(pairs.last().1)
    } else {
        last_pair(pairs.drop_last(), key)
    }
}

/// What JavaScript's `typeof` answers. `null` is an `"object"`.
pub open spec fn js_typeof(v: Value) -> Seq<char> {
    match v {
        Value::Undefined => "undefined"@,
        Value::Bool(_) => "boolean"@,
        Value::Number(_) => "number"@,
        Value::String(_) => "string"@,
        _ => "object"@,
    }
}

/// `b` is a copy of `a`: the same value, with vectors compared by their
/// contents and buffers by the buffer they share.
pub open spec fn same_value(a: Value, b: Value) -> bool
    decreases a,
{
    match a {
        Value::Bytes(x) => b is Bytes && x@ == b->Bytes_0@,
        Value::Array(x) => {
            &&& b is Array
            &&& x@.len() == b->Array_0@.len()
            &&& forall|i: int|
                0 <= i < x@.len() ==> same_value(x@[i], #[trigger] b->Array_0@[i])
        },
        Value::Object(x) => {
            &&& b is Object
            &&& x@.len() == b->Object_0@.len()
            &&& forall|i: int|
                0 <= i < x@.len() ==> x@[i].0 == (#[trigger] b->Object_0@[i]).0 && same_value(
                    x@[i].1,
                    b->Object_0@[i].1,
                )
        },
        _ => a == b,
    }
}

/// Every value is a copy of itself.
pub proof fn lemma_same_value_refl(v: Value)
    ensures
        same_value(v, v),
    decreases v,
{
    match v {
        Value::Array(x) => {
            assert forall|i: int| 0 <= i < x@.len() implies same_value(
                x@[i],
                #[trigger] v->Array_0@[i],
            ) by {
                lemma_same_value_refl(x@[i]);
            }
        },
        Value::Object(x) => {
            assert forall|i: int| 0 <= i < x@.len() implies x@[i].0 == (
            #[trigger] v->Object_0@[i]).0 && same_value(x@[i].1, v->Object_0@[i].1) by {
                lemma_same_value_refl(x@[i].1);
            }
        },
        _ => {},
    }
}

fn clone_value(v: &Value) -> (r: Value)
    ensures
        same_value(*v, r),
    decreases v,
{
    match v {
        Value::Undefined => Value::Undefined,
        Value::Null => Value::Null,
        Value::Bool(b) => Value::Bool(*b),
        Value::Number(n) => Value::Number(*n),
        Value::String(s) => Value::String(s.clone()),
        Value::Bytes(b) => {
            let c = b.clone();
            assert(c@ =~= b@) by {
                assert forall|i: int| 0 <= i < b@.len() implies #[trigger] c@[i] == b@[i] by {
                    assert(cloned::<u8>(b[i], c[i]));
                }
            }
            Value::Bytes(c)
        },
        Value::Buffer(b) => Value::Buffer(b.clone()),
        Value::Array(items) => {
            let mut out: Vec<Value> = Vec::new();
            let mut i: usize = 0;
            #[verifier::loop_isolation(false)]
            while i < items.len()
                invariant
                    i <= items@.len(),
                    out@.len() == i,
                    forall|j: int| 0 <= j < i ==> same_value(items@[j], #[trigger] out@[j]),
                decreases items.len() - i,
            {
                proof {
                    broadcast use vstd::std_specs::vec::group_vec_axioms;
                    assert(decreases_to!(*items => items@));
                    assert(decreases_to!(items@ => items@[i as int]));
                }
                out.push(clone_value(&items[i]));
                i = i + 1;
            }
            let r = Value::Array(out);
            assert(same_value(*v, r));
            r
        },
        Value::Object(entries) => {
            let mut out: Vec<(String, Value)> = Vec::new();
            let mut i: usize = 0;
            #[verifier::loop_isolation(false)]
            while i < entries.len()
                invariant
                    i <= entries@.len(),
                    out@.len() == i,
                    forall|j: int|
                        0 <= j < i ==> entries@[j].0 == (#[trigger] out@[j]).0 && same_value(
                            entries@[j].1,
                            out@[j].1,
                        ),
                decreases entries.len() - i,
            {
                proof {
                    broadcast use vstd::std_specs::vec::group_vec_axioms;
                    assert(decreases_to!(*entries => entries@));
                    assert(decreases_to!(entries@ => entries@[i as int]));
                    assert(decreases_to!(entries@[i as int] => entries@[i as int].1));
                }
                out.push((entries[i].0.clone(), clone_value(&entries[i].1)));
                i = i + 1;
            }
            let r = Value::Object(out);
            assert(same_value(*v, r));
            r
        },
        Value::Port(p) => Value::Port(*p),
    }
}

/// The bits of a NaN: every exponent bit set and some mantissa bit set.
pub open spec fn nan_bits(x: u64) -> bool {
    &&& x & 0x7ff0_0000_0000_0000 == 0x7ff0_0000_0000_0000
    &&& x & 0x000f_ffff_ffff_ffff != 0
}

/// Number equality on the bits of two doubles: NaN equals nothing, and the
/// two zeros are equal.
pub open spec fn numbers_equal(a: u64, b: u64) -> bool {
    &&& !nan_bits(a)
    &&& !nan_bits(b)
    &&& (a == b || (a & 0x7fff_ffff_ffff_ffff == 0 && b & 0x7fff_ffff_ffff_ffff == 0))
}

/// How two buffers compare: with no store, as buffers (the same one); with
/// a store, as `ArrayBuffer::equals` does (the same one, or the same bytes).
pub open spec fn buffers_match(x: ArrayBuffer, y: ArrayBuffer, store: Option<Seq<Seq<u8>>>) -> bool {
    match store {
        None => x == y,
        Some(s) => x@ == y@ || held(s, x@) == held(s, y@),
    }
}

/// Structural equality: same variants, numbers as doubles compare, strings
/// and bytes by contents, arrays and objects entry by entry, buffers by
/// `buffers_match`.
pub open spec fn values_match(a: Value, b: Value, store: Option<Seq<Seq<u8>>>) -> bool
    decreases a,
{
    match (a, b) {
        (Value::Undefined, Value::Undefined) => true,
        (Value::Null, Value::Null) => true,
        (Value::Bool(x), Value::Bool(y)) => x == y,
        (Value::Number(x), Value::Number(y)) => numbers_equal(x, y),
        (Value::String(x), Value::String(y)) => x@ == y@,
        (Value::Bytes(x), Value::Bytes(y)) => x@ == y@,
        (Value::Buffer(x), Value::Buffer(y)) => buffers_match(x, y, store),
        (Value::Array(x), Value::Array(y)) => {
            &&& x@.len() == y@.len()
            &&& forall|i: int| 0 <= i < x@.len() ==> values_match(x@[i], #[trigger] y@[i], store)
        },
        (Value::Object(x), Value::Object(y)) => {
            &&& x@.len() == y@.len()
            &&& forall|i: int|
                0 <= i < x@.len() ==> x@[i].0@ == (#[trigger] y@[i]).0@ && values_match(
                    x@[i].1,
                    y@[i].1,
                    store,
                )
        },
        (Value::Port(x), Value::Port(y)) => x == y,
        _ => false,
    }
}

/// The view of an optional store.
pub open spec fn store_view(store: Option<&BufferStore>) -> Option<Seq<Seq<u8>>> {
    match store {
        Some(s) => Some(s@),
        None => None,
    }
}

/// Number equality on the bits of two doubles.
fn numbers_equal_exec(a: u64, b: u64) -> (r: bool)
    ensures
        r == numbers_equal(a, b),
{
    let a_nan = a & 0x7ff0_0000_0000_0000 == 0x7ff0_0000_0000_0000 && a & 0x000f_ffff_ffff_ffff != 0;
    let b_nan = b & 0x7ff0_0000_0000_0000 == 0x7ff0_0000_0000_0000 && b & 0x000f_ffff_ffff_ffff != 0;
    !a_nan && !b_nan && (a == b || (a & 0x7fff_ffff_ffff_ffff == 0 && b & 0x7fff_ffff_ffff_ffff == 0))
}

fn buffers_match_exec(x: &ArrayBuffer, y: &ArrayBuffer, store: Option<&BufferStore>) -> (r: bool)
    ensures
        r == buffers_match(*x, *y, store_view(store)),
{
    match store {
        None => {
            proof {
                lemma_buffer_is_its_id(*x, *y);
            }
            x.same(y)
        },
        Some(s) => x.equals(y, s),
    }
}

/// Structural equality of two values, with buffers compared as
/// `buffers_match` says for `store`.
pub fn values_match_in(a: &Value, b: &Value, store: Option<&BufferStore>) -> (r: bool)
    ensures
        r == values_match(*a, *b, store_view(store)),
    decreases a,
{
    match (a, b) {
        (Value::Undefined, Value::Undefined) => true,
        (Value::Null, Value::Null) => true,
        (Value::Bool(x), Value::Bool(y)) => *x == *y,
        (Value::Number(x), Value::Number(y)) => numbers_equal_exec(*x, *y),
        (Value::String(x), Value::String(y)) => same_text(x.as_str(), y.as_str()),
        (Value::Bytes(x), Value::Bytes(y)) => compare_bytes(x.as_slice(), y.as_slice()) == 0,
        (Value::Buffer(x), Value::Buffer(y)) => buffers_match_exec(x, y, store),
        (Value::Array(x), Value::Array(y)) => {
            if x.len() != y.len() {
                return false;
            }
            let mut i: usize = 0;
            #[verifier::loop_isolation(false)]
            while i < x.len()
                invariant
                    i <= x@.len(),
                    x@.len() == y@.len(),
                    forall|j: int|
                        0 <= j < i ==> values_match(x@[j], #[trigger] y@[j], store_view(store)),
                decreases x.len() - i,
            {
                proof {
                    broadcast use vstd::std_specs::vec::group_vec_axioms;
                    assert(decreases_to!(*x => x@));
                    assert(decreases_to!(x@ => x@[i as int]));
                }
                if !values_match_in(&x[i], &y[i], store) {
                    return false;
                }
                i = i + 1;
            }
            true
        },
        (Value::Object(x), Value::Object(y)) => {
            if x.len() != y.len() {
                return false;
            }
            let mut i: usize = 0;
            #[verifier::loop_isolation(false)]
            while i < x.len()
                invariant
                    i <= x@.len(),
                    x@.len() == y@.len(),
                    forall|j: int|
                        0 <= j < i ==> x@[j].0@ == (#[trigger] y@[j]).0@ && values_match(
                            x@[j].1,
                            y@[j].1,
                            store_view(store),
                        ),
                decreases x.len() - i,
            {
                proof {
                    broadcast use vstd::std_specs::vec::group_vec_axioms;
                    assert(decreases_to!(*x => x@));
                    assert(decreases_to!(x@ => x@[i as int]));
                    assert(decreases_to!(x@[i as int] => x@[i as int].1));
                }
                if !same_text(x[i].0.as_str(), y[i].0.as_str()) {
                    return false;
                }
                if !values_match_in(&x[i].1, &y[i].1, store) {
                    return false;
                }
                i = i + 1;
            }
            true
        },
        (Value::Port(x), Value::Port(y)) => *x == *y,
        _ => false,
    }
}

/// `==` on values: buffers compare as buffers, the same one.
pub fn values_equal(a: &Value, b: &Value) -> (r: bool)
    ensures
        r == values_match(*a, *b, None),
{
    values_match_in(a, b, None)
}

impl Value {
    /// Equality as values compare when their buffers' bytes can be read: two
    /// buffers are equal when they are the same or hold the same bytes.
    pub fn equals(&self, other: &Value, store: &BufferStore) -> (r: bool)
        ensures
            r == values_match(*self, *other, Some(store@)),
    {
        values_match_in(self, other, Some(store))
    }
}

/// `==` on values, as `values_equal` computes it.
impl PartialEq for Value {
    fn eq(&self, other: &Self) -> (r: bool) {
        values_equal(self, other)
    }
}

/// `==` is `values_match` with buffers compared as buffers. It is not an
/// equivalence (NaN equals nothing), so it is not claimed to obey the laws
/// that `obeys_eq_spec` would promise.
impl vstd::std_specs::cmp::PartialEqSpecImpl for Value {
    open spec fn obeys_eq_spec() -> bool {
        false
    }

    open spec fn eq_spec(&self, other: &Self) -> bool {
        values_match(*self, *other, None)
    }
}

impl Clone for Value {
    /// A deep copy: vectors are copied, buffers are shared.
    fn clone(&self) -> (r: Self)
        ensures
            same_value(*self, r),
    {
        clone_value(self)
    }
}

impl From<bool> for Value {
    fn from(b: bool) -> (r: Value) {
        Value::Bool(b)
    }
}

impl vstd::std_specs::convert::FromSpecImpl<bool> for Value {
    open spec fn obeys_from_spec() -> bool {
        true
    }

    open spec fn from_spec(b: bool) -> Value {
        Value::Bool(b)
    }
}

impl<'a> From<&'a str> for Value {
    fn from(s: &'a str) -> (r: Value)
        ensures
            r matches Value::String(t) && t@ == s@,
    {
        Value::String(s.to_owned())
    }
}

/// A string value cannot be written as a spec function of a `&str` (a spec
/// function builds no `String`), so `from` states its result in its own
/// `ensures` instead.
impl<'a> vstd::std_specs::convert::FromSpecImpl<&'a str> for Value {
    open spec fn obeys_from_spec() -> bool {
        false
    }

    open spec fn from_spec(s: &'a str) -> Value {
        Value::String(choose|t: String| t@ == s@)
    }
}

impl From<String> for Value {
    fn from(s: String) -> (r: Value) {
        Value::String(s)
    }
}

impl vstd::std_specs::convert::FromSpecImpl<String> for Value {
    open spec fn obeys_from_spec() -> bool {
        true
    }

    open spec fn from_spec(s: String) -> Value {
        Value::String(s)
    }
}

impl Value {
    /// An object from key/value pairs; a key given twice keeps its last value.
    pub fn object(pairs: Vec<(&str, Value)>) -> (r: Value)
        ensures
            r matches Value::Object(entries) && entries_ordered(entries@) && forall|k: Seq<char>|
                #[trigger] entries_get(entries@, k) == last_pair(pairs@, k),
    {
        let ghost all = pairs@;
        let mut entries: Vec<(String, Value)> = Vec::new();
        for pair in it: pairs.into_iter()
            invariant
                it.seq() == all,
                entries_ordered(entries@),
                forall|k: Seq<char>|
                    #[trigger] entries_get(entries@, k) == last_pair(all.take(it.index() as int), k),
        {
            let ghost idx = it.index();
            assert(all[idx as int] == pair);
            assert(all.take(idx + 1).drop_last() =~= all.take(idx as int));
            let (key, value) = pair;
            entries_insert(&mut entries, key.to_owned(), value);
        }
        assert(all.take(all.len() as int) =~= all);
        Value::Object(entries)
    }

    /// The result of JavaScript's `typeof`.
    pub fn type_of(&self) -> (r: &'static str)
        ensures
            r@ == js_typeof(*self),
    {
        match self {
            Value::Undefined => "undefined",
            Value::Bool(_) => "boolean",
            Value::Number(_) => "number",
            Value::String(_) => "string",
            _ => "object",
        }
    }

    pub fn string(s: &str) -> (r: Value)
        ensures
            r matches Value::String(t) && t@ == s@,
    {
        Value::String(s.to_owned())
    }

    pub fn as_str(&self) -> (r: Option<&str>)
        ensures
            r is Some <==> self is String,
            r matches Some(t) ==> self matches Value::String(s) && t@ == s@,
    {
        match self {
            Value::String(s) => Some(s.as_str()),
            _ => None,
        }
    }

    pub fn as_bool(&self) -> (r: Option<bool>)
        ensures
            r == match self {
                Value::Bool(b) => Some(*b),
                _ => None::<bool>,
            },
    {
        match self {
            Value::Bool(b) => Some(*b),
            _ => None,
        }
    }

    /// The bits of the number, if this is one.
    pub fn as_number_bits(&self) -> (r: Option<u64>)
        ensures
            r == match self {
                Value::Number(n) => Some(*n),
                _ => None::<u64>,
            },
    {
        match self {
            Value::Number(n) => Some(*n),
            _ => None,
        }
    }

    pub fn as_port(&self) -> (r: Option<u64>)
        ensures
            r == match self {
                Value::Port(p) => Some(*p),
                _ => None::<u64>,
            },
    {
        match self {
            Value::Port(p) => Some(*p),
            _ => None,
        }
    }

    pub fn is_undefined(&self) -> (r: bool)
        ensures
            r == (self is Undefined),
    {
        match self {
            Value::Undefined => true,
            _ => false,
        }
    }

    /// A property of an object; `None` for anything else.
    pub fn get(&self, key: &str) -> (r: Option<&Value>)
        ensures
            match r {
                Some(v) => self is Object && child(*self, key@) == Some(*v),
                None => !(self is Object) || child(*self, key@) is None,
            },
    {
        match self {
            Value::Object(entries) => match entries_find(entries, key) {
                Some(i) => {
                    proof {
                        lemma_first_key_get(entries@, key@, i as int);
                    }
                    Some(&entries[i].1)
                },
                None => None,
            },
            _ => None,
        }
    }

    /// One step down from this value.
    fn child_ref(&self, key: &str) -> (r: Option<&Value>)
        ensures
            match r {
                Some(v) => child(*self, key@) == Some(*v),
                None => child(*self, key@) is None,
            },
    {
        match self {
            Value::Object(_) => self.get(key),
            Value::Array(items) => match parse_index(key) {
                Some(n) => if n < items.len() {
                    Some(&items[n])
                } else {
                    None
                },
                None => None,
            },
            _ => None,
        }
    }

    /// Walks `path[..end]` down from this value.
    fn walk(&self, path: &[String], end: usize) -> (r: Option<&Value>)
        requires
            end <= path@.len(),
        ensures
            match r {
                Some(v) => value_at(*self, path_keys(path@).take(end as int)) == Some(*v),
                None => value_at(*self, path_keys(path@).take(end as int)) is None,
            },
    {
        let ghost keys = path_keys(path@).take(end as int);
        let mut current = self;
        let mut i: usize = 0;
        assert(keys.skip(0) =~= keys);
        while i < end
            invariant
                i <= end,
                end <= path@.len(),
                keys == path_keys(path@).take(end as int),
                value_at(*self, keys) == value_at(*current, keys.skip(i as int)),
            decreases end - i,
        {
            assert(keys.skip(i as int)[0] == path@[i as int]@);
            assert(keys.skip(i as int).drop_first() =~= keys.skip(i + 1));
            match current.child_ref(path[i].as_str()) {
                Some(next) => {
                    current = next;
                },
                None => {
                    return None;
                },
            }
            i = i + 1;
        }
        assert(keys.skip(i as int).len() == 0);
        Some(current)
    }

    /// Walks a property path into this value: objects by key, arrays by
    /// decimal index. `None` when some step does not exist.
    pub fn path(&self, path: &[String]) -> (r: Option<&Value>)
        ensures
            match r {
                Some(v) => value_at(*self, path_keys(path@)) == Some(*v),
                None => value_at(*self, path_keys(path@)) is None,
            },
    {
        assert(path_keys(path@).take(path@.len() as int) =~= path_keys(path@));
        self.walk(path, path.len())
    }

    /// Writes `new_value` at the end of `path[start..]`, which `writable` says
    /// succeeds.
    fn write_from(&mut self, path: &[String], start: usize, new_value: Value)
        requires
            start < path@.len(),
            writable(*old(self), path_keys(path@).skip(start as int)),
        ensures
            written(*old(self), path_keys(path@).skip(start as int), new_value, *final(self)),
        decreases path@.len() - start,
    {
        let ghost keys = path_keys(path@).skip(start as int);
        let ghost before = *self;
        assert(keys[0] == path@[start as int]@);
        if start == path.len() - 1 {
            assert(keys.drop_last().len() == 0);
            match self {
                Value::Object(entries) => {
                    let key = path[start].clone();
                    entries_insert(entries, key, new_value);
                },
                Value::Array(items) => {
                    match parse_index(path[start].as_str()) {
                        Some(n) => {
                            items.set(n, new_value);
                        },
                        None => {},
                    }
                },
                _ => {},
            }
        } else {
            let ghost rest = keys.drop_first();
            assert(rest =~= path_keys(path@).skip(start + 1));
            assert(keys.drop_last().drop_first() =~= rest.drop_last());
            assert(keys.drop_last()[0] == keys[0]);
            match self {
                Value::Object(entries) => {
                    match entries_find(entries, path[start].as_str()) {
                        Some(i) => {
                            proof {
                                lemma_first_key_get(entries@, keys[0], i as int);
                            }
                            let ghost old_entries = entries@;
                            entries[i].1.write_from(path, start + 1, new_value);
                            proof {
                                let j = choose|j: int| is_first_key(old_entries, keys[0], j);
                                lemma_first_key_unique(old_entries, keys[0], i as int, j);
                            }
                        },
                        None => {},
                    }
                },
                Value::Array(items) => {
                    match parse_index(path[start].as_str()) {
                        Some(n) => {
                            items[n].write_from(path, start + 1, new_value);
                        },
                        None => {},
                    }
                },
                _ => {},
            }
        }
    }

    /// Assigns through a property path. The parents must already exist:
    /// objects gain or replace the last key, arrays replace an element inside
    /// their length. Anything else fails and leaves the value as it was.
    pub fn set_path(&mut self, path: &[String], new_value: Value) -> (r: bool)
        ensures
            r == writable(*old(self), path_keys(path@)),
            r ==> written(*old(self), path_keys(path@), new_value, *final(self)),
            !r ==> *final(self) == *old(self),
    {
        if path.len() == 0 {
            return false;
        }
        let last = path.len() - 1;
        let ghost keys = path_keys(path@);
        assert(keys.take(last as int) =~= keys.drop_last());
        let ok = match self.walk(path, last) {
            Some(parent) => match parent {
                Value::Object(_) => true,
                Value::Array(items) => match parse_index(path[last].as_str()) {
                    Some(n) => n < items.len(),
                    None => false,
                },
                _ => false,
            },
            None => false,
        };
        if !ok {
            return false;
        }
        assert(keys.skip(0) =~= keys);
        self.write_from(path, 0, new_value);
        true
    }
}

/// A key has one first position.
pub proof fn lemma_first_key_unique(entries: Seq<(String, Value)>, key: Seq<char>, i: int, j: int)
    requires
        is_first_key(entries, key, i),
        is_first_key(entries, key, j),
    ensures
        i == j,
{
    if i < j {
        assert(entries[i].0@ == key);
    } else if j < i {
        assert(entries[j].0@ == key);
    }
}

// ------------------------------------------------------------------------- //
// Laws of paths                                                              //
// ------------------------------------------------------------------------- //

/// Two steps that name the same place in `v`: in an array, two spellings of
/// one index; anywhere else, one key.
pub open spec fn same_step(v: Value, a: Seq<char>, b: Seq<char>) -> bool {
    match v {
        Value::Array(_) => {
            &&& parse_index_spec(key_bytes(a)) is Some
            &&& parse_index_spec(key_bytes(a)) == parse_index_spec(key_bytes(b))
        },
        _ => a == b,
    }
}

/// In `v`, the paths `p` and `q` lead to places neither of which contains the
/// other: they part at some step, or `p` runs through a place that is missing
/// before its last step, so that nothing can be written along it.
pub open spec fn paths_apart(v: Value, p: Seq<Seq<char>>, q: Seq<Seq<char>>) -> bool
    decreases p.len(),
{
    &&& p.len() > 0
    &&& q.len() > 0
    &&& (!same_step(v, p[0], q[0]) || match child(v, p[0]) {
        Some(c) => paths_apart(c, p.drop_first(), q.drop_first()),
        None => p.len() > 1,
    })
}

/// Changing the value at the first position of a key, but not the key,
/// leaves every other key's lookup alone.
proof fn lemma_same_keys_get(
    e: Seq<(String, Value)>,
    f: Seq<(String, Value)>,
    i: int,
    key: Seq<char>,
    k: Seq<char>,
)
    requires
        is_first_key(e, key, i),
        f.len() == e.len(),
        f[i].0@ == e[i].0@,
        forall|j: int| 0 <= j < e.len() && j != i ==> f[j] == e[j],
    ensures
        entries_get(f, key) == Some(f[i].1),
        k != key ==> entries_get(f, k) == entries_get(e, k),
{
    assert(is_first_key(f, key, i)) by {
        assert forall|j: int| 0 <= j < i implies f[j].0@ != key by {
            assert(f[j] == e[j]);
        }
    }
    lemma_first_key_get(f, key, i);
    if k != key {
        assert forall|m: int| #[trigger] is_first_key(f, k, m) <==> is_first_key(e, k, m) by {
            if 0 <= m < e.len() && m != i {
                assert(f[m] == e[m]);
                assert forall|q: int| 0 <= q < m implies (f[q].0@ == k <==> e[q].0@ == k) by {
                    if q != i {
                        assert(f[q] == e[q]);
                    }
                }
            }
        }
        if exists|m: int| is_first_key(e, k, m) {
            let m = choose|m: int| is_first_key(e, k, m);
            lemma_first_key_get(f, k, m);
            lemma_first_key_get(e, k, m);
        }
    }
}

/// Reading back a write: after a successful `set_path`, the path leads to the
/// value written.
pub proof fn lemma_read_after_write(before: Value, path: Seq<Seq<char>>, new: Value, fin: Value)
    requires
        written(before, path, new, fin),
    ensures
        value_at(fin, path) == Some(new),
    decreases path.len(),
{
    let rest = path.drop_first();
    if path.len() == 1 {
        assert(rest.len() == 0);
        assert(value_at(new, rest) == Some(new));
        match (before, fin) {
            (Value::Object(e), Value::Object(f)) => {
                assert(entries_get(f@, path[0]) == Some(new));
                assert(child(fin, path[0]) == Some(new));
            },
            (Value::Array(items), Value::Array(g)) => {
                let n = parse_index_spec(key_bytes(path[0]))->0;
                assert(g@[n as int] == new);
                assert(child(fin, path[0]) == Some(new));
            },
            _ => {},
        }
    } else {
        match (before, fin) {
            (Value::Object(e), Value::Object(f)) => {
                let i = choose|i: int| is_first_key(e@, path[0], i);
                lemma_same_keys_get(e@, f@, i, path[0], path[0]);
                lemma_read_after_write(e@[i].1, rest, new, f@[i].1);
                assert(child(fin, path[0]) == Some(f@[i].1));
                assert(value_at(fin, path) == value_at(f@[i].1, rest));
            },
            (Value::Array(items), Value::Array(g)) => {
                let n = parse_index_spec(key_bytes(path[0]))->0;
                lemma_read_after_write(items@[n as int], rest, new, g@[n as int]);
                assert(child(fin, path[0]) == Some(g@[n as int]));
                assert(value_at(fin, path) == value_at(g@[n as int], rest));
            },
            _ => {},
        }
    }
}

/// A write leaves alone every place apart from the one written.
pub proof fn lemma_write_frame(
    before: Value,
    path: Seq<Seq<char>>,
    new: Value,
    fin: Value,
    other: Seq<Seq<char>>,
)
    requires
        written(before, path, new, fin),
        paths_apart(before, path, other),
    ensures
        value_at(fin, other) == value_at(before, other),
    decreases path.len(),
{
    let rest = path.drop_first();
    let orest = other.drop_first();
    if path.len() == 1 && same_step(before, path[0], other[0]) {
        match child(before, path[0]) {
            Some(c) => {
                assert(!paths_apart(c, rest, orest));
            },
            None => {},
        }
    }
    match (before, fin) {
        (Value::Object(e), Value::Object(f)) => {
            if path.len() == 1 {
                assert(path[0] != other[0]);
                assert(child(fin, other[0]) == child(before, other[0]));
            } else {
                let i = choose|i: int| is_first_key(e@, path[0], i);
                lemma_same_keys_get(e@, f@, i, path[0], other[0]);
                lemma_first_key_get(e@, path[0], i);
                if path[0] != other[0] {
                    assert(child(fin, other[0]) == child(before, other[0]));
                } else {
                    lemma_write_frame(e@[i].1, rest, new, f@[i].1, orest);
                }
            }
        },
        (Value::Array(items), Value::Array(g)) => {
            let n = parse_index_spec(key_bytes(path[0]))->0;
            if same_step(before, path[0], other[0]) {
                assert(path.len() > 1);
                assert(child(before, path[0]) == Some(items@[n as int]));
                assert(child(fin, other[0]) == Some(g@[n as int]));
                lemma_write_frame(items@[n as int], rest, new, g@[n as int], orest);
            } else {
                match parse_index_spec(key_bytes(other[0])) {
                    Some(m) => {
                        assert(m != n);
                        if m < items@.len() {
                            assert(g@[m as int] == items@[m as int]);
                        }
                        assert(child(fin, other[0]) == child(before, other[0]));
                    },
                    None => {},
                }
            }
        },
        _ => {},
    }
}

/// Every object inside `v`, at any depth, keeps its keys in strictly
/// increasing byte order.
pub open spec fn well_ordered(v: Value) -> bool
    decreases v,
{
    match v {
        Value::Object(e) => {
            &&& entries_ordered(e@)
            &&& forall|i: int| 0 <= i < e@.len() ==> well_ordered(#[trigger] e@[i].1)
        },
        Value::Array(items) => forall|i: int| 0 <= i < items@.len() ==> well_ordered(#[trigger] items@[i]),
        _ => true,
    }
}

/// What a lookup finds is some entry's value.
proof fn lemma_get_is_some_entry(entries: Seq<(String, Value)>, key: Seq<char>)
    requires
        entries_get(entries, key) is Some,
    ensures
        exists|j: int| 0 <= j < entries.len() && entries[j].1 == entries_get(entries, key)->0,
{
    let j = choose|j: int| is_first_key(entries, key, j);
    assert(entries[j].1 == entries_get(entries, key)->0);
}

/// In ordered entries, an entry's value is what its key looks up.
proof fn lemma_ordered_entry_get(entries: Seq<(String, Value)>, i: int)
    requires
        entries_ordered(entries),
        0 <= i < entries.len(),
    ensures
        entries_get(entries, entries[i].0@) == Some(entries[i].1),
{
    lemma_ordered_get(entries, entries[i].0@, i);
}

/// Writes keep every object in order: a value whose objects are all in order,
/// written with a value whose objects are all in order, stays so.
pub proof fn lemma_write_keeps_order(before: Value, path: Seq<Seq<char>>, new: Value, fin: Value)
    requires
        written(before, path, new, fin),
        well_ordered(before),
        well_ordered(new),
    ensures
        well_ordered(fin),
    decreases path.len(),
{
    let rest = path.drop_first();
    match (before, fin) {
        (Value::Object(e), Value::Object(f)) => {
            if path.len() == 1 {
                assert(entries_ordered(f@));
                assert forall|i: int| 0 <= i < f@.len() implies well_ordered(#[trigger] f@[i].1) by {
                    let k = f@[i].0@;
                    lemma_ordered_entry_get(f@, i);
                    if k != path[0] {
                        lemma_get_is_some_entry(e@, k);
                        let j = choose|j: int| 0 <= j < e@.len() && e@[j].1 == entries_get(e@, k)->0;
                        assert(well_ordered(e@[j].1));
                    }
                }
            } else {
                let i = choose|i: int| is_first_key(e@, path[0], i);
                lemma_write_keeps_order(e@[i].1, rest, new, f@[i].1);
                assert forall|a: int, b: int| 0 <= a < b < f@.len() implies bytes_lt(
                    key_bytes(#[trigger] f@[a].0@),
                    key_bytes(#[trigger] f@[b].0@),
                ) by {
                    assert(f@[a].0@ == e@[a].0@);
                    assert(f@[b].0@ == e@[b].0@);
                }
                assert forall|j: int| 0 <= j < f@.len() implies well_ordered(#[trigger] f@[j].1) by {
                    if j != i {
                        assert(f@[j] == e@[j]);
                    }
                }
            }
        },
        (Value::Array(items), Value::Array(g)) => {
            let n = parse_index_spec(key_bytes(path[0]))->0;
            if path.len() == 1 {
                assert forall|j: int| 0 <= j < g@.len() implies well_ordered(#[trigger] g@[j]) by {
                    if j != n {
                        assert(g@[j] == items@[j]);
                    }
                }
            } else {
                lemma_write_keeps_order(items@[n as int], rest, new, g@[n as int]);
                assert forall|j: int| 0 <= j < g@.len() implies well_ordered(#[trigger] g@[j]) by {
                    if j != n {
                        assert(g@[j] == items@[j]);
                    }
                }
            }
        },
        _ => {},
    }
}

/// Walking a path in two pieces is walking it whole.
pub proof fn lemma_value_at_concat(v: Value, p: Seq<Seq<char>>, q: Seq<Seq<char>>)
    ensures
        value_at(v, p + q) == match value_at(v, p) {
            Some(mid) => value_at(mid, q),
            None => None,
        },
    decreases p.len(),
{
    if p.len() == 0 {
        assert(p + q =~= q);
    } else {
        assert((p + q)[0] == p[0]);
        assert((p + q).drop_first() =~= p.drop_first() + q);
        match child(v, p[0]) {
            Some(c) => {
                lemma_value_at_concat(c, p.drop_first(), q);
            },
            None => {},
        }
    }
}

} // verus!
