//! The registry of transfer handlers: named serialisers, consulted in the
//! order they were registered.
use vstd::prelude::*;

verus! {

/// Transfer handlers by name. A name occurs at most once; registering under a
/// name that is taken replaces the handler in place, so registration order
/// stays stable.
pub struct HandlerTable<H> {
    entries: Vec<(String, H)>,
}

/// The handler registered first under `name` among `entries`.
pub open spec fn handler_named<H>(entries: Seq<(Seq<char>, H)>, name: Seq<char>) -> Option<H>
    decreases entries.len(),
{
    if entries.len() == 0 {
        None
    } else if entries[0].0 == name {
        Some(entries[0].1)
    } else {
        handler_named(entries.drop_first(), name)
    }
}

/// No name occurs twice.
pub open spec fn names_unique<H>(entries: Seq<(Seq<char>, H)>) -> bool {
    forall|i: int, j: int| 0 <= i < j < entries.len() ==> entries[i].0 != entries[j].0
}

/// `entries` without those registered under `name`, in the same order.
pub open spec fn without<H>(entries: Seq<(Seq<char>, H)>, name: Seq<char>) -> Seq<(Seq<char>, H)>
    decreases entries.len(),
{
    if entries.len() == 0 {
        entries
    } else if entries[0].0 == name {
        without(entries.drop_first(), name)
    } else {
        seq![entries[0]] + without(entries.drop_first(), name)
    }
}

proof fn lemma_without_concat<H>(a: Seq<(Seq<char>, H)>, b: Seq<(Seq<char>, H)>, name: Seq<char>)
    ensures
        without(a + b, name) == without(a, name) + without(b, name),
    decreases a.len(),
{
    if a.len() == 0 {
        assert(a + b =~= b);
        assert(without(a, name) + without(b, name) =~= without(b, name));
    } else {
        assert((a + b)[0] == a[0]);
        assert((a + b).drop_first() =~= a.drop_first() + b);
        lemma_without_concat(a.drop_first(), b, name);
        if a[0].0 != name {
            assert(seq![a[0]] + (without(a.drop_first(), name) + without(b, name)) =~= (seq![a[0]]
                + without(a.drop_first(), name)) + without(b, name));
        }
    }
}

/// Removing a name leaves it unregistered and every other name's handler as
/// it was.
pub proof fn lemma_without_get<H>(entries: Seq<(Seq<char>, H)>, name: Seq<char>, k: Seq<char>)
    ensures
        handler_named(without(entries, name), k) == if k == name {
            None
        } else {
            handler_named(entries, k)
        },
    decreases entries.len(),
{
    if entries.len() > 0 {
        lemma_without_get(entries.drop_first(), name, k);
        if entries[0].0 != name {
            let w = seq![entries[0]] + without(entries.drop_first(), name);
            assert(w[0] == entries[0]);
            assert(w.drop_first() =~= without(entries.drop_first(), name));
        }
    }
}

impl<H> View for HandlerTable<H> {
    type V = Seq<(Seq<char>, H)>;

    closed spec fn view(&self) -> Seq<(Seq<char>, H)> {
        self.entries@.map_values(|e: (String, H)| (e.0@, e.1))
    }
}

proof fn lemma_named_at<H>(entries: Seq<(Seq<char>, H)>, name: Seq<char>, i: int)
    requires
        0 <= i < entries.len(),
        entries[i].0 == name,
        forall|j: int| 0 <= j < i ==> entries[j].0 != name,
    ensures
        handler_named(entries, name) == Some(entries[i].1),
    decreases i,
{
    if i > 0 {
        lemma_named_at(entries.drop_first(), name, i - 1);
    }
}

proof fn lemma_named_absent<H>(entries: Seq<(Seq<char>, H)>, name: Seq<char>)
    requires
        forall|j: int| 0 <= j < entries.len() ==> entries[j].0 != name,
    ensures
        handler_named(entries, name) is None,
    decreases entries.len(),
{
    if entries.len() > 0 {
        lemma_named_absent(entries.drop_first(), name);
    }
}

impl<H> HandlerTable<H> {
    pub closed spec fn wf(&self) -> bool {
        names_unique(self@)
    }

    pub fn new() -> (r: HandlerTable<H>)
        ensures
            r@ == Seq::<(Seq<char>, H)>::empty(),
            r.wf(),
    {
        HandlerTable { entries: Vec::new() }
    }

    /// The position of `name`, if it is registered.
    fn position(&self, name: &str) -> (r: Option<usize>)
        ensures
            match r {
                Some(i) => i < self@.len() && self@[i as int].0 == name@ && forall|j: int|
                    0 <= j < i ==> self@[j].0 != name@,
                None => forall|j: int| 0 <= j < self@.len() ==> self@[j].0 != name@,
            },
    {
        let mut i: usize = 0;
        while i < self.entries.len()
            invariant
                i <= self.entries@.len(),
                self@.len() == self.entries@.len(),
                forall|j: int| 0 <= j < self@.len() ==> #[trigger] self@[j].0 == self.entries@[j].0@,
                forall|j: int| 0 <= j < i ==> self@[j].0 != name@,
            decreases self.entries.len() - i,
        {
            if crate::value::same_text(self.entries[i].0.as_str(), name) {
                return Some(i);
            }
            i = i + 1;
        }
        None
    }

    /// The handler registered under `name`.
    pub fn get(&self, name: &str) -> (r: Option<&H>)
        ensures
            match r {
                Some(h) => handler_named(self@, name@) == Some(*h),
                None => handler_named(self@, name@) is None,
            },
    {
        match self.position(name) {
            Some(i) => {
                proof {
                    lemma_named_at(self@, name@, i as int);
                }
                Some(&self.entries[i].1)
            },
            None => {
                proof {
                    lemma_named_absent(self@, name@);
                }
                None
            },
        }
    }

    /// The registered names and handlers, in registration order.
    pub fn entries(&self) -> (r: &[(String, H)])
        ensures
            r@.map_values(|e: (String, H)| (e.0@, e.1)) == self@,
    {
        self.entries.as_slice()
    }

    /// Registers `handler` under `name`: in place of the handler already
    /// there, or after every other.
    pub fn set(&mut self, name: &str, handler: H)
        ensures
            match handler_named(old(self)@, name@) {
                Some(_) => exists|i: int|
                    0 <= i < old(self)@.len() && old(self)@[i].0 == name@ && (forall|j: int|
                        0 <= j < i ==> old(self)@[j].0 != name@) && final(self)@ == old(
                        self,
                    )@.update(i, (name@, handler)),
                None => final(self)@ == old(self)@.push((name@, handler)),
            },
            old(self).wf() ==> final(self).wf(),
    {
        let ghost before = self@;
        match self.position(name) {
            Some(i) => {
                proof {
                    lemma_named_at(before, name@, i as int);
                }
                self.entries.set(i, (name.to_owned(), handler));
                assert(self@ =~= before.update(i as int, (name@, handler)));
            },
            None => {
                proof {
                    lemma_named_absent(before, name@);
                }
                self.entries.push((name.to_owned(), handler));
                assert(self@ =~= before.push((name@, handler)));
            },
        }
    }
}

impl<H> HandlerTable<H> {
    /// Unregisters `name`; every other handler stays where it was.
    pub fn remove(&mut self, name: &str)
        ensures
            final(self)@ == without(old(self)@, name@),
            old(self).wf() ==> final(self).wf(),
    {
        let mut taken: Vec<(String, H)> = Vec::new();
        std::mem::swap(&mut taken, &mut self.entries);
        let ghost all = taken@.map_values(|e: (String, H)| (e.0@, e.1));
        assert(all =~= old(self)@);
        let ghost orig = taken@;
        let mut kept: Vec<(String, H)> = Vec::new();
        for entry in it: taken.into_iter()
            invariant
                it.seq() == orig,
                all == orig.map_values(|e: (String, H)| (e.0@, e.1)),
                kept@.map_values(|e: (String, H)| (e.0@, e.1)) == without(
                    all.take(it.index() as int),
                    name@,
                ),
        {
            let ghost idx = it.index();
            let ghost before = kept@.map_values(|e: (String, H)| (e.0@, e.1));
            assert(all.take(idx + 1) =~= all.take(idx as int) + seq![all[idx as int]]);
            proof {
                lemma_without_concat(all.take(idx as int), seq![all[idx as int]], name@);
                let one = seq![all[idx as int]];
                assert(one.drop_first().len() == 0);
                assert(without(one.drop_first(), name@) =~= one.drop_first());
            }
            if !crate::value::same_text(entry.0.as_str(), name) {
                kept.push(entry);
                assert(kept@.map_values(|e: (String, H)| (e.0@, e.1)) =~= before.push(all[idx as int]));
            } else {
                assert(without(all.take(idx + 1), name@) =~= before);
            }
        }
        assert(all.take(all.len() as int) =~= all);
        self.entries = kept;
        proof {
            if names_unique(all) {
                lemma_without_unique(all, name@);
            }
        }
    }
}

proof fn lemma_without_unique<H>(entries: Seq<(Seq<char>, H)>, name: Seq<char>)
    requires
        names_unique(entries),
    ensures
        names_unique(without(entries, name)),
        forall|i: int| 0 <= i < without(entries, name).len() ==> exists|j: int|
            0 <= j < entries.len() && entries[j] == #[trigger] without(entries, name)[i],
    decreases entries.len(),
{
    if entries.len() > 0 {
        let rest = entries.drop_first();
        assert(names_unique(rest)) by {
            assert forall|i: int, j: int| 0 <= i < j < rest.len() implies rest[i].0 != rest[j].0 by {
                assert(rest[i] == entries[i + 1] && rest[j] == entries[j + 1]);
            }
        }
        lemma_without_unique(rest, name);
        let wr = without(rest, name);
        assert forall|i: int| 0 <= i < wr.len() implies exists|j: int|
            0 <= j < entries.len() && entries[j] == #[trigger] wr[i] by {
            let j = choose|j: int| 0 <= j < rest.len() && rest[j] == wr[i];
            assert(entries[j + 1] == rest[j]);
        }
        if entries[0].0 != name {
            let w = seq![entries[0]] + wr;
            assert forall|i: int, j: int| 0 <= i < j < w.len() implies w[i].0 != w[j].0 by {
                if i == 0 {
                    let m = choose|m: int| 0 <= m < rest.len() && rest[m] == wr[j - 1];
                    assert(entries[m + 1] == rest[m]);
                }
            }
            assert forall|i: int| 0 <= i < w.len() implies exists|j: int|
                0 <= j < entries.len() && entries[j] == #[trigger] w[i] by {
                if i == 0 {
                    assert(entries[0] == w[0]);
                } else {
                    assert(w[i] == wr[i - 1]);
                }
            }
        }
    }
}

/// Registers a transfer handler under a name, replacing one already there.
pub fn set_transfer_handler<H>(table: &mut HandlerTable<H>, name: &str, handler: H)
    ensures
        match handler_named(old(table)@, name@) {
            Some(_) => exists|i: int|
                0 <= i < old(table)@.len() && old(table)@[i].0 == name@ && (forall|j: int|
                    0 <= j < i ==> old(table)@[j].0 != name@) && final(table)@ == old(
                    table,
                )@.update(i, (name@, handler)),
            None => final(table)@ == old(table)@.push((name@, handler)),
        },
        handler_named(final(table)@, name@) == Some(handler),
        forall|k: Seq<char>|
            k != name@ ==> #[trigger] handler_named(final(table)@, k) == handler_named(old(table)@, k),
        old(table).wf() ==> final(table).wf(),
{
    let ghost before = table@;
    table.set(name, handler);
    proof {
        let after = table@;
        if handler_named(before, name@) is Some {
            let i = choose|i: int|
                0 <= i < before.len() && before[i].0 == name@ && (forall|j: int|
                    0 <= j < i ==> before[j].0 != name@) && after == before.update(i, (name@, handler));
            lemma_named_at(after, name@, i);
            lemma_update_other(before, i, (name@, handler));
        } else {
            lemma_named_none(before, name@);
            lemma_push_named(before, (name@, handler), name@);
            assert forall|k: Seq<char>| k != name@ implies #[trigger] handler_named(after, k)
                == handler_named(before, k) by {
                lemma_push_named(before, (name@, handler), k);
            }
        }
    }
}

/// Unregisters the transfer handler under a name, if there is one.
pub fn remove_transfer_handler<H>(table: &mut HandlerTable<H>, name: &str)
    ensures
        final(table)@ == without(old(table)@, name@),
        handler_named(final(table)@, name@) is None,
        forall|k: Seq<char>|
            k != name@ ==> #[trigger] handler_named(final(table)@, k) == handler_named(old(table)@, k),
        old(table).wf() ==> final(table).wf(),
{
    table.remove(name);
    proof {
        lemma_without_get(old(table)@, name@, name@);
        assert forall|k: Seq<char>| k != name@ implies #[trigger] handler_named(table@, k)
            == handler_named(old(table)@, k) by {
            lemma_without_get(old(table)@, name@, k);
        }
    }
}

/// Without a name that occurs nowhere, a table is unchanged.
proof fn lemma_without_absent<H>(entries: Seq<(Seq<char>, H)>, name: Seq<char>)
    requires
        forall|j: int| 0 <= j < entries.len() ==> entries[j].0 != name,
    ensures
        without(entries, name) == entries,
    decreases entries.len(),
{
    if entries.len() > 0 {
        assert forall|j: int| 0 <= j < entries.drop_first().len() implies entries.drop_first()[j].0
            != name by {
            assert(entries.drop_first()[j] == entries[j + 1]);
        }
        lemma_without_absent(entries.drop_first(), name);
        assert(seq![entries[0]] + entries.drop_first() =~= entries);
    }
}

/// Removing a name that is absent leaves the table as it was, and so does
/// registering a handler under a new name and removing it again.
pub proof fn lemma_set_then_remove<H>(entries: Seq<(Seq<char>, H)>, name: Seq<char>, handler: H)
    requires
        handler_named(entries, name) is None,
    ensures
        without(entries, name) == entries,
        without(entries.push((name, handler)), name) == entries,
{
    lemma_named_none(entries, name);
    lemma_without_absent(entries, name);
    let one = seq![(name, handler)];
    assert(entries.push((name, handler)) =~= entries + one);
    lemma_without_concat(entries, one, name);
    assert(one.drop_first() =~= Seq::<(Seq<char>, H)>::empty());
    assert(without(one, name) =~= without(one.drop_first(), name));
    assert(without(entries, name) + without(one, name) =~= entries);
}

/// Removing a name twice is removing it once.
pub proof fn lemma_remove_twice<H>(entries: Seq<(Seq<char>, H)>, name: Seq<char>)
    ensures
        without(without(entries, name), name) == without(entries, name),
    decreases entries.len(),
{
    if entries.len() > 0 {
        lemma_remove_twice(entries.drop_first(), name);
        if entries[0].0 != name {
            let w = seq![entries[0]] + without(entries.drop_first(), name);
            assert(w[0] == entries[0]);
            assert(w.drop_first() =~= without(entries.drop_first(), name));
        }
    }
}

proof fn lemma_named_none<H>(entries: Seq<(Seq<char>, H)>, name: Seq<char>)
    requires
        handler_named(entries, name) is None,
    ensures
        forall|j: int| 0 <= j < entries.len() ==> entries[j].0 != name,
    decreases entries.len(),
{
    if entries.len() > 0 {
        lemma_named_none(entries.drop_first(), name);
        assert forall|j: int| 0 <= j < entries.len() implies entries[j].0 != name by {
            if j > 0 {
                assert(entries[j] == entries.drop_first()[j - 1]);
            }
        }
    }
}

proof fn lemma_update_other<H>(entries: Seq<(Seq<char>, H)>, i: int, e: (Seq<char>, H))
    requires
        0 <= i < entries.len(),
        entries[i].0 == e.0,
    ensures
        forall|k: Seq<char>|
            k != e.0 ==> #[trigger] handler_named(entries.update(i, e), k) == handler_named(entries, k),
    decreases entries.len(),
{
    assert forall|k: Seq<char>| k != e.0 implies #[trigger] handler_named(entries.update(i, e), k)
        == handler_named(entries, k) by {
        let u = entries.update(i, e);
        if i == 0 {
            assert(u[0] == e);
            assert(u.drop_first() =~= entries.drop_first());
        } else {
            lemma_update_other(entries.drop_first(), i - 1, e);
            assert(u[0] == entries[0]);
            assert(u.drop_first() =~= entries.drop_first().update(i - 1, e));
            assert(handler_named(entries.drop_first().update(i - 1, e), k) == handler_named(
                entries.drop_first(),
                k,
            ));
        }
    }
}

proof fn lemma_push_named<H>(entries: Seq<(Seq<char>, H)>, e: (Seq<char>, H), k: Seq<char>)
    ensures
        handler_named(entries.push(e), k) == match handler_named(entries, k) {
            Some(h) => Some(h),
            None => if k == e.0 {
                Some(e.1)
            } else {
                None
            },
        },
    decreases entries.len(),
{
    let p = entries.push(e);
    if entries.len() > 0 {
        assert(p[0] == entries[0]);
        assert(p.drop_first() =~= entries.drop_first().push(e));
        lemma_push_named(entries.drop_first(), e, k);
        assert(handler_named(p, k) == if p[0].0 == k {
            Some(p[0].1)
        } else {
            handler_named(entries.drop_first().push(e), k)
        });
    } else {
        assert(p[0] == e);
        assert(p.drop_first().len() == 0);
        assert(handler_named(p.drop_first(), k) is None);
        assert(handler_named(entries, k) is None);
    }
}

} // verus!
