//! Tables keyed by text, kept in the order of their keys.
use vstd::prelude::*;

use crate::text;

verus! {

/// Having another key than `key`, as a function.
pub open spec fn key_differs<V>(key: Seq<char>) -> spec_fn((Seq<char>, V)) -> bool {
    |e: (Seq<char>, V)| e.0 != key
}

/// The keys of a list rise, so that no key stands twice.
pub open spec fn ordered<V>(list: Seq<(Seq<char>, V)>) -> bool {
    forall|i: int, j: int|
        0 <= i < j < list.len() ==> text::before(#[trigger] list[i].0, #[trigger] list[j].0)
}

/// What stands under a key.
pub open spec fn lookup<V>(list: Seq<(Seq<char>, V)>, key: Seq<char>) -> Option<V> {
    let at = text::run(list, key_differs(key)) as int;
    if at < list.len() {
        Some(list[at].1)
    } else {
        None
    }
}

/// The list with `value` under `key`, in its place in the order.
pub open spec fn put<V>(list: Seq<(Seq<char>, V)>, key: Seq<char>, value: V) -> Seq<
    (Seq<char>, V),
>
    decreases list.len(),
{
    if list.len() == 0 {
        seq![(key, value)]
    } else if list[0].0 == key {
        seq![(key, value)] + list.skip(1)
    } else if text::before(key, list[0].0) {
        seq![(key, value)] + list
    } else {
        seq![list[0]] + put(list.skip(1), key, value)
    }
}

/// The list without what stands under `key`.
pub open spec fn without<V>(list: Seq<(Seq<char>, V)>, key: Seq<char>) -> Seq<(Seq<char>, V)> {
    let at = text::run(list, key_differs(key)) as int;
    if at < list.len() {
        list.remove(at)
    } else {
        list
    }
}

/// The list with every value replaced by what `f` makes of it.
pub open spec fn mapped<V, W>(list: Seq<(Seq<char>, V)>, f: spec_fn(V) -> W) -> Seq<
    (Seq<char>, W),
> {
    list.map_values(|e: (Seq<char>, V)| (e.0, f(e.1)))
}

/// Where a key would be inserted, everything before it comes before it.
proof fn lemma_put_at<V>(list: Seq<(Seq<char>, V)>, key: Seq<char>, value: V, at: int)
    requires
        0 <= at <= list.len(),
        forall|i: int| 0 <= i < at ==> text::before(#[trigger] list[i].0, key),
    ensures
        at < list.len() && list[at].0 == key ==> put(list, key, value) == list.update(
            at,
            (key, value),
        ),
        at == list.len() || text::before(key, list[at].0) ==> put(list, key, value) == list.insert(
            at,
            (key, value),
        ),
    decreases list.len(),
{
    if at == 0 {
        if list.len() == 0 {
            assert(put(list, key, value) =~= list.insert(0, (key, value)));
        } else if list[0].0 == key {
            assert(put(list, key, value) =~= list.update(0, (key, value)));
            text::lemma_before_irreflexive(key);
        } else if text::before(key, list[0].0) {
            assert(put(list, key, value) =~= list.insert(0, (key, value)));
        }
    } else {
        let rest = list.skip(1);
        assert(text::before(list[0].0, key));
        if list[0].0 == key {
            text::lemma_before_irreflexive(key);
        }
        if text::before(key, list[0].0) {
            text::lemma_before_transitive(key, list[0].0, key);
            text::lemma_before_irreflexive(key);
        }
        assert forall|i: int| 0 <= i < at - 1 implies text::before(#[trigger] rest[i].0, key) by {
            assert(rest[i] == list[i + 1]);
        }
        lemma_put_at(rest, key, value, at - 1);
        if at < list.len() && list[at].0 == key {
            assert(rest[at - 1] == list[at]);
            assert(seq![list[0]] + rest.update(at - 1, (key, value)) =~= list.update(
                at,
                (key, value),
            ));
        } else if at == list.len() || text::before(key, list[at].0) {
            if at < list.len() {
                assert(rest[at - 1] == list[at]);
            }
            assert(seq![list[0]] + rest.insert(at - 1, (key, value)) =~= list.insert(
                at,
                (key, value),
            ));
        }
    }
}

/// A key that comes after all others is put at the end.
pub proof fn lemma_put_last<V>(list: Seq<(Seq<char>, V)>, key: Seq<char>, value: V)
    requires
        forall|i: int| 0 <= i < list.len() ==> text::before(#[trigger] list[i].0, key),
    ensures
        put(list, key, value) == list.push((key, value)),
{
    lemma_put_at(list, key, value, list.len() as int);
    assert(list.insert(list.len() as int, (key, value)) =~= list.push((key, value)));
}

/// Where a key belongs in an ordered list.
proof fn lemma_place<V>(list: Seq<(Seq<char>, V)>, key: Seq<char>) -> (at: int)
    requires
        ordered(list),
    ensures
        0 <= at <= list.len(),
        forall|i: int| 0 <= i < at ==> text::before(#[trigger] list[i].0, key),
        forall|i: int| at < i < list.len() ==> text::before(key, #[trigger] list[i].0),
        at < list.len() ==> list[at].0 == key || text::before(key, list[at].0),
    decreases list.len(),
{
    if list.len() == 0 {
        0
    } else {
        let less = list.drop_last();
        assert forall|i: int, j: int| 0 <= i < j < less.len() implies text::before(
            #[trigger] less[i].0,
            #[trigger] less[j].0,
        ) by {
            assert(less[i] == list[i] && less[j] == list[j]);
        }
        let at = lemma_place(less, key);
        let n = less.len() as int;
        text::lemma_before_total(list[n].0, key);
        assert forall|i: int| 0 <= i < at implies text::before(#[trigger] list[i].0, key) by {
            assert(list[i] == less[i]);
        }
        if at < n {
            assert(less[at] == list[at]);
            if list[at].0 != key {
                text::lemma_before_transitive(key, list[at].0, list[n].0);
            }
            assert forall|i: int| at < i < list.len() implies text::before(
                key,
                #[trigger] list[i].0,
            ) by {
                if i < n {
                    assert(list[i] == less[i]);
                }
            }
            at
        } else if text::before(list[n].0, key) {
            n + 1
        } else {
            n
        }
    }
}

/// Putting keeps the order.
pub proof fn put_keeps_order<V>(list: Seq<(Seq<char>, V)>, key: Seq<char>, value: V)
    requires
        ordered(list),
    ensures
        ordered(put(list, key, value)),
{
    let at = lemma_place(list, key);
    lemma_put_at(list, key, value, at);
    let new = put(list, key, value);
    if at < list.len() && list[at].0 == key {
        assert forall|i: int, j: int| 0 <= i < j < new.len() implies text::before(
            #[trigger] new[i].0,
            #[trigger] new[j].0,
        ) by {
            assert(text::before(list[i].0, list[j].0));
        }
    } else {
        assert forall|i: int, j: int| 0 <= i < j < new.len() implies text::before(
            #[trigger] new[i].0,
            #[trigger] new[j].0,
        ) by {
            if j < at {
                assert(text::before(list[i].0, list[j].0));
            } else if j == at {
                assert(new[i] == list[i]);
            } else if i == at {
                assert(new[j] == list[j - 1]);
                if j - 1 > at {
                    assert(text::before(key, list[j - 1].0));
                }
            } else if i < at {
                assert(new[j] == list[j - 1]);
                assert(text::before(list[i].0, list[j - 1].0));
            } else {
                assert(new[i] == list[i - 1] && new[j] == list[j - 1]);
                assert(text::before(list[i - 1].0, list[j - 1].0));
            }
        }
    }
}

/// Removing keeps the order.
pub proof fn without_keeps_order<V>(list: Seq<(Seq<char>, V)>, key: Seq<char>)
    requires
        ordered(list),
    ensures
        ordered(without(list, key)),
{
    text::lemma_run(list, key_differs::<V>(key));
    let at = text::run(list, key_differs::<V>(key)) as int;
    if at < list.len() {
        let new = list.remove(at);
        assert forall|i: int, j: int| 0 <= i < j < new.len() implies text::before(
            #[trigger] new[i].0,
            #[trigger] new[j].0,
        ) by {
            let a = if i < at { i } else { i + 1 };
            let b = if j < at { j } else { j + 1 };
            assert(new[i] == list[a] && new[j] == list[b]);
            assert(text::before(list[a].0, list[b].0));
        }
    }
}

/// A key with a position in an ordered list is found there and nowhere else.
pub proof fn lemma_lookup_at<V>(list: Seq<(Seq<char>, V)>, at: int)
    requires
        ordered(list),
        0 <= at < list.len(),
    ensures
        lookup(list, list[at].0) == Some(list[at].1),
        text::run(list, key_differs::<V>(list[at].0)) == at,
{
    let key = list[at].0;
    assert forall|i: int| 0 <= i < at implies key_differs::<V>(key)(#[trigger] list[i]) by {
        assert(text::before(list[i].0, list[at].0));
        text::lemma_before_irreflexive(key);
    }
    text::lemma_run_unique(list, key_differs::<V>(key), at);
}

/// What was put under a key is found there, and other keys find what they did.
pub proof fn put_then_lookup<V>(
    list: Seq<(Seq<char>, V)>,
    key: Seq<char>,
    value: V,
    other: Seq<char>,
)
    requires
        ordered(list),
    ensures
        lookup(put(list, key, value), key) == Some(value),
        other != key ==> lookup(put(list, key, value), other) == lookup(list, other),
{
    let at = lemma_place(list, key);
    lemma_put_at(list, key, value, at);
    put_keeps_order(list, key, value);
    let new = put(list, key, value);
    assert(new[at] == (key, value));
    lemma_lookup_at(new, at);
    if other != key {
        let p = key_differs::<V>(other);
        text::lemma_run(list, p);
        let n = text::run(list, p) as int;
        let same = at < list.len() && list[at].0 == key;
        if same {
            assert forall|i: int| 0 <= i < n implies p(#[trigger] new[i]) by {
                assert(p(list[i]));
            }
            if n < list.len() {
                assert(list[n].0 == other);
                assert(new[n] == list[n]);
            }
            text::lemma_run_unique(new, p, n);
        } else {
            let m = if n < at { n } else { n + 1 };
            assert forall|i: int| 0 <= i < m implies p(#[trigger] new[i]) by {
                if i < at {
                    assert(new[i] == list[i]);
                    assert(p(list[i]));
                } else if i > at {
                    assert(new[i] == list[i - 1]);
                    assert(p(list[i - 1]));
                }
            }
            if n < list.len() {
                assert(list[n].0 == other);
                assert(new[m] == list[n]);
            }
            text::lemma_run_unique(new, p, m);
        }
    }
}

/// What was removed is found no more, and other keys find what they did.
pub proof fn without_then_lookup<V>(list: Seq<(Seq<char>, V)>, key: Seq<char>, other: Seq<char>)
    requires
        ordered(list),
    ensures
        lookup(without(list, key), key) is None,
        other != key ==> lookup(without(list, key), other) == lookup(list, other),
{
    let p = key_differs::<V>(key);
    text::lemma_run(list, p);
    let at = text::run(list, p) as int;
    let new = without(list, key);
    if at < list.len() {
        assert(list[at].0 == key);
        assert forall|i: int| 0 <= i < new.len() implies p(#[trigger] new[i]) by {
            if i < at {
                assert(new[i] == list[i]);
                assert(p(list[i]));
            } else {
                assert(new[i] == list[i + 1]);
                assert(text::before(list[at].0, list[i + 1].0));
                text::lemma_before_irreflexive(key);
            }
        }
        text::lemma_run_unique(new, p, new.len() as int);
        if other != key {
            let q = key_differs::<V>(other);
            text::lemma_run(list, q);
            let n = text::run(list, q) as int;
            let m = if n < at { n } else { n - 1 };
            assert forall|i: int| 0 <= i < m implies q(#[trigger] new[i]) by {
                if i < at {
                    assert(new[i] == list[i]);
                    assert(q(list[i]));
                } else {
                    assert(new[i] == list[i + 1]);
                    assert(q(list[i + 1]));
                }
            }
            if n == at {
                assert(q(list[at]));
            }
            if n < list.len() {
                assert(list[n].0 == other);
                assert(new[m] == list[n]);
            }
            text::lemma_run_unique(new, q, m);
        }
    }
}

/// Putting under a key does not depend on what stood there.
pub proof fn put_after_without<V>(list: Seq<(Seq<char>, V)>, key: Seq<char>, value: V)
    requires
        ordered(list),
    ensures
        put(without(list, key), key, value) == put(list, key, value),
    decreases list.len(),
{
    let p = key_differs::<V>(key);
    if list.len() > 0 {
        let rest = list.skip(1);
        if list[0].0 == key {
            text::lemma_run_unique(list, p, 0);
            assert(without(list, key) =~= rest);
            if rest.len() > 0 {
                assert(text::before(list[0].0, list[1].0));
                text::lemma_before_irreflexive(key);
            }
            assert(put(rest, key, value) =~= seq![(key, value)] + rest);
        } else if text::before(key, list[0].0) {
            assert forall|i: int| 0 <= i < list.len() implies p(#[trigger] list[i]) by {
                if list[i].0 == key {
                    assert(text::before(list[0].0, list[i].0));
                    text::lemma_before_transitive(key, list[0].0, key);
                    text::lemma_before_irreflexive(key);
                }
            }
            text::lemma_run_unique(list, p, list.len() as int);
        } else {
            assert(ordered(rest)) by {
                assert forall|i: int, j: int| 0 <= i < j < rest.len() implies text::before(
                    #[trigger] rest[i].0,
                    #[trigger] rest[j].0,
                ) by {
                    assert(text::before(list[i + 1].0, list[j + 1].0));
                }
            }
            put_after_without(rest, key, value);
            text::lemma_run(rest, p);
            let at = text::run(rest, p) as int;
            assert forall|i: int| 0 <= i < at + 1 implies p(#[trigger] list[i]) by {
                if i > 0 {
                    assert(p(rest[i - 1]));
                }
            }
            if at < rest.len() {
                assert(!p(rest[at]));
                assert(list[at + 1] == rest[at]);
            }
            text::lemma_run_unique(list, p, at + 1);
            assert(without(list, key) =~= seq![list[0]] + without(rest, key));
            assert(without(list, key).skip(1) =~= without(rest, key));
        }
    }
}

/// Looking up commutes with a change of the values.
pub proof fn lemma_mapped_lookup<V, W>(
    list: Seq<(Seq<char>, V)>,
    f: spec_fn(V) -> W,
    key: Seq<char>,
)
    ensures
        text::run(mapped(list, f), key_differs::<W>(key)) == text::run(list, key_differs::<V>(key)),
        lookup(mapped(list, f), key) == match lookup(list, key) {
            Some(v) => Some(f(v)),
            None => None,
        },
        without(mapped(list, f), key) == mapped(without(list, key), f),
{
    let p = key_differs::<V>(key);
    let q = key_differs::<W>(key);
    text::lemma_run(list, p);
    let n = text::run(list, p) as int;
    let new = mapped(list, f);
    assert forall|i: int| 0 <= i < n implies q(#[trigger] new[i]) by {
        assert(p(list[i]));
    }
    if n < list.len() {
        assert(!p(list[n]));
        assert(new[n].0 == list[n].0);
    }
    text::lemma_run_unique(new, q, n);
    if n < list.len() {
        assert(new.remove(n) =~= mapped(list.remove(n), f));
    }
}

/// Putting commutes with a change of the values.
pub proof fn lemma_mapped_put<V, W>(
    list: Seq<(Seq<char>, V)>,
    f: spec_fn(V) -> W,
    key: Seq<char>,
    value: V,
)
    ensures
        mapped(put(list, key, value), f) == put(mapped(list, f), key, f(value)),
    decreases list.len(),
{
    let new = mapped(list, f);
    if list.len() == 0 {
        assert(mapped(put(list, key, value), f) =~= put(new, key, f(value)));
    } else {
        assert(new[0].0 == list[0].0);
        assert(new.skip(1) =~= mapped(list.skip(1), f));
        lemma_mapped_put(list.skip(1), f, key, value);
        assert(mapped(put(list, key, value), f) =~= put(new, key, f(value)));
    }
}

/// A table from texts to values.
pub struct Table<V> {
    pub(crate) entries: Vec<(String, V)>,
}

impl<V> Table<V> {
    pub closed spec fn view(&self) -> Seq<(Seq<char>, V)> {
        self.entries@.map_values(|e: (String, V)| (e.0@, e.1))
    }

    /// The keys of a table are in order.
    #[verifier::type_invariant]
    pub open spec fn wf(self) -> bool {
        ordered(self.view())
    }

    /// The view lists the entries.
    pub(crate) proof fn lemma_view(self)
        ensures
            self@.len() == self.entries@.len(),
            forall|i: int|
                0 <= i < self@.len() ==> #[trigger] self@[i] == (
                    self.entries@[i].0@,
                    self.entries@[i].1,
                ),
    {
    }

    pub fn new() -> (table: Table<V>)
        ensures
            table@ == Seq::<(Seq<char>, V)>::empty(),
    {
        let table: Table<V> = Table { entries: Vec::new() };
        proof {
            assert(table@ =~= Seq::<(Seq<char>, V)>::empty());
        }
        table
    }

    pub fn len(&self) -> (n: usize)
        ensures
            n == self@.len(),
    {
        self.entries.len()
    }

    pub fn is_empty(&self) -> (yes: bool)
        ensures
            yes == (self@.len() == 0),
    {
        self.entries.len() == 0
    }

    pub fn key_at(&self, i: usize) -> (key: &str)
        requires
            i < self@.len(),
        ensures
            key@ == self@[i as int].0,
    {
        self.entries[i].0.as_str()
    }

    pub fn value_at(&self, i: usize) -> (value: &V)
        requires
            i < self@.len(),
        ensures
            *value == self@[i as int].1,
    {
        &self.entries[i].1
    }

    /// Where a key stands, the length where it does not.
    fn position(&self, key: &str) -> (at: usize)
        ensures
            at == text::run(self@, key_differs::<V>(key@)),
            at <= self@.len(),
    {
        let mut i: usize = 0;
        while i < self.entries.len()
            invariant
                i <= self@.len(),
                self@.len() == self.entries@.len(),
                forall|j: int| 0 <= j < i ==> key_differs::<V>(key@)(#[trigger] self@[j]),
            decreases self@.len() - i,
        {
            if text::same(self.entries[i].0.as_str(), key) {
                proof {
                    assert(self@[i as int].0 == key@);
                    text::lemma_run_unique(self@, key_differs::<V>(key@), i as int);
                }
                return i;
            }
            i += 1;
        }
        proof {
            text::lemma_run_unique(self@, key_differs::<V>(key@), i as int);
        }
        i
    }

    pub fn get(&self, key: &str) -> (value: Option<&V>)
        ensures
            match (value, lookup(self@, key@)) {
                (Some(v), Some(w)) => *v == w,
                (None, None) => true,
                _ => false,
            },
    {
        let at: usize = self.position(key);
        if at < self.entries.len() {
            Some(&self.entries[at].1)
        } else {
            None
        }
    }

    pub fn contains_key(&self, key: &str) -> (yes: bool)
        ensures
            yes == lookup(self@, key@) is Some,
    {
        self.position(key) < self.entries.len()
    }

    pub fn insert(&mut self, key: String, value: V)
        ensures
            final(self)@ == put(old(self)@, key@, value),
    {
        proof {
            use_type_invariant(&*self);
        }
        let mut entries: Vec<(String, V)> = Vec::new();
        std::mem::swap(&mut self.entries, &mut entries);
        let ghost list = old(self)@;
        assert(list == entries@.map_values(|e: (String, V)| (e.0@, e.1)));
        let mut at: usize = 0;
        while at < entries.len() && text::comes_before(entries[at].0.as_str(), key.as_str())
            invariant
                at <= entries@.len(),
                list == entries@.map_values(|e: (String, V)| (e.0@, e.1)),
                forall|j: int| 0 <= j < at ==> text::before(#[trigger] list[j].0, key@),
            decreases entries@.len() - at,
        {
            proof {
                assert(list[at as int].0 == entries@[at as int].0@);
            }
            at += 1;
        }
        let ghost k = key@;
        proof {
            lemma_put_at(list, k, value, at as int);
            put_keeps_order(list, k, value);
        }
        if at < entries.len() && text::same(entries[at].0.as_str(), key.as_str()) {
            proof {
                assert(list[at as int].0 == k);
            }
            let ghost before = entries@;
            entries.set(at, (key, value));
            proof {
                assert(entries@.map_values(|e: (String, V)| (e.0@, e.1)) =~= list.update(
                    at as int,
                    (k, value),
                ));
            }
        } else {
            proof {
                if at < entries@.len() {
                    assert(list[at as int].0 == entries@[at as int].0@);
                    text::lemma_before_total(list[at as int].0, k);
                }
            }
            entries.insert(at, (key, value));
            proof {
                assert(entries@.map_values(|e: (String, V)| (e.0@, e.1)) =~= list.insert(
                    at as int,
                    (k, value),
                ));
            }
        }
        self.entries = entries;
    }

    /// Replaces the value at a position.
    pub fn set_at(&mut self, i: usize, value: V)
        requires
            i < old(self)@.len(),
        ensures
            final(self)@ == old(self)@.update(i as int, (old(self)@[i as int].0, value)),
    {
        proof {
            use_type_invariant(&*self);
        }
        let ghost list = self@;
        let mut entries: Vec<(String, V)> = Vec::new();
        std::mem::swap(&mut self.entries, &mut entries);
        let key: String = entries[i].0.clone();
        entries.set(i, (key, value));
        proof {
            let new = entries@.map_values(|e: (String, V)| (e.0@, e.1));
            assert(new =~= list.update(i as int, (list[i as int].0, value)));
            assert forall|a: int, b: int| 0 <= a < b < new.len() implies text::before(
                #[trigger] new[a].0,
                #[trigger] new[b].0,
            ) by {
                assert(text::before(list[a].0, list[b].0));
            }
        }
        self.entries = entries;
    }

    /// Removes the entry at a position.
    pub fn remove_at(&mut self, i: usize)
        requires
            i < old(self)@.len(),
        ensures
            final(self)@ == old(self)@.remove(i as int),
    {
        proof {
            use_type_invariant(&*self);
        }
        let ghost list = self@;
        let mut entries: Vec<(String, V)> = Vec::new();
        std::mem::swap(&mut self.entries, &mut entries);
        let _ = entries.remove(i);
        proof {
            let new = entries@.map_values(|e: (String, V)| (e.0@, e.1));
            assert(new =~= list.remove(i as int));
            lemma_lookup_at(list, i as int);
            without_keeps_order(list, list[i as int].0);
        }
        self.entries = entries;
    }

    pub fn remove(&mut self, key: &str) -> (value: Option<V>)
        ensures
            final(self)@ == without(old(self)@, key@),
            value == lookup(old(self)@, key@),
    {
        proof {
            use_type_invariant(&*self);
            without_keeps_order(self@, key@);
        }
        let at: usize = self.position(key);
        let mut entries: Vec<(String, V)> = Vec::new();
        std::mem::swap(&mut self.entries, &mut entries);
        let ghost list = old(self)@;
        assert(list == entries@.map_values(|e: (String, V)| (e.0@, e.1)));
        if at < entries.len() {
            let (_, value) = entries.remove(at);
            proof {
                assert(entries@.map_values(|e: (String, V)| (e.0@, e.1)) =~= list.remove(
                    at as int,
                ));
            }
            self.entries = entries;
            Some(value)
        } else {
            self.entries = entries;
            None
        }
    }
}

} // verus!
