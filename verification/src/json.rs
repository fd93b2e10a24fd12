//! JSON-like values: the literals of a plan and the contents of an environment.
//!
//! A floating-point number is carried as the bit pattern of an IEEE-754
//! binary64, so that every value here is made of integers, booleans, strings
//! and collections of them.

use vstd::prelude::*;
use vstd::utf8::*;

verus! {

/// A number as JSON distinguishes it: a non-negative integer, a negative
/// integer, or a float given by its binary64 bit pattern. Two floats are
/// equal where their bit patterns are.
#[derive(Clone, Copy, Debug, PartialEq)]
pub enum Number {
    PosInt(u64),
    NegInt(i64),
    Float(u64),
}

/// A JSON-like value.
#[derive(Debug, PartialEq)]
pub enum Value {
    Null,
    Bool(bool),
    Number(Number),
    String(String),
    Array(Vec<Value>),
    Object(Object),
}

/// One key of an [`Object`] with its value.
#[derive(Debug, PartialEq)]
pub struct Entry {
    key: String,
    value: Value,
}

/// A string-keyed mapping whose entries are kept in ascending key order
/// (byte-wise, as `String` orders), each key at most once.
#[derive(Debug, PartialEq)]
pub struct Object {
    entries: Vec<Entry>,
}

/// The mathematical content of a [`Value`].
pub enum ValueView {
    Null,
    Bool(bool),
    Number(Number),
    String(Seq<char>),
    Array(Seq<ValueView>),
    Object(Map<Seq<char>, ValueView>),
}

/// The views of a sequence of values, item by item.
pub open spec fn views(items: Seq<Value>) -> Seq<ValueView>
    decreases items,
{
    if items.len() == 0 {
        Seq::empty()
    } else {
        views(items.drop_last()).push(items.last()@)
    }
}

/// What [`views`] holds at each position.
pub proof fn lemma_views(items: Seq<Value>)
    ensures
        views(items).len() == items.len(),
        forall|i: int| 0 <= i < items.len() ==> (#[trigger] views(items)[i]) == items[i]@,
    decreases items.len(),
{
    if items.len() > 0 {
        let front = items.drop_last();
        lemma_views(front);
        assert(views(items) == views(front).push(items.last()@));
        assert forall|i: int| 0 <= i < items.len() implies (#[trigger] views(items)[i]) == items[i]@ by {
            if i < front.len() {
                assert(front[i] == items[i]);
            }
        }
    } else {
        assert(views(items).len() == 0);
    }
}

impl View for Value {
    type V = ValueView;

    open spec fn view(&self) -> ValueView
        decreases self,
    {
        match self {
            Value::Null => ValueView::Null,
            Value::Bool(b) => ValueView::Bool(*b),
            Value::Number(n) => ValueView::Number(*n),
            Value::String(s) => ValueView::String(s@),
            Value::Array(items) => ValueView::Array(views(items@)),
            Value::Object(o) => ValueView::Object(o@),
        }
    }
}

/// `a` comes before `b` in byte-wise lexicographic order, and `k` is where
/// they first differ (or where `a` ends).
pub open spec fn bytes_lt_at(a: Seq<u8>, b: Seq<u8>, k: int) -> bool {
    &&& 0 <= k <= a.len()
    &&& k < b.len()
    &&& forall|j: int| 0 <= j < k ==> a[j] == b[j]
    &&& k < a.len() ==> a[k] < b[k]
}

/// Byte-wise lexicographic order, strict.
pub open spec fn bytes_lt(a: Seq<u8>, b: Seq<u8>) -> bool {
    exists|k: int| bytes_lt_at(a, b, k)
}

/// The order of keys: that of their UTF-8 encodings, which is the order of
/// `String` and `str`.
pub open spec fn key_lt(a: Seq<char>, b: Seq<char>) -> bool {
    bytes_lt(encode_utf8(a), encode_utf8(b))
}

/// No key is before itself.
pub proof fn lemma_key_lt_irreflexive(a: Seq<char>)
    ensures
        !key_lt(a, a),
{
}

/// The order of keys is transitive.
pub proof fn lemma_key_lt_transitive(a: Seq<char>, b: Seq<char>, c: Seq<char>)
    requires
        key_lt(a, b),
        key_lt(b, c),
    ensures
        key_lt(a, c),
{
    let x = encode_utf8(a);
    let y = encode_utf8(b);
    let z = encode_utf8(c);
    let k1 = choose|k: int| bytes_lt_at(x, y, k);
    let k2 = choose|k: int| bytes_lt_at(y, z, k);
    let k = if k1 <= k2 {
        k1
    } else {
        k2
    };
    assert(bytes_lt_at(x, z, k));
}

/// How two keys stand to each other.
#[derive(Clone, Copy, Debug, PartialEq, Eq)]
pub enum KeyOrder {
    Before,
    Same,
    After,
}

/// Compares two keys byte by byte.
pub fn compare_keys(a: &str, b: &str) -> (r: KeyOrder)
    ensures
        r == KeyOrder::Before <==> key_lt(a@, b@),
        r == KeyOrder::Same <==> a@ == b@,
        r == KeyOrder::After <==> key_lt(b@, a@),
{
    let x = a.as_bytes();
    let y = b.as_bytes();
    let ghost xs = encode_utf8(a@);
    let ghost ys = encode_utf8(b@);
    let mut i: usize = 0;
    while i < x.len() && i < y.len() && x[i] == y[i]
        invariant
            x@ == xs,
            y@ == ys,
            i <= x.len(),
            i <= y.len(),
            forall|j: int| 0 <= j < i ==> xs[j] == ys[j],
        decreases x.len() - i,
    {
        i += 1;
    }
    proof {
        lemma_key_lt_irreflexive(a@);
        if a@ == b@ {
            assert(xs == ys);
        }
        if xs == ys {
            encode_utf8_decode_utf8(a@);
            encode_utf8_decode_utf8(b@);
        }
    }
    if i == x.len() {
        if i == y.len() {
            proof {
                assert(xs =~= ys);
                assert forall|k: int| !bytes_lt_at(xs, ys, k) by {}
            }
            KeyOrder::Same
        } else {
            proof {
                assert(bytes_lt_at(xs, ys, i as int));
                assert forall|k: int| !bytes_lt_at(ys, xs, k) by {}
            }
            KeyOrder::Before
        }
    } else if i == y.len() {
        proof {
            assert(bytes_lt_at(ys, xs, i as int));
            assert forall|k: int| !bytes_lt_at(xs, ys, k) by {}
        }
        KeyOrder::After
    } else if x[i] < y[i] {
        proof {
            assert(bytes_lt_at(xs, ys, i as int));
            assert forall|k: int| !bytes_lt_at(ys, xs, k) by {
                if bytes_lt_at(ys, xs, k) {
                    if k < i {
                    } else if k > i {
                    }
                }
            }
        }
        KeyOrder::Before
    } else {
        proof {
            assert(bytes_lt_at(ys, xs, i as int));
            assert forall|k: int| !bytes_lt_at(xs, ys, k) by {
                if bytes_lt_at(xs, ys, k) {
                    if k < i {
                    } else if k > i {
                    }
                }
            }
        }
        KeyOrder::After
    }
}


/// The keys of `entries` ascend strictly.
pub closed spec fn ascending(entries: Seq<Entry>) -> bool {
    forall|i: int, j: int|
        0 <= i < j < entries.len() ==> key_lt((#[trigger] entries[i]).key@, (#[trigger] entries[j]).key@)
}

/// Where the entry of key `k` stands in `entries`, if there is one.
pub closed spec fn index_of(entries: Seq<Entry>, k: Seq<char>) -> int {
    choose|i: int| 0 <= i < entries.len() && (#[trigger] entries[i]).key@ == k
}

/// The mapping that `entries` stand for.
pub closed spec fn map_of(entries: Seq<Entry>) -> Map<Seq<char>, ValueView>
    decreases entries,
{
    Map::new(
        |k: Seq<char>| exists|i: int| 0 <= i < entries.len() && (#[trigger] entries[i]).key@ == k,
        |k: Seq<char>|
            {
                let i = index_of(entries, k);
                if 0 <= i < entries.len() {
                    entries[i].value@
                } else {
                    ValueView::Null
                }
            },
    )
}

proof fn lemma_map_of_at(entries: Seq<Entry>, i: int)
    requires
        ascending(entries),
        0 <= i < entries.len(),
    ensures
        map_of(entries).contains_key(entries[i].key@),
        map_of(entries)[entries[i].key@] == entries[i].value@,
        index_of(entries, entries[i].key@) == i,
{
    let k = entries[i].key@;
    let j = index_of(entries, k);
    assert(0 <= j < entries.len() && entries[j].key@ == k);
    lemma_key_lt_irreflexive(k);
    if j < i {
        assert(key_lt(entries[j].key@, entries[i].key@));
    } else if i < j {
        assert(key_lt(entries[i].key@, entries[j].key@));
    }
}

proof fn lemma_put_new(entries: Seq<Entry>, i: int, e: Entry)
    requires
        ascending(entries),
        0 <= i <= entries.len(),
        forall|j: int| 0 <= j < i ==> key_lt((#[trigger] entries[j]).key@, e.key@),
        i == entries.len() || key_lt(e.key@, entries[i].key@),
    ensures
        ascending(entries.insert(i, e)),
        map_of(entries.insert(i, e)) == map_of(entries).insert(e.key@, e.value@),
{
    let after = entries.insert(i, e);
    let k = e.key@;
    assert forall|a: int, b: int| 0 <= a < b < after.len() implies key_lt(
        (#[trigger] after[a]).key@,
        (#[trigger] after[b]).key@,
    ) by {
        if b < i {
            assert(after[a] == entries[a] && after[b] == entries[b]);
        } else if b == i {
            assert(after[a] == entries[a]);
        } else if a == i {
            assert(after[b] == entries[b - 1]);
            if b - 1 > i {
                assert(key_lt(entries[i].key@, entries[b - 1].key@));
                lemma_key_lt_transitive(k, entries[i].key@, entries[b - 1].key@);
            }
        } else if a < i {
            assert(after[a] == entries[a] && after[b] == entries[b - 1]);
            if b - 1 > i {
                assert(key_lt(entries[i].key@, entries[b - 1].key@));
                lemma_key_lt_transitive(k, entries[i].key@, entries[b - 1].key@);
            }
            lemma_key_lt_transitive(entries[a].key@, k, entries[b - 1].key@);
        } else {
            assert(after[a] == entries[a - 1] && after[b] == entries[b - 1]);
        }
    }
    let target = map_of(entries).insert(k, e.value@);
    assert forall|q: Seq<char>| #[trigger] map_of(after).contains_key(q) <==> target.contains_key(q) by {
        if map_of(after).contains_key(q) {
            let j = index_of(after, q);
            if j < i {
                assert(entries[j].key@ == q);
            } else if j > i {
                assert(entries[j - 1].key@ == q);
            }
        }
        if map_of(entries).contains_key(q) {
            let j = index_of(entries, q);
            if j < i {
                assert(after[j].key@ == q);
            } else {
                assert(after[j + 1].key@ == q);
            }
        }
        if q == k {
            assert(after[i].key@ == q);
        }
    }
    assert forall|q: Seq<char>| map_of(after).contains_key(q) implies #[trigger] map_of(after)[q] == target[q] by {
        let j = index_of(after, q);
        lemma_map_of_at(after, j);
        if j < i {
            assert(after[j] == entries[j]);
            lemma_map_of_at(entries, j);
            lemma_key_lt_irreflexive(k);
        } else if j > i {
            assert(after[j] == entries[j - 1]);
            lemma_map_of_at(entries, j - 1);
            lemma_key_lt_irreflexive(k);
            if j - 1 > i {
                assert(key_lt(entries[i].key@, entries[j - 1].key@));
                lemma_key_lt_transitive(k, entries[i].key@, entries[j - 1].key@);
            }
        }
    }
    assert(map_of(after) =~= target);
}

proof fn lemma_put_over(entries: Seq<Entry>, i: int, e: Entry)
    requires
        ascending(entries),
        0 <= i < entries.len(),
        entries[i].key@ == e.key@,
    ensures
        ascending(entries.update(i, e)),
        map_of(entries.update(i, e)) == map_of(entries).insert(e.key@, e.value@),
{
    let after = entries.update(i, e);
    let k = e.key@;
    assert forall|a: int, b: int| 0 <= a < b < after.len() implies key_lt(
        (#[trigger] after[a]).key@,
        (#[trigger] after[b]).key@,
    ) by {
        assert(after[a].key@ == entries[a].key@);
        assert(after[b].key@ == entries[b].key@);
    }
    let target = map_of(entries).insert(k, e.value@);
    assert forall|q: Seq<char>| #[trigger] map_of(after).contains_key(q) <==> target.contains_key(q) by {
        if map_of(after).contains_key(q) {
            let j = index_of(after, q);
            assert(entries[j].key@ == q);
        }
        if map_of(entries).contains_key(q) {
            let j = index_of(entries, q);
            assert(after[j].key@ == q);
        }
        if q == k {
            assert(after[i].key@ == q);
        }
    }
    assert forall|q: Seq<char>| map_of(after).contains_key(q) implies #[trigger] map_of(after)[q] == target[q] by {
        let j = index_of(after, q);
        lemma_map_of_at(after, j);
        lemma_map_of_at(entries, j);
    }
    assert(map_of(after) =~= target);
}

proof fn lemma_take_out(entries: Seq<Entry>, i: int)
    requires
        ascending(entries),
        0 <= i < entries.len(),
    ensures
        ascending(entries.remove(i)),
        map_of(entries.remove(i)) == map_of(entries).remove(entries[i].key@),
{
    let after = entries.remove(i);
    let k = entries[i].key@;
    assert forall|a: int, b: int| 0 <= a < b < after.len() implies key_lt(
        (#[trigger] after[a]).key@,
        (#[trigger] after[b]).key@,
    ) by {
        let a0 = if a < i {
            a
        } else {
            a + 1
        };
        let b0 = if b < i {
            b
        } else {
            b + 1
        };
        assert(after[a] == entries[a0]);
        assert(after[b] == entries[b0]);
    }
    let target = map_of(entries).remove(k);
    lemma_key_lt_irreflexive(k);
    assert forall|q: Seq<char>| #[trigger] map_of(after).contains_key(q) <==> target.contains_key(q) by {
        if map_of(after).contains_key(q) {
            let j = index_of(after, q);
            let j0 = if j < i {
                j
            } else {
                j + 1
            };
            assert(after[j] == entries[j0]);
            assert(entries[j0].key@ == q);
            if q == k {
                lemma_map_of_at(entries, j0);
                lemma_map_of_at(entries, i);
            }
        }
        if map_of(entries).contains_key(q) && q != k {
            let j = index_of(entries, q);
            if j < i {
                assert(after[j].key@ == q);
            } else {
                assert(after[j - 1].key@ == q);
            }
        }
    }
    assert forall|q: Seq<char>| map_of(after).contains_key(q) implies #[trigger] map_of(after)[q] == target[q] by {
        let j = index_of(after, q);
        lemma_map_of_at(after, j);
        let j0 = if j < i {
            j
        } else {
            j + 1
        };
        assert(after[j] == entries[j0]);
        lemma_map_of_at(entries, j0);
    }
    assert(map_of(after) =~= target);
}

impl View for Object {
    type V = Map<Seq<char>, ValueView>;

    closed spec fn view(&self) -> Map<Seq<char>, ValueView>
        decreases self,
    {
        map_of(self.entries@)
    }
}

impl Object {
    /// The keys in the order in which the entries are kept.
    pub closed spec fn keys(&self) -> Seq<Seq<char>> {
        Seq::new(self.entries@.len(), |i: int| self.entries@[i].key@)
    }

    #[verifier::type_invariant]
    closed spec fn well_formed(&self) -> bool {
        ascending(self.entries@)
    }

    /// What every object in a running program satisfies: the keys ascend
    /// strictly, and they are the domain of the view.
    pub open spec fn canonical(&self) -> bool {
        &&& forall|i: int, j: int|
            0 <= i < j < self.keys().len() ==> key_lt(#[trigger] self.keys()[i], #[trigger] self.keys()[j])
        &&& forall|k: Seq<char>| self@.contains_key(k) <==> self.keys().contains(k)
    }

    proof fn lemma_canonical(&self)
        requires
            ascending(self.entries@),
        ensures
            self.canonical(),
    {
        assert forall|i: int, j: int| 0 <= i < j < self.keys().len() implies key_lt(
            #[trigger] self.keys()[i],
            #[trigger] self.keys()[j],
        ) by {
            assert(key_lt(self.entries@[i].key@, self.entries@[j].key@));
        }
        assert forall|k: Seq<char>| self@.contains_key(k) <==> self.keys().contains(k) by {
            if self@.contains_key(k) {
                let i = index_of(self.entries@, k);
                assert(self.keys()[i] == k);
            }
            if self.keys().contains(k) {
                let i = choose|i: int| 0 <= i < self.keys().len() && self.keys()[i] == k;
                assert(self.entries@[i].key@ == k);
            }
        }
    }

    /// The view of a canonical object has finitely many keys.
    pub proof fn lemma_dom_finite(&self)
        requires
            self.canonical(),
        ensures
            self@.dom().finite(),
    {
        vstd::seq_lib::seq_to_set_is_finite(self.keys());
        assert(self@.dom() =~= self.keys().to_set());
    }

    /// An object without entries.
    pub fn new() -> (o: Object)
        ensures
            o@ == Map::<Seq<char>, ValueView>::empty(),
            o.keys() == Seq::<Seq<char>>::empty(),
    {
        let o = Object { entries: Vec::new() };
        assert(o@ =~= Map::<Seq<char>, ValueView>::empty());
        assert(o.keys() =~= Seq::<Seq<char>>::empty());
        o
    }

    /// The number of entries.
    pub fn len(&self) -> (n: usize)
        ensures
            n == self.keys().len(),
            self.canonical(),
    {
        proof {
            use_type_invariant(self);
            self.lemma_canonical();
        }
        self.entries.len()
    }

    /// The `i`-th entry in ascending key order.
    pub fn entry_at(&self, i: usize) -> (r: (&String, &Value))
        requires
            i < self.keys().len(),
        ensures
            r.0@ == self.keys()[i as int],
            self@.contains_key(r.0@),
            r.1@ == self@[r.0@],
    {
        proof {
            use_type_invariant(self);
            lemma_map_of_at(self.entries@, i as int);
        }
        let e = &self.entries[i];
        (&e.key, &e.value)
    }

    /// The first position whose key is not before `key`, and whether `key`
    /// stands there.
    fn position(&self, key: &str) -> (r: (usize, bool))
        ensures
            r.0 <= self.entries@.len(),
            forall|j: int| 0 <= j < r.0 ==> key_lt((#[trigger] self.entries@[j]).key@, key@),
            r.1 ==> r.0 < self.entries@.len() && self.entries@[r.0 as int].key@ == key@,
            !r.1 ==> r.0 == self.entries@.len() || key_lt(key@, self.entries@[r.0 as int].key@),
            r.1 == self@.contains_key(key@),
    {
        let mut i: usize = 0;
        let mut found = false;
        while i < self.entries.len()
            invariant_except_break
                !found,
            invariant
                i <= self.entries@.len(),
                forall|j: int| 0 <= j < i ==> key_lt((#[trigger] self.entries@[j]).key@, key@),
            ensures
                found ==> i < self.entries@.len() && self.entries@[i as int].key@ == key@,
                !found ==> i == self.entries@.len() || key_lt(key@, self.entries@[i as int].key@),
            decreases self.entries@.len() - i,
        {
            match compare_keys(self.entries[i].key.as_str(), key) {
                KeyOrder::Before => {
                    i += 1;
                },
                KeyOrder::Same => {
                    found = true;
                    break ;
                },
                KeyOrder::After => {
                    break ;
                },
            }
        }
        proof {
            use_type_invariant(self);
            if found {
                lemma_map_of_at(self.entries@, i as int);
            } else {
                if self@.contains_key(key@) {
                    let j = index_of(self.entries@, key@);
                    lemma_key_lt_irreflexive(key@);
                    if j < i {
                    } else if j > i {
                        assert(key_lt(self.entries@[i as int].key@, self.entries@[j].key@));
                        lemma_key_lt_transitive(key@, self.entries@[i as int].key@, key@);
                    }
                }
            }
        }
        (i, found)
    }

    /// Whether `key` has an entry.
    pub fn contains_key(&self, key: &str) -> (b: bool)
        ensures
            b == self@.contains_key(key@),
    {
        self.position(key).1
    }

    /// The value under `key`.
    pub fn get(&self, key: &str) -> (r: Option<&Value>)
        ensures
            match r {
                Some(v) => self@.contains_key(key@) && v@ == self@[key@],
                None => !self@.contains_key(key@),
            },
    {
        let (i, found) = self.position(key);
        if found {
            proof {
                use_type_invariant(self);
                lemma_map_of_at(self.entries@, i as int);
            }
            Some(&self.entries[i].value)
        } else {
            None
        }
    }

    /// Puts `value` under `key`, and hands back what stood there before.
    pub fn insert(&mut self, key: String, value: Value) -> (previous: Option<Value>)
        ensures
            final(self)@ == old(self)@.insert(key@, value@),
            match previous {
                Some(v) => old(self)@.contains_key(key@) && v@ == old(self)@[key@],
                None => !old(self)@.contains_key(key@),
            },
    {
        let (i, found) = self.position(key.as_str());
        proof {
            use_type_invariant(&*self);
        }
        let mut taken = Object::new();
        std::mem::swap(self, &mut taken);
        let mut entries = taken.entries;
        let ghost before = entries@;
        let entry = Entry { key, value };
        if found {
            proof {
                lemma_map_of_at(before, i as int);
                lemma_put_over(before, i as int, entry);
            }
            let old_entry = entries.remove(i);
            entries.insert(i, entry);
            assert(entries@ =~= before.update(i as int, entry));
            *self = Object { entries };
            Some(old_entry.value)
        } else {
            proof {
                lemma_put_new(before, i as int, entry);
            }
            entries.insert(i, entry);
            *self = Object { entries };
            None
        }
    }

    /// Takes the entry of `key` out, and hands back its value.
    pub fn remove(&mut self, key: &str) -> (removed: Option<Value>)
        ensures
            final(self)@ == old(self)@.remove(key@),
            match removed {
                Some(v) => old(self)@.contains_key(key@) && v@ == old(self)@[key@],
                None => !old(self)@.contains_key(key@),
            },
    {
        let (i, found) = self.position(key);
        proof {
            use_type_invariant(&*self);
        }
        if found {
            let mut taken = Object::new();
            std::mem::swap(self, &mut taken);
            let mut entries = taken.entries;
            proof {
                lemma_map_of_at(entries@, i as int);
                lemma_take_out(entries@, i as int);
            }
            let entry = entries.remove(i);
            *self = Object { entries };
            Some(entry.value)
        } else {
            assert(self@ =~= self@.remove(key@));
            None
        }
    }
}


proof fn lemma_same_entries(a: Seq<Entry>, b: Seq<Entry>)
    requires
        ascending(a),
        a.len() == b.len(),
        forall|i: int| 0 <= i < a.len() ==> (#[trigger] a[i]).key@ == b[i].key@ && a[i].value@ == b[i].value@,
    ensures
        ascending(b),
        map_of(a) == map_of(b),
{
    assert forall|i: int, j: int| 0 <= i < j < b.len() implies key_lt(
        (#[trigger] b[i]).key@,
        (#[trigger] b[j]).key@,
    ) by {
        assert(key_lt(a[i].key@, a[j].key@));
    }
    assert forall|q: Seq<char>| #[trigger] map_of(a).contains_key(q) <==> map_of(b).contains_key(q) by {
        if map_of(a).contains_key(q) {
            let j = index_of(a, q);
            assert(a[j].key@ == b[j].key@);
        }
        if map_of(b).contains_key(q) {
            let j = index_of(b, q);
            assert(a[j].key@ == b[j].key@);
        }
    }
    assert forall|q: Seq<char>| map_of(a).contains_key(q) implies #[trigger] map_of(a)[q] == map_of(b)[q] by {
        let j = index_of(a, q);
        assert(a[j].key@ == b[j].key@);
        lemma_map_of_at(a, j);
        lemma_map_of_at(b, j);
    }
    assert(map_of(a) =~= map_of(b));
}

/// A deep copy of `v`.
#[verifier::loop_isolation(false)]
fn copy_value(v: &Value) -> (r: Value)
    ensures
        r@ == v@,
    decreases v,
{
    match v {
        Value::Null => Value::Null,
        Value::Bool(b) => Value::Bool(*b),
        Value::Number(n) => Value::Number(*n),
        Value::String(s) => Value::String(s.clone()),
        Value::Array(items) => {
            let mut out: Vec<Value> = Vec::new();
            let mut i: usize = 0;
            while i < items.len()
                invariant
                    i <= items.len(),
                    out.len() == i,
                    forall|j: int| 0 <= j < i ==> (#[trigger] out@[j])@ == items@[j]@,
                decreases items.len() - i,
            {
                out.push(copy_value(&items[i]));
                i += 1;
            }
            proof {
                lemma_views(out@);
                lemma_views(items@);
            }
            assert(views(out@) =~= views(items@));
            Value::Array(out)
        },
        Value::Object(o) => Value::Object(copy_object(o)),
    }
}

/// A deep copy of `o`.
#[verifier::loop_isolation(false)]
fn copy_object(o: &Object) -> (r: Object)
    ensures
        r@ == o@,
        r.keys() == o.keys(),
    decreases o,
{
    proof {
        use_type_invariant(o);
    }
    let mut out: Vec<Entry> = Vec::new();
    let mut i: usize = 0;
    while i < o.entries.len()
        invariant
            i <= o.entries.len(),
            out.len() == i,
            forall|j: int|
                0 <= j < i ==> (#[trigger] out@[j]).key@ == o.entries@[j].key@ && out@[j].value@
                    == o.entries@[j].value@,
        decreases o.entries.len() - i,
    {
        let e = &o.entries[i];
        out.push(Entry { key: e.key.clone(), value: copy_value(&e.value) });
        i += 1;
    }
    proof {
        assert forall|j: int| 0 <= j < o.entries@.len() implies (#[trigger] o.entries@[j]).key@ == out@[j].key@
            && o.entries@[j].value@ == out@[j].value@ by {
            assert(out@[j].key@ == o.entries@[j].key@);
        }
        lemma_same_entries(o.entries@, out@);
    }
    let r = Object { entries: out };
    assert(r.keys() =~= o.keys());
    r
}

impl Clone for Value {
    fn clone(&self) -> (r: Self)
        ensures
            r@ == self@,
    {
        copy_value(self)
    }
}

impl Clone for Object {
    fn clone(&self) -> (r: Self)
        ensures
            r@ == self@,
            r.keys() == self.keys(),
    {
        copy_object(self)
    }
}

/// The bit pattern of the float `1.0`.
pub const ONE: u64 = 0x3ff0_0000_0000_0000;

/// Whether a bit pattern stands for a finite float: its exponent field is
/// not all ones.
pub open spec fn is_finite(bits: u64) -> bool {
    (bits / 0x10_0000_0000_0000) % 0x800 != 0x7ff
}

/// Whether `bits` stands for a finite float.
pub fn finite(bits: u64) -> (r: bool)
    ensures
        r == is_finite(bits),
{
    (bits / 0x10_0000_0000_0000) % 0x800 != 0x7ff
}

/// The float that an integer is cast to, as serde_json's `Number::as_f64`
/// gives it for an integer number.
pub uninterp spec fn integer_as_float(v: int) -> u64;

/// The float that a number stands for in a product.
pub open spec fn number_as_float(n: Number) -> u64 {
    match n {
        Number::PosInt(v) => integer_as_float(v as int),
        Number::NegInt(v) => integer_as_float(v as int),
        Number::Float(bits) => bits,
    }
}

/// Calls `serde_json::Number::from_i128` and then `Number::as_f64` on the
/// result. The first keeps every integer from `i64::MIN` to `u64::MAX`; the
/// second casts the integer to a float, which depends on the integer alone.
/// `None` stands for a refusal by either call.
#[verifier::external_body]
pub(crate) fn integer_float_bits(v: i128) -> (r: Option<u64>)
    ensures
        i64::MIN <= v <= u64::MAX ==> r == Some(integer_as_float(v as int)),
{
    match serde_json::Number::from_i128(v)?.as_f64() {
        Some(f) => Some(f.to_bits()),
        None => None,
    }
}

/// The float that `n` stands for in a product.
pub fn as_float(n: Number) -> (r: u64)
    ensures
        r == number_as_float(n),
{
    match n {
        Number::PosInt(v) => integer_float_bits(v as i128).unwrap(),
        Number::NegInt(v) => integer_float_bits(v as i128).unwrap(),
        Number::Float(bits) => bits,
    }
}

} // verus!
