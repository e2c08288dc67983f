//! Tables ordered by key.
use crate::text::chars_of;
use vstd::prelude::*;

verus! {

/// A totally ordered key.
pub trait TableKey: Sized {
    /// What identifies the key.
    type Id;

    /// What identifies this key.
    spec fn id(&self) -> Self::Id;

    /// The strict order of keys.
    spec fn before(a: Self::Id, b: Self::Id) -> bool;

    /// The order is a strict total order.
    proof fn order(a: Self::Id, b: Self::Id, c: Self::Id)
        ensures
            !Self::before(a, a),
            Self::before(a, b) && Self::before(b, c) ==> Self::before(a, c),
            a == b || Self::before(a, b) || Self::before(b, a),
    ;

    /// Whether this key comes before `other`.
    fn precedes(&self, other: &Self) -> (r: bool)
        ensures
            r == Self::before(self.id(), other.id()),
    ;
}

impl TableKey for u32 {
    type Id = int;

    open spec fn id(&self) -> int {
        *self as int
    }

    open spec fn before(a: int, b: int) -> bool {
        a < b
    }

    proof fn order(a: int, b: int, c: int) {
    }

    fn precedes(&self, other: &u32) -> (r: bool) {
        *self < *other
    }
}

impl TableKey for i32 {
    type Id = int;

    open spec fn id(&self) -> int {
        *self as int
    }

    open spec fn before(a: int, b: int) -> bool {
        a < b
    }

    proof fn order(a: int, b: int, c: int) {
    }

    fn precedes(&self, other: &i32) -> (r: bool) {
        *self < *other
    }
}

/// Whether the first of two texts comes first in the order of their characters.
pub open spec fn text_before(a: Seq<char>, b: Seq<char>) -> bool
    decreases b.len(),
{
    if b.len() == 0 {
        false
    } else if a.len() == 0 {
        true
    } else if a[0] == b[0] {
        text_before(a.drop_first(), b.drop_first())
    } else {
        a[0] < b[0]
    }
}

/// The order of texts is a strict total order.
pub proof fn lemma_text_order(a: Seq<char>, b: Seq<char>, c: Seq<char>)
    ensures
        !text_before(a, a),
        text_before(a, b) && text_before(b, c) ==> text_before(a, c),
        a == b || text_before(a, b) || text_before(b, a),
    decreases a.len() + b.len() + c.len(),
{
    if a.len() > 0 && b.len() > 0 && c.len() > 0 {
        lemma_text_order(a.drop_first(), b.drop_first(), c.drop_first());
        if a[0] == b[0] && a.drop_first() == b.drop_first() {
            assert(a =~= seq![a[0]] + a.drop_first());
            assert(b =~= seq![b[0]] + b.drop_first());
        }
    } else {
        if a.len() > 0 {
            lemma_text_order(a.drop_first(), Seq::empty(), Seq::empty());
        }
        if a.len() > 0 && b.len() > 0 {
            lemma_text_order(a.drop_first(), b.drop_first(), Seq::empty());
            if a[0] == b[0] && a.drop_first() == b.drop_first() {
                assert(a =~= seq![a[0]] + a.drop_first());
                assert(b =~= seq![b[0]] + b.drop_first());
            }
        }
        if a.len() == 0 && b.len() == 0 {
            assert(a =~= b);
        }
    }
}

/// Whether `a` comes before `b` in the order of their characters.
pub fn text_less(a: &[char], b: &[char]) -> (r: bool)
    ensures
        r == text_before(a@, b@),
{
    let mut i: usize = 0;
    assert(a@.skip(0) =~= a@);
    assert(b@.skip(0) =~= b@);
    while i < a.len() && i < b.len() && a[i] == b[i]
        invariant
            i <= a@.len(),
            i <= b@.len(),
            text_before(a@.skip(i as int), b@.skip(i as int)) == text_before(a@, b@),
        decreases a@.len() - i,
    {
        assert(a@.skip(i as int).drop_first() =~= a@.skip(i + 1));
        assert(b@.skip(i as int).drop_first() =~= b@.skip(i + 1));
        i = i + 1;
    }
    if i >= b.len() {
        false
    } else if i >= a.len() {
        true
    } else {
        a[i] < b[i]
    }
}

impl TableKey for String {
    type Id = Seq<char>;

    open spec fn id(&self) -> Seq<char> {
        self@
    }

    open spec fn before(a: Seq<char>, b: Seq<char>) -> bool {
        text_before(a, b)
    }

    proof fn order(a: Seq<char>, b: Seq<char>, c: Seq<char>) {
        lemma_text_order(a, b, c);
    }

    fn precedes(&self, other: &String) -> (r: bool) {
        let a = chars_of(self.as_str());
        let b = chars_of(other.as_str());
        text_less(a.as_slice(), b.as_slice())
    }
}

/// Whether the key of some entry is `k`.
pub open spec fn has_key<K: TableKey, V>(s: Seq<(K, V)>, k: K::Id) -> bool {
    exists|i: int| 0 <= i < s.len() && (#[trigger] s[i]).0.id() == k
}

/// The place of key `k` among the entries.
pub open spec fn place_of<K: TableKey, V>(s: Seq<(K, V)>, k: K::Id) -> int {
    choose|i: int| 0 <= i < s.len() && (#[trigger] s[i]).0.id() == k
}

/// Whether the entries stand in strict order of their keys.
pub open spec fn is_ordered<K: TableKey, V>(s: Seq<(K, V)>) -> bool {
    forall|i: int, j: int|
        0 <= i < j < s.len() ==> K::before((#[trigger] s[i]).0.id(), (#[trigger] s[j]).0.id())
}

/// The map that entries stand for.
pub open spec fn entries_map<K: TableKey, V>(s: Seq<(K, V)>) -> Map<K::Id, V> {
    Map::new(|k: K::Id| has_key(s, k), |k: K::Id| s[place_of(s, k)].1)
}

/// A table whose entries stand in order of their keys, each key once.
pub struct Table<K: TableKey, V> {
    /// The entries.
    pub entries: Vec<(K, V)>,
}

impl<K: TableKey, V> View for Table<K, V> {
    type V = Map<K::Id, V>;

    open spec fn view(&self) -> Map<K::Id, V> {
        entries_map(self.entries@)
    }
}

/// An entry in order is found under its key.
pub proof fn lemma_entry<K: TableKey, V>(s: Seq<(K, V)>, i: int)
    requires
        is_ordered(s),
        0 <= i < s.len(),
    ensures
        has_key(s, s[i].0.id()),
        place_of(s, s[i].0.id()) == i,
        entries_map(s).dom().contains(s[i].0.id()),
        entries_map(s)[s[i].0.id()] == s[i].1,
{
    let k = s[i].0.id();
    assert(s[i].0.id() == k);
    let j = place_of(s, k);
    assert(0 <= j < s.len() && s[j].0.id() == k);
    K::order(k, k, k);
}

impl<K: TableKey, V> Table<K, V> {
    /// Whether the entries stand in strict order of their keys.
    pub open spec fn wf(&self) -> bool {
        is_ordered(self.entries@)
    }

    /// An empty table.
    pub fn new() -> (r: Table<K, V>)
        ensures
            r.wf(),
            r@ == Map::<K::Id, V>::empty(),
            r.entries@.len() == 0,
    {
        let r = Table { entries: Vec::new() };
        assert(r@ =~= Map::<K::Id, V>::empty());
        r
    }

    /// Whether the table has no entry.
    pub fn is_empty(&self) -> (r: bool)
        requires
            self.wf(),
        ensures
            r == (self.entries@.len() == 0),
            r == (self@ =~= Map::<K::Id, V>::empty()),
    {
        proof {
            if self.entries@.len() > 0 {
                lemma_entry(self.entries@, 0);
                assert(self@.dom().contains(self.entries@[0].0.id()));
            } else {
                assert(self@ =~= Map::<K::Id, V>::empty());
            }
        }
        self.entries.len() == 0
    }

    /// The first place whose key is not before `key`, and whether it holds `key`.
    fn locate(&self, key: &K) -> (r: (usize, bool))
        requires
            self.wf(),
        ensures
            r.0 <= self.entries@.len(),
            forall|i: int|
                0 <= i < r.0 ==> K::before((#[trigger] self.entries@[i]).0.id(), key.id()),
            r.1 ==> r.0 < self.entries@.len() && self.entries@[r.0 as int].0.id() == key.id(),
            !r.1 ==> forall|i: int|
                r.0 <= i < self.entries@.len() ==> K::before(
                    key.id(),
                    (#[trigger] self.entries@[i]).0.id(),
                ),
            r.1 == has_key(self.entries@, key.id()),
    {
        let mut i: usize = 0;
        while i < self.entries.len() && self.entries[i].0.precedes(key)
            invariant
                i <= self.entries@.len(),
                forall|j: int|
                    0 <= j < i ==> K::before((#[trigger] self.entries@[j]).0.id(), key.id()),
            decreases self.entries@.len() - i,
        {
            i = i + 1;
        }
        let found: bool = i < self.entries.len() && !key.precedes(&self.entries[i].0);
        proof {
            let s = self.entries@;
            let k = key.id();
            if i < s.len() {
                K::order(k, s[i as int].0.id(), k);
            }
            if !found {
                assert forall|j: int| i <= j < s.len() implies K::before(
                    k,
                    (#[trigger] s[j]).0.id(),
                ) by {
                    if j > i {
                        K::order(k, s[i as int].0.id(), s[j].0.id());
                    }
                }
                if has_key(s, k) {
                    let j = place_of(s, k);
                    K::order(k, k, k);
                    assert(s[j].0.id() == k);
                }
            }
        }
        (i, found)
    }

    /// The value under `key`.
    pub fn get(&self, key: &K) -> (r: Option<&V>)
        requires
            self.wf(),
        ensures
            match r {
                Some(v) => self@.dom().contains(key.id()) && *v == self@[key.id()],
                None => !self@.dom().contains(key.id()),
            },
    {
        let (i, found) = self.locate(key);
        if found {
            proof {
                lemma_entry(self.entries@, i as int);
            }
            Some(&self.entries[i].1)
        } else {
            None
        }
    }

    /// Puts `value` under `key`.
    pub fn insert(&mut self, key: K, value: V)
        requires
            old(self).wf(),
        ensures
            final(self).wf(),
            final(self)@ == old(self)@.insert(key.id(), value),
    {
        let (i, found) = self.locate(&key);
        let ghost before = self.entries@;
        let ghost k = key.id();
        if found {
            self.entries.set(i, (key, value));
            proof {
                let after = self.entries@;
                assert(after[i as int].0.id() == k);
                assert forall|a: int, b: int| 0 <= a < b < after.len() implies K::before(
                    (#[trigger] after[a]).0.id(),
                    (#[trigger] after[b]).0.id(),
                ) by {
                    assert(K::before(before[a].0.id(), before[b].0.id()));
                }
                Self::lemma_same_map(before, after, k, value, i as int, |j: int| j, |j: int| j);
            }
        } else {
            self.entries.insert(i, (key, value));
            proof {
                let after = self.entries@;
                assert(after[i as int].0.id() == k);
                assert forall|a: int, b: int| 0 <= a < b < after.len() implies K::before(
                    (#[trigger] after[a]).0.id(),
                    (#[trigger] after[b]).0.id(),
                ) by {
                    let p = if a < i {
                        before[a]
                    } else {
                        before[a - 1]
                    };
                    let q = if b < i {
                        before[b]
                    } else {
                        before[b - 1]
                    };
                }
                Self::lemma_same_map(
                    before,
                    after,
                    k,
                    value,
                    i as int,
                    |j: int| if j < i { j } else { j - 1 },
                    |j: int| if j < i { j } else { j + 1 },
                );
            }
        }
    }

    proof fn lemma_same_map(
        before: Seq<(K, V)>,
        after: Seq<(K, V)>,
        k: K::Id,
        value: V,
        i: int,
        back: spec_fn(int) -> int,
        forth: spec_fn(int) -> int,
    )
        requires
            is_ordered(before),
            is_ordered(after),
            0 <= i < after.len(),
            after[i].0.id() == k,
            after[i].1 == value,
            forall|j: int|
                0 <= j < after.len() && j != i ==> 0 <= #[trigger] back(j) < before.len()
                    && before[back(j)] == after[j],
            forall|j: int|
                0 <= j < before.len() && before[j].0.id() != k ==> 0 <= #[trigger] forth(j)
                    < after.len() && forth(j) != i && after[forth(j)] == before[j],
        ensures
            entries_map(after) == entries_map(before).insert(k, value),
    {
        let m = entries_map(after);
        let n = entries_map(before).insert(k, value);
        lemma_entry(after, i);
        assert forall|x: K::Id| m.dom().contains(x) == n.dom().contains(x) by {
            if has_key(after, x) {
                let j = place_of(after, x);
                if j != i {
                    let b = back(j);
                    assert(before[b].0.id() == x);
                }
            }
            if has_key(before, x) && x != k {
                let j = place_of(before, x);
                assert(before[j].0.id() == x);
                let f = forth(j);
                assert(after[f].0.id() == x);
            }
        }
        assert forall|x: K::Id| m.dom().contains(x) implies m[x] == n[x] by {
            let j = place_of(after, x);
            assert(after[j].0.id() == x);
            if x != k {
                assert(j != i);
                let b = back(j);
                lemma_entry(before, b);
            }
        }
        assert(m =~= n);
    }
}

/// Part of entries in order is in order.
pub proof fn lemma_part_is_ordered<K: TableKey, V>(s: Seq<(K, V)>, i: int, j: int)
    requires
        is_ordered(s),
        0 <= i <= j <= s.len(),
    ensures
        is_ordered(s.subrange(i, j)),
{
    let t = s.subrange(i, j);
    assert forall|x: int, y: int| 0 <= x < y < t.len() implies K::before(
        (#[trigger] t[x]).0.id(),
        (#[trigger] t[y]).0.id(),
    ) by {
        assert(t[x] == s[x + i] && t[y] == s[y + i]);
    }
}

/// The map of the first entries grows with them.
pub proof fn lemma_prefix_map<K: TableKey, V>(s: Seq<(K, V)>, i: int)
    requires
        is_ordered(s),
        0 <= i < s.len(),
    ensures
        entries_map(s.take(i + 1)) == entries_map(s.take(i)).insert(s[i].0.id(), s[i].1),
        !entries_map(s.take(i)).dom().contains(s[i].0.id()),
{
    let a = s.take(i);
    let b = s.take(i + 1);
    lemma_part_is_ordered(s, 0, i);
    lemma_part_is_ordered(s, 0, i + 1);
    let m = entries_map(b);
    let n = entries_map(a).insert(s[i].0.id(), s[i].1);
    lemma_entry(b, i);
    assert forall|k: K::Id| m.dom().contains(k) == n.dom().contains(k) by {
        if m.dom().contains(k) {
            let j = place_of(b, k);
            if j < i {
                assert(a[j] == b[j]);
                lemma_entry(a, j);
            }
        }
        if entries_map(a).dom().contains(k) {
            let j = place_of(a, k);
            assert(a[j] == b[j]);
            lemma_entry(b, j);
        }
    }
    assert forall|k: K::Id| m.dom().contains(k) implies m[k] == n[k] by {
        let j = place_of(b, k);
        lemma_entry(b, j);
        if j < i {
            assert(a[j] == b[j]);
            lemma_entry(a, j);
        }
    }
    assert(m =~= n);
    if entries_map(a).dom().contains(s[i].0.id()) {
        let j = place_of(a, s[i].0.id());
        assert(a[j] == s[j]);
        assert(K::before(s[j].0.id(), s[i].0.id()));
        K::order(s[i].0.id(), s[i].0.id(), s[i].0.id());
    }
}

/// The map without an entry lacks its key alone.
proof fn lemma_remove_entry<K: TableKey, V>(s: Seq<(K, V)>, i: int)
    requires
        is_ordered(s),
        0 <= i < s.len(),
    ensures
        is_ordered(s.remove(i)),
        entries_map(s.remove(i)) == entries_map(s).remove(s[i].0.id()),
{
    let t = s.remove(i);
    let k = s[i].0.id();
    assert forall|x: int, y: int| 0 <= x < y < t.len() implies K::before(
        (#[trigger] t[x]).0.id(),
        (#[trigger] t[y]).0.id(),
    ) by {
        let p = if x < i {
            x
        } else {
            x + 1
        };
        let q = if y < i {
            y
        } else {
            y + 1
        };
        assert(t[x] == s[p] && t[y] == s[q]);
    }
    let m = entries_map(t);
    let n = entries_map(s).remove(k);
    assert forall|x: K::Id| m.dom().contains(x) == n.dom().contains(x) by {
        if m.dom().contains(x) {
            let j = place_of(t, x);
            let q = if j < i {
                j
            } else {
                j + 1
            };
            assert(t[j] == s[q]);
            lemma_entry(s, q);
            K::order(x, k, x);
        }
        if entries_map(s).dom().contains(x) && x != k {
            let j = place_of(s, x);
            assert(j != i);
            let q = if j < i {
                j
            } else {
                j - 1
            };
            assert(t[q] == s[j]);
            lemma_entry(t, q);
        }
    }
    assert forall|x: K::Id| m.dom().contains(x) implies m[x] == n[x] by {
        let j = place_of(t, x);
        let q = if j < i {
            j
        } else {
            j + 1
        };
        assert(t[j] == s[q]);
        lemma_entry(s, q);
        lemma_entry(t, j);
    }
    assert(m =~= n);
}

/// The entries of a map whose keys do not come before `k`.
pub open spec fn not_before<K: TableKey, V>(m: Map<K::Id, V>, k: K::Id) -> Map<K::Id, V> {
    Map::new(|x: K::Id| m.dom().contains(x) && !K::before(x, k), |x: K::Id| m[x])
}

impl<K: TableKey, V> Table<K, V> {
    /// Takes out what stands under `key`.
    pub fn remove(&mut self, key: &K)
        requires
            old(self).wf(),
        ensures
            final(self).wf(),
            final(self)@ == old(self)@.remove(key.id()),
    {
        let (i, found) = self.locate(key);
        if found {
            proof {
                lemma_remove_entry(self.entries@, i as int);
            }
            let _ = self.entries.remove(i);
        } else {
            assert(self@.remove(key.id()) =~= self@);
        }
    }

    /// Takes out what stands under keys before `key`.
    pub fn drop_before(&mut self, key: &K)
        requires
            old(self).wf(),
        ensures
            final(self).wf(),
            final(self)@ == not_before::<K, V>(old(self)@, key.id()),
    {
        while self.entries.len() > 0 && self.entries[0].0.precedes(key)
            invariant
                self.wf(),
                not_before::<K, V>(self@, key.id()) == not_before::<K, V>(old(self)@, key.id()),
            decreases self.entries@.len(),
        {
            let ghost before = self@;
            let ghost k = self.entries@[0].0.id();
            proof {
                lemma_remove_entry(self.entries@, 0);
            }
            let _ = self.entries.remove(0);
            assert(not_before::<K, V>(before.remove(k), key.id()) =~= not_before::<K, V>(
                before,
                key.id(),
            ));
        }
        proof {
            let s = self.entries@;
            assert forall|x: K::Id| self@.dom().contains(x) implies !K::before(x, key.id()) by {
                let j = place_of(s, x);
                if K::before(x, key.id()) && j > 0 {
                    K::order(s[0].0.id(), s[j].0.id(), key.id());
                }
            }
            assert(not_before::<K, V>(self@, key.id()) =~= self@);
        }
    }

    /// Takes out everything.
    pub fn clear(&mut self)
        ensures
            final(self).wf(),
            final(self)@ == Map::<K::Id, V>::empty(),
            final(self).entries@.len() == 0,
    {
        self.entries.clear();
        assert(self@ =~= Map::<K::Id, V>::empty());
    }
}

// ---------------------------------------------------------------------------
// Laws
// ---------------------------------------------------------------------------
/// Texts are ordered by the first character in which they differ, and a text comes before
/// those that it starts.
pub proof fn law_texts_are_ordered(
    common: Seq<char>,
    c: char,
    a: Seq<char>,
    d: char,
    b: Seq<char>,
)
    requires
        c < d,
    ensures
        text_before(common + (seq![c] + a), common + (seq![d] + b)),
        !text_before(common + (seq![d] + b), common + (seq![c] + a)),
        text_before(common, common + (seq![c] + a)),
        !text_before(common + (seq![c] + a), common),
    decreases common.len(),
{
    let x = common + (seq![c] + a);
    let y = common + (seq![d] + b);
    if common.len() == 0 {
        assert(x[0] == c && y[0] == d);
    } else {
        let rest = common.drop_first();
        assert(x[0] == common[0] && y[0] == common[0]);
        assert(x.drop_first() =~= rest + (seq![c] + a));
        assert(y.drop_first() =~= rest + (seq![d] + b));
        law_texts_are_ordered(rest, c, a, d, b);
    }
}

} // verus!
