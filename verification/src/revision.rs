//! The revision record that the XML serialisers read and write, and its
//! property map.

use vstd::prelude::*;
use vstd::utf8::*;

verus! {

broadcast use vstd::utf8::group_utf8_lib;

/// Lexicographic order on byte sequences, a proper prefix coming first.
pub open spec fn bytes_lt(a: Seq<u8>, b: Seq<u8>) -> bool
    decreases a.len(),
{
    if a.len() == 0 {
        b.len() > 0
    } else if b.len() == 0 {
        false
    } else if a[0] != b[0] {
        a[0] < b[0]
    } else {
        bytes_lt(a.drop_first(), b.drop_first())
    }
}

/// The order of property names: that of their UTF-8 bytes, which is how
/// `String` compares.
pub open spec fn key_lt(a: Seq<char>, b: Seq<char>) -> bool {
    bytes_lt(encode_utf8(a), encode_utf8(b))
}

proof fn lemma_bytes_lt_irreflexive(a: Seq<u8>)
    ensures
        !bytes_lt(a, a),
    decreases a.len(),
{
    if a.len() > 0 {
        lemma_bytes_lt_irreflexive(a.drop_first());
    }
}

proof fn lemma_bytes_lt_transitive(a: Seq<u8>, b: Seq<u8>, c: Seq<u8>)
    requires
        bytes_lt(a, b),
        bytes_lt(b, c),
    ensures
        bytes_lt(a, c),
    decreases a.len(),
{
    if a.len() > 0 && a[0] == b[0] && b[0] == c[0] {
        lemma_bytes_lt_transitive(a.drop_first(), b.drop_first(), c.drop_first());
    }
}

proof fn lemma_bytes_lt_total(a: Seq<u8>, b: Seq<u8>)
    requires
        a != b,
    ensures
        bytes_lt(a, b) || bytes_lt(b, a),
    decreases a.len(),
{
    if a.len() == 0 && b.len() == 0 {
        assert(a =~= b);
    }
    if a.len() > 0 && b.len() > 0 && a[0] == b[0] {
        if a.drop_first() == b.drop_first() {
            assert(a =~= seq![a[0]] + a.drop_first());
            assert(b =~= seq![b[0]] + b.drop_first());
        }
        lemma_bytes_lt_total(a.drop_first(), b.drop_first());
    }
}

/// The order on byte sequences is the lexicographic one: `a` comes before
/// `b` exactly when `a` is a proper prefix of `b`, or at the first index
/// where they differ the byte of `a` is the smaller.
pub proof fn lemma_bytes_lt_lexicographic(a: Seq<u8>, b: Seq<u8>)
    ensures
        bytes_lt(a, b) <==> ((a.len() < b.len() && a == b.take(a.len() as int)) || exists|i: int|
            0 <= i < a.len() && i < b.len() && a.take(i) == b.take(i) && #[trigger] a[i] < b[i]),
    decreases a.len(),
{
    if a.len() == 0 {
        assert(a =~= b.take(0));
    } else if b.len() == 0 {
    } else if a[0] != b[0] {
        if a[0] < b[0] {
            assert(a.take(0) =~= b.take(0));
            assert(a[0] < b[0]);
        } else {
            if a.len() < b.len() {
                assert(b.take(a.len() as int)[0] == b[0]);
                assert(a[0] != b.take(a.len() as int)[0]);
            }
            if exists|i: int| 0 <= i < a.len() && i < b.len() && a.take(i) == b.take(i) && #[trigger] a[i] < b[i] {
                let i = choose|i: int| 0 <= i < a.len() && i < b.len() && a.take(i) == b.take(i) && #[trigger] a[i] < b[i];
                if i > 0 {
                    assert(a.take(i)[0] == b.take(i)[0]);
                }
            }
        }
    } else {
        let a1 = a.drop_first();
        let b1 = b.drop_first();
        lemma_bytes_lt_lexicographic(a1, b1);
        if a.len() < b.len() && a == b.take(a.len() as int) {
            assert(a1 =~= b1.take(a1.len() as int));
        }
        if a1.len() < b1.len() && a1 == b1.take(a1.len() as int) {
            assert forall|j: int| 0 <= j < a.len() implies a[j] == b.take(a.len() as int)[j] by {
                if j > 0 {
                    assert(a[j] == a1[j - 1]);
                    assert(a1[j - 1] == b1.take(a1.len() as int)[j - 1]);
                }
            }
            assert(a =~= b.take(a.len() as int));
        }
        if exists|i: int| 0 <= i < a1.len() && i < b1.len() && a1.take(i) == b1.take(i) && #[trigger] a1[i] < b1[i] {
            let i = choose|i: int| 0 <= i < a1.len() && i < b1.len() && a1.take(i) == b1.take(i) && #[trigger] a1[i] < b1[i];
            assert(a.take(i + 1) =~= seq![a[0]] + a1.take(i));
            assert(b.take(i + 1) =~= seq![b[0]] + b1.take(i));
            assert(a[i + 1] == a1[i]);
        }
        if exists|i: int| 0 <= i < a.len() && i < b.len() && a.take(i) == b.take(i) && #[trigger] a[i] < b[i] {
            let i = choose|i: int| 0 <= i < a.len() && i < b.len() && a.take(i) == b.take(i) && #[trigger] a[i] < b[i];
            assert(i > 0);
            assert(a1.take(i - 1) =~= a.take(i).drop_first());
            assert(b1.take(i - 1) =~= b.take(i).drop_first());
            assert(a1[i - 1] == a[i]);
        }
    }
}

/// `bytes_lt` is a strict total order.
pub proof fn lemma_bytes_lt_order(a: Seq<u8>, b: Seq<u8>, c: Seq<u8>)
    ensures
        !bytes_lt(a, a),
        bytes_lt(a, b) && bytes_lt(b, c) ==> bytes_lt(a, c),
        a != b ==> bytes_lt(a, b) || bytes_lt(b, a),
        bytes_lt(a, b) ==> !bytes_lt(b, a),
{
    lemma_bytes_lt_irreflexive(a);
    if bytes_lt(a, b) && bytes_lt(b, c) {
        lemma_bytes_lt_transitive(a, b, c);
    }
    if a != b {
        lemma_bytes_lt_total(a, b);
    }
    if bytes_lt(a, b) && bytes_lt(b, a) {
        lemma_bytes_lt_transitive(a, b, a);
    }
}

/// `key_lt` is a strict total order on texts.
pub proof fn lemma_key_lt_order(a: Seq<char>, b: Seq<char>, c: Seq<char>)
    ensures
        !key_lt(a, a),
        key_lt(a, b) && key_lt(b, c) ==> key_lt(a, c),
        a != b ==> key_lt(a, b) || key_lt(b, a),
        key_lt(a, b) ==> !key_lt(b, a),
{
    lemma_bytes_lt_order(encode_utf8(a), encode_utf8(b), encode_utf8(c));
    if a != b {
        assert(decode_utf8(encode_utf8(a)) == a);
        assert(decode_utf8(encode_utf8(b)) == b);
    }
}

/// Entries whose keys strictly increase.
pub open spec fn keys_sorted(s: Seq<(Seq<char>, Seq<u8>)>) -> bool {
    forall|i: int, j: int| 0 <= i < j < s.len() ==> key_lt(#[trigger] s[i].0, #[trigger] s[j].0)
}

/// Whether some entry of `s` has the key `k`.
pub open spec fn has_key(s: Seq<(Seq<char>, Seq<u8>)>, k: Seq<char>) -> bool {
    exists|i: int| 0 <= i < s.len() && #[trigger] s[i].0 == k
}

/// The map that the entries `s` denote.
pub open spec fn entries_map(s: Seq<(Seq<char>, Seq<u8>)>) -> Map<Seq<char>, Seq<u8>> {
    Map::new(
        |k: Seq<char>| has_key(s, k),
        |k: Seq<char>| s[key_index(s, k)].1,
    )
}

/// An index of an entry with key `k`, if there is one.
pub open spec fn key_index(s: Seq<(Seq<char>, Seq<u8>)>, k: Seq<char>) -> int {
    choose|i: int| 0 <= i < s.len() && #[trigger] s[i].0 == k
}

/// In sorted entries, the value of the key at index `i` is the entry's.
proof fn lemma_entries_map_at(s: Seq<(Seq<char>, Seq<u8>)>, i: int)
    requires
        keys_sorted(s),
        0 <= i < s.len(),
    ensures
        entries_map(s).contains_key(s[i].0),
        entries_map(s)[s[i].0] == s[i].1,
{
    let k = s[i].0;
    assert(has_key(s, k));
    let j = key_index(s, k);
    if j != i {
        lemma_key_lt_order(k, k, k);
        if j < i {
            assert(key_lt(s[j].0, s[i].0));
        } else {
            assert(key_lt(s[i].0, s[j].0));
        }
    }
}

/// Dropping the first of sorted entries drops its key from the map.
proof fn lemma_entries_map_tail(s: Seq<(Seq<char>, Seq<u8>)>)
    requires
        keys_sorted(s),
        s.len() > 0,
    ensures
        keys_sorted(s.drop_first()),
        entries_map(s.drop_first()) == entries_map(s).remove(s[0].0),
{
    let t = s.drop_first();
    let k0 = s[0].0;
    assert forall|a: int, b: int| 0 <= a < b < t.len() implies key_lt(#[trigger] t[a].0, #[trigger] t[b].0) by {
        assert(t[a] == s[a + 1] && t[b] == s[b + 1]);
    }
    assert forall|key: Seq<char>| #[trigger] entries_map(t).contains_key(key) == entries_map(s).remove(k0).contains_key(key) by {
        if has_key(t, key) {
            let j = key_index(t, key);
            assert(s[j + 1].0 == key);
            lemma_key_lt_order(k0, k0, k0);
            assert(key_lt(s[0].0, s[j + 1].0));
        }
        if has_key(s, key) && key != k0 {
            let j = key_index(s, key);
            assert(j != 0);
            assert(t[j - 1].0 == key);
        }
    }
    assert forall|key: Seq<char>| #[trigger] entries_map(t).contains_key(key) implies entries_map(t)[key] == entries_map(s).remove(k0)[key] by {
        assert(has_key(t, key));
        let j = key_index(t, key);
        lemma_entries_map_at(t, j);
        lemma_entries_map_at(s, j + 1);
        assert(t[j] == s[j + 1]);
    }
    assert(entries_map(t) =~= entries_map(s).remove(k0));
}

/// Appending an entry whose key comes after all others adds that key, with
/// its value, to the map.
pub proof fn lemma_entries_map_push(s: Seq<(Seq<char>, Seq<u8>)>, e: (Seq<char>, Seq<u8>))
    requires
        keys_sorted(s.push(e)),
    ensures
        keys_sorted(s),
        entries_map(s.push(e)) == entries_map(s).insert(e.0, e.1),
{
    let t = s.push(e);
    let n = s.len() as int;
    assert forall|a: int, b: int| 0 <= a < b < s.len() implies key_lt(#[trigger] s[a].0, #[trigger] s[b].0) by {
        assert(t[a] == s[a] && t[b] == s[b]);
    }
    assert(t[n] == e);
    lemma_entries_map_at(t, n);
    assert forall|key: Seq<char>| #[trigger] entries_map(t).contains_key(key) == entries_map(s).insert(e.0, e.1).contains_key(key) by {
        if has_key(t, key) && key != e.0 {
            let j = key_index(t, key);
            assert(j != n);
            assert(s[j].0 == key);
        }
        if has_key(s, key) {
            let j = key_index(s, key);
            assert(t[j].0 == key);
        }
    }
    assert forall|key: Seq<char>| #[trigger] entries_map(t).contains_key(key) implies entries_map(t)[key] == entries_map(s).insert(e.0, e.1)[key] by {
        if key != e.0 {
            let j = key_index(t, key);
            assert(j != n);
            lemma_entries_map_at(t, j);
            assert(t[j] == s[j]);
            lemma_entries_map_at(s, j);
        }
    }
    assert(entries_map(t) =~= entries_map(s).insert(e.0, e.1));
}

/// Sorted entries are determined by the map they denote: two property sets
/// that hold the same map list the same entries in the same order.
pub proof fn lemma_sorted_entries_determined(
    s1: Seq<(Seq<char>, Seq<u8>)>,
    s2: Seq<(Seq<char>, Seq<u8>)>,
)
    requires
        keys_sorted(s1),
        keys_sorted(s2),
        entries_map(s1) == entries_map(s2),
    ensures
        s1 == s2,
    decreases s1.len(),
{
    if s1.len() == 0 || s2.len() == 0 {
        if s1.len() > 0 {
            lemma_entries_map_at(s1, 0);
        }
        if s2.len() > 0 {
            lemma_entries_map_at(s2, 0);
        }
        assert(s1 =~= s2);
    } else {
        let k1 = s1[0].0;
        let k2 = s2[0].0;
        lemma_entries_map_at(s1, 0);
        lemma_entries_map_at(s2, 0);
        assert(has_key(s2, k1));
        assert(has_key(s1, k2));
        let j = key_index(s2, k1);
        let i = key_index(s1, k2);
        if k1 != k2 {
            assert(j != 0);
            assert(i != 0);
            assert(key_lt(s2[0].0, s2[j].0));
            assert(key_lt(s1[0].0, s1[i].0));
            lemma_key_lt_order(k1, k2, k1);
        }
        assert(s1[0] == s2[0]);
        lemma_entries_map_tail(s1);
        lemma_entries_map_tail(s2);
        lemma_sorted_entries_determined(s1.drop_first(), s2.drop_first());
        assert(s1 =~= seq![s1[0]] + s1.drop_first());
        assert(s2 =~= seq![s2[0]] + s2.drop_first());
    }
}

/// Properties of a revision: a map from names to byte values, kept as
/// entries sorted by name.
pub struct Properties {
    entries: Vec<(String, Vec<u8>)>,
}

impl Properties {
    /// The entries, in order.
    pub closed spec fn entries(&self) -> Seq<(Seq<char>, Seq<u8>)> {
        self.entries@.map_values(|e: (String, Vec<u8>)| (e.0@, e.1@))
    }

    /// The map that the properties hold.
    pub open spec fn map(&self) -> Map<Seq<char>, Seq<u8>> {
        entries_map(self.entries())
    }

    #[verifier::type_invariant]
    closed spec fn sorted(&self) -> bool {
        keys_sorted(self.entries())
    }

    /// No properties.
    pub fn new() -> (res: Self)
        ensures
            res.entries() == Seq::<(Seq<char>, Seq<u8>)>::empty(),
            res.map() == Map::<Seq<char>, Seq<u8>>::empty(),
    {
        let res = Properties { entries: Vec::new() };
        assert(res.entries() =~= Seq::<(Seq<char>, Seq<u8>)>::empty());
        assert(res.map() =~= Map::<Seq<char>, Seq<u8>>::empty());
        res
    }

    /// The number of properties; the entries are sorted by name, no name
    /// occurring twice.
    pub fn len(&self) -> (res: usize)
        ensures
            res == self.entries().len(),
            keys_sorted(self.entries()),
    {
        proof {
            use_type_invariant(self);
        }
        self.entries.len()
    }

    /// Whether there are no properties.
    pub fn is_empty(&self) -> (res: bool)
        ensures
            res == (self.entries().len() == 0),
    {
        self.entries.len() == 0
    }

    /// The name and value of the `i`-th property in name order.
    pub fn entry(&self, i: usize) -> (res: (&String, &Vec<u8>))
        requires
            i < self.entries().len(),
        ensures
            res.0@ == self.entries()[i as int].0,
            res.1@ == self.entries()[i as int].1,
    {
        let e = &self.entries[i];
        (&e.0, &e.1)
    }

    /// Sets the value of `name` to `value`, replacing any value it had.
    pub fn insert(&mut self, name: String, value: Vec<u8>)
        ensures
            final(self).map() == old(self).map().insert(name@, value@),
            keys_sorted(final(self).entries()),
    {
        proof {
            use_type_invariant(&*self);
        }
        let mut entries: Vec<(String, Vec<u8>)> = Vec::new();
        std::mem::swap(&mut entries, &mut self.entries);
        let ghost old_s = entries@.map_values(|e: (String, Vec<u8>)| (e.0@, e.1@));
        assert(old_s == old(self).entries());
        let mut i: usize = 0;
        while i < entries.len() && key_less(&entries[i].0, &name)
            invariant
                i <= entries@.len(),
                old_s == entries@.map_values(|e: (String, Vec<u8>)| (e.0@, e.1@)),
                keys_sorted(old_s),
                forall|j: int| 0 <= j < i ==> key_lt(#[trigger] old_s[j].0, name@),
            decreases entries@.len() - i,
        {
            i = i + 1;
        }
        let ghost k = name@;
        let ghost v = value@;
        let replace = i < entries.len() && crate::text::str_eq(entries[i].0.as_str(), name.as_str());
        if replace {
            entries.remove(i);
        }
        entries.insert(i, (name, value));
        let ghost new_s = entries@.map_values(|e: (String, Vec<u8>)| (e.0@, e.1@));
        proof {
            // Every key at or after `i` in the old entries, except a replaced
            // one, comes after `k`.
            assert forall|j: int| i <= j < old_s.len() && (j != i || !replace) implies key_lt(
                k,
                #[trigger] old_s[j].0,
            ) by {
                assert(!key_less_spec_at(old_s, i as int, k));
                lemma_key_lt_order(old_s[i as int].0, k, k);
                lemma_key_lt_order(k, old_s[i as int].0, old_s[j].0);
                if j > i {
                    assert(key_lt(old_s[i as int].0, old_s[j].0));
                }
            }
            if replace {
                assert(old_s[i as int].0 == k);
                assert(new_s =~= old_s.update(i as int, (k, v)));
            } else {
                assert(new_s =~= old_s.insert(i as int, (k, v)));
            }
            assert forall|a: int, b: int| 0 <= a < b < new_s.len() implies key_lt(
                #[trigger] new_s[a].0,
                #[trigger] new_s[b].0,
            ) by {
                if b < i {
                    assert(key_lt(old_s[a].0, old_s[b].0));
                } else if b == i {
                    assert(key_lt(old_s[a].0, k));
                } else if a > i {
                    if replace {
                        assert(key_lt(old_s[a].0, old_s[b].0));
                    } else {
                        assert(key_lt(old_s[a - 1].0, old_s[b - 1].0));
                    }
                } else {
                    let ob = if replace { b } else { b - 1 };
                    assert(new_s[b] == old_s[ob]);
                    assert(key_lt(k, old_s[ob].0));
                    if a < i {
                        assert(key_lt(old_s[a].0, k));
                        lemma_key_lt_order(old_s[a].0, k, old_s[ob].0);
                    }
                }
            }
            assert(keys_sorted(new_s));
            assert forall|key: Seq<char>| #[trigger]
                entries_map(new_s).contains_key(key) == old(self).map().insert(k, v).contains_key(
                    key,
                ) by {
                if has_key(new_s, key) {
                    let j = key_index(new_s, key);
                    if key != k {
                        if j < i {
                            assert(old_s[j].0 == key);
                        } else if replace {
                            assert(old_s[j].0 == key);
                        } else {
                            assert(old_s[j - 1].0 == key);
                        }
                    }
                }
                if has_key(old_s, key) && key != k {
                    let j = key_index(old_s, key);
                    if j < i {
                        assert(new_s[j].0 == key);
                    } else if replace {
                        assert(new_s[j].0 == key);
                    } else {
                        assert(new_s[j + 1].0 == key);
                    }
                }
                if key == k {
                    assert(new_s[i as int].0 == key);
                }
            }
            assert forall|key: Seq<char>| #[trigger] entries_map(new_s).contains_key(key) implies entries_map(
                new_s,
            )[key] == old(self).map().insert(k, v)[key] by {
                assert(has_key(new_s, key));
                let j = key_index(new_s, key);
                assert(0 <= j < new_s.len() && new_s[j].0 == key);
                lemma_entries_map_at(new_s, j);
                if key == k {
                    lemma_entries_map_at(new_s, i as int);
                } else {
                    if j < i {
                        lemma_entries_map_at(old_s, j);
                    } else if replace {
                        lemma_entries_map_at(old_s, j);
                    } else {
                        lemma_entries_map_at(old_s, j - 1);
                    }
                }
            }
            assert(entries_map(new_s) =~= old(self).map().insert(k, v));
        }
        self.entries = entries;
    }
}

spec fn key_less_spec_at(s: Seq<(Seq<char>, Seq<u8>)>, i: int, k: Seq<char>) -> bool {
    key_lt(s[i].0, k)
}

/// Whether `a` comes before `b` in the order of their UTF-8 bytes.
pub fn key_less(a: &String, b: &String) -> (res: bool)
    ensures
        res == key_lt(a@, b@),
{
    let x = a.as_str().as_bytes();
    let y = b.as_str().as_bytes();
    let mut i: usize = 0;
    assert(x@.subrange(0, x@.len() as int) =~= x@);
    assert(y@.subrange(0, y@.len() as int) =~= y@);
    while i < x.len() && i < y.len() && x[i] == y[i]
        invariant
            x@ == encode_utf8(a@),
            y@ == encode_utf8(b@),
            i <= x@.len(),
            i <= y@.len(),
            bytes_lt(x@, y@) == bytes_lt(x@.subrange(i as int, x@.len() as int), y@.subrange(
                i as int,
                y@.len() as int,
            )),
        decreases x@.len() - i,
    {
        let ghost xs = x@.subrange(i as int, x@.len() as int);
        let ghost ys = y@.subrange(i as int, y@.len() as int);
        assert(xs.drop_first() =~= x@.subrange(i + 1, x@.len() as int));
        assert(ys.drop_first() =~= y@.subrange(i + 1, y@.len() as int));
        i = i + 1;
    }
    let ghost xs = x@.subrange(i as int, x@.len() as int);
    let ghost ys = y@.subrange(i as int, y@.len() as int);
    if i == x.len() {
        i < y.len()
    } else if i == y.len() {
        false
    } else {
        assert(xs[0] == x@[i as int]);
        x[i] < y[i]
    }
}

/// Whether a revision id is reserved for internal use: it ends with `:`
/// (like `null:` or `current:`). Such ids cannot be stored as parents.
pub open spec fn is_reserved_id(id: Seq<u8>) -> bool {
    id.len() > 0 && id.last() == 58u8
}

/// Whether the revision id `id` is reserved (ends with `:`).
pub fn is_reserved(id: &[u8]) -> (res: bool)
    ensures
        res == is_reserved_id(id@),
{
    id.len() > 0 && id[id.len() - 1] == 58u8
}

/// A revision: its id and parents, who committed it, when and with which
/// message, its properties and the checksum of its inventory.
pub struct Revision {
    /// The revision id.
    pub revision_id: Vec<u8>,
    /// The ids of the parent revisions, in order.
    pub parent_ids: Vec<Vec<u8>>,
    /// Who committed it.
    pub committer: Option<String>,
    /// The commit message.
    pub message: String,
    /// The revision properties.
    pub properties: Properties,
    /// The SHA-1 of the inventory, in hexadecimal.
    pub inventory_sha1: Option<Vec<u8>>,
    /// The commit time in seconds since the epoch, as the decimal text that
    /// the `timestamp` attribute holds.
    pub timestamp: String,
    /// The offset of the committer's time zone from UTC, in seconds.
    pub timezone: Option<i32>,
}

impl Revision {
    /// A revision made of the given parts.
    pub fn new(
        revision_id: Vec<u8>,
        parent_ids: Vec<Vec<u8>>,
        committer: Option<String>,
        message: String,
        properties: Properties,
        inventory_sha1: Option<Vec<u8>>,
        timestamp: String,
        timezone: Option<i32>,
    ) -> (res: Revision)
        ensures
            res == (Revision {
                revision_id,
                parent_ids,
                committer,
                message,
                properties,
                inventory_sha1,
                timestamp,
                timezone,
            }),
    {
        Revision {
            revision_id,
            parent_ids,
            committer,
            message,
            properties,
            inventory_sha1,
            timestamp,
            timezone,
        }
    }
}

/// An error in reading or writing a revision.
pub enum Error {
    /// The input does not describe a revision.
    DecodeError(String),
    /// A revision lacks a part that it must have.
    EncodeError(String),
}

/// What an `Error` says.
pub enum ErrorView {
    Decode(Seq<char>),
    Encode(Seq<char>),
}

impl View for Error {
    type V = ErrorView;

    open spec fn view(&self) -> ErrorView {
        match self {
            Error::DecodeError(m) => ErrorView::Decode(m@),
            Error::EncodeError(m) => ErrorView::Encode(m@),
        }
    }
}

} // verus!
