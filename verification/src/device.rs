//! What a scan learns about one device, and the ordered string map that
//! holds Bonjour services and TXT records.
use vstd::prelude::*;
use crate::text::{chars_of, seq_eq};

verus! {

/// Lexicographic order on character sequences, by code point (the order of
/// `String`'s `Ord`).
pub open spec fn seq_lt(a: Seq<char>, b: Seq<char>) -> bool
    decreases a.len(),
{
    if a.len() == 0 {
        b.len() > 0
    } else if b.len() == 0 {
        false
    } else if a[0] != b[0] {
        a[0] < b[0]
    } else {
        seq_lt(a.drop_first(), b.drop_first())
    }
}

pub proof fn lemma_seq_lt_trichotomy(a: Seq<char>, b: Seq<char>)
    ensures
        seq_lt(a, b) || seq_lt(b, a) || a == b,
        !(seq_lt(a, b) && seq_lt(b, a)),
        !seq_lt(a, a),
    decreases a.len(),
{
    if a.len() > 0 {
        lemma_seq_lt_trichotomy(a.drop_first(), a.drop_first());
    }
    if a.len() > 0 && b.len() > 0 {
        lemma_seq_lt_trichotomy(a.drop_first(), b.drop_first());

        if a[0] == b[0] && a.drop_first() == b.drop_first() {
            assert(a == seq![a[0]] + a.drop_first());
            assert(b == seq![b[0]] + b.drop_first());
        }
    } else if a.len() == 0 && b.len() == 0 {
        assert(a == b);
    }
}

pub proof fn lemma_seq_lt_transitive(a: Seq<char>, b: Seq<char>, c: Seq<char>)
    requires
        seq_lt(a, b),
        seq_lt(b, c),
    ensures
        seq_lt(a, c),
    decreases a.len(),
{
    if a.len() > 0 && b.len() > 0 && c.len() > 0 && a[0] == b[0] && b[0] == c[0] {
        lemma_seq_lt_transitive(a.drop_first(), b.drop_first(), c.drop_first());
    }
}

pub fn lt_chars(a: &[char], b: &[char]) -> (r: bool)
    ensures
        r == seq_lt(a@, b@),
{
    let mut i: usize = 0;
    assert(a@.skip(0) == a@ && b@.skip(0) == b@);
    while i < a.len() && i < b.len()
        invariant
            i <= a.len(),
            i <= b.len(),
            seq_lt(a@, b@) == seq_lt(a@.skip(i as int), b@.skip(i as int)),
        decreases a.len() - i,
    {
        if a[i] != b[i] {
            return a[i] < b[i];
        }
        assert(a@.skip(i as int).drop_first() == a@.skip(i + 1));
        assert(b@.skip(i as int).drop_first() == b@.skip(i + 1));
        i += 1;
    }
    assert(a@.skip(i as int).len() == 0 || b@.skip(i as int).len() == 0);
    i == a.len() && i < b.len()
}

/// The key-value pairs of an association list, keys by their characters.
pub open spec fn key_views<V>(s: Seq<(String, V)>) -> Seq<Seq<char>> {
    s.map_values(|e: (String, V)| e.0@)
}

/// The value stored under `k`, the first pair whose key is `k`.
pub open spec fn lookup<V>(s: Seq<(String, V)>, k: Seq<char>) -> Option<V>
    decreases s.len(),
{
    if s.len() == 0 {
        None
    } else if s[0].0@ == k {
        Some(s[0].1)
    } else {
        lookup(s.drop_first(), k)
    }
}

/// Keys strictly increase.
pub open spec fn sorted_keys<V>(s: Seq<(String, V)>) -> bool {
    forall|i: int, j: int| 0 <= i < j < s.len() ==> seq_lt(#[trigger] s[i].0@, #[trigger] s[j].0@)
}

/// Where `k` goes among `s`: after every key that sorts before it.
pub open spec fn insert_pos<V>(s: Seq<(String, V)>, k: Seq<char>) -> int
    decreases s.len(),
{
    if s.len() == 0 || !seq_lt(s[0].0@, k) {
        0
    } else {
        1 + insert_pos(s.drop_first(), k)
    }
}

/// `BTreeMap::insert` on a sorted association list: replace the value of an
/// existing key, or add the pair in key order.
pub open spec fn map_insert<V>(s: Seq<(String, V)>, k: String, v: V) -> Seq<(String, V)> {
    let p = insert_pos(s, k@);
    if p < s.len() && s[p].0@ == k@ {
        s.update(p, (s[p].0, v))
    } else {
        s.insert(p, (k, v))
    }
}

pub proof fn lemma_insert_pos<V>(s: Seq<(String, V)>, k: Seq<char>)
    ensures
        0 <= insert_pos(s, k) <= s.len(),
        forall|i: int| 0 <= i < insert_pos(s, k) ==> seq_lt(#[trigger] s[i].0@, k),
        insert_pos(s, k) < s.len() ==> !seq_lt(s[insert_pos(s, k)].0@, k),
    decreases s.len(),
{
    if s.len() > 0 && seq_lt(s[0].0@, k) {
        lemma_insert_pos(s.drop_first(), k);
        assert forall|i: int| 0 <= i < insert_pos(s, k) implies seq_lt(#[trigger] s[i].0@, k) by {
            if i > 0 {
                assert(s[i] == s.drop_first()[i - 1]);
            }
        }
    }
}

/// Inserting keeps the keys in strictly increasing order.
pub proof fn lemma_map_insert_sorted<V>(s: Seq<(String, V)>, k: String, v: V)
    requires
        sorted_keys(s),
    ensures
        sorted_keys(map_insert(s, k, v)),
        key_views(map_insert(s, k, v)).to_set() == key_views(s).to_set().insert(k@),
{
    lemma_insert_pos(s, k@);
    let p = insert_pos(s, k@);
    let r = map_insert(s, k, v);
    if p < s.len() && s[p].0@ == k@ {
        assert(key_views(r) == key_views(s));
        assert(key_views(s).contains(k@)) by {
            assert(key_views(s)[p] == k@);
        }
        assert(key_views(s).to_set().insert(k@) == key_views(s).to_set());
    } else {
        if p < s.len() {
            lemma_seq_lt_trichotomy(s[p].0@, k@);
        }
        assert forall|i: int, j: int| 0 <= i < j < r.len() implies seq_lt(
            #[trigger] r[i].0@,
            #[trigger] r[j].0@,
        ) by {
            if j < p {
            } else if j == p {
            } else if i < p {
                // r[i] = s[i] < k < s[p] <= s[j - 1]
                if j - 1 > p {
                    lemma_seq_lt_transitive(k@, s[p].0@, s[j - 1].0@);
                }
                lemma_seq_lt_transitive(s[i].0@, k@, s[j - 1].0@);
            } else if i == p {
                if j - 1 > p {
                    lemma_seq_lt_transitive(k@, s[p].0@, s[j - 1].0@);
                }
            } else {
            }
        }
        assert(key_views(r) == key_views(s).insert(p, k@));
        assert(key_views(r).to_set() == key_views(s).to_set().insert(k@)) by {
            assert forall|x: Seq<char>| key_views(r).contains(x) <==> key_views(s).contains(x)
                || x == k@ by {
                if key_views(s).contains(x) {
                    let i = choose|i: int| 0 <= i < key_views(s).len() && key_views(s)[i] == x;
                    if i < p {
                        assert(key_views(r)[i] == x);
                    } else {
                        assert(key_views(r)[i + 1] == x);
                    }
                }
                if x == k@ {
                    assert(key_views(r)[p] == x);
                }
                if key_views(r).contains(x) {
                    let i = choose|i: int| 0 <= i < key_views(r).len() && key_views(r)[i] == x;
                    if i < p {
                        assert(key_views(s)[i] == x);
                    } else if i > p {
                        assert(key_views(s)[i - 1] == x);
                    }
                }
            }
        }
    }
}

/// In a sorted list, the value under `k2` after inserting `(k, v)` is `v` when
/// `k2` is `k`, and what it was before otherwise.
pub proof fn lemma_map_insert_lookup<V>(s: Seq<(String, V)>, k: String, v: V, k2: Seq<char>)
    ensures
        lookup(map_insert(s, k, v), k2) == (if k2 == k@ {
            Some(v)
        } else {
            lookup(s, k2)
        }),
{
    lemma_insert_pos(s, k@);
    let p = insert_pos(s, k@);
    let r = map_insert(s, k, v);
    assert forall|j: int| 0 <= j < p implies r[j].0@ != k@ by {
        lemma_seq_lt_trichotomy(s[j].0@, k@);
    }
    if p < s.len() && s[p].0@ == k@ {
        if k2 == k@ {
            lemma_lookup_first(r, k2, p);
        } else {
            lemma_lookup_update(s, p, (s[p].0, v), k2);
        }
    } else {
        if k2 == k@ {
            lemma_lookup_first(r, k2, p);
        } else {
            lemma_lookup_insert(s, p, (k, v), k2);
        }
    }
}

pub proof fn lemma_lookup_update<V>(s: Seq<(String, V)>, p: int, e: (String, V), k2: Seq<char>)
    requires
        0 <= p < s.len(),
        e.0@ == s[p].0@,
        e.0@ != k2,
    ensures
        lookup(s.update(p, e), k2) == lookup(s, k2),
    decreases p,
{
    if p == 0 {
        assert(s.update(p, e).drop_first() == s.drop_first());
    } else {
        assert(s.update(p, e).drop_first() == s.drop_first().update(p - 1, e));
        lemma_lookup_update(s.drop_first(), p - 1, e, k2);
    }
}

pub proof fn lemma_lookup_insert<V>(s: Seq<(String, V)>, p: int, e: (String, V), k2: Seq<char>)
    requires
        0 <= p <= s.len(),
        e.0@ != k2,
    ensures
        lookup(s.insert(p, e), k2) == lookup(s, k2),
    decreases p,
{
    if p == 0 {
        assert(s.insert(p, e).drop_first() == s);
    } else {
        assert(s.insert(p, e).drop_first() == s.drop_first().insert(p - 1, e));
        lemma_lookup_insert(s.drop_first(), p - 1, e, k2);
    }
}

/// `lookup` finds the first pair with the key, or none if no pair has it.
pub proof fn lemma_lookup_index<V>(s: Seq<(String, V)>, k: Seq<char>)
    ensures
        lookup(s, k) is None <==> forall|i: int| 0 <= i < s.len() ==> s[i].0@ != k,
        lookup(s, k) is Some ==> exists|i: int|
            0 <= i < s.len() && s[i].0@ == k && lookup(s, k) == Some(s[i].1) && forall|j: int|
                0 <= j < i ==> s[j].0@ != k,
    decreases s.len(),
{
    if s.len() > 0 {
        lemma_lookup_index(s.drop_first(), k);
        if s[0].0@ != k {
            if lookup(s, k) is Some {
                let i = choose|i: int|
                    0 <= i < s.drop_first().len() && s.drop_first()[i].0@ == k && lookup(
                        s.drop_first(),
                        k,
                    ) == Some(s.drop_first()[i].1) && forall|j: int|
                        0 <= j < i ==> s.drop_first()[j].0@ != k;
                assert(s[i + 1] == s.drop_first()[i]);
                assert forall|j: int| 0 <= j < i + 1 implies s[j].0@ != k by {
                    if j > 0 {
                        assert(s[j] == s.drop_first()[j - 1]);
                    }
                }
            } else {
                assert forall|i: int| 0 <= i < s.len() implies s[i].0@ != k by {
                    if i > 0 {
                        assert(s[i] == s.drop_first()[i - 1]);
                    }
                }
            }
        } else {
            assert(s[0].0@ == k);
        }
    }
}

pub proof fn lemma_lookup_first<V>(s: Seq<(String, V)>, k: Seq<char>, i: int)
    requires
        0 <= i < s.len(),
        s[i].0@ == k,
        forall|j: int| 0 <= j < i ==> s[j].0@ != k,
    ensures
        lookup(s, k) == Some(s[i].1),
    decreases i,
{
    if i > 0 {
        assert forall|j: int| 0 <= j < i - 1 implies s.drop_first()[j].0@ != k by {
            assert(s.drop_first()[j] == s[j + 1]);
        }
        lemma_lookup_first(s.drop_first(), k, i - 1);
    }
}

/// A map from strings to `V`, kept in key order like `BTreeMap<String, V>`.
pub struct StrMap<V> {
    entries: Vec<(String, V)>,
}

impl<V> View for StrMap<V> {
    type V = Seq<(String, V)>;

    closed spec fn view(&self) -> Seq<(String, V)> {
        self.entries@
    }
}

impl<V> StrMap<V> {
    pub fn new() -> (r: Self)
        ensures
            r@ == Seq::<(String, V)>::empty(),
    {
        StrMap { entries: Vec::new() }
    }

    pub fn len(&self) -> (r: usize)
        ensures
            r == self@.len(),
    {
        self.entries.len()
    }

    /// The pairs in key order.
    pub fn as_slice(&self) -> (r: &[(String, V)])
        ensures
            r@ == self@,
    {
        self.entries.as_slice()
    }

    pub fn get(&self, k: &[char]) -> (r: Option<&V>)
        ensures
            r is None <==> lookup(self@, k@) is None,
            r matches Some(x) ==> lookup(self@, k@) == Some(*x),
    {
        let mut i: usize = 0;
        assert(self@.skip(0) == self@);
        while i < self.entries.len()
            invariant
                i <= self.entries.len(),
                lookup(self@, k@) == lookup(self@.skip(i as int), k@),
            decreases self.entries.len() - i,
        {
            let kc = chars_of(self.entries[i].0.as_str());
            assert(self@.skip(i as int)[0] == self@[i as int]);
            if seq_eq(kc.as_slice(), k) {
                return Some(&self.entries[i].1);
            }
            assert(self@.skip(i as int).drop_first() == self@.skip(i + 1));
            i += 1;
        }
        None
    }

    pub fn get_str(&self, k: &str) -> (r: Option<&V>)
        ensures
            r is None <==> lookup(self@, k@) is None,
            r matches Some(x) ==> lookup(self@, k@) == Some(*x),
    {
        let kc = chars_of(k);
        self.get(kc.as_slice())
    }

    pub fn contains_key_chars(&self, k: &[char]) -> (r: bool)
        ensures
            r == lookup(self@, k@) is Some,
    {
        self.get(k).is_some()
    }

    pub fn contains_key(&self, k: &str) -> (r: bool)
        ensures
            r == lookup(self@, k@) is Some,
    {
        self.get_str(k).is_some()
    }

    pub fn insert(&mut self, k: String, v: V)
        ensures
            final(self)@ == map_insert(old(self)@, k, v),
    {
        let kc = chars_of(k.as_str());
        let mut i: usize = 0;
        assert(self@.skip(0) == self@);
        while i < self.entries.len()
            invariant
                i <= self.entries.len(),
                self@ == old(self)@,
                kc@ == k@,
                insert_pos(self@, k@) == i + insert_pos(self@.skip(i as int), k@),
            ensures
                i <= self.entries.len(),
                self@ == old(self)@,
                kc@ == k@,
                insert_pos(self@, k@) == i,
            decreases self.entries.len() - i,
        {
            let ec = chars_of(self.entries[i].0.as_str());
            assert(self@.skip(i as int)[0] == self@[i as int]);
            if !lt_chars(ec.as_slice(), kc.as_slice()) {
                break;
            }
            assert(self@.skip(i as int).drop_first() == self@.skip(i + 1));
            i += 1;
        }
        assert(insert_pos(self@, k@) == i);
        if i < self.entries.len() {
            let ec = chars_of(self.entries[i].0.as_str());
            if seq_eq(ec.as_slice(), kc.as_slice()) {
                let old_key = self.entries.remove(i);
                self.entries.insert(i, (old_key.0, v));
                assert(self@ == map_insert(old(self)@, k, v));
                return;
            }
        }
        self.entries.insert(i, (k, v));
    }
}

impl StrMap<String> {
    /// A copy of the map.
    pub fn duplicate(&self) -> (r: Self)
        ensures
            r@ == self@,
    {
        let mut out: Vec<(String, String)> = Vec::new();
        let mut i: usize = 0;
        while i < self.entries.len()
            invariant
                i <= self.entries.len(),
                out@ == self@.take(i as int),
            decreases self.entries.len() - i,
        {
            let k = self.entries[i].0.clone();
            let v = self.entries[i].1.clone();
            out.push((k, v));
            i += 1;
            assert(out@ == self@.take(i as int));
        }
        assert(self@.take(i as int) == self@);
        StrMap { entries: out }
    }
}

/// The association list as a map from key characters to values.
pub open spec fn mapv<V>(s: Seq<(String, V)>) -> Map<Seq<char>, V> {
    Map::new(|k: Seq<char>| lookup(s, k) is Some, |k: Seq<char>| lookup(s, k).unwrap())
}

pub proof fn lemma_mapv_insert<V>(s: Seq<(String, V)>, k: String, v: V)
    ensures
        mapv(map_insert(s, k, v)) == mapv(s).insert(k@, v),
{
    assert forall|k2: Seq<char>| #[trigger] lookup(map_insert(s, k, v), k2) == (if k2 == k@ {
        Some(v)
    } else {
        lookup(s, k2)
    }) by {
        lemma_map_insert_lookup(s, k, v, k2);
    }
    assert(mapv(map_insert(s, k, v)) =~= mapv(s).insert(k@, v));
}

/// A map keyed by IPv4 address, kept in address order like `BTreeMap<Ipv4Addr, V>`.
pub struct IpMap<V> {
    entries: Vec<(u32, V)>,
    model: Ghost<Map<u32, V>>,
}

/// `v` holds the pairs of `m` in strictly increasing key order.
pub open spec fn ip_lists<V>(v: Seq<(u32, V)>, m: Map<u32, V>) -> bool {
    &&& forall|i: int, j: int| 0 <= i < j < v.len() ==> v[i].0 < v[j].0
    &&& forall|i: int| 0 <= i < v.len() ==> m.contains_key(#[trigger] v[i].0) && m[v[i].0] == v[i].1
    &&& forall|k: u32| m.contains_key(k) ==> exists|i: int| 0 <= i < v.len() && v[i].0 == k
}

proof fn lemma_ip_set<V>(v: Seq<(u32, V)>, m: Map<u32, V>, pos: int, e: (u32, V))
    requires
        ip_lists(v, m),
        0 <= pos < v.len(),
        v[pos].0 == e.0,
    ensures
        ip_lists(v.update(pos, e), m.insert(e.0, e.1)),
{
    let w = v.update(pos, e);
    let m2 = m.insert(e.0, e.1);
    assert forall|i: int, j: int| 0 <= i < j < w.len() implies w[i].0 < w[j].0 by {
        assert(v[i].0 < v[j].0);
    }
    assert forall|i: int| 0 <= i < w.len() implies m2.contains_key(#[trigger] w[i].0) && m2[w[i].0]
        == w[i].1 by {
        if i != pos {
            assert(v[i].0 < v[pos].0 || v[pos].0 < v[i].0);
        }
    }
    assert forall|k: u32| m2.contains_key(k) implies exists|i: int| 0 <= i < w.len() && w[i].0 == k by {
        if k == e.0 {
            assert(w[pos].0 == k);
        } else {
            let i = choose|i: int| 0 <= i < v.len() && v[i].0 == k;
            assert(w[i].0 == k);
        }
    }
}

proof fn lemma_ip_insert<V>(v: Seq<(u32, V)>, m: Map<u32, V>, pos: int, e: (u32, V))
    requires
        ip_lists(v, m),
        0 <= pos <= v.len(),
        forall|i: int| 0 <= i < pos ==> v[i].0 < e.0,
        pos < v.len() ==> e.0 < v[pos].0,
    ensures
        !m.contains_key(e.0),
        ip_lists(v.insert(pos, e), m.insert(e.0, e.1)),
{
    let w = v.insert(pos, e);
    let m2 = m.insert(e.0, e.1);
    if m.contains_key(e.0) {
        let i = choose|i: int| 0 <= i < v.len() && v[i].0 == e.0;
        if i > pos {
            assert(v[pos].0 < v[i].0);
        }
    }
    assert forall|i: int, j: int| 0 <= i < j < w.len() implies w[i].0 < w[j].0 by {
        if j < pos {
            assert(v[i].0 < v[j].0);
        } else if j == pos {
        } else if i < pos {
            assert(w[j] == v[j - 1]);
            assert(j - 1 == pos || v[pos].0 < v[j - 1].0);
        } else if i == pos {
            assert(w[j] == v[j - 1]);
            assert(j - 1 == pos || v[pos].0 < v[j - 1].0);
        } else {
            assert(v[i - 1].0 < v[j - 1].0);
        }
    }
    assert forall|i: int| 0 <= i < w.len() implies m2.contains_key(#[trigger] w[i].0) && m2[w[i].0]
        == w[i].1 by {
        if i < pos {
            assert(w[i] == v[i]);
            assert(m.contains_key(v[i].0));
        } else if i > pos {
            assert(w[i] == v[i - 1]);
            assert(m.contains_key(v[i - 1].0));
        }
    }
    assert forall|k: u32| m2.contains_key(k) implies exists|i: int| 0 <= i < w.len() && w[i].0 == k by {
        if k == e.0 {
            assert(w[pos].0 == k);
        } else {
            let i = choose|i: int| 0 <= i < v.len() && v[i].0 == k;
            if i < pos {
                assert(w[i].0 == k);
            } else {
                assert(w[i + 1].0 == k);
            }
        }
    }
}

proof fn lemma_ip_remove<V>(v: Seq<(u32, V)>, m: Map<u32, V>, pos: int)
    requires
        ip_lists(v, m),
        0 <= pos < v.len(),
    ensures
        ip_lists(v.remove(pos), m.remove(v[pos].0)),
{
    let w = v.remove(pos);
    let k0 = v[pos].0;
    let m2 = m.remove(k0);
    assert forall|i: int, j: int| 0 <= i < j < w.len() implies w[i].0 < w[j].0 by {
        if j < pos {
            assert(v[i].0 < v[j].0);
        } else if i < pos {
            assert(v[i].0 < v[j + 1].0);
        } else {
            assert(v[i + 1].0 < v[j + 1].0);
        }
    }
    assert forall|i: int| 0 <= i < w.len() implies m2.contains_key(#[trigger] w[i].0) && m2[w[i].0]
        == w[i].1 by {
        if i < pos {
            assert(w[i] == v[i]);
            assert(m.contains_key(v[i].0));
            assert(v[i].0 < v[pos].0);
        } else {
            assert(w[i] == v[i + 1]);
            assert(m.contains_key(v[i + 1].0));
            assert(v[pos].0 < v[i + 1].0);
        }
    }
    assert forall|k: u32| m2.contains_key(k) implies exists|i: int| 0 <= i < w.len() && w[i].0 == k by {
        let i = choose|i: int| 0 <= i < v.len() && v[i].0 == k;
        if i < pos {
            assert(w[i].0 == k);
        } else {
            assert(i != pos);
            assert(w[i - 1].0 == k);
        }
    }
}

impl<V> View for IpMap<V> {
    type V = Map<u32, V>;

    closed spec fn view(&self) -> Map<u32, V> {
        self.model@
    }
}

impl<V> IpMap<V> {
    /// The entries are the map's pairs in address order.
    pub closed spec fn wf(&self) -> bool {
        ip_lists(self.entries@, self.model@)
    }

    /// The pairs in address order.
    pub closed spec fn pairs(&self) -> Seq<(u32, V)> {
        self.entries@
    }

    pub proof fn lemma_pairs(&self)
        requires
            self.wf(),
        ensures
            ip_lists(self.pairs(), self@),
    {
    }

    pub fn new() -> (r: Self)
        ensures
            r.wf(),
            r@ == Map::<u32, V>::empty(),
    {
        IpMap { entries: Vec::new(), model: Ghost(Map::empty()) }
    }

    pub fn as_slice(&self) -> (r: &[(u32, V)])
        ensures
            r@ == self.pairs(),
    {
        self.entries.as_slice()
    }

    /// The pairs in address order, taken out of the map.
    pub fn into_pairs(self) -> (r: Vec<(u32, V)>)
        ensures
            r@ == self.pairs(),
    {
        self.entries
    }

    /// Where `k` is or would go: the first entry not before it.
    fn locate(&self, k: u32) -> (r: usize)
        ensures
            r <= self.entries.len(),
            forall|i: int| 0 <= i < r ==> self.entries@[i].0 < k,
            r < self.entries.len() ==> self.entries@[r as int].0 >= k,
    {
        let mut i: usize = 0;
        while i < self.entries.len()
            invariant
                i <= self.entries.len(),
                forall|j: int| 0 <= j < i ==> self.entries@[j].0 < k,
            decreases self.entries.len() - i,
        {
            if self.entries[i].0 >= k {
                return i;
            }
            i += 1;
        }
        i
    }

    pub fn get(&self, k: u32) -> (r: Option<&V>)
        requires
            self.wf(),
        ensures
            r is Some <==> self@.contains_key(k),
            r matches Some(v) ==> *v == self@[k],
    {
        let pos = self.locate(k);
        if pos < self.entries.len() && self.entries[pos].0 == k {
            Some(&self.entries[pos].1)
        } else {
            proof {
                if self@.contains_key(k) {
                    let i = choose|i: int| 0 <= i < self.entries@.len() && self.entries@[i].0 == k;
                    if i > pos {
                        assert(self.entries@[pos as int].0 < self.entries@[i].0);
                    }
                }
            }
            None
        }
    }

    pub fn insert(&mut self, k: u32, v: V)
        requires
            old(self).wf(),
        ensures
            final(self).wf(),
            final(self)@ == old(self)@.insert(k, v),
    {
        let pos = self.locate(k);
        if pos < self.entries.len() && self.entries[pos].0 == k {
            proof {
                lemma_ip_set(self.entries@, self.model@, pos as int, (k, v));
            }
            self.entries.set(pos, (k, v));
        } else {
            proof {
                lemma_ip_insert(self.entries@, self.model@, pos as int, (k, v));
            }
            self.entries.insert(pos, (k, v));
        }
        self.model = Ghost(self.model@.insert(k, v));
    }

    /// Takes out the value under `k`, if any.
    pub fn remove(&mut self, k: u32) -> (r: Option<V>)
        requires
            old(self).wf(),
        ensures
            final(self).wf(),
            final(self)@ == old(self)@.remove(k),
            r is Some <==> old(self)@.contains_key(k),
            r matches Some(v) ==> v == old(self)@[k],
    {
        let pos = self.locate(k);
        if pos < self.entries.len() && self.entries[pos].0 == k {
            proof {
                lemma_ip_remove(self.entries@, self.model@, pos as int);
            }
            let e = self.entries.remove(pos);
            self.model = Ghost(self.model@.remove(k));
            Some(e.1)
        } else {
            proof {
                if self@.contains_key(k) {
                    let i = choose|i: int| 0 <= i < self.entries@.len() && self.entries@[i].0 == k;
                    if i > pos {
                        assert(self.entries@[pos as int].0 < self.entries@[i].0);
                    }
                }
            }
            assert(!self@.contains_key(k));
            assert(self.model@.remove(k) =~= self.model@);
            None
        }
    }
}

/// What Bonjour says about one device.
pub struct MdnsInfo {
    /// The device's primary host name, e.g. `living-room.local`.
    pub hostname: Option<String>,
    /// Service type (e.g. "airplay") to instance name (e.g. "Living Room").
    pub services: StrMap<String>,
    /// Service type to the TXT keys and values that carry identity.
    pub txt: StrMap<StrMap<String>>,
    /// Service type to the port its SRV record advertises.
    pub ports: StrMap<u16>,
}

impl MdnsInfo {
    pub fn new() -> (r: Self)
        ensures
            r.hostname is None,
            r.services@.len() == 0,
            r.txt@.len() == 0,
            r.ports@.len() == 0,
    {
        MdnsInfo {
            hostname: None,
            services: StrMap::new(),
            txt: StrMap::new(),
            ports: StrMap::new(),
        }
    }
}

/// What a device's UPnP description says about it.
pub struct SsdpInfo {
    pub server: Option<String>,
    pub friendly_name: Option<String>,
    pub manufacturer: Option<String>,
    pub model_name: Option<String>,
    pub model_number: Option<String>,
    pub device_type: Option<String>,
}

impl SsdpInfo {
    pub fn new() -> (r: Self)
        ensures
            r.server is None && r.friendly_name is None && r.manufacturer is None
                && r.model_name is None && r.model_number is None && r.device_type is None,
    {
        SsdpInfo {
            server: None,
            friendly_name: None,
            manufacturer: None,
            model_name: None,
            model_number: None,
            device_type: None,
        }
    }
}

/// What a device's web UI says about itself.
pub struct Banner {
    pub server: Option<String>,
    pub title: Option<String>,
}

/// Everything a scan learns about one address.
pub struct Device {
    /// The IPv4 address, most significant octet first.
    pub ip: u32,
    pub name: Option<String>,
    pub kind: Option<String>,
    pub model: Option<String>,
    pub vendor: Option<String>,
    pub mac: Option<String>,
    pub randomized_mac: bool,
    pub hostname: Option<String>,
    pub open_ports: Vec<u16>,
    pub gateway: bool,
    pub this_device: bool,
    pub mdns: Option<MdnsInfo>,
    pub ssdp: Option<SsdpInfo>,
    pub http: Option<Banner>,
}

impl Device {
    pub fn new(ip: u32) -> (r: Self)
        ensures
            r.ip == ip,
            r.name is None && r.kind is None && r.model is None && r.vendor is None && r.mac is None,
            !r.randomized_mac && !r.gateway && !r.this_device,
            r.hostname is None,
            r.open_ports@ == Seq::<u16>::empty(),
            r.mdns is None && r.ssdp is None && r.http is None,
    {
        Device {
            ip,
            name: None,
            kind: None,
            model: None,
            vendor: None,
            mac: None,
            randomized_mac: false,
            hostname: None,
            open_ports: Vec::new(),
            gateway: false,
            this_device: false,
            mdns: None,
            ssdp: None,
            http: None,
        }
    }
}

} // verus!
