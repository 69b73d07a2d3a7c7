//! An ordered string-keyed catalog.
//!
//! `Catalog<T>` maps target names to entries of type `T`. Keys are unique and
//! the entries are kept sorted by key (lexicographic order on the key's
//! characters), so enumeration of the catalog is deterministic: it always
//! walks the entries in ascending key order, regardless of insertion order.

use vstd::prelude::*;

verus! {

/// Strict lexicographic order on character sequences, by code point.
pub open spec fn lex_lt(a: Seq<char>, b: Seq<char>) -> bool
    decreases a.len(),
{
    if b.len() == 0 {
        false
    } else if a.len() == 0 {
        true
    } else if a[0] != b[0] {
        (a[0] as u32) < (b[0] as u32)
    } else {
        lex_lt(a.skip(1), b.skip(1))
    }
}

/// The keys of an association sequence, in order.
pub open spec fn seq_keys<T>(s: Seq<(Seq<char>, T)>) -> Seq<Seq<char>> {
    s.map_values(|p: (Seq<char>, T)| p.0)
}

/// Whether an association sequence has an entry for key `k`.
pub open spec fn seq_has_key<T>(s: Seq<(Seq<char>, T)>, k: Seq<char>) -> bool {
    exists|i: int| 0 <= i < s.len() && (#[trigger] s[i]).0 == k
}

/// An index of the entry for key `k` (the only one, when the keys are unique).
pub open spec fn seq_key_index<T>(s: Seq<(Seq<char>, T)>, k: Seq<char>) -> int {
    choose|i: int| 0 <= i < s.len() && (#[trigger] s[i]).0 == k
}

/// The value stored under key `k`.
pub open spec fn seq_value_of<T>(s: Seq<(Seq<char>, T)>, k: Seq<char>) -> T {
    s[seq_key_index(s, k)].1
}

/// Keys strictly ascending in lexicographic order; this implies uniqueness.
pub open spec fn seq_sorted<T>(s: Seq<(Seq<char>, T)>) -> bool {
    forall|i: int, j: int|
        0 <= i < j < s.len() ==> lex_lt((#[trigger] s[i]).0, (#[trigger] s[j]).0)
}

pub proof fn lemma_lex_lt_irrefl(a: Seq<char>)
    ensures
        !lex_lt(a, a),
    decreases a.len(),
{
    if a.len() > 0 {
        lemma_lex_lt_irrefl(a.skip(1));
    }
}

/// Any two character sequences are equal or ordered one way by `lex_lt`.
pub proof fn lemma_lex_lt_total(a: Seq<char>, b: Seq<char>)
    ensures
        a == b || lex_lt(a, b) || lex_lt(b, a),
    decreases a.len(),
{
    if a.len() == 0 && b.len() == 0 {
        assert(a =~= b);
    } else if a.len() > 0 && b.len() > 0 && a[0] == b[0] {
        lemma_lex_lt_total(a.skip(1), b.skip(1));
        if a.skip(1) == b.skip(1) {
            assert forall|k: int| 0 <= k < a.len() implies a[k] == b[k] by {
                if k >= 1 {
                    assert(a[k] == a.skip(1)[k - 1]);
                    assert(b[k] == b.skip(1)[k - 1]);
                }
            }
            assert(a.skip(1).len() == b.skip(1).len());
            assert(a =~= b);
        }
    } else if a.len() > 0 && b.len() > 0 {
        // distinct characters have distinct code points
        vstd::utf8::char_u32_cast(a[0], a[0] as u32);
        vstd::utf8::char_u32_cast(b[0], b[0] as u32);
    }
}

pub proof fn lemma_lex_lt_trans(a: Seq<char>, b: Seq<char>, c: Seq<char>)
    requires
        lex_lt(a, b),
        lex_lt(b, c),
    ensures
        lex_lt(a, c),
    decreases a.len(),
{
    if a.len() > 0 && b.len() > 0 && c.len() > 0 {
        if a[0] == b[0] && b[0] == c[0] {
            lemma_lex_lt_trans(a.skip(1), b.skip(1), c.skip(1));
        }
    }
}

/// In a sorted association sequence, a key determines its index.
pub proof fn lemma_sorted_key_unique<T>(s: Seq<(Seq<char>, T)>, i: int, j: int)
    requires
        seq_sorted(s),
        0 <= i < s.len(),
        0 <= j < s.len(),
        s[i].0 == s[j].0,
    ensures
        i == j,
{
    if i < j {
        lemma_lex_lt_irrefl(s[i].0);
    } else if j < i {
        lemma_lex_lt_irrefl(s[i].0);
    }
}

/// After the sorted scan for `key` has stopped at position `i`, the catalog
/// holds `key` exactly when the entry at `i` carries it, and otherwise every
/// entry from `i` on has a strictly greater key.
proof fn lex_facts_at_position<T>(s: Seq<(Seq<char>, T)>, key: Seq<char>, i: int, replacing: bool)
    requires
        seq_sorted(s),
        0 <= i <= s.len(),
        forall|j: int| 0 <= j < i ==> lex_lt((#[trigger] s[j]).0, key),
        i < s.len() ==> !lex_lt(s[i].0, key),
        i < s.len() ==> replacing == (s[i].0 == key),
        i == s.len() ==> !replacing,
    ensures
        seq_has_key(s, key) == replacing,
        replacing ==> i < s.len() && s[i].0 == key,
        !replacing ==> forall|j: int| i <= j < s.len() ==> lex_lt(key, (#[trigger] s[j]).0),
{
    if !replacing {
        if i < s.len() {
            lemma_lex_lt_total(s[i].0, key);
        }
        assert forall|j: int| i <= j < s.len() implies lex_lt(key, (#[trigger] s[j]).0) by {
            if j > i {
                lemma_lex_lt_trans(key, s[i].0, s[j].0);
            }
        }
        if seq_has_key(s, key) {
            let w = seq_key_index(s, key);
            lemma_lex_lt_irrefl(key);
        }
    }
}

/// Inserting `(key, value)` at the scan position keeps the catalog sorted and
/// updates it like an ordered map: the entry under `key` is the new value,
/// every other key is bound as before.
#[verifier::rlimit(60)]
proof fn lemma_insert_sorted<T>(
    s0: Seq<(Seq<char>, T)>,
    mid: Seq<(Seq<char>, T)>,
    s1: Seq<(Seq<char>, T)>,
    key: Seq<char>,
    value: T,
    i: int,
    replacing: bool,
)
    requires
        seq_sorted(s0),
        0 <= i <= s0.len(),
        forall|j: int| 0 <= j < i ==> lex_lt((#[trigger] s0[j]).0, key),
        replacing ==> i < s0.len() && s0[i].0 == key,
        !replacing ==> forall|j: int| i <= j < s0.len() ==> lex_lt(key, (#[trigger] s0[j]).0),
        mid == if replacing {
            s0.remove(i)
        } else {
            s0
        },
        s1 == mid.insert(i, (key, value)),
        seq_has_key(s0, key) == replacing,
    ensures
        seq_sorted(s1),
        seq_has_key(s1, key),
        seq_value_of(s1, key) == value,
        forall|k: Seq<char>|
            k != key ==> seq_has_key(s1, k) == seq_has_key(s0, k),
        forall|k: Seq<char>|
            k != key && seq_has_key(s0, k) ==> seq_value_of(s1, k) == seq_value_of(s0, k),
        s1.len() == s0.len() + (if replacing {
            0int
        } else {
            1int
        }),
{
    if replacing {
        s0.remove_ensures(i);
    }
    mid.insert_ensures(i, (key, value));
    // how each slot of the result relates to the sequence before the insertion
    assert forall|j: int| 0 <= j < s1.len() implies s1[j] == (if j < i {
        s0[j]
    } else if j == i {
        (key, value)
    } else if replacing {
        s0[j]
    } else {
        s0[j - 1]
    }) by {
        if j > i {
            assert(s1[j] == mid[j - 1]);
        }
    }
    assert forall|p: int, q: int| 0 <= p < q < s1.len() implies lex_lt(
        (#[trigger] s1[p]).0,
        (#[trigger] s1[q]).0,
    ) by {
        if p == i {
            if replacing {
                assert(s1[q] == s0[q]);
            }
        }
    }
    assert(seq_has_key(s1, key)) by {
        assert(s1[i].0 == key);
    }
    assert(seq_value_of(s1, key) == value) by {
        let w = seq_key_index(s1, key);
        lemma_sorted_key_unique(s1, w, i);
    }
    assert forall|k: Seq<char>| k != key implies seq_has_key(s1, k) == seq_has_key(s0, k) by {
        if seq_has_key(s1, k) {
            let w = seq_key_index(s1, k);
            if w < i {
                assert(s0[w].0 == k);
            } else if replacing {
                assert(s0[w].0 == k);
            } else {
                assert(s0[w - 1].0 == k);
            }
        }
        if seq_has_key(s0, k) {
            let w = choose|j: int| 0 <= j < s0.len() && (#[trigger] s0[j]).0 == k;
            if w < i {
                assert(s1[w].0 == k);
            } else if replacing {
                assert(w != i);
                assert(s1[w].0 == k);
            } else {
                assert(s1[w + 1].0 == k);
            }
        }
    }
    assert forall|k: Seq<char>| k != key && seq_has_key(s0, k) implies seq_value_of(s1, k)
        == seq_value_of(s0, k) by {
        let w0 = seq_key_index(s0, k);
        lemma_sorted_key_unique(s0, w0, choose|j: int| 0 <= j < s0.len() && (#[trigger] s0[j]).0 == k);
        let w1 = seq_key_index(s1, k);
        if w0 < i {
            lemma_sorted_key_unique(s1, w1, w0);
        } else if replacing {
            assert(w0 != i);
            lemma_sorted_key_unique(s1, w1, w0);
        } else {
            assert(s1[w0 + 1].0 == k);
            lemma_sorted_key_unique(s1, w1, w0 + 1);
        }
    }
}

/// Character-by-character equality of two string slices.
pub fn str_eq(a: &str, b: &str) -> (r: bool)
    ensures
        r == (a@ == b@),
{
    let alen = a.unicode_len();
    let blen = b.unicode_len();
    if alen != blen {
        return false;
    }
    let mut i: usize = 0;
    while i < alen
        invariant
            alen == a@.len(),
            blen == b@.len(),
            alen == blen,
            0 <= i <= alen,
            forall|j: int| 0 <= j < i ==> a@[j] == b@[j],
        decreases alen - i,
    {
        if a.get_char(i) != b.get_char(i) {
            return false;
        }
        i += 1;
    }
    proof {
        assert(a@ =~= b@);
    }
    true
}

/// Whether `a` comes strictly before `b` in lexicographic order.
pub fn str_lt(a: &str, b: &str) -> (r: bool)
    ensures
        r == lex_lt(a@, b@),
    decreases a@.len(),
{
    let alen = a.unicode_len();
    let blen = b.unicode_len();
    if blen == 0 {
        false
    } else if alen == 0 {
        true
    } else {
        let ca = a.get_char(0);
        let cb = b.get_char(0);
        if ca != cb {
            (ca as u32) < (cb as u32)
        } else {
            let a1 = a.substring_char(1, alen);
            let b1 = b.substring_char(1, blen);
            proof {
                assert(a1@ =~= a@.skip(1));
                assert(b1@ =~= b@.skip(1));
            }
            str_lt(a1, b1)
        }
    }
}

/// An ordered mapping from unique string keys to entries of type `T`,
/// kept in ascending lexicographic key order.
pub struct Catalog<T> {
    entries: Vec<(String, T)>,
}

impl<T> View for Catalog<T> {
    type V = Seq<(Seq<char>, T)>;

    closed spec fn view(&self) -> Seq<(Seq<char>, T)> {
        self.entries@.map_values(|p: (String, T)| (p.0@, p.1))
    }
}

impl<T> Catalog<T> {
    /// Well-formed: entries strictly ascending by key.
    pub open spec fn wf(self) -> bool {
        seq_sorted(self@)
    }

    pub open spec fn contains_key(self, k: Seq<char>) -> bool {
        seq_has_key(self@, k)
    }

    pub open spec fn value_of(self, k: Seq<char>) -> T {
        seq_value_of(self@, k)
    }

    pub open spec fn spec_keys(self) -> Seq<Seq<char>> {
        seq_keys(self@)
    }

    pub fn new() -> (r: Self)
        ensures
            r@ == Seq::<(Seq<char>, T)>::empty(),
            r.wf(),
    {
        let r = Catalog { entries: Vec::new() };
        proof {
            assert(r@ =~= Seq::<(Seq<char>, T)>::empty());
        }
        r
    }

    pub fn len(&self) -> (n: usize)
        ensures
            n == self@.len(),
    {
        self.entries.len()
    }

    pub fn key_at(&self, i: usize) -> (r: &str)
        requires
            i < self@.len(),
        ensures
            r@ == self@[i as int].0,
    {
        self.entries[i].0.as_str()
    }

    pub fn value_at(&self, i: usize) -> (r: &T)
        requires
            i < self@.len(),
        ensures
            *r == self@[i as int].1,
    {
        &self.entries[i].1
    }

    /// Exact-match lookup by key.
    pub fn get(&self, name: &str) -> (r: Option<&T>)
        requires
            self.wf(),
        ensures
            match r {
                Some(v) => self.contains_key(name@) && *v == self.value_of(name@),
                None => !self.contains_key(name@),
            },
    {
        let n = self.entries.len();
        let mut i: usize = 0;
        while i < n
            invariant
                self.wf(),
                n == self@.len(),
                0 <= i <= n,
                forall|j: int| 0 <= j < i ==> (#[trigger] self@[j]).0 != name@,
            decreases n - i,
        {
            if str_eq(self.entries[i].0.as_str(), name) {
                proof {
                    assert(self@[i as int].0 == name@);
                    assert(seq_has_key(self@, name@));
                    let w = seq_key_index(self@, name@);
                    assert(0 <= w < self@.len() && self@[w].0 == name@);
                    lemma_sorted_key_unique(self@, w, i as int);
                }
                return Some(&self.entries[i].1);
            }
            i += 1;
        }
        None
    }

    /// The catalog's keys, in catalog (ascending) order.
    pub fn keys(&self) -> (r: Vec<&str>)
        ensures
            r@.len() == self@.len(),
            forall|i: int| 0 <= i < r@.len() ==> (#[trigger] r@[i])@ == self@[i].0,
    {
        let n = self.entries.len();
        let mut r: Vec<&str> = Vec::new();
        let mut i: usize = 0;
        while i < n
            invariant
                n == self@.len(),
                0 <= i <= n,
                r@.len() == i,
                forall|j: int| 0 <= j < i ==> (#[trigger] r@[j])@ == self@[j].0,
            decreases n - i,
        {
            r.push(self.entries[i].0.as_str());
            i += 1;
        }
        r
    }

    /// Insert an entry at its sorted position; an existing entry under the
    /// same key is replaced, as in an ordered map.
    pub fn insert(&mut self, key: String, value: T)
        requires
            old(self).wf(),
        ensures
            final(self).wf(),
            final(self).contains_key(key@),
            final(self).value_of(key@) == value,
            forall|k: Seq<char>|
                k != key@ ==> final(self).contains_key(k) == old(self).contains_key(k),
            forall|k: Seq<char>|
                k != key@ && old(self).contains_key(k) ==> final(self).value_of(k) == old(
                    self,
                ).value_of(k),
            final(self)@.len() == old(self)@.len() + (if old(self).contains_key(key@) {
                0int
            } else {
                1int
            }),
    {
        let n = self.entries.len();
        let mut i: usize = 0;
        let mut stop = false;
        while i < n && !stop
            invariant
                self == old(self),
                n == self@.len(),
                0 <= i <= n,
                forall|j: int| 0 <= j < i ==> lex_lt((#[trigger] self@[j]).0, key@),
                stop ==> i < n && !lex_lt(self@[i as int].0, key@),
            decreases n - i, (if stop { 0int } else { 1int }),
        {
            if str_lt(self.entries[i].0.as_str(), key.as_str()) {
                i += 1;
            } else {
                stop = true;
            }
        }
        let replacing = if i < n { str_eq(self.entries[i].0.as_str(), key.as_str()) } else { false };
        proof {
            lex_facts_at_position(old(self)@, key@, i as int, replacing);
        }
        if replacing {
            let ghost prev = self@;
            self.entries.remove(i);
            proof {
                assert(self@ =~= prev.remove(i as int));
            }
        }
        let ghost mid = self@;
        self.entries.insert(i, (key, value));
        proof {
            assert(self@ =~= mid.insert(i as int, (key@, value)));
            lemma_insert_sorted(old(self)@, mid, self@, key@, value, i as int, replacing);
        }
    }
}

} // verus!
