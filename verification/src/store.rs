//! Deterministic value <-> placeholder mapping.
//!
//! The table never travels with a document: what leaves the machine is the
//! masked text, and the table is exactly what must not be in it. Reading and
//! writing the table file is left to the caller; this type holds the table,
//! mints placeholders, and says when it has changed since it was loaded.

use vstd::prelude::*;
use vstd::string::*;

use crate::detectors::{Kind, kind_rank, kind_with_prefix, prefix_of, lemma_prefix_has_no_underscore};
use crate::text::{
    chars_of, decimal, decimal_string, lemma_decimal, lemma_parse_decimal, parse_usize,
    parse_usize_chars, str_equal,
};

verus! {

/// The characters of each pair of strings.
pub open spec fn pairs(es: Seq<(String, String)>) -> Seq<(Seq<char>, Seq<char>)> {
    es.map_values(|e: (String, String)| (e.0@, e.1@))
}

/// The value that the last entry with key `k` gives, if any.
pub open spec fn lookup(es: Seq<(Seq<char>, Seq<char>)>, k: Seq<char>) -> Option<Seq<char>>
    decreases es.len(),
{
    if es.len() == 0 {
        None
    } else if es.last().0 == k {
        Some(es.last().1)
    } else {
        lookup(es.drop_last(), k)
    }
}

/// The entries as a map; a later entry wins over an earlier one.
pub open spec fn as_map(es: Seq<(Seq<char>, Seq<char>)>) -> Map<Seq<char>, Seq<char>> {
    Map::new(|k: Seq<char>| lookup(es, k) is Some, |k: Seq<char>| lookup(es, k)->0)
}

/// No key occurs twice.
pub open spec fn keys_distinct(es: Seq<(Seq<char>, Seq<char>)>) -> bool {
    forall|i: int, j: int| 0 <= i < j < es.len() ==> (#[trigger] es[i]).0 != (#[trigger] es[j]).0
}

/// Each entry with key and value swapped.
pub open spec fn swapped(es: Seq<(Seq<char>, Seq<char>)>) -> Seq<(Seq<char>, Seq<char>)> {
    es.map_values(|e: (Seq<char>, Seq<char>)| (e.1, e.0))
}

/// The placeholder minted for the `n`th value of kind `k`: `PREFIX_n`.
pub open spec fn placeholder_text(k: Kind, n: nat) -> Seq<char> {
    prefix_of(k) + seq!['_'] + decimal(n)
}

/// The index of the last `_` in `s`.
pub open spec fn last_underscore(s: Seq<char>) -> Option<int>
    decreases s.len(),
{
    if s.len() == 0 {
        None
    } else if s.last() == '_' {
        Some(s.len() - 1)
    } else {
        last_underscore(s.drop_last())
    }
}

/// A placeholder taken apart at its last `_`: the kind its prefix names and
/// the number after it.
pub open spec fn split_placeholder_spec(s: Seq<char>) -> Option<(Kind, usize)> {
    match last_underscore(s) {
        None => None,
        Some(i) => match kind_with_prefix(s.subrange(0, i)) {
            None => None,
            Some(k) => match parse_usize(s.subrange(i + 1, s.len() as int)) {
                None => None,
                Some(n) => Some((k, n)),
            },
        },
    }
}

/// The highest number that the keys of `es` carry for kind `k` (0 when
/// none does).
pub open spec fn highest_index(es: Seq<(Seq<char>, Seq<char>)>, k: Kind) -> usize
    decreases es.len(),
{
    if es.len() == 0 {
        0
    } else {
        let rest = highest_index(es.drop_last(), k);
        match split_placeholder_spec(es.last().0) {
            Some((k2, n)) => if k2 == k && n > rest {
                n
            } else {
                rest
            },
            None => rest,
        }
    }
}

proof fn lemma_lookup_some(es: Seq<(Seq<char>, Seq<char>)>, k: Seq<char>)
    ensures
        lookup(es, k) is Some <==> exists|i: int| 0 <= i < es.len() && (#[trigger] es[i]).0 == k,
    decreases es.len(),
{
    if es.len() > 0 {
        lemma_lookup_some(es.drop_last(), k);
        if lookup(es.drop_last(), k) is Some {
            let i = choose|i: int| 0 <= i < es.drop_last().len() && (#[trigger] es.drop_last()[i]).0 == k;
            assert(es[i] == es.drop_last()[i]);
        }
        if exists|i: int| 0 <= i < es.len() && (#[trigger] es[i]).0 == k {
            let i = choose|i: int| 0 <= i < es.len() && (#[trigger] es[i]).0 == k;
            if i < es.len() - 1 {
                assert(es.drop_last()[i] == es[i]);
            }
        }
    }
}

proof fn lemma_lookup_at(es: Seq<(Seq<char>, Seq<char>)>, i: int)
    requires
        keys_distinct(es),
        0 <= i < es.len(),
    ensures
        lookup(es, es[i].0) == Some(es[i].1),
    decreases es.len(),
{
    if i < es.len() - 1 {
        assert(es.drop_last()[i] == es[i]);
        assert(es[i].0 != es[es.len() - 1].0);
        lemma_lookup_at(es.drop_last(), i);
    }
}

proof fn lemma_lookup_update(es: Seq<(Seq<char>, Seq<char>)>, i: int, v: Seq<char>, k2: Seq<char>)
    requires
        keys_distinct(es),
        0 <= i < es.len(),
    ensures
        lookup(es.update(i, (es[i].0, v)), k2) == if k2 == es[i].0 {
            Some(v)
        } else {
            lookup(es, k2)
        },
        keys_distinct(es.update(i, (es[i].0, v))),
    decreases es.len(),
{
    let u = es.update(i, (es[i].0, v));
    if i == es.len() - 1 {
        assert(u.drop_last() =~= es.drop_last());
        if k2 != es[i].0 {
        }
    } else {
        assert(u.drop_last() =~= es.drop_last().update(i, (es[i].0, v)));
        assert(es.drop_last()[i] == es[i]);
        assert(es[i].0 != es[es.len() - 1].0);
        lemma_lookup_update(es.drop_last(), i, v, k2);
        if k2 == es[i].0 {
            assert(u.last().0 != k2);
        }
    }
    assert forall|a: int, b: int| 0 <= a < b < u.len() implies (#[trigger] u[a]).0 != (
    #[trigger] u[b]).0 by {
        assert(es[a].0 != es[b].0);
    }
}

proof fn lemma_map_push(es: Seq<(Seq<char>, Seq<char>)>, k: Seq<char>, v: Seq<char>)
    ensures
        as_map(es.push((k, v))) == as_map(es).insert(k, v),
{
    assert forall|k2: Seq<char>| #[trigger] lookup(es.push((k, v)), k2) == if k2 == k {
        Some(v)
    } else {
        lookup(es, k2)
    } by {
        assert(es.push((k, v)).drop_last() =~= es);
    }
    assert(as_map(es.push((k, v))) =~= as_map(es).insert(k, v));
}

proof fn lemma_map_update(es: Seq<(Seq<char>, Seq<char>)>, i: int, v: Seq<char>)
    requires
        keys_distinct(es),
        0 <= i < es.len(),
    ensures
        as_map(es.update(i, (es[i].0, v))) == as_map(es).insert(es[i].0, v),
        keys_distinct(es.update(i, (es[i].0, v))),
{
    assert forall|k2: Seq<char>| #[trigger] lookup(es.update(i, (es[i].0, v)), k2) == if k2 == es[i].0 {
        Some(v)
    } else {
        lookup(es, k2)
    } by {
        lemma_lookup_update(es, i, v, k2);
    }
    lemma_lookup_update(es, i, v, es[i].0);
    assert(as_map(es.update(i, (es[i].0, v))) =~= as_map(es).insert(es[i].0, v));
}

/// Position of the entry with key `k` in `es`.
fn find_key(es: &Vec<(String, String)>, k: &str) -> (r: Option<usize>)
    ensures
        match r {
            Some(i) => i < es@.len() && pairs(es@)[i as int].0 == k@,
            None => !as_map(pairs(es@)).contains_key(k@),
        },
{
    let ghost ps = pairs(es@);
    let mut i: usize = 0;
    while i < es.len()
        invariant
            ps == pairs(es@),
            i <= es@.len(),
            forall|j: int| 0 <= j < i ==> (#[trigger] ps[j]).0 != k@,
        decreases es@.len() - i,
    {
        assert(ps[i as int] == (es@[i as int].0@, es@[i as int].1@));
        if str_equal(es[i].0.as_str(), k) {
            return Some(i);
        }
        i = i + 1;
    }
    proof {
        lemma_lookup_some(ps, k@);
    }
    None
}

/// Takes a placeholder apart at its last `_`: its kind and its number.
pub fn split_placeholder(placeholder: &str) -> (r: Option<(Kind, usize)>)
    ensures
        r == split_placeholder_spec(placeholder@),
{
    let cs = chars_of(placeholder);
    let ghost s = placeholder@;
    let mut j: usize = cs.len();
    assert(s.subrange(0, s.len() as int) =~= s);
    while j > 0 && cs[j - 1] != '_'
        invariant
            cs@ == s,
            j <= s.len(),
            last_underscore(s) == last_underscore(s.subrange(0, j as int)),
        decreases j,
    {
        assert(s.subrange(0, j as int).drop_last() =~= s.subrange(0, j - 1));
        j = j - 1;
    }
    if j == 0 {
        assert(s.subrange(0, 0) =~= Seq::<char>::empty());
        return None;
    }
    let at = j - 1;
    assert(last_underscore(s.subrange(0, j as int)) == Some(at as int));
    let kind = match Kind::from_prefix(placeholder.substring_char(0, at)) {
        Some(k) => k,
        None => {
            return None;
        },
    };
    let mut tail: Vec<char> = Vec::new();
    let mut i = j;
    while i < cs.len()
        invariant
            cs@ == s,
            j <= i <= s.len(),
            tail@ == s.subrange(j as int, i as int),
        decreases s.len() - i,
    {
        tail.push(cs[i]);
        assert(tail@ =~= s.subrange(j as int, i + 1));
        i = i + 1;
    }
    match parse_usize_chars(&tail) {
        Some(n) => Some((kind, n)),
        None => None,
    }
}

proof fn lemma_last_underscore_append(a: Seq<char>, b: Seq<char>)
    requires
        forall|i: int| 0 <= i < b.len() ==> b[i] != '_',
    ensures
        last_underscore(a + b) == last_underscore(a),
    decreases b.len(),
{
    if b.len() == 0 {
        assert(a + b =~= a);
    } else {
        assert((a + b).drop_last() =~= a + b.drop_last());
        assert((a + b).last() == b.last());
        lemma_last_underscore_append(a, b.drop_last());
    }
}

/// A minted placeholder takes apart into the kind and number it was made
/// from.
pub proof fn lemma_split_minted(k: Kind, n: usize)
    ensures
        split_placeholder_spec(placeholder_text(k, n as nat)) == Some((k, n)),
{
    let p = prefix_of(k);
    let d = decimal(n as nat);
    let s = placeholder_text(k, n as nat);
    lemma_decimal(n as nat);
    lemma_prefix_has_no_underscore(k);
    assert forall|i: int| 0 <= i < d.len() implies d[i] != '_' by {
        assert(crate::text::is_digit(d[i]));
    }
    lemma_last_underscore_append(p + seq!['_'], d);
    assert(last_underscore(p + seq!['_']) == Some(p.len() as int));
    assert(s.subrange(0, p.len() as int) =~= p);
    assert(s.subrange(p.len() as int + 1, s.len() as int) =~= d);
    crate::detectors::lemma_prefixes_distinct(k, k);
    assert(kind_with_prefix(p) == Some(k)) by {
        assert forall|k2: Kind| prefix_of(k2) == p implies k2 == k by {
            crate::detectors::lemma_prefixes_distinct(k2, k);
        }
    }
    lemma_parse_decimal(n);
}

/// The placeholder for the `n`th value of kind `k`.
fn mint(k: Kind, n: usize) -> (r: String)
    ensures
        r@ == placeholder_text(k, n as nat),
{
    proof {
        reveal_strlit("_");
    }
    let p = String::from_str(k.prefix()).concat("_");
    let d = decimal_string(n);
    p.concat(d.as_str())
}

/// Bidirectional, order-stable mapping between real values and
/// placeholders.
#[derive(Debug)]
pub struct MappingStore {
    path: Option<String>,
    /// value -> placeholder
    to_placeholder: Vec<(String, String)>,
    /// placeholder -> value
    to_value: Vec<(String, String)>,
    /// The highest number minted so far, by kind rank.
    counters: Vec<usize>,
    dirty: bool,
}

impl MappingStore {
    /// Placeholder -> real value.
    pub closed spec fn values(&self) -> Map<Seq<char>, Seq<char>> {
        as_map(pairs(self.to_value@))
    }

    /// Real value -> placeholder.
    pub closed spec fn placeholders(&self) -> Map<Seq<char>, Seq<char>> {
        as_map(pairs(self.to_placeholder@))
    }

    /// The highest number minted or loaded for kind `k`.
    pub closed spec fn counter(&self, k: Kind) -> usize {
        self.counters@[kind_rank(k)]
    }

    /// Where the table is kept, if anywhere.
    pub closed spec fn path_spec(&self) -> Option<Seq<char>> {
        match self.path {
            Some(p) => Some(p@),
            None => None,
        }
    }

    /// Whether the table changed since it was loaded or last saved.
    pub closed spec fn is_dirty(&self) -> bool {
        self.dirty
    }

    /// The number of placeholders the table knows.
    pub closed spec fn size(&self) -> nat {
        self.to_value@.len()
    }

    /// The table's invariant: each value's placeholder leads back to that
    /// value, and each kind's counter is the highest number a known
    /// placeholder of that kind carries, so a newly minted placeholder is
    /// always new and follows on from the last.
    pub closed spec fn wf(&self) -> bool {
        &&& keys_distinct(pairs(self.to_value@))
        &&& keys_distinct(pairs(self.to_placeholder@))
        &&& self.counters@.len() == 8
        &&& forall|v: Seq<char>| #[trigger]
            self.placeholders().contains_key(v) ==> self.values().contains_key(
                self.placeholders()[v],
            ) && self.values()[self.placeholders()[v]] == v
        &&& forall|ph: Seq<char>| #[trigger]
            self.values().contains_key(ph) ==> (split_placeholder_spec(ph) matches Some((k, n))
                ==> n <= self.counter(k))
        &&& forall|k: Kind| #[trigger]
            self.counter(k) > 0 ==> exists|ph: Seq<char>| #[trigger]
                self.values().contains_key(ph) && split_placeholder_spec(ph) == Some((k, self.counter(k)))
    }

    /// The number of placeholders in the table is the number of entries.
    pub proof fn lemma_size(&self)
        requires
            self.wf(),
        ensures
            self.size() == self.values().dom().len(),
            self.values().dom().finite(),
    {
        let ps = pairs(self.to_value@);
        let keys = Seq::new(ps.len(), |i: int| ps[i].0);
        assert(keys.no_duplicates()) by {
            assert forall|i: int, j: int| 0 <= i < keys.len() && 0 <= j < keys.len() && i != j implies keys[i] != keys[j] by {
                if i < j {
                    assert(ps[i].0 != ps[j].0);
                } else {
                    assert(ps[j].0 != ps[i].0);
                }
            }
        }
        assert(self.values().dom() =~= keys.to_set()) by {
            assert forall|k: Seq<char>| self.values().dom().contains(k) <==> keys.to_set().contains(k) by {
                lemma_lookup_some(ps, k);
                if keys.to_set().contains(k) {
                    assert(keys.contains(k));
                    let i = choose|i: int| 0 <= i < keys.len() && keys[i] == k;
                    assert(ps[i].0 == k);
                }
                if self.values().dom().contains(k) {
                    let i = choose|i: int| 0 <= i < ps.len() && (#[trigger] ps[i]).0 == k;
                    assert(keys[i] == k);
                    assert(keys.contains(k));
                }
            }
        }
        keys.unique_seq_to_set();
    }

    /// What the table's invariant gives its users: each value's
    /// placeholder leads back to it, and each kind's counter is the highest
    /// number a known placeholder of that kind carries.
    pub proof fn lemma_consistent(&self)
        requires
            self.wf(),
        ensures
            forall|v: Seq<char>| #[trigger]
                self.placeholders().contains_key(v) ==> self.values().contains_key(
                    self.placeholders()[v],
                ) && self.values()[self.placeholders()[v]] == v,
            forall|ph: Seq<char>| #[trigger]
                self.values().contains_key(ph) ==> (split_placeholder_spec(ph) matches Some((k, n))
                    ==> n <= self.counter(k)),
            forall|k: Kind| is_highest_held(self.values(), k, #[trigger] self.counter(k)),
    {
        assert forall|k: Kind| is_highest_held(self.values(), k, #[trigger] self.counter(k)) by {
            if self.counter(k) > 0 {
                let w = choose|ph: Seq<char>| #[trigger]
                    self.values().contains_key(ph) && split_placeholder_spec(ph) == Some((k, self.counter(k)));
                assert(number_of_kind(w, k) == Some(self.counter(k)));
            }
        }
    }

    /// An in-memory store that never touches disk.
    pub fn ephemeral() -> (s: Self)
        ensures
            s.wf(),
            s.values() == Map::<Seq<char>, Seq<char>>::empty(),
            s.placeholders() == Map::<Seq<char>, Seq<char>>::empty(),
            forall|k: Kind| s.counter(k) == 0,
            s.path_spec() is None,
            !s.is_dirty(),
            s.size() == 0,
    {
        let counters = vec![0usize, 0, 0, 0, 0, 0, 0, 0];
        let s = MappingStore {
            path: None,
            to_placeholder: Vec::new(),
            to_value: Vec::new(),
            counters,
            dirty: false,
        };
        assert(s.values() =~= Map::<Seq<char>, Seq<char>>::empty());
        assert(s.placeholders() =~= Map::<Seq<char>, Seq<char>>::empty());
        s
    }

    /// Add one loaded entry; the counter of its kind rises to its number.
    fn remember(&mut self, placeholder: String, value: String)
        requires
            old(self).wf(),
            !old(self).values().contains_key(placeholder@),
        ensures
            final(self).wf(),
            final(self).values() == old(self).values().insert(placeholder@, value@),
            final(self).placeholders() == old(self).placeholders().insert(value@, placeholder@),
            forall|k: Kind| #[trigger] final(self).counter(k) == match split_placeholder_spec(placeholder@) {
                Some((k2, n)) => if k2 == k && n > old(self).counter(k) {
                    n
                } else {
                    old(self).counter(k)
                },
                None => old(self).counter(k),
            },
            final(self).path_spec() == old(self).path_spec(),
            final(self).is_dirty() == old(self).is_dirty(),
    {
        let ghost old_counters = self.counters@;
        if let Some((kind, index)) = split_placeholder(placeholder.as_str()) {
            let r = kind.rank();
            if index > self.counters[r] {
                self.counters.set(r, index);
            }
        }
        let ghost pv = pairs(self.to_value@);
        let ghost pp = pairs(self.to_placeholder@);
        let ghost ph = placeholder@;
        let ghost v = value@;
        let found = find_key(&self.to_placeholder, value.as_str());
        let placeholder_copy = placeholder.clone();
        self.to_value.push((placeholder, value.clone()));
        assert(pairs(self.to_value@) =~= pv.push((ph, v)));
        proof {
            lemma_map_push(pv, ph, v);
            assert forall|i: int, j: int| 0 <= i < j < pairs(self.to_value@).len() implies (
            #[trigger] pairs(self.to_value@)[i]).0 != (#[trigger] pairs(self.to_value@)[j]).0 by {
                if j == pv.len() {
                    lemma_lookup_some(pv, ph);
                    assert(pv[i].0 == pairs(self.to_value@)[i].0);
                }
            }
        }
        match found {
            Some(i) => {
                self.to_placeholder.set(i, (value, placeholder_copy));
                assert(pairs(self.to_placeholder@) =~= pp.update(i as int, (pp[i as int].0, ph)));
                proof {
                    lemma_map_update(pp, i as int, ph);
                }
            },
            None => {
                self.to_placeholder.push((value, placeholder_copy));
                assert(pairs(self.to_placeholder@) =~= pp.push((v, ph)));
                proof {
                    lemma_map_push(pp, v, ph);
                    lemma_lookup_some(pp, v);
                    assert forall|i: int, j: int| 0 <= i < j < pairs(self.to_placeholder@).len() implies (
                    #[trigger] pairs(self.to_placeholder@)[i]).0 != (
                    #[trigger] pairs(self.to_placeholder@)[j]).0 by {
                        if j == pp.len() {
                            assert(pp[i].0 == pairs(self.to_placeholder@)[i].0);
                        }
                    }
                }
            },
        }
        proof {
            let old_values = as_map(pv);
            let old_places = as_map(pp);
            assert(old_values == old(self).values());
            assert(old_places == old(self).placeholders());
            assert forall|v2: Seq<char>| #[trigger]
                self.placeholders().contains_key(v2) implies self.values().contains_key(
                self.placeholders()[v2],
            ) && self.values()[self.placeholders()[v2]] == v2 by {
                if v2 != v {
                    assert(old_places.contains_key(v2));
                    assert(old(self).placeholders().contains_key(v2));
                    let p2 = old_places[v2];
                    assert(old_values.contains_key(p2));
                    assert(p2 != ph);
                }
            }
            assert forall|ph2: Seq<char>| #[trigger]
                self.values().contains_key(ph2) implies (split_placeholder_spec(ph2) matches Some((k, n))
                ==> n <= self.counter(k)) by {
                if ph2 != ph {
                    assert(old_values.contains_key(ph2));
                }
                if let Some((k, n)) = split_placeholder_spec(ph2) {
                    assert(self.counter(k) >= old_counters[kind_rank(k)]);
                }
            }
            assert forall|k: Kind| #[trigger] self.counter(k) > 0 implies exists|p: Seq<char>| #[trigger]
                self.values().contains_key(p) && split_placeholder_spec(p) == Some((k, self.counter(k))) by {
                if split_placeholder_spec(ph) == Some((k, self.counter(k))) {
                    assert(self.values().contains_key(ph));
                } else {
                    assert(self.counter(k) == old(self).counter(k));
                    let w = choose|p: Seq<char>| #[trigger]
                        old(self).values().contains_key(p) && split_placeholder_spec(p) == Some((k, old(self).counter(k)));
                    assert(old_values.contains_key(w));
                    assert(self.values().contains_key(w));
                }
            }
        }
    }

    /// A store over the table `values` (placeholder, value), as read back
    /// from `path`. Counters resume from the highest number each kind
    /// carries, so a value seen later cannot take an earlier one's
    /// placeholder.
    pub fn from_saved(path: Option<String>, values: Vec<(String, String)>) -> (s: Self)
        requires
            keys_distinct(pairs(values@)),
        ensures
            s.wf(),
            s.values() == as_map(pairs(values@)),
            s.placeholders() == as_map(swapped(pairs(values@))),
            forall|k: Kind| #[trigger] s.counter(k) == highest_index(pairs(values@), k),
            s.path_spec() == match path {
                Some(p) => Some(p@),
                None => None::<Seq<char>>,
            },
            !s.is_dirty(),
    {
        let mut store = MappingStore {
            path,
            to_placeholder: Vec::new(),
            to_value: Vec::new(),
            counters: vec![0usize, 0, 0, 0, 0, 0, 0, 0],
            dirty: false,
        };
        assert(store.values() =~= Map::<Seq<char>, Seq<char>>::empty());
        assert(store.placeholders() =~= Map::<Seq<char>, Seq<char>>::empty());
        let ghost ps = pairs(values@);
        proof {
            assert(as_map(ps.take(0)) =~= Map::<Seq<char>, Seq<char>>::empty());
            assert(as_map(swapped(ps.take(0))) =~= Map::<Seq<char>, Seq<char>>::empty());
            assert(ps.take(0) =~= Seq::<(Seq<char>, Seq<char>)>::empty());
            assert forall|k: Kind| #[trigger] highest_index(ps.take(0), k) == 0 by {}
        }
        for entry in it: values
            invariant
                it.seq() == values@,
                ps == pairs(values@),
                keys_distinct(ps),
                store.wf(),
                store.values() == as_map(ps.take(it.index() as int)),
                store.placeholders() == as_map(swapped(ps.take(it.index() as int))),
                forall|k: Kind| #[trigger] store.counter(k) == highest_index(ps.take(it.index() as int), k),
                store.path_spec() == match path {
                    Some(p) => Some(p@),
                    None => None::<Seq<char>>,
                },
                !store.is_dirty(),
        {
            let ghost i = it.index() as int;
            let ghost before = ps.take(i);
            let ghost after = ps.take(i + 1);
            assert(after =~= before.push(ps[i]));
            assert(ps[i] == (entry.0@, entry.1@));
            assert(swapped(after) =~= swapped(before).push((entry.1@, entry.0@)));
            proof {
                lemma_map_push(before, entry.0@, entry.1@);
                lemma_map_push(swapped(before), entry.1@, entry.0@);
                lemma_lookup_some(before, entry.0@);
                assert forall|j: int| 0 <= j < before.len() implies (#[trigger] before[j]).0 != entry.0@ by {
                    assert(before[j] == ps[j]);
                }
                assert(after.drop_last() =~= before);
            }
            let (placeholder, value) = entry;
            store.remember(placeholder, value);
        }
        assert(ps.take(ps.len() as int) =~= ps);
        store
    }

    /// The default store: the table saved at `location` (read back as
    /// `saved`) when there is a home directory to keep it in, and an
    /// in-memory store otherwise.
    pub fn open_default(location: Option<String>, saved: Vec<(String, String)>) -> (s: Self)
        requires
            location is Some ==> keys_distinct(pairs(saved@)),
        ensures
            s.wf(),
            !s.is_dirty(),
            match location {
                Some(p) => {
                    &&& s.path_spec() == Some(p@)
                    &&& s.values() == as_map(pairs(saved@))
                    &&& s.placeholders() == as_map(swapped(pairs(saved@)))
                    &&& forall|k: Kind| #[trigger] s.counter(k) == highest_index(pairs(saved@), k)
                },
                None => {
                    &&& s.path_spec() is None
                    &&& s.values() == Map::<Seq<char>, Seq<char>>::empty()
                    &&& forall|k: Kind| #[trigger] s.counter(k) == 0
                },
            },
    {
        match location {
            Some(p) => MappingStore::from_saved(Some(p), saved),
            None => MappingStore::ephemeral(),
        }
    }

    /// The placeholder for `value`, minting a new one on first sight. The
    /// same value always maps to the same placeholder.
    pub fn placeholder_for(&mut self, value: &str, kind: Kind) -> (r: String)
        requires
            old(self).wf(),
            !old(self).placeholders().contains_key(value@) ==> old(self).counter(kind) < usize::MAX,
        ensures
            final(self).wf(),
            final(self).values().contains_key(r@),
            final(self).values()[r@] == value@,
            final(self).placeholders().contains_key(value@),
            final(self).placeholders()[value@] == r@,
            final(self).path_spec() == old(self).path_spec(),
            forall|ph: Seq<char>| #[trigger]
                old(self).values().contains_key(ph) ==> final(self).values().contains_key(ph)
                    && final(self).values()[ph] == old(self).values()[ph],
            old(self).placeholders().contains_key(value@) ==> {
                &&& r@ == old(self).placeholders()[value@]
                &&& final(self).values() == old(self).values()
                &&& final(self).placeholders() == old(self).placeholders()
                &&& forall|k: Kind| #[trigger] final(self).counter(k) == old(self).counter(k)
                &&& final(self).is_dirty() == old(self).is_dirty()
                &&& final(self).size() == old(self).size()
            },
            !old(self).placeholders().contains_key(value@) ==> {
                &&& is_highest_held(old(self).values(), kind, old(self).counter(kind))
                &&& r@ == placeholder_text(kind, old(self).counter(kind) as nat + 1)
                &&& !old(self).values().contains_key(r@)
                &&& final(self).values() == old(self).values().insert(r@, value@)
                &&& final(self).placeholders() == old(self).placeholders().insert(value@, r@)
                &&& final(self).counter(kind) == old(self).counter(kind) + 1
                &&& forall|k: Kind| k != kind ==> #[trigger] final(self).counter(k) == old(self).counter(k)
                &&& final(self).is_dirty()
                &&& final(self).size() == old(self).size() + 1
            },
    {
        let ghost pv = pairs(self.to_value@);
        let ghost pp = pairs(self.to_placeholder@);
        match find_key(&self.to_placeholder, value) {
            Some(i) => {
                proof {
                    lemma_lookup_at(pp, i as int);
                }
                let r = self.to_placeholder[i].1.clone();
                assert(self.placeholders().contains_key(value@));
                assert(self.placeholders()[value@] == r@);
                r
            },
            None => {
                let r = kind.rank();
                let n = self.counters[r] + 1;
                self.counters.set(r, n);
                let placeholder = mint(kind, n);
                let ghost ph = placeholder@;
                proof {
                    lemma_split_minted(kind, n);
                    if as_map(pv).contains_key(ph) {
                        assert(old(self).values().contains_key(ph));
                    }
                    lemma_lookup_some(pv, ph);
                    lemma_lookup_some(pp, value@);
                }
                self.to_value.push((placeholder.clone(), String::from_str(value)));
                self.to_placeholder.push((String::from_str(value), placeholder.clone()));
                self.dirty = true;
                assert(pairs(self.to_value@) =~= pv.push((ph, value@)));
                assert(pairs(self.to_placeholder@) =~= pp.push((value@, ph)));
                proof {
                    lemma_map_push(pv, ph, value@);
                    lemma_map_push(pp, value@, ph);
                    assert forall|i: int, j: int| 0 <= i < j < pairs(self.to_value@).len() implies (
                    #[trigger] pairs(self.to_value@)[i]).0 != (#[trigger] pairs(self.to_value@)[j]).0 by {
                        if j == pv.len() {
                            assert(pv[i].0 == pairs(self.to_value@)[i].0);
                        }
                    }
                    assert forall|i: int, j: int| 0 <= i < j < pairs(self.to_placeholder@).len() implies (
                    #[trigger] pairs(self.to_placeholder@)[i]).0 != (
                    #[trigger] pairs(self.to_placeholder@)[j]).0 by {
                        if j == pp.len() {
                            assert(pp[i].0 == pairs(self.to_placeholder@)[i].0);
                        }
                    }
                    let old_values = as_map(pv);
                    let old_places = as_map(pp);
                    assert(old_values == old(self).values());
                    assert(old_places == old(self).placeholders());
                    assert forall|v2: Seq<char>| #[trigger]
                        self.placeholders().contains_key(v2) implies self.values().contains_key(
                        self.placeholders()[v2],
                    ) && self.values()[self.placeholders()[v2]] == v2 by {
                        if v2 != value@ {
                            assert(old(self).placeholders().contains_key(v2));
                            let p2 = old_places[v2];
                            assert(old_values.contains_key(p2));
                            assert(p2 != ph);
                        }
                    }
                    assert forall|ph2: Seq<char>| #[trigger]
                        self.values().contains_key(ph2) implies (split_placeholder_spec(ph2) matches Some((k, m))
                        ==> m <= self.counter(k)) by {
                        if ph2 != ph {
                            assert(old_values.contains_key(ph2));
                            assert(old(self).values().contains_key(ph2));
                        }
                    }
                    assert forall|k: Kind| #[trigger] self.counter(k) > 0 implies exists|p: Seq<char>| #[trigger]
                        self.values().contains_key(p) && split_placeholder_spec(p) == Some((k, self.counter(k))) by {
                        if k == kind {
                            assert(self.values().contains_key(ph));
                        } else {
                            let w = choose|p: Seq<char>| #[trigger]
                                old(self).values().contains_key(p) && split_placeholder_spec(p) == Some((k, old(self).counter(k)));
                            assert(old_values.contains_key(w));
                            assert(self.values().contains_key(w));
                        }
                    }
                    old(self).lemma_consistent();
                }
                placeholder
            },
        }
    }

    /// The real value behind a placeholder, if this store knows it.
    pub fn value_for(&self, placeholder: &str) -> (r: Option<&str>)
        requires
            self.wf(),
        ensures
            match r {
                Some(v) => self.values().contains_key(placeholder@) && v@ == self.values()[placeholder@],
                None => !self.values().contains_key(placeholder@),
            },
    {
        match find_key(&self.to_value, placeholder) {
            Some(i) => {
                proof {
                    lemma_lookup_at(pairs(self.to_value@), i as int);
                }
                Some(self.to_value[i].1.as_str())
            },
            None => None,
        }
    }

    /// The number of placeholders this store knows.
    pub fn len(&self) -> (r: usize)
        ensures
            r == self.size(),
            self.wf() ==> r == self.values().dom().len(),
    {
        proof {
            if self.wf() {
                self.lemma_size();
            }
        }
        self.to_value.len()
    }

    /// Whether `extra` more placeholders of every kind can still be
    /// numbered: each counter plus `extra` plus one stays below
    /// `usize::MAX`.
    pub fn has_room(&self, extra: usize) -> (r: bool)
        requires
            self.wf(),
        ensures
            r == forall|k: Kind| #[trigger] self.counter(k) + extra + 1 < usize::MAX,
    {
        let kinds = Kind::all();
        let mut i: usize = 0;
        while i < kinds.len()
            invariant
                self.wf(),
                kinds@ == crate::detectors::all_kinds(),
                i <= 8,
                forall|j: int| 0 <= j < i ==> self.counter(#[trigger] crate::detectors::all_kinds()[j]) + extra + 1 < usize::MAX,
            decreases 8 - i,
        {
            let k = kinds[i];
            let c = self.counters[k.rank()];
            if extra >= usize::MAX - 1 || c >= usize::MAX - 1 - extra {
                assert(self.counter(k) == c);
                return false;
            }
            i = i + 1;
        }
        proof {
            assert forall|k: Kind| #[trigger] self.counter(k) + extra + 1 < usize::MAX by {
                assert(crate::detectors::all_kinds()[kind_rank(k)] == k);
            }
        }
        true
    }

    /// Whether this store knows no placeholder at all.
    pub fn is_empty(&self) -> (r: bool)
        ensures
            r == (self.size() == 0),
            self.wf() ==> (r <==> self.values().dom().len() == 0),
    {
        proof {
            if self.wf() {
                self.lemma_size();
            }
        }
        self.to_value.len() == 0
    }

    /// Whether there is something to write: the table changed and a path
    /// is configured.
    pub fn needs_save(&self) -> (r: bool)
        ensures
            r == (self.path_spec() is Some && self.is_dirty()),
    {
        self.path.is_some() && self.dirty
    }

    /// The file the table lives in, if any.
    pub fn path(&self) -> (r: Option<&str>)
        ensures
            match r {
                Some(p) => self.path_spec() == Some(p@),
                None => self.path_spec() is None,
            },
    {
        match &self.path {
            Some(p) => Some(p.as_str()),
            None => None,
        }
    }

    /// The table to write out: (placeholder, value) pairs.
    pub fn saved_values(&self) -> (r: Vec<(String, String)>)
        requires
            self.wf(),
        ensures
            as_map(pairs(r@)) == self.values(),
            keys_distinct(pairs(r@)),
    {
        let mut out: Vec<(String, String)> = Vec::new();
        let mut i: usize = 0;
        while i < self.to_value.len()
            invariant
                i <= self.to_value@.len(),
                pairs(out@) == pairs(self.to_value@).take(i as int),
            decreases self.to_value@.len() - i,
        {
            let entry = (self.to_value[i].0.clone(), self.to_value[i].1.clone());
            assert(entry.0@ == self.to_value@[i as int].0@);
            assert(entry.1@ == self.to_value@[i as int].1@);
            let ghost before = out@;
            out.push(entry);
            assert(pairs(out@) =~= pairs(before).push((entry.0@, entry.1@)));
            assert(pairs(out@) =~= pairs(self.to_value@).take(i + 1));
            i = i + 1;
        }
        assert(pairs(self.to_value@).take(i as int) =~= pairs(self.to_value@));
        out
    }

    /// Record that the table has been written out.
    pub fn mark_saved(&mut self)
        requires
            old(self).wf(),
        ensures
            final(self).wf(),
            final(self).values() == old(self).values(),
            final(self).placeholders() == old(self).placeholders(),
            forall|k: Kind| #[trigger] final(self).counter(k) == old(self).counter(k),
            final(self).path_spec() == old(self).path_spec(),
            final(self).size() == old(self).size(),
            !final(self).is_dirty(),
    {
        self.dirty = false;
        assert(self.values() == old(self).values());
        assert(self.placeholders() == old(self).placeholders());
        assert(forall|k: Kind| #[trigger] self.counter(k) == old(self).counter(k));
    }
}

/// The number a placeholder carries when it is one of kind `k`.
pub open spec fn number_of_kind(ph: Seq<char>, k: Kind) -> Option<usize> {
    match split_placeholder_spec(ph) {
        Some((k2, n)) => if k2 == k {
            Some(n)
        } else {
            None
        },
        None => None,
    }
}

/// `c` is the highest number that a placeholder of kind `k` held in
/// `values` carries: none carries more, and, unless `c` is 0, one carries
/// `c`.
pub open spec fn is_highest_held(values: Map<Seq<char>, Seq<char>>, k: Kind, c: usize) -> bool {
    &&& forall|ph: Seq<char>| #[trigger]
        values.contains_key(ph) ==> (number_of_kind(ph, k) matches Some(n) ==> n <= c)
    &&& c > 0 ==> exists|ph: Seq<char>| #[trigger] values.contains_key(ph) && number_of_kind(ph, k) == Some(c)
}

/// `highest_index` is at least every number of its kind among the keys,
/// and at most any bound on all of them.
proof fn lemma_highest_index(es: Seq<(Seq<char>, Seq<char>)>, k: Kind, c: usize)
    ensures
        forall|j: int|
            0 <= j < es.len() ==> (number_of_kind(#[trigger] es[j].0, k) matches Some(n) ==> n
                <= highest_index(es, k)),
        (forall|j: int|
            0 <= j < es.len() ==> (number_of_kind(#[trigger] es[j].0, k) matches Some(n) ==> n <= c))
            ==> highest_index(es, k) <= c,
    decreases es.len(),
{
    if es.len() > 0 {
        let p = es.drop_last();
        lemma_highest_index(p, k, c);
        assert forall|j: int| 0 <= j < es.len() implies (number_of_kind(#[trigger] es[j].0, k) matches Some(
            n,
        ) ==> n <= highest_index(es, k)) by {
            if j < p.len() {
                assert(p[j] == es[j]);
            }
        }
        if forall|j: int|
            0 <= j < es.len() ==> (number_of_kind(#[trigger] es[j].0, k) matches Some(n) ==> n <= c) {
            assert forall|j: int| 0 <= j < p.len() implies (number_of_kind(#[trigger] p[j].0, k) matches Some(
                n,
            ) ==> n <= c) by {
                assert(p[j] == es[j]);
            }
            assert(es[es.len() - 1] == es.last());
        }
    }
}

/// A table written out and read back keeps every placeholder's value, and
/// its counters resume no higher than they stood and at or above every
/// number in use, so a value seen after the reload cannot take a
/// placeholder that is already taken.
pub proof fn law_reload_keeps_table(s: MappingStore, saved: Seq<(Seq<char>, Seq<char>)>, r: MappingStore)
    requires
        s.wf(),
        as_map(saved) == s.values(),
        r.values() == as_map(saved),
        forall|k: Kind| #[trigger] r.counter(k) == highest_index(saved, k),
    ensures
        r.values() == s.values(),
        forall|ph: Seq<char>, k: Kind|
            #[trigger] r.values().contains_key(ph) ==> (number_of_kind(ph, k) matches Some(n) ==> n
                <= #[trigger] r.counter(k)),
        forall|k: Kind| #[trigger] r.counter(k) <= s.counter(k),
{
    s.lemma_consistent();
    assert forall|k: Kind| #[trigger] r.counter(k) <= s.counter(k) by {
        lemma_highest_index(saved, k, s.counter(k));
        assert forall|j: int| 0 <= j < saved.len() implies (number_of_kind(#[trigger] saved[j].0, k) matches Some(
            n,
        ) ==> n <= s.counter(k)) by {
            lemma_lookup_some(saved, saved[j].0);
            assert(s.values().contains_key(saved[j].0));
        }
    }
    assert forall|ph: Seq<char>, k: Kind| #[trigger] r.values().contains_key(ph) implies (number_of_kind(
        ph,
        k,
    ) matches Some(n) ==> n <= #[trigger] r.counter(k)) by {
        lemma_lookup_some(saved, ph);
        let j = choose|j: int| 0 <= j < saved.len() && (#[trigger] saved[j]).0 == ph;
        lemma_highest_index(saved, k, 0);
    }
}

/// Whether no placeholder occurs twice in a table read back from disk.
pub fn distinct_keys(entries: &Vec<(String, String)>) -> (r: bool)
    ensures
        r == keys_distinct(pairs(entries@)),
{
    let ghost ps = pairs(entries@);
    let mut j: usize = 0;
    while j < entries.len()
        invariant
            ps == pairs(entries@),
            j <= entries@.len(),
            forall|a: int, b: int| 0 <= a < b < j ==> (#[trigger] ps[a]).0 != (#[trigger] ps[b]).0,
        decreases entries@.len() - j,
    {
        let mut i: usize = 0;
        while i < j
            invariant
                ps == pairs(entries@),
                i <= j < entries@.len(),
                forall|a: int| 0 <= a < i ==> (#[trigger] ps[a]).0 != ps[j as int].0,
            decreases j - i,
        {
            assert(ps[i as int].0 == entries@[i as int].0@);
            assert(ps[j as int].0 == entries@[j as int].0@);
            if str_equal(entries[i].0.as_str(), entries[j].0.as_str()) {
                return false;
            }
            i = i + 1;
        }
        j = j + 1;
    }
    true
}

/// The user's home directory, as `dirs::home_dir` finds it. It depends on
/// the environment, so nothing is stated of it.
#[verifier::external_body]
fn home_dir() -> (r: Option<String>)
{
    dirs::home_dir().map(|p| p.to_string_lossy().into_owned())
}

/// What `std::path::Path::join` gives for `base` and `rel`.
pub uninterp spec fn path_joined_of(base: Seq<char>, rel: Seq<char>) -> Seq<char>;

/// `std::path::Path::join`: `rel` appended to `base` as a further path
/// component. Only the result's name is stated.
#[verifier::external_body]
fn path_join(base: &str, rel: &str) -> (r: String)
    ensures
        r@ == path_joined_of(base@, rel@),
{
    std::path::Path::new(base).join(rel).to_string_lossy().into_owned()
}

/// Where the table lives under the home directory `home`:
/// `.anonym-mcp/mappings.json`.
pub fn default_path_under(home: &str) -> (r: String)
    ensures
        r@ == path_joined_of(home@, ".anonym-mcp/mappings.json"@),
{
    path_join(home, ".anonym-mcp/mappings.json")
}

impl MappingStore {
    /// The default location of the table: `~/.anonym-mcp/mappings.json`,
    /// or `None` when there is no home directory.
    pub fn default_path() -> (r: Option<String>)
        ensures
            r matches Some(p) ==> exists|home: Seq<char>| p@ == path_joined_of(home, ".anonym-mcp/mappings.json"@),
    {
        match home_dir() {
            Some(h) => Some(default_path_under(h.as_str())),
            None => None,
        }
    }
}

} // verus!
