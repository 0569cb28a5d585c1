use vstd::prelude::*;
use vstd::string::*;

use crate::layer::{same_slot, touches, Layer};

verus! {

/// Lexicographic order of keys by code point, the order in which features are kept.
pub open spec fn key_lt(a: Seq<char>, b: Seq<char>) -> bool
    decreases a.len(),
{
    if b.len() == 0 {
        false
    } else if a.len() == 0 {
        true
    } else if a[0] != b[0] {
        (a[0] as int) < (b[0] as int)
    } else {
        key_lt(a.drop_first(), b.drop_first())
    }
}

/// The key order is asymmetric and irreflexive.
pub proof fn lemma_key_lt_asymmetric(a: Seq<char>, b: Seq<char>)
    ensures
        key_lt(a, b) ==> !key_lt(b, a) && a != b,
    decreases a.len(),
{
    if a.len() > 0 && b.len() > 0 && a[0] == b[0] {
        lemma_key_lt_asymmetric(a.drop_first(), b.drop_first());
    }
}

/// Any two distinct keys are ordered one way or the other.
pub proof fn lemma_key_lt_total(a: Seq<char>, b: Seq<char>)
    ensures
        a != b ==> key_lt(a, b) || key_lt(b, a),
    decreases a.len(),
{
    if a.len() > 0 && b.len() > 0 && a[0] == b[0] {
        lemma_key_lt_total(a.drop_first(), b.drop_first());
        if a.drop_first() == b.drop_first() && a.len() == b.len() {
            assert forall|j: int| 0 <= j < a.len() implies a[j] == b[j] by {
                if j > 0 {
                    assert(a[j] == a.drop_first()[j - 1]);
                    assert(b[j] == b.drop_first()[j - 1]);
                }
            }
            assert(a =~= b);
        }
    } else if a.len() > 0 && b.len() > 0 {
        assert((a[0] as int) != (b[0] as int));
    } else if a.len() == 0 && b.len() == 0 {
        assert(a =~= b);
    }
}

/// The key order is transitive.
pub proof fn lemma_key_lt_transitive(a: Seq<char>, b: Seq<char>, c: Seq<char>)
    ensures
        key_lt(a, b) && key_lt(b, c) ==> key_lt(a, c),
    decreases a.len(),
{
    if a.len() > 0 && b.len() > 0 && c.len() > 0 {
        lemma_key_lt_transitive(a.drop_first(), b.drop_first(), c.drop_first());
    }
}

/// The value stored under `k`: the last entry with that key.
pub open spec fn lookup<V>(s: Seq<(Seq<char>, V)>, k: Seq<char>) -> Option<V>
    decreases s.len(),
{
    if s.len() == 0 {
        None
    } else if s.last().0 == k {
        Some(s.last().1)
    } else {
        lookup(s.drop_last(), k)
    }
}

/// No two entries share a key.
pub open spec fn unique_keys<V>(s: Seq<(Seq<char>, V)>) -> bool {
    forall|i: int, j: int| 0 <= i < j < s.len() ==> s[i].0 != s[j].0
}

/// Keys strictly ascend.
pub open spec fn sorted_keys<V>(s: Seq<(Seq<char>, V)>) -> bool {
    forall|i: int, j: int| 0 <= i < j < s.len() ==> key_lt(s[i].0, s[j].0)
}

/// With unique keys, a lookup finds the one entry of its key.
pub proof fn lemma_lookup_index<V>(s: Seq<(Seq<char>, V)>, k: Seq<char>)
    requires
        unique_keys(s),
    ensures
        lookup(s, k) is None <==> (forall|i: int| 0 <= i < s.len() ==> s[i].0 != k),
        forall|i: int| 0 <= i < s.len() && s[i].0 == k ==> lookup(s, k) == Some(s[i].1),
    decreases s.len(),
{
    if s.len() > 0 {
        let r = s.drop_last();
        assert(unique_keys(r));
        lemma_lookup_index(r, k);
        assert forall|i: int| 0 <= i < s.len() - 1 implies r[i] == s[i] by {}
    }
}

/// Sorted keys are unique.
pub proof fn lemma_sorted_unique<V>(s: Seq<(Seq<char>, V)>)
    requires
        sorted_keys(s),
    ensures
        unique_keys(s),
{
    assert forall|i: int, j: int| 0 <= i < j < s.len() implies s[i].0 != s[j].0 by {
        lemma_key_lt_asymmetric(s[i].0, s[j].0);
    }
}

pub open spec fn pair_view(e: (String, String)) -> (Seq<char>, Seq<char>) {
    (e.0@, e.1@)
}

/// Relies on the ordering of `str`: lexicographic, which orders UTF-8 text by code point.
#[verifier::external_body]
fn str_lt(a: &str, b: &str) -> (r: bool)
    ensures
        r == key_lt(a@, b@),
{
    a < b
}

/// Text of one feature: key, `=`, value.
pub open spec fn entry_text(e: (Seq<char>, Seq<char>)) -> Seq<char> {
    e.0 + seq!['='] + e.1
}

/// Entries joined by `|`.
pub open spec fn join_entries(s: Seq<(Seq<char>, Seq<char>)>) -> Seq<char>
    decreases s.len(),
{
    if s.len() == 0 {
        Seq::empty()
    } else if s.len() == 1 {
        entry_text(s[0])
    } else {
        join_entries(s.drop_last()) + seq!['|'] + entry_text(s.last())
    }
}

/// The text of a feature map: `_` when empty, else its entries joined by `|`.
pub open spec fn render_features(s: Seq<(Seq<char>, Seq<char>)>) -> Seq<char> {
    if s.len() == 0 {
        seq!['_']
    } else {
        join_entries(s)
    }
}

/// The pieces of `s` between occurrences of `sep`.
pub open spec fn split_spec(s: Seq<char>, sep: char) -> Seq<Seq<char>>
    decreases s.len(),
{
    if s.len() == 0 {
        seq![Seq::empty()]
    } else {
        let rest = split_spec(s.drop_last(), sep);
        if s.last() == sep {
            rest.push(Seq::empty())
        } else {
            rest.update(rest.len() - 1, rest.last().push(s.last()))
        }
    }
}

/// `s` split at the first `sep`, if any.
pub open spec fn split_first(s: Seq<char>, sep: char) -> Option<(Seq<char>, Seq<char>)>
    decreases s.len(),
{
    if s.len() == 0 {
        None
    } else if s[0] == sep {
        Some((Seq::empty(), s.drop_first()))
    } else {
        match split_first(s.drop_first(), sep) {
            Some((k, v)) => Some((seq![s[0]] + k, v)),
            None => None,
        }
    }
}

/// Relies on `str::split`: the pieces between separators, in order.
#[verifier::external_body]
fn split_pieces(s: &str, sep: char) -> (r: Vec<String>)
    ensures
        r@.map_values(|p: String| p@) == split_spec(s@, sep),
{
    s.split(sep).map(|p| p.to_string()).collect()
}

/// Relies on `str::split_once`: the text before and after the first separator.
#[verifier::external_body]
fn split_once_at(s: &str, sep: char) -> (r: Option<(String, String)>)
    ensures
        match r {
            Some((k, v)) => split_first(s@, sep) == Some((k@, v@)),
            None => split_first(s@, sep) is None,
        },
{
    s.split_once(sep).map(|(k, v)| (k.to_string(), v.to_string()))
}

/// Every piece of a feature text holds a `=`.
pub open spec fn pieces_ok(ps: Seq<Seq<char>>) -> bool {
    forall|i: int| 0 <= i < ps.len() ==> (#[trigger] split_first(ps[i], '=')) is Some
}

/// The key-value pairs of the pieces of a feature text, in order.
pub open spec fn piece_pairs(ps: Seq<Seq<char>>) -> Seq<(Seq<char>, Seq<char>)> {
    ps.map_values(|p: Seq<char>| split_first(p, '=').unwrap())
}

/// Whether `s` is the text of a feature map.
pub open spec fn features_text_ok(s: Seq<char>) -> bool {
    s == seq!['_'] || pieces_ok(split_spec(s, '|'))
}

/// The pairs that the text of a feature map lists; a later key overrides an earlier one.
pub open spec fn features_text_pairs(s: Seq<char>) -> Seq<(Seq<char>, Seq<char>)> {
    if s == seq!['_'] {
        Seq::empty()
    } else {
        piece_pairs(split_spec(s, '|'))
    }
}

/// The sorted feature map read from a feature text.
pub open spec fn parsed_features(s: Seq<char>) -> Seq<(Seq<char>, Seq<char>)> {
    choose|t: Seq<(Seq<char>, Seq<char>)>|
        sorted_keys(t) && forall|k: Seq<char>| lookup(t, k) == lookup(features_text_pairs(s), k)
}

/// Two sorted maps with the same lookups are equal.
pub proof fn lemma_sorted_lookup_eq(a: Seq<(Seq<char>, Seq<char>)>, b: Seq<(Seq<char>, Seq<char>)>)
    requires
        sorted_keys(a),
        sorted_keys(b),
        forall|k: Seq<char>| lookup(a, k) == lookup(b, k),
    ensures
        a == b,
    decreases a.len() + b.len(),
{
    lemma_sorted_unique(a);
    lemma_sorted_unique(b);
    if a.len() == 0 && b.len() == 0 {
        assert(a =~= b);
    } else if a.len() == 0 {
        lemma_lookup_index(a, b.last().0);
        lemma_lookup_index(b, b.last().0);
    } else if b.len() == 0 {
        lemma_lookup_index(a, a.last().0);
        lemma_lookup_index(b, a.last().0);
    } else {
        let ka = a.last().0;
        let kb = b.last().0;
        lemma_lookup_index(a, ka);
        lemma_lookup_index(b, ka);
        lemma_lookup_index(a, kb);
        lemma_lookup_index(b, kb);
        if ka != kb {
            let j = choose|j: int| 0 <= j < b.len() && b[j].0 == ka;
            let i = choose|i: int| 0 <= i < a.len() && a[i].0 == kb;
            assert(key_lt(ka, kb));
            assert(key_lt(kb, ka));
            lemma_key_lt_asymmetric(ka, kb);
        }
        let a2 = a.drop_last();
        let b2 = b.drop_last();
        assert(sorted_keys(a2));
        assert(sorted_keys(b2));
        assert forall|k: Seq<char>| lookup(a2, k) == lookup(b2, k) by {
            if k == ka {
                lemma_sorted_unique(a2);
                lemma_sorted_unique(b2);
                lemma_lookup_index(a2, k);
                lemma_lookup_index(b2, k);
                assert forall|i: int| 0 <= i < a2.len() implies a2[i].0 != k by {
                    assert(a[i] == a2[i]);
                }
                assert forall|i: int| 0 <= i < b2.len() implies b2[i].0 != k by {
                    assert(b[i] == b2[i]);
                }
            } else {
                assert(lookup(a, k) == lookup(a2, k));
                assert(lookup(b, k) == lookup(b2, k));
            }
        }
        lemma_sorted_lookup_eq(a2, b2);
        assert(lookup(a, ka) == Some(a.last().1));
        assert(lookup(b, ka) == Some(b.last().1));
        assert(a =~= a2.push(a.last()));
        assert(b =~= b2.push(b.last()));
    }
}

/// A sorted map with the lookups of a feature text is the map read from it.
pub proof fn lemma_parsed_features(s: Seq<char>, t: Seq<(Seq<char>, Seq<char>)>)
    requires
        sorted_keys(t),
        forall|k: Seq<char>| lookup(t, k) == lookup(features_text_pairs(s), k),
    ensures
        parsed_features(s) == t,
{
    let c = parsed_features(s);
    assert(sorted_keys(c) && forall|k: Seq<char>| lookup(c, k) == lookup(features_text_pairs(s), k));
    lemma_sorted_lookup_eq(c, t);
}

/// A feature text that is not a feature map.
#[derive(Debug)]
pub enum FeatureError {
    /// A piece of the text lacks the `=` between key and value.
    MissingSeparator,
}

/// A morphological feature map, kept sorted by key.
pub struct Features {
    pub entries: Vec<(String, String)>,
}

impl Features {
    pub open spec fn view(&self) -> Seq<(Seq<char>, Seq<char>)> {
        self.entries@.map_values(|e: (String, String)| pair_view(e))
    }

    pub open spec fn wf(&self) -> bool {
        sorted_keys(self.view())
    }

    /// An empty feature map.
    pub fn new() -> (r: Self)
        ensures
            r.wf(),
            r.view() == Seq::<(Seq<char>, Seq<char>)>::empty(),
    {
        let r = Features { entries: Vec::new() };
        assert(r.view() =~= Seq::<(Seq<char>, Seq<char>)>::empty());
        r
    }

    /// The value of feature `key`, if present.
    pub fn get(&self, key: &str) -> (r: Option<String>)
        requires
            self.wf(),
        ensures
            match r {
                Some(v) => lookup(self.view(), key@) == Some(v@),
                None => lookup(self.view(), key@) is None,
            },
    {
        let k = key.to_owned();
        let mut i: usize = 0;
        while i < self.entries.len()
            invariant
                self.wf(),
                k@ == key@,
                0 <= i <= self.entries.len(),
                forall|j: int| 0 <= j < i ==> self.view()[j].0 != key@,
            decreases self.entries.len() - i,
        {
            if self.entries[i].0 == k {
                assert(self.view()[i as int] == pair_view(self.entries@[i as int]));
                assert(self.view()[i as int].0 == key@);
                proof {
                    lemma_sorted_unique(self.view());
                    lemma_lookup_index(self.view(), key@);
                }
                assert(lookup(self.view(), key@) == Some(self.view()[i as int].1));
                return Some(self.entries[i].1.clone());
            }
            i += 1;
        }
        proof {
            lemma_sorted_unique(self.view());
            lemma_lookup_index(self.view(), key@);
        }
        None
    }

    /// Insert `key` with `value`, replacing an earlier value of that key.
    pub fn insert(&mut self, key: String, value: String)
        requires
            old(self).wf(),
        ensures
            final(self).wf(),
            forall|k: Seq<char>|
                lookup(final(self).view(), k) == if k == key@ {
                    Some(value@)
                } else {
                    lookup(old(self).view(), k)
                },
    {
        let ghost s = self.view();
        let mut i: usize = 0;
        while i < self.entries.len() && str_lt(self.entries[i].0.as_str(), key.as_str())
            invariant
                s == self.view(),
                sorted_keys(s),
                0 <= i <= self.entries.len(),
                forall|j: int| 0 <= j < i ==> key_lt(#[trigger] s[j].0, key@),
            decreases self.entries.len() - i,
        {
            i += 1;
        }
        proof {
            lemma_sorted_unique(s);
        }
        if i < self.entries.len() && self.entries[i].0 == key {
            assert(s[i as int] == pair_view(self.entries@[i as int]));
            self.entries.set(i, (key, value));
            let ghost t = self.view();
            assert(t =~= s.update(i as int, (key@, value@)));
            assert forall|j: int| 0 <= j < t.len() implies t[j].0 == s[j].0 by {}
            assert(sorted_keys(t));
            proof {
                lemma_sorted_unique(t);
                assert forall|k: Seq<char>|
                    lookup(t, k) == if k == key@ {
                        Some(value@)
                    } else {
                        lookup(s, k)
                    } by {
                    lemma_lookup_index(s, k);
                    lemma_lookup_index(t, k);
                    if k != key@ && lookup(s, k) is Some {
                        let j = choose|j: int| 0 <= j < s.len() && s[j].0 == k;
                        assert(t[j] == s[j]);
                    }
                }
            }
        } else {
            proof {
                if i < s.len() {
                    lemma_key_lt_total(s[i as int].0, key@);
                }
                assert forall|j: int| i <= j < s.len() implies key_lt(key@, #[trigger] s[j].0) by {
                    lemma_key_lt_transitive(key@, s[i as int].0, s[j].0);
                }
            }
            self.entries.insert(i, (key, value));
            let ghost t = self.view();
            assert(t =~= s.insert(i as int, (key@, value@)));
            assert(sorted_keys(t)) by {
                assert forall|a: int, b: int| 0 <= a < b < t.len() implies key_lt(t[a].0, t[b].0) by {
                    if a < i && b > i {
                        lemma_key_lt_transitive(t[a].0, key@, t[b].0);
                    }
                }
            }
            proof {
                lemma_sorted_unique(t);
                assert forall|k: Seq<char>|
                    lookup(t, k) == if k == key@ {
                        Some(value@)
                    } else {
                        lookup(s, k)
                    } by {
                    lemma_lookup_index(s, k);
                    lemma_lookup_index(t, k);
                    assert(t[i as int].0 == key@);
                    if k != key@ && lookup(s, k) is Some {
                        let j = choose|j: int| 0 <= j < s.len() && s[j].0 == k;
                        if j < i {
                            assert(t[j] == s[j]);
                        } else {
                            assert(t[j + 1] == s[j]);
                        }
                    }
                    if k != key@ && lookup(t, k) is Some {
                        let j = choose|j: int| 0 <= j < t.len() && t[j].0 == k;
                        if j < i {
                            assert(t[j] == s[j]);
                        } else if j > i {
                            assert(t[j] == s[j - 1]);
                        }
                    }
                }
            }
        }
    }
}

impl Features {
    /// The feature map as text: `_` when empty, else `key=value` entries joined by `|`.
    pub fn render(&self) -> (r: String)
        requires
            self.wf(),
        ensures
            r@ == render_features(self.view()),
    {
        if self.entries.len() == 0 {
            proof {
                reveal_strlit("_");
            }
            return String::from_str("_");
        }
        let ghost s = self.view();
        let mut r = String::new();
        let mut i: usize = 0;
        while i < self.entries.len()
            invariant
                s == self.view(),
                0 <= i <= self.entries.len(),
                r@ == join_entries(s.take(i as int)),
            decreases self.entries.len() - i,
        {
            proof {
                reveal_strlit("|");
                reveal_strlit("=");
            }
            if i > 0 {
                r.append("|");
            }
            r.append(self.entries[i].0.as_str());
            r.append("=");
            r.append(self.entries[i].1.as_str());
            let ghost n = s.take(i + 1);
            assert(n.drop_last() =~= s.take(i as int));
            assert(n.last() == s[i as int]);
            assert(s[i as int] == pair_view(self.entries@[i as int]));
            if i == 0 {
                assert(n.len() == 1);
                assert(r@ =~= entry_text(n[0]));
            } else {
                assert(r@ =~= join_entries(n.drop_last()) + seq!['|'] + entry_text(n.last()));
            }
            i += 1;
        }
        assert(s.take(i as int) =~= s);
        r
    }

    /// Read a feature map from its text: `_` is the empty map, else `key=value`
    /// pieces joined by `|`, where a later key overrides an earlier one.
    pub fn parse(text: &str) -> (r: Result<Features, FeatureError>)
        ensures
            r is Ok <==> features_text_ok(text@),
            r matches Ok(f) ==> f.wf() && f.view() == parsed_features(text@),
    {
        let mut f = Features::new();
        proof {
            reveal_strlit("_");
        }
        let owned = text.to_owned();
        let marker = String::from_str("_");
        assert(marker@ == seq!['_']);
        let is_marker = owned == marker;
        if is_marker {
            assert(text@ =~= seq!['_']);
            proof {
                lemma_parsed_features(text@, f.view());
            }
            return Ok(f);
        }
        assert(text@ != seq!['_']);
        let pieces = split_pieces(text, '|');
        let ghost ps = split_spec(text@, '|');
        let ghost pairs = piece_pairs(ps);
        assert(pieces@.map_values(|p: String| p@) == ps);
        let mut i: usize = 0;
        while i < pieces.len()
            invariant
                pieces@.map_values(|p: String| p@) == ps,
                pairs == piece_pairs(ps),
                ps == split_spec(text@, '|'),
                text@ != seq!['_'],
                0 <= i <= pieces.len(),
                f.wf(),
                forall|j: int| 0 <= j < i ==> (#[trigger] split_first(ps[j], '=')) is Some,
                forall|k: Seq<char>| lookup(f.view(), k) == lookup(pairs.take(i as int), k),
            decreases pieces.len() - i,
        {
            assert(ps[i as int] == pieces@[i as int]@);
            match split_once_at(pieces[i].as_str(), '=') {
                None => {
                    assert(split_first(ps[i as int], '=') is None);
                    assert(!pieces_ok(ps));
                    return Err(FeatureError::MissingSeparator);
                },
                Some((k, v)) => {
                    f.insert(k, v);
                    assert(pairs.take(i + 1).drop_last() =~= pairs.take(i as int));
                    assert(pairs[i as int] == (k@, v@));
                    assert forall|key: Seq<char>|
                        lookup(f.view(), key) == lookup(pairs.take(i + 1), key) by {}
                },
            }
            i += 1;
        }
        assert(pairs.take(i as int) =~= pairs);
        proof {
            lemma_parsed_features(text@, f.view());
        }
        Ok(f)
    }
}

pub open spec fn opt_view(o: Option<String>) -> Option<Seq<char>> {
    match o {
        Some(v) => Some(v@),
        None => None,
    }
}

pub open spec fn misc_entry_view(e: (String, Option<String>)) -> (Seq<char>, Option<Seq<char>>) {
    (e.0@, opt_view(e.1))
}

/// The entry that a piece of a miscellaneous text stands for: `key=value`, or a bare key.
pub open spec fn misc_piece(p: Seq<char>) -> (Seq<char>, Option<Seq<char>>) {
    match split_first(p, '=') {
        Some((k, v)) => (k, Some(v)),
        None => (p, None),
    }
}

/// The entries that a miscellaneous text lists; a later key overrides an earlier one.
pub open spec fn misc_text_pairs(s: Seq<char>) -> Seq<(Seq<char>, Option<Seq<char>>)> {
    if s == seq!['_'] {
        Seq::empty()
    } else {
        split_spec(s, '|').map_values(|p: Seq<char>| misc_piece(p))
    }
}

/// Miscellaneous annotations: keys, each with a value or none (a flag).
pub struct Misc {
    pub entries: Vec<(String, Option<String>)>,
}

impl Misc {
    pub open spec fn view(&self) -> Seq<(Seq<char>, Option<Seq<char>>)> {
        self.entries@.map_values(|e: (String, Option<String>)| misc_entry_view(e))
    }

    pub open spec fn wf(&self) -> bool {
        unique_keys(self.view())
    }

    /// An empty map.
    pub fn new() -> (r: Self)
        ensures
            r.wf(),
            forall|k: Seq<char>| lookup(r.view(), k) is None,
    {
        let r = Misc { entries: Vec::new() };
        assert(r.view() =~= Seq::<(Seq<char>, Option<Seq<char>>)>::empty());
        r
    }

    /// The position of `key`, if present.
    fn find(&self, key: &String) -> (r: Option<usize>)
        requires
            self.wf(),
        ensures
            match r {
                Some(i) => i < self.view().len() && self.view()[i as int].0 == key@,
                None => forall|j: int| 0 <= j < self.view().len() ==> self.view()[j].0 != key@,
            },
    {
        let mut i: usize = 0;
        while i < self.entries.len()
            invariant
                0 <= i <= self.entries.len(),
                forall|j: int| 0 <= j < i ==> self.view()[j].0 != key@,
            decreases self.entries.len() - i,
        {
            assert(self.view()[i as int] == misc_entry_view(self.entries@[i as int]));
            if self.entries[i].0 == *key {
                return Some(i);
            }
            i += 1;
        }
        None
    }

    /// The entry of `key`: `None` when absent, `Some(None)` for a flag.
    pub fn get(&self, key: &str) -> (r: Option<Option<String>>)
        requires
            self.wf(),
        ensures
            match r {
                Some(v) => lookup(self.view(), key@) == Some(opt_view(v)),
                None => lookup(self.view(), key@) is None,
            },
    {
        proof {
            lemma_lookup_index(self.view(), key@);
        }
        match self.find(&key.to_owned()) {
            Some(i) => {
                assert(self.view()[i as int] == misc_entry_view(self.entries@[i as int]));
                Some(self.entries[i].1.clone())
            },
            None => None,
        }
    }

    /// Insert `key` with `value`, replacing an earlier entry of that key.
    pub fn insert(&mut self, key: String, value: Option<String>)
        requires
            old(self).wf(),
        ensures
            final(self).wf(),
            forall|k: Seq<char>|
                lookup(final(self).view(), k) == if k == key@ {
                    Some(opt_view(value))
                } else {
                    lookup(old(self).view(), k)
                },
    {
        let ghost s = self.view();
        let ghost e = misc_entry_view((key, value));
        match self.find(&key) {
            Some(i) => {
                self.entries.set(i, (key, value));
                let ghost t = self.view();
                assert(t =~= s.update(i as int, e));
                assert(unique_keys(t));
                assert forall|k: Seq<char>|
                    lookup(t, k) == if k == key@ {
                        Some(opt_view(value))
                    } else {
                        lookup(s, k)
                    } by {
                    lemma_lookup_index(s, k);
                    lemma_lookup_index(t, k);
                    if lookup(s, k) is Some {
                        let j = choose|j: int| 0 <= j < s.len() && s[j].0 == k;
                        assert(t[j].0 == k);
                    }
                    if k != key@ && lookup(t, k) is Some {
                        let j = choose|j: int| 0 <= j < t.len() && t[j].0 == k;
                        assert(s[j].0 == k);
                    }
                }
            },
            None => {
                self.entries.push((key, value));
                let ghost t = self.view();
                assert(t =~= s.push(e));
                assert(unique_keys(t));
                assert forall|k: Seq<char>|
                    lookup(t, k) == if k == key@ {
                        Some(opt_view(value))
                    } else {
                        lookup(s, k)
                    } by {
                    assert(t.drop_last() =~= s);
                }
            },
        }
    }

    /// Read miscellaneous annotations from text: `_` is the empty map, else pieces
    /// joined by `|`, each `key=value` or a bare key; a later key overrides an earlier one.
    pub fn parse(text: &str) -> (r: Misc)
        ensures
            r.wf(),
            forall|k: Seq<char>| lookup(r.view(), k) == lookup(misc_text_pairs(text@), k),
    {
        let mut m = Misc::new();
        let owned = text.to_owned();
        let marker = String::from_str("_");
        proof {
            reveal_strlit("_");
        }
        assert(marker@ == seq!['_']);
        if owned == marker {
            assert(text@ =~= seq!['_']);
            return m;
        }
        let pieces = split_pieces(text, '|');
        let ghost pairs = misc_text_pairs(text@);
        let ghost ps = split_spec(text@, '|');
        assert(pieces@.map_values(|p: String| p@) == ps);
        let mut i: usize = 0;
        while i < pieces.len()
            invariant
                pieces@.map_values(|p: String| p@) == ps,
                pairs == ps.map_values(|p: Seq<char>| misc_piece(p)),
                0 <= i <= pieces.len(),
                m.wf(),
                forall|k: Seq<char>| lookup(m.view(), k) == lookup(pairs.take(i as int), k),
            decreases pieces.len() - i,
        {
            assert(ps[i as int] == pieces@[i as int]@);
            assert(pairs.take(i + 1).drop_last() =~= pairs.take(i as int));
            match split_once_at(pieces[i].as_str(), '=') {
                None => {
                    m.insert(pieces[i].clone(), None);
                },
                Some((k, v)) => {
                    m.insert(k, Some(v));
                },
            }
            i += 1;
        }
        assert(pairs.take(i as int) =~= pairs);
        m
    }
}

/// What `layer` reads from a token.
pub open spec fn token_value(t: Token, layer: Layer) -> Option<Seq<char>> {
    match layer {
        Layer::UPos => opt_view(t.upos),
        Layer::XPos => opt_view(t.xpos),
        Layer::FeatureString => Some(render_features(t.features.view())),
        Layer::Feature { feature, default } => match lookup(t.features.view(), feature@) {
            Some(v) => Some(v),
            None => opt_view(default),
        },
        Layer::Misc { feature, default } => match lookup(t.misc.view(), feature@) {
            Some(Some(v)) => Some(v),
            Some(None) => None,
            None => opt_view(default),
        },
    }
}

/// What the feature-string layer reads after `value` was written to it, or `None`
/// where `value` is not the text of a feature map.
pub open spec fn feature_string_after(value: Seq<char>) -> Option<Seq<char>> {
    if features_text_ok(value) {
        Some(render_features(parsed_features(value)))
    } else {
        None
    }
}

/// `after` is `before` with `value` written to the slot that `layer` names: that
/// slot holds the value (for the feature string, the map that it denotes), and
/// every other slot, and every other key of the written map, is kept.
pub open spec fn token_written(before: Token, after: Token, layer: Layer, value: Seq<char>) -> bool {
    &&& after.form == before.form
    &&& after.lemma == before.lemma
    &&& after.wf()
    &&& match layer {
        Layer::UPos => {
            &&& opt_view(after.upos) == Some(value)
            &&& after.xpos == before.xpos
            &&& after.features == before.features
            &&& after.misc == before.misc
        },
        Layer::XPos => {
            &&& opt_view(after.xpos) == Some(value)
            &&& after.upos == before.upos
            &&& after.features == before.features
            &&& after.misc == before.misc
        },
        Layer::Feature { feature, .. } => {
            &&& forall|k: Seq<char>|
                #[trigger] lookup(after.features.view(), k) == if k == feature@ {
                    Some(value)
                } else {
                    lookup(before.features.view(), k)
                }
            &&& after.upos == before.upos
            &&& after.xpos == before.xpos
            &&& after.misc == before.misc
        },
        Layer::FeatureString => {
            &&& after.features.view() == parsed_features(value)
            &&& after.upos == before.upos
            &&& after.xpos == before.xpos
            &&& after.misc == before.misc
        },
        Layer::Misc { feature, .. } => {
            &&& forall|k: Seq<char>|
                #[trigger] lookup(after.misc.view(), k) == if k == feature@ {
                    Some(Some(value))
                } else {
                    lookup(before.misc.view(), k)
                }
            &&& after.upos == before.upos
            &&& after.xpos == before.xpos
            &&& after.features == before.features
        },
    }
}

/// A token: its form and its annotation slots.
pub struct Token {
    pub form: String,
    pub lemma: Option<String>,
    pub upos: Option<String>,
    pub xpos: Option<String>,
    pub features: Features,
    pub misc: Misc,
}

impl Token {
    pub open spec fn wf(&self) -> bool {
        self.features.wf() && self.misc.wf()
    }

    /// A token with the given form and no annotations.
    pub fn new(form: &str) -> (r: Token)
        ensures
            r.wf(),
            r.form@ == form@,
            r.lemma is None,
            r.upos is None,
            r.xpos is None,
            r.features.view().len() == 0,
            forall|k: Seq<char>| lookup(r.misc.view(), k) is None,
    {
        Token {
            form: form.to_owned(),
            lemma: None,
            upos: None,
            xpos: None,
            features: Features::new(),
            misc: Misc::new(),
        }
    }

    /// Read the slot that `layer` names.
    pub fn value(&self, layer: &Layer) -> (r: Option<String>)
        requires
            self.wf(),
        ensures
            opt_view(r) == token_value(*self, *layer),
    {
        match layer {
            Layer::UPos => self.upos.clone(),
            Layer::XPos => self.xpos.clone(),
            Layer::FeatureString => Some(self.features.render()),
            Layer::Feature { feature, default } => match self.features.get(feature.as_str()) {
                Some(v) => Some(v),
                None => default.clone(),
            },
            Layer::Misc { feature, default } => match self.misc.get(feature.as_str()) {
                Some(Some(v)) => Some(v),
                Some(None) => None,
                None => default.clone(),
            },
        }
    }

    /// Write `value` into the slot that `layer` names. For the feature-string layer
    /// `value` is read as a feature map, which fails where it is not one.
    pub fn set_value(&mut self, layer: &Layer, value: &str) -> (r: Result<(), FeatureError>)
        requires
            old(self).wf(),
        ensures
            final(self).wf(),
            final(self).form == old(self).form,
            final(self).lemma == old(self).lemma,
            r is Ok <==> (layer is FeatureString ==> features_text_ok(value@)),
            r is Err ==> *final(self) == *old(self),
            r is Ok ==> token_written(*old(self), *final(self), *layer, value@),
            r is Ok ==> token_value(*final(self), *layer) == match *layer {
                Layer::FeatureString => feature_string_after(value@),
                _ => Some(value@),
            },
    {
        match layer {
            Layer::UPos => {
                self.upos = Some(value.to_owned());
            },
            Layer::XPos => {
                self.xpos = Some(value.to_owned());
            },
            Layer::Feature { feature, .. } => {
                self.features.insert(feature.clone(), value.to_owned());
            },
            Layer::FeatureString => {
                match Features::parse(value) {
                    Ok(f) => {
                        self.features = f;
                    },
                    Err(e) => {
                        return Err(e);
                    },
                }
            },
            Layer::Misc { feature, .. } => {
                self.misc.insert(feature.clone(), Some(value.to_owned()));
            },
        }
        Ok(())
    }

    /// Set the universal part-of-speech tag.
    pub fn set_upos(&mut self, upos: Option<String>)
        ensures
            *final(self) == (Token { upos, ..*old(self) }),
    {
        self.upos = upos;
    }

    /// Set the language-specific part-of-speech tag.
    pub fn set_xpos(&mut self, xpos: Option<String>)
        ensures
            *final(self) == (Token { xpos, ..*old(self) }),
    {
        self.xpos = xpos;
    }

    /// Replace the feature map.
    pub fn set_features(&mut self, features: Features)
        ensures
            *final(self) == (Token { features, ..*old(self) }),
    {
        self.features = features;
    }

    /// Replace the miscellaneous annotations.
    pub fn set_misc(&mut self, misc: Misc)
        ensures
            *final(self) == (Token { misc, ..*old(self) }),
    {
        self.misc = misc;
    }
}

/// What a token reads after a write: the written slot reads the value under any
/// default, and a layer that the write does not touch reads as before.
pub proof fn lemma_token_written_values(before: Token, after: Token, layer: Layer, value: Seq<char>)
    requires
        before.wf(),
        token_written(before, after, layer, value),
        layer is FeatureString ==> features_text_ok(value),
    ensures
        forall|l: Layer|
            same_slot(layer, l) ==> #[trigger] token_value(after, l) == match layer {
                Layer::FeatureString => feature_string_after(value),
                _ => Some(value),
            },
        forall|l: Layer| !touches(layer, l) ==> #[trigger] token_value(after, l) == token_value(before, l),
{
    assert forall|l: Layer| !touches(layer, l) implies #[trigger] token_value(after, l) == token_value(before, l) by {
        match (layer, l) {
            (Layer::Feature { feature: f, .. }, Layer::Feature { feature: g, .. }) => {
                assert(lookup(after.features.view(), g@) == lookup(before.features.view(), g@));
            },
            (Layer::Misc { feature: f, .. }, Layer::Misc { feature: g, .. }) => {
                assert(lookup(after.misc.view(), g@) == lookup(before.misc.view(), g@));
            },
            _ => {},
        }
    }
    assert forall|l: Layer|
        same_slot(layer, l) implies #[trigger] token_value(after, l) == match layer {
            Layer::FeatureString => feature_string_after(value),
            _ => Some(value),
        } by {
        match (layer, l) {
            (Layer::Feature { feature: f, .. }, Layer::Feature { feature: g, .. }) => {
                assert(lookup(after.features.view(), g@) == Some(value));
            },
            (Layer::Misc { feature: f, .. }, Layer::Misc { feature: g, .. }) => {
                assert(lookup(after.misc.view(), g@) == Some(Some(value)));
            },
            _ => {},
        }
    }
}

/// Tokens `a` and `b` hold the same tags, feature map and miscellaneous entries.
pub open spec fn reads_alike(a: Token, b: Token) -> bool {
    &&& opt_view(a.upos) == opt_view(b.upos)
    &&& opt_view(a.xpos) == opt_view(b.xpos)
    &&& a.features.view() == b.features.view()
    &&& forall|k: Seq<char>| #[trigger] lookup(a.misc.view(), k) == lookup(b.misc.view(), k)
}

/// Tokens that hold the same annotations read the same on every layer.
pub proof fn lemma_reads_alike_values(a: Token, b: Token)
    requires
        reads_alike(a, b),
    ensures
        forall|l: Layer| #[trigger] token_value(a, l) == token_value(b, l),
{
    assert forall|l: Layer| #[trigger] token_value(a, l) == token_value(b, l) by {
        match l {
            Layer::Misc { feature, .. } => {
                assert(lookup(a.misc.view(), feature@) == lookup(b.misc.view(), feature@));
            },
            _ => {},
        }
    }
}

/// A write is determined by the token that it starts from: the same write to
/// tokens that hold the same annotations gives tokens that hold the same annotations.
pub proof fn lemma_write_determined(
    b1: Token,
    a1: Token,
    b2: Token,
    a2: Token,
    layer: Layer,
    value: Seq<char>,
)
    requires
        b1.wf(),
        b2.wf(),
        reads_alike(b1, b2),
        token_written(b1, a1, layer, value),
        token_written(b2, a2, layer, value),
    ensures
        reads_alike(a1, a2),
{
    match layer {
        Layer::Feature { feature, .. } => {
            assert forall|k: Seq<char>| lookup(a1.features.view(), k) == lookup(a2.features.view(), k) by {
                assert(lookup(a1.features.view(), k) == if k == feature@ {
                    Some(value)
                } else {
                    lookup(b1.features.view(), k)
                });
                assert(lookup(a2.features.view(), k) == if k == feature@ {
                    Some(value)
                } else {
                    lookup(b2.features.view(), k)
                });
            }
            lemma_sorted_lookup_eq(a1.features.view(), a2.features.view());
        },
        Layer::Misc { feature, .. } => {
            assert forall|k: Seq<char>| #[trigger] lookup(a1.misc.view(), k) == lookup(a2.misc.view(), k) by {
                assert(lookup(a1.misc.view(), k) == if k == feature@ {
                    Some(Some(value))
                } else {
                    lookup(b1.misc.view(), k)
                });
                assert(lookup(a2.misc.view(), k) == if k == feature@ {
                    Some(Some(value))
                } else {
                    lookup(b2.misc.view(), k)
                });
                assert(lookup(b1.misc.view(), k) == lookup(b2.misc.view(), k));
            }
        },
        _ => {
            assert forall|k: Seq<char>| #[trigger] lookup(a1.misc.view(), k) == lookup(a2.misc.view(), k) by {
                assert(lookup(b1.misc.view(), k) == lookup(b2.misc.view(), k));
            }
        },
    }
}

/// Writing a value that was just written changes nothing that a token holds.
pub proof fn lemma_write_idempotent(b: Token, a: Token, a2: Token, layer: Layer, value: Seq<char>)
    requires
        b.wf(),
        token_written(b, a, layer, value),
        token_written(a, a2, layer, value),
    ensures
        reads_alike(a, a2),
{
    match layer {
        Layer::Feature { feature, .. } => {
            assert forall|k: Seq<char>| lookup(a.features.view(), k) == lookup(a2.features.view(), k) by {
                assert(lookup(a2.features.view(), k) == if k == feature@ {
                    Some(value)
                } else {
                    lookup(a.features.view(), k)
                });
                assert(lookup(a.features.view(), k) == if k == feature@ {
                    Some(value)
                } else {
                    lookup(b.features.view(), k)
                });
            }
            lemma_sorted_lookup_eq(a.features.view(), a2.features.view());
        },
        Layer::Misc { feature, .. } => {
            assert forall|k: Seq<char>| #[trigger] lookup(a.misc.view(), k) == lookup(a2.misc.view(), k) by {
                assert(lookup(a2.misc.view(), k) == if k == feature@ {
                    Some(Some(value))
                } else {
                    lookup(a.misc.view(), k)
                });
                assert(lookup(a.misc.view(), k) == if k == feature@ {
                    Some(Some(value))
                } else {
                    lookup(b.misc.view(), k)
                });
            }
        },
        _ => {},
    }
}

} // verus!
