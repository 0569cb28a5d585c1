use vstd::prelude::*;

use crate::token::{
    entry_text, feature_string_after, features_text_ok, features_text_pairs, join_entries,
    lemma_key_lt_asymmetric, lemma_key_lt_total, lemma_key_lt_transitive, lemma_lookup_index,
    lemma_parsed_features, lemma_sorted_unique, key_lt, lookup, parsed_features, pieces_ok,
    render_features, sorted_keys, split_first, split_spec,
};

verus! {

/// `s` does not hold `c`.
pub open spec fn free_of(s: Seq<char>, c: char) -> bool {
    forall|i: int| 0 <= i < s.len() ==> s[i] != c
}

proof fn lemma_split_single(b: Seq<char>, sep: char)
    requires
        free_of(b, sep),
    ensures
        split_spec(b, sep) == seq![b],
    decreases b.len(),
{
    if b.len() == 0 {
        assert(b =~= Seq::<char>::empty());
        assert(split_spec(b, sep) =~= seq![b]);
    } else {
        assert(free_of(b.drop_last(), sep));
        lemma_split_single(b.drop_last(), sep);
        assert(b.last() != sep);
        assert(b.drop_last().push(b.last()) =~= b);
        let rest = split_spec(b.drop_last(), sep);
        assert(split_spec(b, sep) == rest.update(rest.len() - 1, rest.last().push(b.last())));
        assert(rest.update(0, b) =~= seq![b]);
    }
}

proof fn lemma_split_append(a: Seq<char>, b: Seq<char>, sep: char)
    requires
        free_of(b, sep),
    ensures
        split_spec(a + seq![sep] + b, sep) == split_spec(a, sep).push(b),
    decreases b.len(),
{
    let s = a + seq![sep] + b;
    if b.len() == 0 {
        assert(b =~= Seq::<char>::empty());
        assert(s.drop_last() =~= a);
        assert(s.last() == sep);
        assert(split_spec(s, sep) =~= split_spec(a, sep).push(b));
    } else {
        assert(free_of(b.drop_last(), sep));
        lemma_split_append(a, b.drop_last(), sep);
        assert(s.drop_last() =~= a + seq![sep] + b.drop_last());
        assert(s.last() == b.last());
        assert(b.last() != sep);
        assert(b.drop_last().push(b.last()) =~= b);
        let rest = split_spec(s.drop_last(), sep);
        assert(split_spec(s, sep) == rest.update(rest.len() - 1, rest.last().push(b.last())));
        assert(rest.update(rest.len() - 1, b) =~= split_spec(a, sep).push(b));
    }
}

proof fn lemma_split_first_entry(k: Seq<char>, v: Seq<char>)
    requires
        free_of(k, '='),
    ensures
        split_first(k + seq!['='] + v, '=') == Some((k, v)),
    decreases k.len(),
{
    let s = k + seq!['='] + v;
    if k.len() == 0 {
        assert(s.drop_first() =~= v);
    } else {
        lemma_split_first_entry(k.drop_first(), v);
        assert(s.drop_first() =~= k.drop_first() + seq!['='] + v);
        assert(seq![k[0]] + k.drop_first() =~= k);
    }
}

/// Keys and values of the map are free of `|`, and keys free of `=`.
pub open spec fn plain_entries(t: Seq<(Seq<char>, Seq<char>)>) -> bool {
    forall|i: int|
        0 <= i < t.len() ==> free_of(#[trigger] t[i].0, '=') && free_of(t[i].0, '|') && free_of(t[i].1, '|')
}

proof fn lemma_join_split(t: Seq<(Seq<char>, Seq<char>)>)
    requires
        t.len() > 0,
        plain_entries(t),
    ensures
        split_spec(join_entries(t), '|') == t.map_values(|e: (Seq<char>, Seq<char>)| entry_text(e)),
    decreases t.len(),
{
    let e = t.last();
    assert(free_of(e.0, '|') && free_of(e.1, '|'));
    assert(free_of(entry_text(e), '|')) by {
        assert forall|i: int| 0 <= i < entry_text(e).len() implies entry_text(e)[i] != '|' by {
            if i < e.0.len() {
                assert(entry_text(e)[i] == e.0[i]);
            } else if i > e.0.len() {
                assert(entry_text(e)[i] == e.1[i - e.0.len() - 1]);
            }
        }
    }
    if t.len() == 1 {
        lemma_split_single(entry_text(e), '|');
        assert(seq![entry_text(e)] =~= t.map_values(|e: (Seq<char>, Seq<char>)| entry_text(e)));
    } else {
        let r = t.drop_last();
        assert(plain_entries(r)) by {
            assert forall|i: int| 0 <= i < r.len() implies free_of(#[trigger] r[i].0, '=') && free_of(r[i].0, '|')
                && free_of(r[i].1, '|') by {
                assert(r[i] == t[i]);
            }
        }
        lemma_join_split(r);
        lemma_split_append(join_entries(r), entry_text(e), '|');
        assert(t.map_values(|e: (Seq<char>, Seq<char>)| entry_text(e)) =~= r.map_values(
            |e: (Seq<char>, Seq<char>)| entry_text(e),
        ).push(entry_text(e)));
    }
}

/// Reading the text of a feature map gives the map back, where its keys hold no
/// `|` or `=` and its values no `|`. So the feature-string layer reads back what
/// was written whenever what was written is what it read.
pub proof fn lemma_feature_text_round_trip(t: Seq<(Seq<char>, Seq<char>)>)
    requires
        sorted_keys(t),
        plain_entries(t),
    ensures
        features_text_ok(render_features(t)),
        parsed_features(render_features(t)) == t,
        feature_string_after(render_features(t)) == Some(render_features(t)),
{
    let w = render_features(t);
    if t.len() == 0 {
        assert(w == seq!['_']);
        assert(features_text_pairs(w) =~= Seq::<(Seq<char>, Seq<char>)>::empty());
        lemma_parsed_features(w, t);
    } else {
        lemma_join_split(t);
        let ps = split_spec(w, '|');
        assert forall|i: int| 0 <= i < ps.len() implies split_first(#[trigger] ps[i], '=') == Some(t[i]) by {
            assert(ps[i] == entry_text(t[i]));
            lemma_split_first_entry(t[i].0, t[i].1);
        }
        if w == seq!['_'] {
            assert(ps[0] == entry_text(t[0]));
            assert(ps =~= seq![seq!['_']]);
            assert(entry_text(t[0])[t[0].0.len() as int] == '=');
        }
        assert(pieces_ok(ps));
        assert(features_text_pairs(w) =~= t);
        lemma_parsed_features(w, t);
    }
}

/// The empty feature map reads as `_`, and `_` reads as the empty feature map.
pub proof fn lemma_empty_features()
    ensures
        render_features(Seq::empty()) == seq!['_'],
        features_text_ok(seq!['_']),
        parsed_features(seq!['_']) == Seq::<(Seq<char>, Seq<char>)>::empty(),
{
    lemma_feature_text_round_trip(Seq::empty());
}

/// `t` with `(k, v)` put in key order, replacing an entry of key `k`.
pub open spec fn sorted_insert(t: Seq<(Seq<char>, Seq<char>)>, k: Seq<char>, v: Seq<char>) -> Seq<(Seq<char>, Seq<char>)>
    decreases t.len(),
{
    if t.len() == 0 {
        seq![(k, v)]
    } else if key_lt(t.last().0, k) {
        t.push((k, v))
    } else if t.last().0 == k {
        t.drop_last().push((k, v))
    } else {
        sorted_insert(t.drop_last(), k, v).push(t.last())
    }
}

proof fn lemma_sorted_insert(t: Seq<(Seq<char>, Seq<char>)>, k: Seq<char>, v: Seq<char>)
    requires
        sorted_keys(t),
    ensures
        sorted_keys(sorted_insert(t, k, v)),
        forall|q: Seq<char>|
            lookup(sorted_insert(t, k, v), q) == if q == k {
                Some(v)
            } else {
                lookup(t, q)
            },
        forall|i: int|
            0 <= i < sorted_insert(t, k, v).len() ==> (#[trigger] sorted_insert(t, k, v)[i]).0 == k || exists|j: int|
                0 <= j < t.len() && t[j].0 == sorted_insert(t, k, v)[i].0,
    decreases t.len(),
{
    let r = sorted_insert(t, k, v);
    if t.len() == 0 {
        assert(r.drop_last() =~= t);
    } else if key_lt(t.last().0, k) {
        assert forall|a: int, b: int| 0 <= a < b < r.len() implies key_lt(r[a].0, r[b].0) by {
            if b == r.len() - 1 && a < t.len() - 1 {
                lemma_key_lt_transitive(r[a].0, t.last().0, k);
            }
        }
        assert forall|i: int| 0 <= i < r.len() && r[i].0 != k implies exists|j: int|
            0 <= j < t.len() && t[j].0 == r[i].0 by {
            assert(t[i].0 == r[i].0);
        }
        assert forall|q: Seq<char>| lookup(r, q) == if q == k { Some(v) } else { lookup(t, q) } by {
            assert(r.drop_last() =~= t);
        }
    } else if t.last().0 == k {
        assert forall|a: int, b: int| 0 <= a < b < r.len() implies key_lt(r[a].0, r[b].0) by {
            assert(r[a].0 == t[a].0 && r[b].0 == t[b].0);
        }
        assert forall|i: int| 0 <= i < r.len() && r[i].0 != k implies exists|j: int|
            0 <= j < t.len() && t[j].0 == r[i].0 by {
            assert(t[i].0 == r[i].0);
        }
        assert forall|q: Seq<char>| lookup(r, q) == if q == k { Some(v) } else { lookup(t, q) } by {
            assert(r.drop_last() =~= t.drop_last());
        }
    } else {
        let t2 = t.drop_last();
        let e = t.last();
        assert(sorted_keys(t2));
        lemma_sorted_insert(t2, k, v);
        let r2 = sorted_insert(t2, k, v);
        assert(r.drop_last() =~= r2);
        lemma_key_lt_total(e.0, k);
        assert forall|i: int| 0 <= i < r2.len() implies key_lt(#[trigger] r2[i].0, e.0) by {
            if r2[i].0 != k {
                let j = choose|j: int| 0 <= j < t2.len() && t2[j].0 == r2[i].0;
                assert(t[j] == t2[j]);
            }
        }
        assert forall|a: int, b: int| 0 <= a < b < r.len() implies key_lt(r[a].0, r[b].0) by {
            if b == r.len() - 1 {
                assert(r[a] == r2[a]);
            } else {
                assert(r[a] == r2[a] && r[b] == r2[b]);
            }
        }
        assert forall|i: int| 0 <= i < r.len() && r[i].0 != k implies exists|j: int|
            0 <= j < t.len() && t[j].0 == r[i].0 by {
            if i == r.len() - 1 {
                assert(t[t.len() - 1].0 == r[i].0);
            } else {
                assert(r[i] == r2[i]);
                let j = choose|j: int| 0 <= j < t2.len() && t2[j].0 == r2[i].0;
                assert(t[j] == t2[j]);
            }
        }
        lemma_key_lt_asymmetric(k, e.0);
        assert(key_lt(k, e.0));
        assert(r.last() == e);
        assert forall|q: Seq<char>| lookup(r, q) == if q == k { Some(v) } else { lookup(t, q) } by {
            assert(lookup(r, q) == if e.0 == q { Some(e.1) } else { lookup(r2, q) });
            assert(lookup(t, q) == if e.0 == q { Some(e.1) } else { lookup(t2, q) });
        }
    }
}

/// The sorted map that holds what a sequence of pairs holds, a later key winning.
pub open spec fn sorted_of(s: Seq<(Seq<char>, Seq<char>)>) -> Seq<(Seq<char>, Seq<char>)>
    decreases s.len(),
{
    if s.len() == 0 {
        Seq::empty()
    } else {
        sorted_insert(sorted_of(s.drop_last()), s.last().0, s.last().1)
    }
}

proof fn lemma_sorted_of(s: Seq<(Seq<char>, Seq<char>)>)
    ensures
        sorted_keys(sorted_of(s)),
        forall|q: Seq<char>| lookup(sorted_of(s), q) == lookup(s, q),
    decreases s.len(),
{
    if s.len() > 0 {
        let s2 = s.drop_last();
        lemma_sorted_of(s2);
        lemma_sorted_insert(sorted_of(s2), s.last().0, s.last().1);
        assert(sorted_of(s) == sorted_insert(sorted_of(s2), s.last().0, s.last().1));
        assert forall|q: Seq<char>| lookup(sorted_of(s), q) == lookup(s, q) by {
            assert(lookup(s, q) == if s.last().0 == q { Some(s.last().1) } else { lookup(s2, q) });
        }
    }
}

proof fn lemma_split_pieces_free(s: Seq<char>, sep: char)
    ensures
        split_spec(s, sep).len() >= 1,
        forall|i: int| 0 <= i < split_spec(s, sep).len() ==> free_of(#[trigger] split_spec(s, sep)[i], sep),
    decreases s.len(),
{
    if s.len() > 0 {
        lemma_split_pieces_free(s.drop_last(), sep);
        let rest = split_spec(s.drop_last(), sep);
        let r = split_spec(s, sep);
        if s.last() != sep {
            let p = rest.last();
            assert(free_of(p, sep));
            assert forall|i: int| 0 <= i < p.len() + 1 implies p.push(s.last())[i] != sep by {
                if i < p.len() {
                    assert(p.push(s.last())[i] == p[i]);
                }
            }
            assert forall|i: int| 0 <= i < r.len() implies free_of(#[trigger] r[i], sep) by {
                if i < rest.len() - 1 {
                    assert(r[i] == rest[i]);
                }
            }
        } else {
            assert forall|i: int| 0 <= i < r.len() implies free_of(#[trigger] r[i], sep) by {
                if i < rest.len() {
                    assert(r[i] == rest[i]);
                }
            }
        }
    }
}

proof fn lemma_split_first_free(p: Seq<char>, c: char, d: char)
    requires
        split_first(p, c) is Some,
        free_of(p, d),
    ensures
        free_of(split_first(p, c).unwrap().0, c),
        free_of(split_first(p, c).unwrap().0, d),
        free_of(split_first(p, c).unwrap().1, d),
    decreases p.len(),
{
    if p[0] != c {
        assert(free_of(p.drop_first(), d)) by {
            assert forall|i: int| 0 <= i < p.len() - 1 implies p.drop_first()[i] != d by {
                assert(p.drop_first()[i] == p[i + 1]);
            }
        }
        lemma_split_first_free(p.drop_first(), c, d);
        let k = split_first(p.drop_first(), c).unwrap().0;
        assert forall|i: int| 0 <= i < k.len() + 1 implies (seq![p[0]] + k)[i] != c && (seq![p[0]] + k)[i] != d by {
            if i > 0 {
                assert((seq![p[0]] + k)[i] == k[i - 1]);
            }
        }
    } else {
        assert forall|i: int| 0 <= i < p.len() - 1 implies p.drop_first()[i] != d by {
            assert(p.drop_first()[i] == p[i + 1]);
        }
    }
}

proof fn lemma_lookup_some<V>(s: Seq<(Seq<char>, V)>, k: Seq<char>)
    requires
        lookup(s, k) is Some,
    ensures
        exists|j: int| 0 <= j < s.len() && s[j] == (k, lookup(s, k).unwrap()),
    decreases s.len(),
{
    if s.last().0 == k {
        assert(s[s.len() - 1] == (k, lookup(s, k).unwrap()));
    } else {
        lemma_lookup_some(s.drop_last(), k);
        let j = choose|j: int| 0 <= j < s.len() - 1 && s.drop_last()[j] == (k, lookup(s, k).unwrap());
        assert(s[j] == s.drop_last()[j]);
    }
}

proof fn lemma_parsed_plain(v: Seq<char>)
    requires
        features_text_ok(v),
    ensures
        sorted_keys(parsed_features(v)),
        plain_entries(parsed_features(v)),
{
    let pairs = features_text_pairs(v);
    lemma_sorted_of(pairs);
    let t = parsed_features(v);
    assert(sorted_keys(t) && forall|k: Seq<char>| lookup(t, k) == lookup(pairs, k));
    lemma_sorted_unique(t);
    assert forall|i: int| 0 <= i < t.len() implies free_of(#[trigger] t[i].0, '=') && free_of(t[i].0, '|')
        && free_of(t[i].1, '|') by {
        lemma_lookup_index(t, t[i].0);
        lemma_lookup_some(pairs, t[i].0);
        let j = choose|j: int| 0 <= j < pairs.len() && pairs[j] == (t[i].0, lookup(pairs, t[i].0).unwrap());
        let ps = split_spec(v, '|');
        lemma_split_pieces_free(v, '|');
        assert(v != seq!['_']);
        assert(split_first(ps[j], '=') is Some);
        lemma_split_first_free(ps[j], '=', '|');
    }
}

/// Writing to the feature-string layer the text that it read back reads back that
/// same text.
pub proof fn lemma_feature_string_stable(value: Seq<char>)
    requires
        feature_string_after(value) is Some,
    ensures
        feature_string_after(feature_string_after(value).unwrap()) == feature_string_after(value),
{
    lemma_parsed_plain(value);
    lemma_feature_text_round_trip(parsed_features(value));
}

} // verus!
