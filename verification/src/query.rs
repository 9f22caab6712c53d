//! Query strings: `k1=v1&k2=v2&...` read into a map from keys to values.

use vstd::prelude::*;
use crate::text::{first_index, split_on, lemma_split_on_front, find_char, chars_of, str_eq};

verus! {

/// A key and its value, as characters.
pub type Pair = (Seq<char>, Seq<char>);

/// A piece of the query between two `&` holds a key and a value exactly
/// when it holds an `=`.
pub open spec fn has_pair(seg: Seq<char>) -> bool {
    split_on(seg, '=').len() >= 2
}

/// The key of a piece: what comes before its first `=`.
pub open spec fn seg_key(seg: Seq<char>) -> Seq<char> {
    split_on(seg, '=')[0]
}

/// The value of a piece: what comes between its first `=` and the next `=`
/// (or the end of the piece).
pub open spec fn seg_value(seg: Seq<char>) -> Seq<char> {
    split_on(seg, '=')[1]
}

/// Every piece of the query holds an `=`. On any other query the reader has
/// no value to give some key.
pub open spec fn well_formed_query(q: Seq<char>) -> bool {
    forall|i: int| 0 <= i < split_on(q, '&').len() ==> has_pair(#[trigger] split_on(q, '&')[i])
}

/// Sets the value of `k` in an association list: in place where `k` occurs,
/// at the end otherwise.
pub open spec fn assoc_insert(ps: Seq<Pair>, k: Seq<char>, v: Seq<char>) -> Seq<Pair>
    decreases ps.len(),
{
    if ps.len() == 0 {
        seq![(k, v)]
    } else if ps[0].0 == k {
        ps.update(0, (k, v))
    } else {
        seq![ps[0]] + assoc_insert(ps.drop_first(), k, v)
    }
}

/// The association list built by setting the key of each piece to its value,
/// from the first piece to the last.
pub open spec fn pairs_of_segments(segs: Seq<Seq<char>>) -> Seq<Pair>
    decreases segs.len(),
{
    if segs.len() == 0 {
        seq![]
    } else {
        assoc_insert(pairs_of_segments(segs.drop_last()), seg_key(segs.last()), seg_value(segs.last()))
    }
}

/// The keys and values of a query, each key once, in the order of the key's
/// first occurrence, each with the value of its last occurrence.
pub open spec fn query_pairs(q: Seq<char>) -> Seq<Pair> {
    pairs_of_segments(split_on(q, '&'))
}

/// The map that an association list stands for (an earlier entry of a key
/// hides a later one; in the lists built here a key occurs once).
pub open spec fn pairs_to_map(ps: Seq<Pair>) -> Map<Seq<char>, Seq<char>>
    decreases ps.len(),
{
    if ps.len() == 0 {
        Map::empty()
    } else {
        pairs_to_map(ps.drop_first()).insert(ps[0].0, ps[0].1)
    }
}

/// The map obtained by inserting the key and value of each piece into an
/// empty map, from the first piece to the last.
pub open spec fn segments_to_map(segs: Seq<Seq<char>>) -> Map<Seq<char>, Seq<char>>
    decreases segs.len(),
{
    if segs.len() == 0 {
        Map::empty()
    } else {
        segments_to_map(segs.drop_last()).insert(seg_key(segs.last()), seg_value(segs.last()))
    }
}

/// No key occurs twice.
pub open spec fn distinct_keys(ps: Seq<Pair>) -> bool {
    forall|i: int, j: int| 0 <= i < j < ps.len() ==> ps[i].0 != ps[j].0
}

/// The characters of each key and value.
pub open spec fn view_pairs<'a>(entries: Seq<(&'a str, &'a str)>) -> Seq<Pair> {
    entries.map_values(|p: (&'a str, &'a str)| (p.0@, p.1@))
}

proof fn lemma_assoc_insert_at(ps: Seq<Pair>, k: Seq<char>, v: Seq<char>, j: int)
    requires
        0 <= j <= ps.len(),
        j < ps.len() ==> ps[j].0 == k,
        forall|i: int| 0 <= i < j ==> ps[i].0 != k,
    ensures
        assoc_insert(ps, k, v) == (if j < ps.len() { ps.update(j, (k, v)) } else { ps.push((k, v)) }),
    decreases ps.len(),
{
    if ps.len() > 0 && ps[0].0 != k {
        let rest = ps.drop_first();
        assert forall|i: int| 0 <= i < j - 1 implies rest[i].0 != k by {
            assert(rest[i] == ps[i + 1]);
        }
        lemma_assoc_insert_at(rest, k, v, j - 1);
        if j < ps.len() {
            assert(seq![ps[0]] + rest.update(j - 1, (k, v)) =~= ps.update(j, (k, v)));
        } else {
            assert(seq![ps[0]] + rest.push((k, v)) =~= ps.push((k, v)));
        }
    } else if ps.len() == 0 {
        assert(seq![(k, v)] =~= ps.push((k, v)));
    }
}

proof fn lemma_assoc_insert_map(ps: Seq<Pair>, k: Seq<char>, v: Seq<char>)
    ensures
        pairs_to_map(assoc_insert(ps, k, v)) == pairs_to_map(ps).insert(k, v),
    decreases ps.len(),
{
    if ps.len() == 0 {
        let r = seq![(k, v)];
        assert(r.drop_first() =~= Seq::<Pair>::empty());
        assert(pairs_to_map(r.drop_first()) == Map::<Seq<char>, Seq<char>>::empty());
        assert(pairs_to_map(r) == pairs_to_map(r.drop_first()).insert(k, v));
        assert(pairs_to_map(ps) == Map::<Seq<char>, Seq<char>>::empty());
    } else if ps[0].0 == k {
        let r = ps.update(0, (k, v));
        assert(r.drop_first() =~= ps.drop_first());
        assert(pairs_to_map(r) =~= pairs_to_map(ps).insert(k, v));
    } else {
        let r = seq![ps[0]] + assoc_insert(ps.drop_first(), k, v);
        assert(r.drop_first() =~= assoc_insert(ps.drop_first(), k, v));
        lemma_assoc_insert_map(ps.drop_first(), k, v);
        assert(pairs_to_map(r) =~= pairs_to_map(ps).insert(k, v));
    }
}

proof fn lemma_assoc_insert_distinct(ps: Seq<Pair>, k: Seq<char>, v: Seq<char>)
    requires
        distinct_keys(ps),
    ensures
        distinct_keys(assoc_insert(ps, k, v)),
        forall|i: int|
            0 <= i < assoc_insert(ps, k, v).len() ==> (#[trigger] assoc_insert(ps, k, v)[i]).0 == k
                || exists|j: int| 0 <= j < ps.len() && ps[j].0 == assoc_insert(ps, k, v)[i].0,
    decreases ps.len(),
{
    if ps.len() > 0 && ps[0].0 != k {
        let rest = ps.drop_first();
        assert(distinct_keys(rest)) by {
            assert forall|i: int, j: int| 0 <= i < j < rest.len() implies rest[i].0 != rest[j].0 by {
                assert(rest[i] == ps[i + 1] && rest[j] == ps[j + 1]);
            }
        }
        lemma_assoc_insert_distinct(rest, k, v);
        let t = assoc_insert(rest, k, v);
        let r = seq![ps[0]] + t;
        assert forall|i: int| 0 <= i < t.len() implies t[i].0 != ps[0].0 by {
            if t[i].0 != k {
                let j = choose|j: int| 0 <= j < rest.len() && rest[j].0 == t[i].0;
                assert(rest[j] == ps[j + 1]);
            }
        }
        assert forall|i: int| 0 <= i < r.len() implies r[i].0 == k || exists|j: int|
            0 <= j < ps.len() && ps[j].0 == r[i].0 by {
            if i == 0 {
                assert(ps[0].0 == r[0].0);
            } else {
                assert(r[i] == t[i - 1]);
                if t[i - 1].0 != k {
                    let j = choose|j: int| 0 <= j < rest.len() && rest[j].0 == t[i - 1].0;
                    assert(rest[j] == ps[j + 1]);
                }
            }
        }
        assert forall|i: int, j: int| 0 <= i < j < r.len() implies r[i].0 != r[j].0 by {
            if i > 0 {
                assert(r[i] == t[i - 1] && r[j] == t[j - 1]);
            } else {
                assert(r[j] == t[j - 1]);
            }
        }
    } else if ps.len() > 0 {
        let r = ps.update(0, (k, v));
        assert forall|i: int| 0 <= i < r.len() implies r[i].0 == k || exists|j: int|
            0 <= j < ps.len() && ps[j].0 == r[i].0 by {
            if i > 0 {
                assert(ps[i].0 == r[i].0);
            }
        }
    }
}

/// The keys of the association list are distinct.
pub proof fn lemma_pairs_of_segments_distinct(segs: Seq<Seq<char>>)
    ensures
        distinct_keys(pairs_of_segments(segs)),
    decreases segs.len(),
{
    if segs.len() > 0 {
        lemma_pairs_of_segments_distinct(segs.drop_last());
        lemma_assoc_insert_distinct(
            pairs_of_segments(segs.drop_last()),
            seg_key(segs.last()),
            seg_value(segs.last()),
        );
    }
}

/// The association list stands for the map built by successive insertions.
pub proof fn lemma_pairs_of_segments_map(segs: Seq<Seq<char>>)
    ensures
        pairs_to_map(pairs_of_segments(segs)) == segments_to_map(segs),
    decreases segs.len(),
{
    if segs.len() > 0 {
        lemma_pairs_of_segments_map(segs.drop_last());
        lemma_assoc_insert_map(
            pairs_of_segments(segs.drop_last()),
            seg_key(segs.last()),
            seg_value(segs.last()),
        );
    }
}

/// Looking a key up in an association list finds its first entry.
proof fn lemma_pairs_to_map_lookup(ps: Seq<Pair>, k: Seq<char>, j: int)
    requires
        0 <= j <= ps.len(),
        j < ps.len() ==> ps[j].0 == k,
        forall|i: int| 0 <= i < j ==> ps[i].0 != k,
    ensures
        pairs_to_map(ps).contains_key(k) <==> j < ps.len(),
        j < ps.len() ==> pairs_to_map(ps)[k] == ps[j].1,
    decreases ps.len(),
{
    if ps.len() > 0 && ps[0].0 != k {
        let rest = ps.drop_first();
        assert forall|i: int| 0 <= i < j - 1 implies rest[i].0 != k by {
            assert(rest[i] == ps[i + 1]);
        }
        lemma_pairs_to_map_lookup(rest, k, j - 1);
    }
}

/// The keys and values of a query string, each key once.
#[derive(Debug)]
pub struct QueryMap<'a> {
    entries: Vec<(&'a str, &'a str)>,
}

impl<'a> View for QueryMap<'a> {
    type V = Seq<Pair>;

    closed spec fn view(&self) -> Seq<Pair> {
        view_pairs(self.entries@)
    }
}

impl<'a> QueryMap<'a> {
    #[verifier::type_invariant]
    spec fn inv(self) -> bool {
        distinct_keys(view_pairs(self.entries@))
    }

    /// The map from keys to values.
    pub open spec fn map(&self) -> Map<Seq<char>, Seq<char>> {
        pairs_to_map(self@)
    }

    /// The number of keys; no key occurs twice.
    pub fn len(&self) -> (r: usize)
        ensures
            r == self@.len(),
            distinct_keys(self@),
    {
        proof {
            use_type_invariant(self);
        }
        self.entries.len()
    }

    /// The value of `key`, if the query holds it.
    pub fn get(&self, key: &str) -> (r: Option<&'a str>)
        ensures
            r is Some <==> self.map().contains_key(key@),
            r matches Some(v) ==> v@ == self.map()[key@],
    {
        let n = self.entries.len();
        let mut i: usize = 0;
        while i < n && !str_eq(self.entries[i].0, key)
            invariant
                n == self.entries@.len(),
                i <= n,
                forall|j: int| 0 <= j < i ==> self@[j].0 != key@,
            decreases n - i,
        {
            i = i + 1;
        }
        proof {
            lemma_pairs_to_map_lookup(self@, key@, i as int);
        }
        if i < n {
            Some(self.entries[i].1)
        } else {
            None
        }
    }

    /// The values, in the order of the keys.
    pub fn values(&self) -> (r: Vec<&'a str>)
        ensures
            r@.len() == self@.len(),
            forall|i: int| 0 <= i < r@.len() ==> (#[trigger] r@[i])@ == self@[i].1,
    {
        let n = self.entries.len();
        let mut r: Vec<&'a str> = Vec::new();
        let mut i: usize = 0;
        while i < n
            invariant
                n == self.entries@.len(),
                i <= n,
                r@.len() == i,
                forall|j: int| 0 <= j < i ==> (#[trigger] r@[j])@ == self@[j].1,
            decreases n - i,
        {
            r.push(self.entries[i].1);
            i = i + 1;
        }
        r
    }
}

/// Sets `key` to `val` in the entries.
fn insert_entry<'a>(entries: &mut Vec<(&'a str, &'a str)>, key: &'a str, val: &'a str)
    ensures
        view_pairs(final(entries)@) == assoc_insert(view_pairs(old(entries)@), key@, val@),
{
    let n = entries.len();
    let mut i: usize = 0;
    while i < n && !str_eq(entries[i].0, key)
        invariant
            n == entries@.len(),
            i <= n,
            forall|j: int| 0 <= j < i ==> view_pairs(entries@)[j].0 != key@,
        decreases n - i,
    {
        i = i + 1;
    }
    proof {
        lemma_assoc_insert_at(view_pairs(entries@), key@, val@, i as int);
    }
    if i < n {
        entries.set(i, (key, val));
        assert(view_pairs(entries@) =~= view_pairs(old(entries)@).update(i as int, (key@, val@)));
    } else {
        entries.push((key, val));
        assert(view_pairs(entries@) =~= view_pairs(old(entries)@).push((key@, val@)));
    }
}

proof fn lemma_split_step(q: Seq<char>, start: int, end: int)
    requires
        0 <= start <= end <= q.len(),
        end - start == first_index(q.skip(start), '&'),
    ensures
        split_on(q.skip(start), '&') == (if end < q.len() {
            seq![q.subrange(start, end)] + split_on(q.skip(end + 1), '&')
        } else {
            seq![q.subrange(start, end)]
        }),
{
    let s = q.skip(start);
    assert(s.take(end - start) =~= q.subrange(start, end));
    if end < q.len() {
        assert(s.skip(end - start + 1) =~= q.skip(end + 1));
    } else {
        assert(s =~= q.subrange(start, end));
    }
}

proof fn lemma_segment_parts(seg: Seq<char>, eq: int, vend: int)
    requires
        0 <= eq <= seg.len(),
        eq == first_index(seg, '='),
        eq < seg.len() ==> eq + 1 <= vend <= seg.len() && vend - eq - 1 == first_index(
            seg.skip(eq + 1),
            '=',
        ),
    ensures
        has_pair(seg) <==> eq < seg.len(),
        eq < seg.len() ==> seg_key(seg) == seg.take(eq) && seg_value(seg) == seg.subrange(
            eq + 1,
            vend,
        ),
{
    lemma_split_on_front(seg, '=');
    if eq < seg.len() {
        lemma_split_on_front(seg.skip(eq + 1), '=');
        assert(seg.skip(eq + 1).take(vend - eq - 1) =~= seg.subrange(eq + 1, vend));
    }
}

/// Reads a query string into a map, or `None` where a piece between two `&`
/// holds no `=`.
pub fn try_query_str_to_map<'a>(query_str: &'a str) -> (r: Option<QueryMap<'a>>)
    ensures
        r is Some <==> well_formed_query(query_str@),
        r matches Some(m) ==> m@ == query_pairs(query_str@),
        r matches Some(m) ==> distinct_keys(m@),
{
    let ghost q = query_str@;
    let chars = chars_of(query_str);
    let n = chars.len();
    let mut entries: Vec<(&'a str, &'a str)> = Vec::new();
    let mut start: usize = 0;
    let ghost mut done: Seq<Seq<char>> = seq![];
    assert(q.skip(0) =~= q);
    loop
        invariant_except_break
            split_on(q, '&') == done + split_on(q.skip(start as int), '&'),
        invariant
            chars@ == q,
            n == q.len(),
            q == query_str@,
            start <= n,
            forall|i: int| 0 <= i < done.len() ==> has_pair(#[trigger] done[i]),
            view_pairs(entries@) == pairs_of_segments(done),
        ensures
            split_on(q, '&') == done,
        decreases n - start,
    {
        let end = find_char(&chars, start, n, '&');
        assert(chars@.subrange(start as int, n as int) =~= q.skip(start as int));
        proof {
            lemma_split_step(q, start as int, end as int);
        }
        let ghost seg = q.subrange(start as int, end as int);
        let eq = find_char(&chars, start, end, '=');
        assert(chars@.subrange(start as int, end as int) =~= seg);
        if eq == end {
            proof {
                lemma_segment_parts(seg, eq - start, eq - start);
                let k = done.len() as int;
                assert(split_on(q, '&')[k] == seg);
            }
            return None;
        }
        let vend = find_char(&chars, eq + 1, end, '=');
        assert(chars@.subrange(eq + 1, end as int) =~= seg.skip(eq - start + 1));
        proof {
            lemma_segment_parts(seg, eq - start, vend - start);
        }
        let key = query_str.substring_char(start, eq);
        let val = query_str.substring_char(eq + 1, vend);
        assert(key@ =~= seg_key(seg));
        assert(val@ =~= seg_value(seg));
        insert_entry(&mut entries, key, val);
        proof {
            let old_done = done;
            done = done.push(seg);
            assert(done.drop_last() =~= old_done);
        }
        if end == n {
            assert(split_on(q, '&') =~= done);
            break;
        }
        assert(split_on(q, '&') =~= done + split_on(q.skip(end + 1), '&'));
        start = end + 1;
    }
    proof {
        lemma_pairs_of_segments_distinct(done);
    }
    Some(QueryMap { entries })
}

/// Reads a query string `k1=v1&k2=v2&...` into a map from keys to values.
/// Of a key that occurs twice the later value is kept. Every piece between
/// two `&` must hold an `=`; the value ends at the next `=`, if any.
pub fn query_str_to_map<'a>(query_str: &'a str) -> (r: QueryMap<'a>)
    requires
        well_formed_query(query_str@),
    ensures
        r@ == query_pairs(query_str@),
        r.map() == segments_to_map(split_on(query_str@, '&')),
        distinct_keys(r@),
{
    proof {
        lemma_pairs_of_segments_map(split_on(query_str@, '&'));
        lemma_pairs_of_segments_distinct(split_on(query_str@, '&'));
    }
    match try_query_str_to_map(query_str) {
        Some(m) => m,
        None => {
            let entries: Vec<(&'a str, &'a str)> = Vec::new();
            assert(view_pairs(entries@) =~= Seq::<Pair>::empty());
            QueryMap { entries }
        },
    }
}

} // verus!
