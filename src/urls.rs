use vstd::prelude::*;
use indexmap::IndexMap;
use vstd::string::StringSliceAdditionalSpecFns;
use vstd::utf8::encode_utf8;
use crate::text::{chars_of, string_of, text_from_utf8};
use vstd::utf8::{decode_utf8, valid_utf8};
use crate::urlparse::{hex_char, hex_digit, is_unreserved, lemma_split_append, lemma_split_no_sep, split_on};
use vstd::utf8::{is_ascii_chars, is_ascii_chars_encode_utf8};

verus! {

#[verifier::external_type_specification]
#[verifier::external_body]
#[verifier::reject_recursive_types(K)]
#[verifier::reject_recursive_types(V)]
#[verifier::reject_recursive_types(S)]
pub struct ExIndexMap<K, V, S>(IndexMap<K, V, S>);

/// The entries of a map, in its order: each key with its list of values.
pub type Entries = Seq<(Seq<char>, Seq<Seq<char>>)>;

/// What an `IndexMap` of strings to string lists holds, in order.
pub uninterp spec fn entries_of(m: IndexMap<String, Vec<String>>) -> Seq<(Seq<char>, Seq<Seq<char>>)>;

pub open spec fn str_views(v: Seq<String>) -> Seq<Seq<char>> {
    v.map_values(|s: String| s@)
}

pub open spec fn has_key(e: Entries, k: Seq<char>) -> bool {
    exists|i: int| 0 <= i < e.len() && e[i].0 == k
}

/// The position of key `k`, where `has_key(e, k)`.
pub open spec fn key_index(e: Entries, k: Seq<char>) -> int {
    choose|i: int| 0 <= i < e.len() && e[i].0 == k
}

pub open spec fn keys_unique(e: Entries) -> bool {
    forall|i: int, j: int| 0 <= i < e.len() && 0 <= j < e.len() && i != j ==> e[i].0 != e[j].0
}

/// `k` mapped to `vs`: in place where `k` is present, last otherwise.
pub open spec fn insert_spec(e: Entries, k: Seq<char>, vs: Seq<Seq<char>>) -> Entries {
    if has_key(e, k) {
        e.update(key_index(e, k), (k, vs))
    } else {
        e.push((k, vs))
    }
}

/// `v` appended to the values of `k`, which is added last where absent.
pub open spec fn add_spec(e: Entries, k: Seq<char>, v: Seq<char>) -> Entries {
    if has_key(e, k) {
        e.update(key_index(e, k), (k, e[key_index(e, k)].1.push(v)))
    } else {
        e.push((k, seq![v]))
    }
}

/// `e` without the entry of `k`.
pub open spec fn remove_spec(e: Entries, k: Seq<char>) -> Entries {
    if has_key(e, k) {
        e.remove(key_index(e, k))
    } else {
        e
    }
}

/// Every entry of `o`, in order, inserted into `e`.
pub open spec fn merge_spec(e: Entries, o: Entries) -> Entries
    decreases o.len(),
{
    if o.len() == 0 {
        e
    } else {
        let m = merge_spec(e, o.drop_last());
        insert_spec(m, o.last().0, o.last().1)
    }
}

/// The values of `k`, or none where it is absent.
pub open spec fn list_of(e: Entries, k: Seq<char>) -> Seq<Seq<char>> {
    if has_key(e, k) {
        e[key_index(e, k)].1
    } else {
        Seq::empty()
    }
}

/// Every (key, value) pair, by key order and then by value order.
pub open spec fn flatten(e: Entries) -> Seq<(Seq<char>, Seq<char>)>
    decreases e.len(),
{
    if e.len() == 0 {
        Seq::empty()
    } else {
        flatten(e.drop_last()) + e.last().1.map_values(|v: Seq<char>| (e.last().0, v))
    }
}

/// Relies on `IndexMap::new`: a map with no entries.
#[verifier::external_body]
fn map_new() -> (m: IndexMap<String, Vec<String>>)
    ensures
        entries_of(m) == Seq::<(Seq<char>, Seq<Seq<char>>)>::empty(),
{
    IndexMap::new()
}

/// Relies on `IndexMap::clone`: the same entries in the same order.
#[verifier::external_body]
fn map_clone(m: &IndexMap<String, Vec<String>>) -> (r: IndexMap<String, Vec<String>>)
    ensures
        entries_of(r) == entries_of(*m),
{
    m.clone()
}

/// Relies on `IndexMap::len`: the number of entries.
#[verifier::external_body]
fn map_len(m: &IndexMap<String, Vec<String>>) -> (r: usize)
    ensures
        r == entries_of(*m).len(),
{
    m.len()
}

/// Relies on `IndexMap::get_index`: the entry at position `i`, if there is one.
#[verifier::external_body]
fn map_get_index(m: &IndexMap<String, Vec<String>>, i: usize) -> (r: Option<(&String, &Vec<String>)>)
    ensures
        r is Some <==> i < entries_of(*m).len(),
        r is Some ==> r->Some_0.0@ == entries_of(*m)[i as int].0
            && str_views(r->Some_0.1@) == entries_of(*m)[i as int].1,
{
    m.get_index(i)
}

/// Relies on `IndexMap::get_index_of`: the position of the entry whose key is `k`.
#[verifier::external_body]
fn map_index_of(m: &IndexMap<String, Vec<String>>, k: &str) -> (r: Option<usize>)
    ensures
        r is Some ==> r->Some_0 < entries_of(*m).len() && entries_of(*m)[r->Some_0 as int].0 == k@,
        r is None ==> !has_key(entries_of(*m), k@),
{
    m.get_index_of(k)
}

/// Relies on `IndexMap::insert`: an existing key keeps its position and takes
/// the new value; a new key is placed last.
#[verifier::external_body]
fn map_insert(m: &mut IndexMap<String, Vec<String>>, k: String, v: Vec<String>)
    ensures
        entries_of(*final(m)) == insert_spec(entries_of(*old(m)), k@, str_views(v@)),
{
    m.insert(k, v);
}

/// Relies on `IndexMap::shift_remove`: the entry of `k` goes, the others keep
/// their order.
#[verifier::external_body]
fn map_shift_remove(m: &mut IndexMap<String, Vec<String>>, k: &str)
    ensures
        entries_of(*final(m)) == remove_spec(entries_of(*old(m)), k@),
{
    m.shift_remove(k);
}

fn copy_strings(v: &Vec<String>) -> (r: Vec<String>)
    ensures
        r@ == v@,
{
    let mut r: Vec<String> = Vec::new();
    let mut i: usize = 0;
    while i < v.len()
        invariant
            i <= v@.len(),
            r@ == v@.subrange(0, i as int),
        decreases v@.len() - i,
    {
        r.push(v[i].clone());
        i += 1;
        assert(r@ =~= v@.subrange(0, i as int));
    }
    assert(v@.subrange(0, v@.len() as int) =~= v@);
    r
}

proof fn lemma_index_is_key_index(e: Entries, k: Seq<char>, i: int)
    requires
        keys_unique(e),
        0 <= i < e.len(),
        e[i].0 == k,
    ensures
        has_key(e, k),
        key_index(e, k) == i,
{
    assert(has_key(e, k));
    let j = key_index(e, k);
    assert(e[j].0 == k);
}

proof fn lemma_insert_unique(e: Entries, k: Seq<char>, vs: Seq<Seq<char>>)
    requires
        keys_unique(e),
    ensures
        keys_unique(insert_spec(e, k, vs)),
        insert_spec(e, k, vs).len() == e.len() + if has_key(e, k) { 0int } else { 1int },
{
    let r = insert_spec(e, k, vs);
    if has_key(e, k) {
        let j = key_index(e, k);
        assert forall|a: int, b: int| 0 <= a < r.len() && 0 <= b < r.len() && a != b implies r[a].0 != r[b].0 by {
            assert(r[a].0 == e[a].0);
            assert(r[b].0 == e[b].0);
        }
    } else {
        assert forall|a: int, b: int| 0 <= a < r.len() && 0 <= b < r.len() && a != b implies r[a].0 != r[b].0 by {
            if a < e.len() && b < e.len() {
            } else if a == e.len() {
                assert(e[b].0 != k);
            } else {
                assert(e[a].0 != k);
            }
        }
    }
}

proof fn lemma_add_unique(e: Entries, k: Seq<char>, v: Seq<char>)
    requires
        keys_unique(e),
    ensures
        keys_unique(add_spec(e, k, v)),
{
    if has_key(e, k) {
        assert(add_spec(e, k, v) == insert_spec(e, k, e[key_index(e, k)].1.push(v)));
    } else {
        assert(add_spec(e, k, v) == insert_spec(e, k, seq![v]));
    }
    lemma_insert_unique(e, k, if has_key(e, k) { e[key_index(e, k)].1.push(v) } else { seq![v] });
}

proof fn lemma_remove_unique(e: Entries, k: Seq<char>)
    requires
        keys_unique(e),
    ensures
        keys_unique(remove_spec(e, k)),
{
    if has_key(e, k) {
        let j = key_index(e, k);
        let r = e.remove(j);
        assert forall|a: int, b: int| 0 <= a < r.len() && 0 <= b < r.len() && a != b implies r[a].0 != r[b].0 by {
            let a2 = if a < j { a } else { a + 1 };
            let b2 = if b < j { b } else { b + 1 };
            assert(r[a] == e[a2]);
            assert(r[b] == e[b2]);
        }
    }
}

/// An immutable, ordered map from keys to lists of values: every change makes
/// a new map.
#[derive(Debug)]
pub struct QueryParams {
    params: IndexMap<String, Vec<String>>,
}

impl View for QueryParams {
    type V = Entries;

    closed spec fn view(&self) -> Entries {
        entries_of(self.params)
    }
}

impl QueryParams {
    /// Keys are never repeated.
    pub open spec fn wf(&self) -> bool {
        keys_unique(self@)
    }

    /// A map with no entries.
    pub fn empty() -> (r: Self)
        ensures
            r.wf(),
            r@ == Seq::<(Seq<char>, Seq<Seq<char>>)>::empty(),
    {
        QueryParams { params: map_new() }
    }

    /// A copy with the same entries.
    pub fn copy(&self) -> (r: Self)
        ensures
            r@ == self@,
    {
        QueryParams { params: map_clone(&self.params) }
    }

    /// The number of distinct keys.
    pub fn len(&self) -> (r: usize)
        ensures
            r == self@.len(),
    {
        map_len(&self.params)
    }

    pub fn is_empty(&self) -> (r: bool)
        ensures
            r == (self@.len() == 0),
    {
        map_len(&self.params) == 0
    }

    /// Whether `key` has an entry.
    pub fn contains(&self, key: &str) -> (r: bool)
        ensures
            r == has_key(self@, key@),
    {
        map_index_of(&self.params, key).is_some()
    }

    /// The distinct keys, in order.
    pub fn keys(&self) -> (r: Vec<String>)
        ensures
            str_views(r@) == self@.map_values(|e: (Seq<char>, Seq<Seq<char>>)| e.0),
    {
        let n = map_len(&self.params);
        let mut out: Vec<String> = Vec::new();
        let mut i: usize = 0;
        while i < n
            invariant
                i <= n,
                n == self@.len(),
                str_views(out@) == self@.subrange(0, i as int).map_values(|e: (Seq<char>, Seq<Seq<char>>)| e.0),
            decreases n - i,
        {
            let ghost before = out@;
            let (k, _) = map_get_index(&self.params, i).unwrap();
            let kc = k.clone();
            assert(kc@ == self@[i as int].0);
            out.push(kc);
            assert(out@ == before.push(kc));
            assert(str_views(out@) =~= str_views(before).push(kc@));
            i += 1;
            assert(str_views(out@) =~= self@.subrange(0, i as int).map_values(|e: (Seq<char>, Seq<Seq<char>>)| e.0));
        }
        assert(self@.subrange(0, n as int) =~= self@);
        out
    }

    /// Every value of `key`, in order; none where `key` is absent.
    pub fn get_list(&self, key: &str) -> (r: Vec<String>)
        requires
            self.wf(),
        ensures
            str_views(r@) == list_of(self@, key@),
    {
        match map_index_of(&self.params, key) {
            Some(i) => {
                proof { lemma_index_is_key_index(self@, key@, i as int); }
                let (_, vs) = map_get_index(&self.params, i).unwrap();
                copy_strings(vs)
            },
            None => {
                let r: Vec<String> = Vec::new();
                assert(str_views(r@) =~= Seq::<Seq<char>>::empty());
                r
            },
        }
    }

    /// A new map where `key` has the single value `value`: in place where
    /// `key` was present, last otherwise.
    pub fn set(&self, key: &str, value: &PrimitiveValue) -> (r: Self)
        requires
            self.wf(),
        ensures
            r.wf(),
            r@ == insert_spec(self@, key@, seq![value.text()]),
            list_of(r@, key@) == seq![value.text()],
    {
        let mut params = map_clone(&self.params);
        let mut vs: Vec<String> = Vec::new();
        vs.push(value.to_text());
        assert(str_views(vs@) =~= seq![value.text()]);
        map_insert(&mut params, key.to_owned(), vs);
        proof { lemma_insert_unique(self@, key@, seq![value.text()]); }
        let r = QueryParams { params };
        proof { lemma_list_after_insert(self@, key@, seq![value.text()]); }
        r
    }

    /// A new map where `value` follows the values that `key` already had.
    pub fn add(&self, key: &str, value: &PrimitiveValue) -> (r: Self)
        requires
            self.wf(),
        ensures
            r.wf(),
            r@ == add_spec(self@, key@, value.text()),
            list_of(r@, key@) == list_of(self@, key@).push(value.text()),
    {
        let mut params = map_clone(&self.params);
        let mut vs = self.get_list(key);
        vs.push(value.to_text());
        proof {
            assert(str_views(vs@) =~= list_of(self@, key@).push(value.text()));
            if has_key(self@, key@) {
                assert(add_spec(self@, key@, value.text()) == insert_spec(self@, key@, str_views(vs@)));
            } else {
                assert(str_views(vs@) =~= seq![value.text()]);
            }
        }
        map_insert(&mut params, key.to_owned(), vs);
        proof {
            lemma_add_unique(self@, key@, value.text());
            lemma_list_after_insert(self@, key@, str_views(vs@));
        }
        QueryParams { params }
    }

    /// A new map without `key`; the other keys keep their order.
    pub fn remove(&self, key: &str) -> (r: Self)
        requires
            self.wf(),
        ensures
            r.wf(),
            r@ == remove_spec(self@, key@),
            !has_key(r@, key@),
    {
        let mut params = map_clone(&self.params);
        map_shift_remove(&mut params, key);
        proof {
            lemma_remove_unique(self@, key@);
            if has_key(self@, key@) {
                let j = key_index(self@, key@);
                let r = self@.remove(j);
                if has_key(r, key@) {
                    let a = choose|a: int| 0 <= a < r.len() && r[a].0 == key@;
                    let a2 = if a < j { a } else { a + 1 };
                    assert(r[a] == self@[a2]);
                }
            }
        }
        QueryParams { params }
    }

    /// Every (key, value) pair, by key order and then by value order.
    pub fn multi_items(&self) -> (r: Vec<(String, String)>)
        ensures
            pair_views(r@) == flatten(self@),
    {
        let n = map_len(&self.params);
        let mut out: Vec<(String, String)> = Vec::new();
        let mut i: usize = 0;
        while i < n
            invariant
                i <= n,
                n == self@.len(),
                pair_views(out@) == flatten(self@.subrange(0, i as int)),
            decreases n - i,
        {
            let (k, vs) = map_get_index(&self.params, i).unwrap();
            let ghost e = self@.subrange(0, i + 1);
            let ghost base = out@;
            assert(e.drop_last() =~= self@.subrange(0, i as int));
            assert(e.last() == self@[i as int]);
            let mut j: usize = 0;
            while j < vs.len()
                invariant
                    j <= vs@.len(),
                    k@ == self@[i as int].0,
                    str_views(vs@) == self@[i as int].1,
                    pair_views(out@) == pair_views(base) + self@[i as int].1.subrange(0, j as int).map_values(|v: Seq<char>| (self@[i as int].0, v)),
                decreases vs@.len() - j,
            {
                let ghost before = out@;
                let p = (k.clone(), vs[j].clone());
                assert(str_views(vs@)[j as int] == vs@[j as int]@);
                out.push(p);
                assert(out@ == before.push(p));
                assert(pair_views(out@) =~= pair_views(before).push((k@, vs@[j as int]@)));
                assert(self@[i as int].1.subrange(0, j + 1).map_values(|v: Seq<char>| (self@[i as int].0, v))
                    =~= self@[i as int].1.subrange(0, j as int).map_values(|v: Seq<char>| (self@[i as int].0, v)).push((k@, vs@[j as int]@)));
                j += 1;
                assert(pair_views(out@) =~= pair_views(base) + self@[i as int].1.subrange(0, j as int).map_values(|v: Seq<char>| (self@[i as int].0, v)));
            }
            assert(self@[i as int].1.subrange(0, vs@.len() as int) =~= self@[i as int].1);
            i += 1;
        }
        assert(self@.subrange(0, n as int) =~= self@);
        out
    }

    /// The first value of each key that has one, in key order.
    pub fn values(&self) -> (r: Vec<String>)
        ensures
            str_views(r@) == first_values(self@),
    {
        let n = map_len(&self.params);
        let mut out: Vec<String> = Vec::new();
        let mut i: usize = 0;
        while i < n
            invariant
                i <= n,
                n == self@.len(),
                str_views(out@) == first_values(self@.subrange(0, i as int)),
            decreases n - i,
        {
            let (_, vs) = map_get_index(&self.params, i).unwrap();
            let ghost e = self@.subrange(0, i + 1);
            assert(e.drop_last() =~= self@.subrange(0, i as int));
            let ghost before = out@;
            if vs.len() > 0 {
                let v = vs[0].clone();
                out.push(v);
                assert(out@ == before.push(v));
                assert(str_views(out@) =~= str_views(before).push(v@));
            }
            i += 1;
        }
        assert(self@.subrange(0, n as int) =~= self@);
        out
    }

    /// Each key that has a value, with its first value, in key order.
    pub fn items(&self) -> (r: Vec<(String, String)>)
        ensures
            pair_views(r@) == first_items(self@),
    {
        let n = map_len(&self.params);
        let mut out: Vec<(String, String)> = Vec::new();
        let mut i: usize = 0;
        while i < n
            invariant
                i <= n,
                n == self@.len(),
                pair_views(out@) == first_items(self@.subrange(0, i as int)),
            decreases n - i,
        {
            let (k, vs) = map_get_index(&self.params, i).unwrap();
            let ghost e = self@.subrange(0, i + 1);
            assert(e.drop_last() =~= self@.subrange(0, i as int));
            let ghost before = out@;
            if vs.len() > 0 {
                let p = (k.clone(), vs[0].clone());
                out.push(p);
                assert(out@ == before.push(p));
                assert(pair_views(out@) =~= pair_views(before).push((p.0@, p.1@)));
            }
            i += 1;
        }
        assert(self@.subrange(0, n as int) =~= self@);
        out
    }

    /// The first value of `key`, or `default` where `key` has none.
    pub fn get(&self, key: &str, default: Option<String>) -> (r: Option<String>)
        requires
            self.wf(),
        ensures
            list_of(self@, key@).len() > 0 ==> r is Some && r->Some_0@ == list_of(self@, key@)[0],
            list_of(self@, key@).len() == 0 ==> r == default,
    {
        match map_index_of(&self.params, key) {
            Some(i) => {
                proof { lemma_index_is_key_index(self@, key@, i as int); }
                let (_, vs) = map_get_index(&self.params, i).unwrap();
                if vs.len() > 0 {
                    Some(vs[0].clone())
                } else {
                    default
                }
            },
            None => default,
        }
    }

    /// The pairs added in order: a repeated key collects its values.
    pub fn from_pairs(pairs: &Vec<(String, String)>) -> (r: Self)
        ensures
            r.wf(),
            r@ == from_pairs_spec(pair_views(pairs@)),
    {
        let mut q = QueryParams::empty();
        let mut i: usize = 0;
        while i < pairs.len()
            invariant
                i <= pairs@.len(),
                q.wf(),
                q@ == from_pairs_spec(pair_views(pairs@).subrange(0, i as int)),
            decreases pairs@.len() - i,
        {
            assert(pair_views(pairs@).subrange(0, i + 1).drop_last() =~= pair_views(pairs@).subrange(0, i as int));
            q = q.add(pairs[i].0.as_str(), &PrimitiveValue::Text(pairs[i].1.clone()));
            i += 1;
        }
        assert(pair_views(pairs@).subrange(0, pairs@.len() as int) =~= pair_views(pairs@));
        q
    }

    /// Equal as maps of this kind: the same (key, value) pairs, each as
    /// often, whatever the order of keys or of values.
    pub fn equals(&self, other: &QueryParams) -> (r: bool)
        ensures
            r == same_pairs(flatten(self@), flatten(other@)),
    {
        let a = self.multi_items();
        let b = other.multi_items();
        let ab = counts_agree(&a, &b);
        let ba = counts_agree(&b, &a);
        proof {
            let fa = pair_views(a@);
            let fb = pair_views(b@);
            if ab && ba {
                assert forall|x: (Seq<char>, Seq<char>)| #[trigger] count_of(fa, x) == count_of(fb, x) by {
                    if count_of(fa, x) > 0 {
                        lemma_count_positive(fa, x);
                        let i = choose|i: int| 0 <= i < fa.len() && fa[i] == x;
                        assert(count_of(fa, fa[i]) == count_of(fb, fa[i]));
                    } else if count_of(fb, x) > 0 {
                        lemma_count_positive(fb, x);
                        let i = choose|i: int| 0 <= i < fb.len() && fb[i] == x;
                        assert(count_of(fb, fb[i]) == count_of(fa, fb[i]));
                    }
                }
            } else if !ab {
                let i = choose|i: int| 0 <= i < a@.len() && count_of(fa, #[trigger] fa[i]) != count_of(fb, fa[i]);
                assert(count_of(fa, fa[i]) != count_of(fb, fa[i]));
            } else {
                let i = choose|i: int| 0 <= i < b@.len() && count_of(fb, #[trigger] fb[i]) != count_of(fa, fb[i]);
                assert(count_of(fb, fb[i]) != count_of(fa, fb[i]));
            }
        }
        ab && ba
    }

    /// An iterator over a snapshot of the keys.
    pub fn key_iter(&self) -> (r: QueryParamsKeysIterator)
        ensures
            str_views(r.remaining@) == self@.map_values(|e: (Seq<char>, Seq<Seq<char>>)| e.0),
    {
        QueryParamsKeysIterator { remaining: self.keys() }
    }

    /// The map that an encoded query string stands for.
    pub fn from_query(s: &str) -> (r: Self)
        ensures
            r.wf(),
            r@ == parse_query(s@),
    {
        let p = chars_of(s);
        let n = p.len();
        if n == 0 {
            return QueryParams::empty();
        }
        let mut q = QueryParams::empty();
        let mut cur: Vec<char> = Vec::new();
        let mut i: usize = 0;
        assert(p@.subrange(0, 0) =~= Seq::<char>::empty());
        while i < n
            invariant
                i <= n,
                n == p@.len(),
                p@ == s@,
                q.wf(),
                split_on(p@.subrange(0, i as int), '&').len() >= 1,
                q@ == parse_pieces(split_on(p@.subrange(0, i as int), '&').drop_last()),
                split_on(p@.subrange(0, i as int), '&').last() == cur@,
            decreases n - i,
        {
            let ghost pre = split_on(p@.subrange(0, i as int), '&');
            assert(p@.subrange(0, i + 1).drop_last() =~= p@.subrange(0, i as int));
            let c = p[i];
            if c == '&' {
                let (k, v) = split_pair_exec(&cur);
                cur = Vec::new();
                assert(pre =~= pre.drop_last().push(pre.last()));
                q = q.add(k.as_str(), &PrimitiveValue::Text(v));
                assert(split_on(p@.subrange(0, i + 1), '&').drop_last() =~= pre);
            } else {
                cur.push(c);
                assert(split_on(p@.subrange(0, i + 1), '&').drop_last() =~= pre.drop_last());
            }
            i += 1;
        }
        assert(p@.subrange(0, n as int) =~= p@);
        let ghost all = split_on(p@, '&');
        assert(all =~= all.drop_last().push(all.last()));
        let (k, v) = split_pair_exec(&cur);
        q.add(k.as_str(), &PrimitiveValue::Text(v))
    }

    /// The encoded form: every pair as `key=value`, web-form encoded, joined
    /// with `&`.
    pub fn to_string(&self) -> (r: String)
        ensures
            r@ == render_pairs(flatten(self@)),
    {
        let items = self.multi_items();
        let ghost ps = pair_views(items@);
        let mut out: Vec<char> = Vec::new();
        let mut i: usize = 0;
        while i < items.len()
            invariant
                i <= items@.len(),
                ps == pair_views(items@),
                out@ == render_pairs(ps.subrange(0, i as int)),
            decreases items@.len() - i,
        {
            assert(ps.subrange(0, i + 1).drop_last() =~= ps.subrange(0, i as int));
            assert(ps[i as int] == (items@[i as int].0@, items@[i as int].1@));
            if i > 0 {
                out.push('&');
            }
            push_form_encoded(&mut out, items[i].0.as_str());
            out.push('=');
            push_form_encoded(&mut out, items[i].1.as_str());
            i += 1;
            assert(out@ =~= render_pairs(ps.subrange(0, i as int)));
        }
        assert(ps.subrange(0, items@.len() as int) =~= ps);
        string_of(&out)
    }

    /// In-place update is refused: the map never changes.
    pub fn update(&self, params: Option<&QueryParams>) -> (r: Result<QueryParams, QueryParamsError>)
        ensures
            r is Err,
            r->Err_0 is ImmutabilityViolation,
            r->Err_0->ImmutabilityViolation_0@
                == "QueryParams are immutable since 0.18.0.  Use `q = q.merge(...)` to create an updated copy."@,
    {
        Err(QueryParamsError::ImmutabilityViolation(
            "QueryParams are immutable since 0.18.0.  Use `q = q.merge(...)` to create an updated copy.".to_owned(),
        ))
    }

    /// Assignment to a key is refused: the map never changes.
    pub fn set_item(&self, key: &str, value: &str) -> (r: Result<(), QueryParamsError>)
        ensures
            r is Err,
            r->Err_0 is ImmutabilityViolation,
            r->Err_0->ImmutabilityViolation_0@
                == "QueryParams are immutable since 0.18.0. Use `q = q.set(key, value)` to create an updated copy."@,
    {
        Err(QueryParamsError::ImmutabilityViolation(
            "QueryParams are immutable since 0.18.0. Use `q = q.set(key, value)` to create an updated copy.".to_owned(),
        ))
    }

    /// The map that a mapping of keys to one or several values stands for.
    pub fn from_mapping(m: &Vec<(String, MappingValue)>) -> (r: Self)
        ensures
            r.wf(),
            r@ == from_mapping_spec(m@),
    {
        let mut q = QueryParams::empty();
        let mut i: usize = 0;
        while i < m.len()
            invariant
                i <= m@.len(),
                q.wf(),
                q@ == from_mapping_spec(m@.subrange(0, i as int)),
            decreases m@.len() - i,
        {
            assert(m@.subrange(0, i + 1).drop_last() =~= m@.subrange(0, i as int));
            let key = &m[i].0;
            match &m[i].1 {
                MappingValue::One(x) => {
                    q = q.add(key.as_str(), x);
                },
                MappingValue::Many(xs) => {
                    let mut vs: Vec<String> = Vec::new();
                    let mut j: usize = 0;
                    while j < xs.len()
                        invariant
                            j <= xs@.len(),
                            str_views(vs@) == texts(xs@.subrange(0, j as int)),
                        decreases xs@.len() - j,
                    {
                        let ghost before = vs@;
                        let t = xs[j].to_text();
                        vs.push(t);
                        assert(vs@ == before.push(t));
                        assert(str_views(vs@) =~= str_views(before).push(xs@[j as int].text()));
                        assert(texts(xs@.subrange(0, j + 1)) =~= texts(xs@.subrange(0, j as int)).push(xs@[j as int].text()));
                        j += 1;
                        assert(str_views(vs@) =~= texts(xs@.subrange(0, j as int)));
                    }
                    assert(xs@.subrange(0, xs@.len() as int) =~= xs@);
                    let mut params = q.params;
                    proof { lemma_insert_unique(entries_of(params), key@, str_views(vs@)); }
                    map_insert(&mut params, key.clone(), vs);
                    q = QueryParams { params };
                },
            }
            i += 1;
        }
        assert(m@.subrange(0, m@.len() as int) =~= m@);
        q
    }

    /// A map built from one source; bytes that are not UTF-8 are refused.
    pub fn from_source(src: &QueryParamSource) -> (r: Result<QueryParams, QueryParamsError>)
        requires
            src is Params ==> src->Params_0.wf(),
        ensures
            r is Ok <==> source_entries(*src) is Some,
            r is Ok ==> r->Ok_0.wf() && r->Ok_0@ == source_entries(*src)->Some_0,
            r is Err ==> r->Err_0 is MalformedInput,
    {
        match src {
            QueryParamSource::Encoded(s) => Ok(QueryParams::from_query(s.as_str())),
            QueryParamSource::Bytes(b) => match text_from_utf8(b.as_slice()) {
                Some(s) => Ok(QueryParams::from_query(s.as_str())),
                None => Err(QueryParamsError::MalformedInput("invalid utf-8".to_owned())),
            },
            QueryParamSource::Params(q) => Ok(q.copy()),
            QueryParamSource::Pairs(ps) => Ok(QueryParams::from_pairs(ps)),
            QueryParamSource::Mapping(m) => Ok(QueryParams::from_mapping(m)),
        }
    }

    /// A map from at most one positional source, else from keyword values,
    /// else empty.
    pub fn new(args: &Vec<QueryParamSource>, kwargs: Option<&Vec<(String, MappingValue)>>) -> (r: Result<QueryParams, QueryParamsError>)
        requires
            forall|i: int| 0 <= i < args@.len() && #[trigger] args@[i] is Params ==> args@[i]->Params_0.wf(),
        ensures
            args@.len() > 1 ==> r is Err && r->Err_0 is MalformedInput
                && r->Err_0->MalformedInput_0@ == "Too many arguments."@,
            args@.len() == 1 ==> (r is Ok <==> source_entries(args@[0]) is Some),
            args@.len() == 1 && r is Ok ==> r->Ok_0@ == source_entries(args@[0])->Some_0,
            args@.len() == 0 ==> r is Ok,
            args@.len() == 0 && kwargs is Some ==> r->Ok_0@ == from_mapping_spec(kwargs->Some_0@),
            args@.len() == 0 && kwargs is None ==> r->Ok_0@ == Seq::<(Seq<char>, Seq<Seq<char>>)>::empty(),
            r is Ok ==> r->Ok_0.wf(),
    {
        if args.len() > 1 {
            return Err(QueryParamsError::MalformedInput("Too many arguments.".to_owned()));
        }
        if args.len() == 1 {
            return QueryParams::from_source(&args[0]);
        }
        match kwargs {
            Some(m) => Ok(QueryParams::from_mapping(m)),
            None => Ok(QueryParams::empty()),
        }
    }

    /// A new map in which each key of `other` takes `other`'s values: in
    /// place where the key was present, last otherwise.
    pub fn merge(&self, other: &QueryParams) -> (r: Self)
        requires
            self.wf(),
        ensures
            r.wf(),
            r@ == merge_spec(self@, other@),
    {
        let mut params = map_clone(&self.params);
        let n = map_len(&other.params);
        let mut i: usize = 0;
        while i < n
            invariant
                i <= n,
                n == other@.len(),
                entries_of(params) == merge_spec(self@, other@.subrange(0, i as int)),
                keys_unique(entries_of(params)),
            decreases n - i,
        {
            let (k, vs) = map_get_index(&other.params, i).unwrap();
            let ghost o = other@.subrange(0, i + 1);
            assert(o.drop_last() =~= other@.subrange(0, i as int));
            proof { lemma_insert_unique(entries_of(params), k@, str_views(vs@)); }
            map_insert(&mut params, k.clone(), copy_strings(vs));
            i += 1;
        }
        assert(other@.subrange(0, n as int) =~= other@);
        QueryParams { params }
    }
}

pub open spec fn pair_views(v: Seq<(String, String)>) -> Seq<(Seq<char>, Seq<char>)> {
    v.map_values(|p: (String, String)| (p.0@, p.1@))
}

/// The first value of each key that has one, in key order.
pub open spec fn first_values(e: Entries) -> Seq<Seq<char>>
    decreases e.len(),
{
    if e.len() == 0 {
        Seq::empty()
    } else if e.last().1.len() > 0 {
        first_values(e.drop_last()).push(e.last().1[0])
    } else {
        first_values(e.drop_last())
    }
}

/// Each key that has a value, with its first value, in key order.
pub open spec fn first_items(e: Entries) -> Seq<(Seq<char>, Seq<char>)>
    decreases e.len(),
{
    if e.len() == 0 {
        Seq::empty()
    } else if e.last().1.len() > 0 {
        first_items(e.drop_last()).push((e.last().0, e.last().1[0]))
    } else {
        first_items(e.drop_last())
    }
}

/// The pairs added one by one, in order, to an empty map.
pub open spec fn from_pairs_spec(ps: Seq<(Seq<char>, Seq<char>)>) -> Entries
    decreases ps.len(),
{
    if ps.len() == 0 {
        Seq::empty()
    } else {
        add_spec(from_pairs_spec(ps.drop_last()), ps.last().0, ps.last().1)
    }
}

/// How many times `x` occurs in `s`.
pub open spec fn count_of(s: Seq<(Seq<char>, Seq<char>)>, x: (Seq<char>, Seq<char>)) -> nat
    decreases s.len(),
{
    if s.len() == 0 {
        0
    } else {
        count_of(s.drop_last(), x) + if s.last() == x { 1nat } else { 0nat }
    }
}

/// The same pairs, each as often, in any order.
pub open spec fn same_pairs(a: Seq<(Seq<char>, Seq<char>)>, b: Seq<(Seq<char>, Seq<char>)>) -> bool {
    forall|x: (Seq<char>, Seq<char>)| #[trigger] count_of(a, x) == count_of(b, x)
}

proof fn lemma_count_positive(s: Seq<(Seq<char>, Seq<char>)>, x: (Seq<char>, Seq<char>))
    requires
        count_of(s, x) > 0,
    ensures
        exists|i: int| 0 <= i < s.len() && s[i] == x,
    decreases s.len(),
{
    if s.last() != x {
        lemma_count_positive(s.drop_last(), x);
        let i = choose|i: int| 0 <= i < s.drop_last().len() && s.drop_last()[i] == x;
        assert(s[i] == x);
    } else {
        assert(s[s.len() - 1] == x);
    }
}

fn count_pair(s: &Vec<(String, String)>, k: &String, v: &String) -> (r: usize)
    ensures
        r == count_of(pair_views(s@), (k@, v@)),
{
    let mut c: usize = 0;
    let mut i: usize = 0;
    while i < s.len()
        invariant
            i <= s@.len(),
            c <= i,
            c == count_of(pair_views(s@).subrange(0, i as int), (k@, v@)),
        decreases s@.len() - i,
    {
        assert(pair_views(s@).subrange(0, i + 1).drop_last() =~= pair_views(s@).subrange(0, i as int));
        if s[i].0 == *k && s[i].1 == *v {
            c += 1;
        }
        i += 1;
    }
    assert(pair_views(s@).subrange(0, s@.len() as int) =~= pair_views(s@));
    c
}

/// Whether each pair of `a` occurs as often in `b`.
fn counts_agree(a: &Vec<(String, String)>, b: &Vec<(String, String)>) -> (r: bool)
    ensures
        r == forall|i: int| 0 <= i < a@.len() ==> count_of(pair_views(a@), #[trigger] pair_views(a@)[i]) == count_of(pair_views(b@), pair_views(a@)[i]),
{
    let mut i: usize = 0;
    while i < a.len()
        invariant
            i <= a@.len(),
            forall|j: int| 0 <= j < i ==> count_of(pair_views(a@), #[trigger] pair_views(a@)[j]) == count_of(pair_views(b@), pair_views(a@)[j]),
        decreases a@.len() - i,
    {
        assert(pair_views(a@)[i as int] == (a@[i as int].0@, a@[i as int].1@));
        let ca = count_pair(a, &a[i].0, &a[i].1);
        let cb = count_pair(b, &a[i].0, &a[i].1);
        if ca != cb {
            assert(pair_views(a@)[i as int] == (a@[i as int].0@, a@[i as int].1@));
            return false;
        }
        i += 1;
    }
    true
}

/// The position of the first `c` in `s`, or its length.
pub open spec fn first_index_of(s: Seq<char>, c: char) -> int
    decreases s.len(),
{
    if s.len() == 0 {
        0
    } else if s[0] == c {
        0
    } else {
        1 + first_index_of(s.drop_first(), c)
    }
}

/// A `key=value` piece split at its first `=`; without one, the value is empty.
pub open spec fn split_pair(piece: Seq<char>) -> (Seq<char>, Seq<char>) {
    let i = first_index_of(piece, '=');
    if i < piece.len() {
        (piece.subrange(0, i), piece.subrange(i + 1, piece.len() as int))
    } else {
        (piece, Seq::empty())
    }
}

pub open spec fn parse_pieces(ps: Seq<Seq<char>>) -> Entries
    decreases ps.len(),
{
    if ps.len() == 0 {
        Seq::empty()
    } else {
        let kv = split_pair(ps.last());
        add_spec(parse_pieces(ps.drop_last()), kv.0, kv.1)
    }
}

/// The entries that an encoded query string stands for: its `&`-separated
/// pieces added in order.
pub open spec fn parse_query(s: Seq<char>) -> Entries {
    if s.len() == 0 {
        Seq::empty()
    } else {
        parse_pieces(split_on(s, '&'))
    }
}

/// One byte as a web form writes it: a space becomes `+`.
pub open spec fn form_byte(b: u8) -> Seq<char> {
    if is_unreserved(b) {
        seq![b as char]
    } else if b == 0x20 {
        seq!['+']
    } else {
        seq!['%', hex_char(b / 16), hex_char(b % 16)]
    }
}

pub open spec fn form_bytes(s: Seq<u8>) -> Seq<char>
    decreases s.len(),
{
    if s.len() == 0 {
        Seq::empty()
    } else {
        form_bytes(s.drop_last()) + form_byte(s.last())
    }
}

/// The UTF-8 bytes of `s`, each as a web form writes it.
pub open spec fn form_encode(s: Seq<char>) -> Seq<char> {
    form_bytes(encode_utf8(s))
}

pub open spec fn render_pair(p: (Seq<char>, Seq<char>)) -> Seq<char> {
    form_encode(p.0) + seq!['='] + form_encode(p.1)
}

/// The pairs as `key=value`, joined with `&`.
pub open spec fn render_pairs(ps: Seq<(Seq<char>, Seq<char>)>) -> Seq<char>
    decreases ps.len(),
{
    if ps.len() == 0 {
        Seq::empty()
    } else if ps.len() == 1 {
        render_pair(ps[0])
    } else {
        render_pairs(ps.drop_last()) + seq!['&'] + render_pair(ps.last())
    }
}

proof fn lemma_first_index(s: Seq<char>, c: char, j: int)
    requires
        0 <= j <= s.len(),
        forall|k: int| 0 <= k < j ==> s[k] != c,
        j == s.len() || s[j] == c,
    ensures
        first_index_of(s, c) == j,
    decreases j,
{
    if j > 0 {
        lemma_first_index(s.drop_first(), c, j - 1);
    }
}

fn split_pair_exec(piece: &Vec<char>) -> (r: (String, String))
    ensures
        (r.0@, r.1@) == split_pair(piece@),
{
    let n = piece.len();
    let mut j: usize = 0;
    while j < n && piece[j] != '='
        invariant
            j <= n,
            n == piece@.len(),
            forall|k: int| 0 <= k < j ==> piece@[k] != '=',
        decreases n - j,
    {
        j += 1;
    }
    proof { lemma_first_index(piece@, '=', j as int); }
    let mut key: Vec<char> = Vec::new();
    let mut value: Vec<char> = Vec::new();
    let mut i: usize = 0;
    while i < j
        invariant
            i <= j <= n,
            n == piece@.len(),
            key@ == piece@.subrange(0, i as int),
        decreases j - i,
    {
        key.push(piece[i]);
        i += 1;
        assert(key@ =~= piece@.subrange(0, i as int));
    }
    if j < n {
        let mut i: usize = j + 1;
        while i < n
            invariant
                j + 1 <= i <= n,
                n == piece@.len(),
                value@ == piece@.subrange(j + 1, i as int),
            decreases n - i,
        {
            value.push(piece[i]);
            i += 1;
            assert(value@ =~= piece@.subrange(j + 1, i as int));
        }
    } else {
        assert(key@ =~= piece@);
    }
    (string_of(&key), string_of(&value))
}

fn push_form_byte(out: &mut Vec<char>, b: u8)
    ensures
        final(out)@ == old(out)@ + form_byte(b),
{
    let unreserved = (0x41 <= b && b <= 0x5a) || (0x61 <= b && b <= 0x7a) || (0x30 <= b && b <= 0x39)
        || b == 0x2d || b == 0x2e || b == 0x5f || b == 0x7e;
    if unreserved {
        out.push(b as char);
    } else if b == 0x20 {
        out.push('+');
    } else {
        out.push('%');
        out.push(hex_digit(b / 16));
        out.push(hex_digit(b % 16));
    }
    assert(final(out)@ =~= old(out)@ + form_byte(b));
}

fn push_form_encoded(out: &mut Vec<char>, s: &str)
    ensures
        final(out)@ == old(out)@ + form_encode(s@),
{
    let bs = s.as_bytes();
    let mut i: usize = 0;
    while i < bs.len()
        invariant
            i <= bs@.len(),
            bs@ == encode_utf8(s@),
            out@ == old(out)@ + form_bytes(bs@.subrange(0, i as int)),
        decreases bs@.len() - i,
    {
        assert(bs@.subrange(0, i + 1).drop_last() =~= bs@.subrange(0, i as int));
        push_form_byte(out, bs[i]);
        i += 1;
        assert(out@ =~= old(out)@ + form_bytes(bs@.subrange(0, i as int)));
    }
    assert(bs@.subrange(0, bs@.len() as int) =~= bs@);
}

/// Encodes `s` as a web form does: unreserved bytes stay, a space becomes
/// `+`, every other byte becomes `%XX`.
pub fn urlencode(s: &str) -> (r: String)
    ensures
        r@ == form_encode(s@),
{
    let mut out: Vec<char> = Vec::new();
    push_form_encoded(&mut out, s);
    assert(out@ =~= form_encode(s@));
    string_of(&out)
}

/// A character that form encoding leaves as it is.
pub open spec fn is_plain_char(c: char) -> bool {
    ('a' <= c && c <= 'z') || ('A' <= c && c <= 'Z') || ('0' <= c && c <= '9') || c == '-' || c == '.'
        || c == '_' || c == '~'
}

pub open spec fn is_plain(s: Seq<char>) -> bool {
    forall|i: int| 0 <= i < s.len() ==> is_plain_char(#[trigger] s[i])
}

pub open spec fn pairs_plain(ps: Seq<(Seq<char>, Seq<char>)>) -> bool {
    forall|i: int| 0 <= i < ps.len() ==> is_plain(#[trigger] ps[i].0) && is_plain(ps[i].1)
}

pub open spec fn piece(p: (Seq<char>, Seq<char>)) -> Seq<char> {
    p.0 + seq!['='] + p.1
}

/// The pairs added, in order, to the entries `e`.
pub open spec fn add_all(e: Entries, ps: Seq<(Seq<char>, Seq<char>)>) -> Entries
    decreases ps.len(),
{
    if ps.len() == 0 {
        e
    } else {
        add_spec(add_all(e, ps.drop_last()), ps.last().0, ps.last().1)
    }
}

proof fn lemma_form_bytes_plain(s: Seq<char>, b: Seq<u8>)
    requires
        is_plain(s),
        b.len() == s.len(),
        forall|i: int| 0 <= i < s.len() ==> s[i] as u8 == #[trigger] b[i],
    ensures
        form_bytes(b) == s,
    decreases s.len(),
{
    if s.len() > 0 {
        let n = s.len() - 1;
        assert forall|i: int| 0 <= i < n implies is_plain_char(#[trigger] s.drop_last()[i]) by {
            assert(s.drop_last()[i] == s[i]);
        }
        assert forall|i: int| 0 <= i < n implies s.drop_last()[i] as u8 == #[trigger] b.drop_last()[i] by {
            assert(s.drop_last()[i] == s[i]);
            assert(b.drop_last()[i] == b[i]);
        }
        lemma_form_bytes_plain(s.drop_last(), b.drop_last());
        let c = s[n];
        assert(is_plain_char(c));
        assert(b[n] == c as u8);
        assert(is_unreserved(b[n]));
        assert(b[n] as char == c);
        assert(s.drop_last().push(c) =~= s);
    } else {
        assert(s =~= Seq::<char>::empty());
    }
}

proof fn lemma_form_plain(s: Seq<char>)
    requires
        is_plain(s),
    ensures
        form_encode(s) == s,
{
    assert forall|i: int| 0 <= i < s.len() implies '\0' <= #[trigger] s[i] <= '\u{7f}' by {
        assert(is_plain_char(s[i]));
    }
    assert(is_ascii_chars(s));
    is_ascii_chars_encode_utf8(s);
    lemma_form_bytes_plain(s, encode_utf8(s));
}

proof fn lemma_piece_no_amp(p: (Seq<char>, Seq<char>))
    requires
        is_plain(p.0),
        is_plain(p.1),
    ensures
        forall|i: int| 0 <= i < piece(p).len() ==> piece(p)[i] != '&',
        render_pair(p) == piece(p),
{
    lemma_form_plain(p.0);
    lemma_form_plain(p.1);
    assert forall|i: int| 0 <= i < piece(p).len() implies piece(p)[i] != '&' by {
        if i < p.0.len() {
            assert(piece(p)[i] == p.0[i]);
            assert(is_plain_char(p.0[i]));
        } else if i > p.0.len() {
            assert(piece(p)[i] == p.1[i - p.0.len() - 1]);
            assert(is_plain_char(p.1[i - p.0.len() - 1]));
        }
    }
}

proof fn lemma_split_render(ps: Seq<(Seq<char>, Seq<char>)>)
    requires
        ps.len() >= 1,
        pairs_plain(ps),
    ensures
        split_on(render_pairs(ps), '&') == ps.map_values(|p: (Seq<char>, Seq<char>)| piece(p)),
    decreases ps.len(),
{
    let n = ps.len() - 1;
    assert(is_plain(ps[n].0) && is_plain(ps[n].1));
    lemma_piece_no_amp(ps[n]);
    if ps.len() == 1 {
        lemma_split_no_sep(piece(ps[0]), '&');
        assert(ps.map_values(|p: (Seq<char>, Seq<char>)| piece(p)) =~= seq![piece(ps[0])]);
    } else {
        let init = ps.drop_last();
        assert forall|i: int| 0 <= i < init.len() implies is_plain(#[trigger] init[i].0) && is_plain(init[i].1) by {
            assert(init[i] == ps[i]);
        }
        lemma_split_render(init);
        lemma_split_append(render_pairs(init), piece(ps[n]), '&');
        assert(init.map_values(|p: (Seq<char>, Seq<char>)| piece(p)).push(piece(ps[n]))
            =~= ps.map_values(|p: (Seq<char>, Seq<char>)| piece(p)));
    }
}

proof fn lemma_split_piece(p: (Seq<char>, Seq<char>))
    requires
        is_plain(p.0),
    ensures
        split_pair(piece(p)) == p,
{
    let s = piece(p);
    assert forall|k: int| 0 <= k < p.0.len() implies s[k] != '=' by {
        assert(s[k] == p.0[k]);
        assert(is_plain_char(p.0[k]));
    }
    lemma_first_index(s, '=', p.0.len() as int);
    assert(s.subrange(0, p.0.len() as int) =~= p.0);
    assert(s.subrange(p.0.len() + 1int, s.len() as int) =~= p.1);
}

proof fn lemma_parse_pieces(ps: Seq<(Seq<char>, Seq<char>)>)
    requires
        pairs_plain(ps),
    ensures
        parse_pieces(ps.map_values(|p: (Seq<char>, Seq<char>)| piece(p))) == from_pairs_spec(ps),
    decreases ps.len(),
{
    if ps.len() > 0 {
        let n = ps.len() - 1;
        let init = ps.drop_last();
        assert forall|i: int| 0 <= i < init.len() implies is_plain(#[trigger] init[i].0) && is_plain(init[i].1) by {
            assert(init[i] == ps[i]);
        }
        lemma_parse_pieces(init);
        assert(is_plain(ps[n].0));
        lemma_split_piece(ps[n]);
        assert(ps.map_values(|p: (Seq<char>, Seq<char>)| piece(p)).drop_last()
            =~= init.map_values(|p: (Seq<char>, Seq<char>)| piece(p)));
    }
}

proof fn lemma_from_pairs_concat(a: Seq<(Seq<char>, Seq<char>)>, b: Seq<(Seq<char>, Seq<char>)>)
    ensures
        from_pairs_spec(a + b) == add_all(from_pairs_spec(a), b),
    decreases b.len(),
{
    if b.len() == 0 {
        assert(a + b =~= a);
    } else {
        lemma_from_pairs_concat(a, b.drop_last());
        assert((a + b).drop_last() =~= a + b.drop_last());
        assert((a + b).last() == b.last());
    }
}

proof fn lemma_add_all_new_key(e: Entries, k: Seq<char>, vs: Seq<Seq<char>>)
    requires
        keys_unique(e),
        !has_key(e, k),
        vs.len() >= 1,
    ensures
        add_all(e, vs.map_values(|v: Seq<char>| (k, v))) == e.push((k, vs)),
    decreases vs.len(),
{
    let m = vs.map_values(|v: Seq<char>| (k, v));
    assert(m.last() == (k, vs.last()));
    if vs.len() == 1 {
        assert(m.drop_last() =~= Seq::<(Seq<char>, Seq<char>)>::empty());
        assert(add_all(e, m.drop_last()) == e);
        assert(add_all(e, m) == add_spec(e, k, vs.last()));
        assert(seq![vs[0]] =~= vs);
    } else {
        let init = vs.drop_last();
        lemma_add_all_new_key(e, k, init);
        assert(m.drop_last() =~= init.map_values(|v: Seq<char>| (k, v)));
        let e2 = e.push((k, init));
        lemma_insert_unique(e, k, init);
        lemma_index_is_key_index(e2, k, e.len() as int);
        assert(init.push(vs.last()) =~= vs);
        assert(add_all(e, m.drop_last()) == e2);
        assert(add_all(e, m) == add_spec(e2, k, vs.last()));
        assert(e2[e.len() as int].1 == init);
        assert(e2.update(e.len() as int, (k, init.push(vs.last()))) =~= e.push((k, vs)));
    }
}

proof fn lemma_from_pairs_flatten(e: Entries)
    requires
        keys_unique(e),
        forall|i: int| 0 <= i < e.len() ==> (#[trigger] e[i]).1.len() >= 1,
    ensures
        from_pairs_spec(flatten(e)) == e,
    decreases e.len(),
{
    if e.len() == 0 {
        assert(flatten(e) =~= Seq::<(Seq<char>, Seq<char>)>::empty());
    } else {
        let init = e.drop_last();
        let n = e.len() - 1;
        assert forall|i: int| 0 <= i < init.len() implies (#[trigger] init[i]).1.len() >= 1 by {
            assert(init[i] == e[i]);
        }
        assert(keys_unique(init)) by {
            assert forall|i: int, j: int| 0 <= i < init.len() && 0 <= j < init.len() && i != j implies init[i].0 != init[j].0 by {
                assert(init[i] == e[i]);
                assert(init[j] == e[j]);
            }
        }
        lemma_from_pairs_flatten(init);
        lemma_from_pairs_concat(flatten(init), e.last().1.map_values(|v: Seq<char>| (e.last().0, v)));
        assert(!has_key(init, e[n].0)) by {
            if has_key(init, e[n].0) {
                let j = choose|j: int| 0 <= j < init.len() && init[j].0 == e[n].0;
                assert(init[j] == e[j]);
            }
        }
        assert(e[n].1.len() >= 1);
        lemma_add_all_new_key(init, e.last().0, e.last().1);
        assert(init.push(e.last()) =~= e);
    }
}

pub open spec fn entries_plain(e: Entries) -> bool {
    forall|i: int| 0 <= i < e.len() ==> is_plain((#[trigger] e[i]).0)
        && forall|j: int| 0 <= j < e[i].1.len() ==> is_plain(#[trigger] e[i].1[j])
}

proof fn lemma_from_pairs_shape(ps: Seq<(Seq<char>, Seq<char>)>)
    requires
        pairs_plain(ps),
    ensures
        keys_unique(from_pairs_spec(ps)),
        forall|i: int| 0 <= i < from_pairs_spec(ps).len() ==> (#[trigger] from_pairs_spec(ps)[i]).1.len() >= 1,
        entries_plain(from_pairs_spec(ps)),
    decreases ps.len(),
{
    if ps.len() > 0 {
        let init = ps.drop_last();
        let n = ps.len() - 1;
        assert forall|i: int| 0 <= i < init.len() implies is_plain(#[trigger] init[i].0) && is_plain(init[i].1) by {
            assert(init[i] == ps[i]);
        }
        lemma_from_pairs_shape(init);
        let e = from_pairs_spec(init);
        let (k, v) = (ps[n].0, ps[n].1);
        assert(is_plain(k) && is_plain(v));
        lemma_add_unique(e, k, v);
        let r = add_spec(e, k, v);
        assert(r == from_pairs_spec(ps));
        if has_key(e, k) {
            let x = key_index(e, k);
            assert forall|i: int| 0 <= i < r.len() implies (#[trigger] r[i]).1.len() >= 1 && is_plain(r[i].0)
                && forall|j: int| 0 <= j < r[i].1.len() ==> is_plain(#[trigger] r[i].1[j]) by {
                if i == x {
                    assert forall|j: int| 0 <= j < r[i].1.len() implies is_plain(#[trigger] r[i].1[j]) by {
                        if j < e[x].1.len() {
                            assert(r[i].1[j] == e[x].1[j]);
                        }
                    }
                } else {
                    assert(r[i] == e[i]);
                }
            }
        } else {
            assert forall|i: int| 0 <= i < r.len() implies (#[trigger] r[i]).1.len() >= 1 && is_plain(r[i].0)
                && forall|j: int| 0 <= j < r[i].1.len() ==> is_plain(#[trigger] r[i].1[j]) by {
                if i < e.len() {
                    assert(r[i] == e[i]);
                } else {
                    assert(r[i] == (k, seq![v]));
                }
            }
        }
    }
}

proof fn lemma_flatten_plain(e: Entries)
    requires
        entries_plain(e),
    ensures
        pairs_plain(flatten(e)),
    decreases e.len(),
{
    if e.len() > 0 {
        let init = e.drop_last();
        let n = e.len() - 1;
        assert forall|i: int| 0 <= i < init.len() implies is_plain((#[trigger] init[i]).0)
            && forall|j: int| 0 <= j < init[i].1.len() ==> is_plain(#[trigger] init[i].1[j]) by {
            assert(init[i] == e[i]);
        }
        lemma_flatten_plain(init);
        let a = flatten(init);
        let b = e.last().1.map_values(|v: Seq<char>| (e.last().0, v));
        assert(is_plain(e[n].0));
        assert forall|i: int| 0 <= i < (a + b).len() implies is_plain(#[trigger] (a + b)[i].0) && is_plain((a + b)[i].1) by {
            if i < a.len() {
                assert((a + b)[i] == a[i]);
            } else {
                let j = i - a.len();
                assert((a + b)[i] == (e[n].0, e[n].1[j]));
                assert(is_plain(e[n].1[j]));
            }
        }
    }
}

/// Rendering a map built from pairs and parsing the text again gives the same
/// map back, wherever no key or value holds a character that the encoding
/// would change; so the two are also equal as maps of this kind.
pub proof fn lemma_query_round_trip(ps: Seq<(Seq<char>, Seq<char>)>)
    requires
        pairs_plain(ps),
    ensures
        parse_query(render_pairs(flatten(from_pairs_spec(ps)))) == from_pairs_spec(ps),
        same_pairs(flatten(parse_query(render_pairs(flatten(from_pairs_spec(ps))))), flatten(from_pairs_spec(ps))),
{
    let e = from_pairs_spec(ps);
    lemma_from_pairs_shape(ps);
    lemma_from_pairs_flatten(e);
    let f = flatten(e);
    lemma_flatten_plain(e);
    if f.len() == 0 {
        assert(from_pairs_spec(f) =~= Seq::<(Seq<char>, Seq<Seq<char>>)>::empty());
    } else {
        lemma_split_render(f);
        lemma_parse_pieces(f);
        let n = f.len() - 1;
        assert(is_plain(f[n].0) && is_plain(f[n].1));
        lemma_piece_no_amp(f[n]);
        if f.len() >= 2 {
            assert(render_pairs(f).len() >= render_pair(f[n]).len());
        }
        assert(render_pairs(f).len() > 0);
    }
}

proof fn lemma_list_after_insert(e: Entries, k: Seq<char>, vs: Seq<Seq<char>>)
    requires
        keys_unique(e),
    ensures
        list_of(insert_spec(e, k, vs), k) == vs,
{
    let r = insert_spec(e, k, vs);
    lemma_insert_unique(e, k, vs);
    if has_key(e, k) {
        let j = key_index(e, k);
        lemma_index_is_key_index(r, k, j);
    } else {
        lemma_index_is_key_index(r, k, e.len() as int);
    }
}

/// Why an operation on a query-parameter map failed.
#[derive(Debug, Clone)]
pub enum QueryParamsError {
    /// The map was asked to change in place.
    ImmutabilityViolation(String),
    /// The input could not be read as parameters.
    MalformedInput(String),
}

/// The value given for one key of a mapping.
pub enum MappingValue {
    /// A single value, added to the key's list.
    One(PrimitiveValue),
    /// A sequence: its values, in order, become the key's list.
    Many(Vec<PrimitiveValue>),
}

/// What a map can be built from.
pub enum QueryParamSource {
    /// An already-encoded query string.
    Encoded(String),
    /// The UTF-8 bytes of an encoded query string.
    Bytes(Vec<u8>),
    /// Another map, copied.
    Params(QueryParams),
    /// (key, value) pairs, in order.
    Pairs(Vec<(String, String)>),
    /// Keys with one value or a sequence of values, in order.
    Mapping(Vec<(String, MappingValue)>),
}

pub open spec fn texts(v: Seq<PrimitiveValue>) -> Seq<Seq<char>> {
    v.map_values(|x: PrimitiveValue| x.text())
}

/// The mapping's keys taken in order: a single value is added to the key's
/// list, a sequence replaces it.
pub open spec fn from_mapping_spec(m: Seq<(String, MappingValue)>) -> Entries
    decreases m.len(),
{
    if m.len() == 0 {
        Seq::empty()
    } else {
        let prev = from_mapping_spec(m.drop_last());
        match m.last().1 {
            MappingValue::One(x) => add_spec(prev, m.last().0@, x.text()),
            MappingValue::Many(xs) => insert_spec(prev, m.last().0@, texts(xs@)),
        }
    }
}

/// The entries a source stands for; `None` for bytes that are not UTF-8.
pub open spec fn source_entries(src: QueryParamSource) -> Option<Entries> {
    match src {
        QueryParamSource::Encoded(s) => Some(parse_query(s@)),
        QueryParamSource::Bytes(b) => if valid_utf8(b@) {
            Some(parse_query(decode_utf8(b@)))
        } else {
            None
        },
        QueryParamSource::Params(q) => Some(q@),
        QueryParamSource::Pairs(ps) => Some(from_pairs_spec(pair_views(ps@))),
        QueryParamSource::Mapping(m) => Some(from_mapping_spec(m@)),
    }
}

/// A one-shot walk over a snapshot of a map's keys.
#[derive(Debug, Clone)]
pub struct QueryParamsKeysIterator {
    pub remaining: Vec<String>,
}

impl QueryParamsKeysIterator {
    /// The first key not yet handed out, or `None` once all were.
    pub fn next_key(&mut self) -> (r: Option<String>)
        ensures
            old(self).remaining@.len() == 0 ==> r is None && final(self).remaining@ == old(self).remaining@,
            old(self).remaining@.len() > 0 ==> r == Some(old(self).remaining@[0])
                && final(self).remaining@ == old(self).remaining@.drop_first(),
    {
        if self.remaining.len() == 0 {
            None
        } else {
            Some(self.remaining.remove(0))
        }
    }
}

/// A value given for a parameter, before it becomes text.
pub enum PrimitiveValue {
    Bool(bool),
    Absent,
    Text(String),
    /// Any other value, by its usual text form.
    Other(String),
}

impl PrimitiveValue {
    /// The text that stands for the value.
    pub open spec fn text(&self) -> Seq<char> {
        match self {
            PrimitiveValue::Bool(b) => if *b { "true"@ } else { "false"@ },
            PrimitiveValue::Absent => Seq::empty(),
            PrimitiveValue::Text(s) => s@,
            PrimitiveValue::Other(s) => s@,
        }
    }

    /// `true` / `false` for a boolean, nothing for an absent value, the text
    /// itself otherwise.
    pub fn to_text(&self) -> (r: String)
        ensures
            r@ == self.text(),
    {
        match self {
            PrimitiveValue::Bool(b) => if *b { "true".to_owned() } else { "false".to_owned() },
            PrimitiveValue::Absent => String::new(),
            PrimitiveValue::Text(s) => s.clone(),
            PrimitiveValue::Other(s) => s.clone(),
        }
    }
}

} // verus!
