//! A list of items keyed by text, at most one item per key: the store
//! behind the open sessions and the quote book.
//!
//! The items stand in a `Vec` whose keys are kept distinct, a type
//! invariant; the list is viewed as the map from key to item, and an insert
//! replaces the item that had the same key, as a map insert does.

use vstd::prelude::*;

verus! {

/// Items that carry their own key.
pub trait Keyed {
    /// The key of the item.
    spec fn key(&self) -> Seq<char>;

    /// The key of the item, as text.
    fn key_text(&self) -> (r: &String)
        ensures
            r@ == self.key();
}

/// The first item of `s` whose key is `k`.
pub open spec fn find_keyed<T: Keyed>(s: Seq<T>, k: Seq<char>) -> Option<T>
    decreases s.len(),
{
    if s.len() == 0 {
        None
    } else if s[0].key() == k {
        Some(s[0])
    } else {
        find_keyed(s.drop_first(), k)
    }
}

/// The items of `s` by key.
pub open spec fn keyed_map<T: Keyed>(s: Seq<T>) -> Map<Seq<char>, T> {
    Map::new(|k: Seq<char>| find_keyed(s, k) is Some, |k: Seq<char>| find_keyed(s, k)->0)
}

/// No two items of `s` share a key.
pub open spec fn keys_distinct<T: Keyed>(s: Seq<T>) -> bool {
    forall|i: int, j: int| 0 <= i < j < s.len() ==> s[i].key() != s[j].key()
}

/// Replacing the first item with a given key changes what that key finds,
/// and nothing else.
proof fn lemma_find_after_set<T: Keyed>(s: Seq<T>, i: int, x: T, k: Seq<char>)
    requires
        0 <= i < s.len(),
        s[i].key() == x.key(),
        forall|j: int| 0 <= j < i ==> s[j].key() != x.key(),
    ensures
        find_keyed(s.update(i, x), k) == if k == x.key() { Some(x) } else { find_keyed(s, k) },
    decreases i,
{
    let t = s.update(i, x);
    if i == 0 {
        assert(t[0] == x);
        assert(t.drop_first() =~= s.drop_first());
    } else {
        assert(t[0] == s[0]);
        assert(t.drop_first() =~= s.drop_first().update(i - 1, x));
        if k != s[0].key() {
            lemma_find_after_set(s.drop_first(), i - 1, x, k);
        }
    }
}

/// Appending an item with a new key makes that key find it, and changes
/// nothing else.
proof fn lemma_find_after_push<T: Keyed>(s: Seq<T>, x: T, k: Seq<char>)
    requires
        find_keyed(s, x.key()) is None,
    ensures
        find_keyed(s.push(x), k) == if k == x.key() { Some(x) } else { find_keyed(s, k) },
    decreases s.len(),
{
    let t = s.push(x);
    if s.len() == 0 {
        assert(t[0] == x);
        assert(t.drop_first().len() == 0);
    } else {
        assert(t[0] == s[0]);
        assert(t.drop_first() =~= s.drop_first().push(x));
        if k != s[0].key() {
            lemma_find_after_push(s.drop_first(), x, k);
        }
    }
}

/// A key that finds nothing is the key of no item.
proof fn lemma_find_none<T: Keyed>(s: Seq<T>, k: Seq<char>)
    requires
        find_keyed(s, k) is None,
    ensures
        forall|j: int| 0 <= j < s.len() ==> s[j].key() != k,
    decreases s.len(),
{
    if s.len() > 0 {
        lemma_find_none(s.drop_first(), k);
        assert forall|j: int| 0 <= j < s.len() implies s[j].key() != k by {
            if j > 0 {
                assert(s[j] == s.drop_first()[j - 1]);
            }
        }
    }
}

/// A key that finds an item is the key of an item.
proof fn lemma_find_some<T: Keyed>(s: Seq<T>, k: Seq<char>)
    requires
        find_keyed(s, k) is Some,
    ensures
        exists|j: int| 0 <= j < s.len() && #[trigger] s[j].key() == k,
    decreases s.len(),
{
    if s[0].key() != k {
        lemma_find_some(s.drop_first(), k);
        let j = choose|j: int| 0 <= j < s.drop_first().len() && #[trigger] s.drop_first()[j].key() == k;
        assert(s[j + 1] == s.drop_first()[j]);
    } else {
        assert(s[0].key() == k);
    }
}

/// The keys of `s` are finitely many, at most one per item.
pub proof fn lemma_keyed_map_bounded<T: Keyed>(s: Seq<T>)
    ensures
        keyed_map(s).dom().finite(),
        keyed_map(s).dom().len() <= s.len(),
{
    let keys = s.map_values(|x: T| x.key());
    assert forall|k: Seq<char>| #[trigger] keyed_map(s).dom().contains(k) implies keys.to_set().contains(k) by {
        lemma_find_some(s, k);
        let j = choose|j: int| 0 <= j < s.len() && #[trigger] s[j].key() == k;
        assert(keys[j] == k);
    }
    vstd::seq_lib::seq_to_set_is_finite(keys);
    keys.lemma_cardinality_of_set();
    vstd::set_lib::lemma_len_subset(keyed_map(s).dom(), keys.to_set());
}

/// The index of the first item of `items` with the key `k`.
fn position<T: Keyed>(items: &Vec<T>, k: &String) -> (r: Option<usize>)
    ensures
        r matches Some(i) ==> i < items@.len() && items@[i as int].key() == k@
            && find_keyed(items@, k@) == Some(items@[i as int])
            && forall|j: int| 0 <= j < i ==> items@[j].key() != k@,
        r is None ==> find_keyed(items@, k@) is None,
{
    let mut i: usize = 0;
    assert(items@.skip(0) =~= items@);
    while i < items.len()
        invariant
            i <= items@.len(),
            find_keyed(items@, k@) == find_keyed(items@.skip(i as int), k@),
            forall|j: int| 0 <= j < i ==> items@[j].key() != k@,
        decreases items@.len() - i,
    {
        let ghost rest = items@.skip(i as int);
        assert(rest[0] == items@[i as int]);
        if *items[i].key_text() == *k {
            return Some(i);
        }
        assert(rest.drop_first() =~= items@.skip(i + 1));
        i = i + 1;
    }
    None
}

/// Items keyed by text, at most one per key.
#[derive(Debug)]
pub struct KeyedList<T: Keyed> {
    items: Vec<T>,
}

impl<T: Keyed> View for KeyedList<T> {
    type V = Map<Seq<char>, T>;

    closed spec fn view(&self) -> Map<Seq<char>, T> {
        keyed_map(self.items@)
    }
}

impl<T: Keyed> KeyedList<T> {
    #[verifier::type_invariant]
    spec fn keys_are_distinct(self) -> bool {
        keys_distinct(self.items@)
    }

    /// No item.
    pub fn new() -> (r: KeyedList<T>)
        ensures
            r@ == Map::<Seq<char>, T>::empty(),
    {
        let r = KeyedList { items: Vec::new() };
        assert(keyed_map(r.items@) =~= Map::<Seq<char>, T>::empty());
        r
    }

    /// The items, in the order they were first recorded; each key once.
    pub fn items(&self) -> (r: &Vec<T>)
        ensures
            keyed_map(r@) == self@,
            keys_distinct(r@),
    {
        proof {
            use_type_invariant(self);
        }
        &self.items
    }

    /// Records `x` under its key, in place of the item that had that key.
    pub fn insert(&mut self, x: T)
        ensures
            final(self)@ == old(self)@.insert(x.key(), x),
    {
        proof {
            use_type_invariant(&*self);
        }
        let mut items: Vec<T> = Vec::new();
        std::mem::swap(&mut items, &mut self.items);
        let ghost s0 = items@;
        let ghost k0 = x.key();
        let ghost x0 = x;
        match position(&items, x.key_text()) {
            Some(i) => {
                items.set(i, x);
                proof {
                    assert forall|k: Seq<char>| #[trigger] find_keyed(items@, k)
                        == if k == k0 { Some(x0) } else { find_keyed(s0, k) } by {
                        lemma_find_after_set(s0, i as int, x0, k);
                    }
                    assert forall|a: int, b: int| 0 <= a < b < items@.len()
                        implies items@[a].key() != items@[b].key() by {
                        if a != i && b != i {
                            assert(items@[a] == s0[a]);
                            assert(items@[b] == s0[b]);
                        } else if a == i {
                            assert(items@[b] == s0[b]);
                        } else {
                            assert(items@[a] == s0[a]);
                        }
                    }
                }
            },
            None => {
                items.push(x);
                proof {
                    assert forall|k: Seq<char>| #[trigger] find_keyed(items@, k)
                        == if k == k0 { Some(x0) } else { find_keyed(s0, k) } by {
                        lemma_find_after_push(s0, x0, k);
                    }
                    lemma_find_none(s0, k0);
                    assert forall|a: int, b: int| 0 <= a < b < items@.len()
                        implies items@[a].key() != items@[b].key() by {
                        assert(items@[a] == s0[a]);
                        if b < s0.len() {
                            assert(items@[b] == s0[b]);
                        }
                    }
                }
            },
        }
        assert(keyed_map(items@) =~= keyed_map(s0).insert(k0, x0));
        self.items = items;
    }

    /// The item with the key `k`.
    pub fn get(&self, k: &String) -> (r: Option<&T>)
        ensures
            r matches Some(x) ==> self@.contains_key(k@) && self@[k@] == *x && x.key() == k@,
            r is None ==> !self@.contains_key(k@),
    {
        match position(&self.items, k) {
            Some(i) => Some(&self.items[i]),
            None => None,
        }
    }
}

} // verus!
