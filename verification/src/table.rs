//! A map from text keys to values whose entries stay in increasing key order,
//! each key at most once.
use vstd::prelude::*;

use crate::text::{
    chars_of, lemma_text_lt_irreflexive, lemma_text_lt_transitive, place_text, text_lt,
    Placement,
};

verus! {

/// Keys strictly increase along `s`, so that no key occurs twice.
pub open spec fn keys_sorted<T>(s: Seq<(Seq<char>, T)>) -> bool {
    forall|i: int, j: int| 0 <= i < j < s.len() ==> text_lt(#[trigger] s[i].0, #[trigger] s[j].0)
}

/// Some entry of `s` has key `k`.
pub open spec fn has_key<T>(s: Seq<(Seq<char>, T)>, k: Seq<char>) -> bool {
    exists|i: int| 0 <= i < s.len() && #[trigger] s[i].0 == k
}

/// A position of `s` whose entry has key `k`, when there is one.
pub open spec fn key_pos<T>(s: Seq<(Seq<char>, T)>, k: Seq<char>) -> int {
    choose|i: int| 0 <= i < s.len() && #[trigger] s[i].0 == k
}

/// The map that the entries of `s` describe.
pub open spec fn table_map<T>(s: Seq<(Seq<char>, T)>) -> Map<Seq<char>, T> {
    Map::new(|k: Seq<char>| has_key(s, k), |k: Seq<char>| s[key_pos(s, k)].1)
}

/// In sorted entries no two positions hold the same key.
pub proof fn lemma_sorted_keys_distinct<T>(s: Seq<(Seq<char>, T)>, i: int, j: int)
    requires
        keys_sorted(s),
        0 <= i < s.len(),
        0 <= j < s.len(),
        i != j,
    ensures
        s[i].0 != s[j].0,
{
    if i < j {
        assert(text_lt(s[i].0, s[j].0));
        lemma_text_lt_irreflexive(s[i].0);
    } else {
        assert(text_lt(s[j].0, s[i].0));
        lemma_text_lt_irreflexive(s[j].0);
    }
}

/// The map of sorted entries sends each entry's key to that entry's value.
pub proof fn lemma_table_map_entry<T>(s: Seq<(Seq<char>, T)>, i: int)
    requires
        keys_sorted(s),
        0 <= i < s.len(),
    ensures
        table_map(s).dom().contains(s[i].0),
        table_map(s)[s[i].0] == s[i].1,
{
    let k = s[i].0;
    assert(has_key(s, k));
    let j = key_pos(s, k);
    if j != i {
        lemma_sorted_keys_distinct(s, i, j);
    }
    assert(j == i);
    assert(table_map(s)[k] == s[j].1);
}

/// Text-keyed entries in increasing key order.
#[derive(Debug, PartialEq, Eq)]
pub struct KeyedTable<T> {
    entries: Vec<(String, T)>,
}

impl<T> View for KeyedTable<T> {
    type V = Seq<(Seq<char>, T)>;

    closed spec fn view(&self) -> Seq<(Seq<char>, T)> {
        self.entries@.map_values(|e: (String, T)| (e.0@, e.1))
    }
}

impl<T> KeyedTable<T> {
    #[verifier::type_invariant]
    closed spec fn inv(self) -> bool {
        keys_sorted(self@)
    }

    /// An empty table.
    pub fn new() -> (t: Self)
        ensures
            t@ == Seq::<(Seq<char>, T)>::empty(),
    {
        let t = KeyedTable { entries: Vec::new() };
        assert(t@ =~= Seq::<(Seq<char>, T)>::empty());
        t
    }

    /// The number of entries; the entries are in increasing key order.
    pub fn len(&self) -> (n: usize)
        ensures
            n == self@.len(),
            keys_sorted(self@),
    {
        proof {
            use_type_invariant(self);
        }
        self.entries.len()
    }

    /// The key of entry `i`.
    pub fn key_at(&self, i: usize) -> (k: &String)
        requires
            i < self@.len(),
        ensures
            k@ == self@[i as int].0,
    {
        &self.entries[i].0
    }

    /// The value of entry `i`.
    pub fn value_at(&self, i: usize) -> (v: &T)
        requires
            i < self@.len(),
        ensures
            *v == self@[i as int].1,
    {
        &self.entries[i].1
    }

    /// Where `key` stands: `Ok(i)` when entry `i` has it, else `Err(p)` with
    /// the keys before position `p` smaller and those from `p` on larger.
    fn locate(&self, key: &Vec<char>) -> (r: Result<usize, usize>)
        ensures
            keys_sorted(self@),
            match r {
                Ok(i) => i < self@.len() && self@[i as int].0 == key@,
                Err(p) => p <= self@.len() && (forall|j: int|
                    0 <= j < p ==> text_lt(#[trigger] self@[j].0, key@)) && (forall|j: int|
                    p <= j < self@.len() ==> text_lt(key@, #[trigger] self@[j].0)),
            },
    {
        proof {
            use_type_invariant(self);
        }
        let n = self.entries.len();
        let mut i: usize = 0;
        while i < n
            invariant
                n == self@.len(),
                i <= n,
                keys_sorted(self@),
                forall|j: int| 0 <= j < i ==> text_lt(#[trigger] self@[j].0, key@),
            decreases n - i,
        {
            let k = chars_of(self.entries[i].0.as_str());
            match place_text(&k, key) {
                Placement::Before => {
                    i = i + 1;
                },
                Placement::Same => {
                    return Ok(i);
                },
                Placement::After => {
                    proof {
                        assert forall|j: int| i <= j < self@.len() implies text_lt(
                            key@,
                            #[trigger] self@[j].0,
                        ) by {
                            if j > i {
                                assert(text_lt(self@[i as int].0, self@[j].0));
                                lemma_text_lt_transitive(key@, self@[i as int].0, self@[j].0);
                            }
                        }
                    }
                    return Err(i);
                },
            }
        }
        Err(i)
    }

    /// Sets the value of `key`, adding the key when it is new.
    pub fn insert(&mut self, key: String, value: T)
        ensures
            keys_sorted(final(self)@),
            table_map(final(self)@) == table_map(old(self)@).insert(key@, value),
    {
        proof {
            use_type_invariant(&*self);
        }
        let ghost s = self@;
        let kc = chars_of(key.as_str());
        let pos = self.locate(&kc);
        let mut e: Vec<(String, T)> = Vec::new();
        std::mem::swap(&mut e, &mut self.entries);
        assert(e@.map_values(|e: (String, T)| (e.0@, e.1)) == s);
        let ghost k = key@;
        match pos {
            Ok(i) => {
                let _old = e.remove(i);
                e.insert(i, (key, value));
                let ghost t = e@.map_values(|e: (String, T)| (e.0@, e.1));
                assert(t =~= s.update(i as int, (k, value)));
                proof {
                    assert forall|a: int, b: int| 0 <= a < b < t.len() implies text_lt(
                        #[trigger] t[a].0,
                        #[trigger] t[b].0,
                    ) by {
                        assert(text_lt(s[a].0, s[b].0));
                    }
                    Self::lemma_replace_map(s, t, i as int, k, value);
                }
            },
            Err(p) => {
                e.insert(p, (key, value));
                let ghost t = e@.map_values(|e: (String, T)| (e.0@, e.1));
                assert(t =~= s.insert(p as int, (k, value)));
                proof {
                    assert forall|a: int, b: int| 0 <= a < b < t.len() implies text_lt(
                        #[trigger] t[a].0,
                        #[trigger] t[b].0,
                    ) by {
                        if b < p {
                            assert(text_lt(s[a].0, s[b].0));
                        } else if b == p {
                            assert(text_lt(s[a].0, k));
                        } else if a == p {
                            assert(text_lt(k, s[b - 1].0));
                        } else if a < p {
                            assert(text_lt(s[a].0, s[b - 1].0));
                        } else {
                            assert(text_lt(s[a - 1].0, s[b - 1].0));
                        }
                    }
                    Self::lemma_insert_map(s, t, p as int, k, value);
                }
            },
        }
        self.entries = e;
    }

    proof fn lemma_replace_map(
        s: Seq<(Seq<char>, T)>,
        t: Seq<(Seq<char>, T)>,
        i: int,
        k: Seq<char>,
        v: T,
    )
        requires
            keys_sorted(s),
            keys_sorted(t),
            0 <= i < s.len(),
            s[i].0 == k,
            t == s.update(i, (k, v)),
        ensures
            table_map(t) == table_map(s).insert(k, v),
    {
        let m = table_map(s).insert(k, v);
        assert forall|x: Seq<char>| #[trigger] m.dom().contains(x) implies table_map(
            t,
        ).dom().contains(x) && table_map(t)[x] == m[x] by {
            if x == k {
                lemma_table_map_entry(t, i);
            } else {
                let j = choose|j: int| 0 <= j < s.len() && #[trigger] s[j].0 == x;
                lemma_table_map_entry(s, j);
                lemma_table_map_entry(t, j);
            }
        }
        assert forall|x: Seq<char>| #[trigger] table_map(t).dom().contains(x) implies m.dom().contains(
            x,
        ) by {
            let j = choose|j: int| 0 <= j < t.len() && #[trigger] t[j].0 == x;
            if j != i {
                lemma_table_map_entry(s, j);
            }
        }
        assert(table_map(t) =~= m);
    }

    proof fn lemma_insert_map(
        s: Seq<(Seq<char>, T)>,
        t: Seq<(Seq<char>, T)>,
        p: int,
        k: Seq<char>,
        v: T,
    )
        requires
            keys_sorted(s),
            keys_sorted(t),
            0 <= p <= s.len(),
            t == s.insert(p, (k, v)),
        ensures
            table_map(t) == table_map(s).insert(k, v),
    {
        let m = table_map(s).insert(k, v);
        assert forall|x: Seq<char>| #[trigger] m.dom().contains(x) implies table_map(
            t,
        ).dom().contains(x) && table_map(t)[x] == m[x] by {
            if x == k {
                lemma_table_map_entry(t, p);
            } else {
                let j = choose|j: int| 0 <= j < s.len() && #[trigger] s[j].0 == x;
                lemma_table_map_entry(s, j);
                if j < p {
                    lemma_table_map_entry(t, j);
                } else {
                    assert(t[j + 1] == s[j]);
                    lemma_table_map_entry(t, j + 1);
                }
            }
        }
        assert forall|x: Seq<char>| #[trigger] table_map(t).dom().contains(x) implies m.dom().contains(
            x,
        ) by {
            let j = choose|j: int| 0 <= j < t.len() && #[trigger] t[j].0 == x;
            if j < p {
                lemma_table_map_entry(s, j);
            } else if j > p {
                assert(t[j] == s[j - 1]);
                lemma_table_map_entry(s, j - 1);
            }
        }
        assert(table_map(t) =~= m);
    }

    /// Takes out the entry of `key`, if there is one, and gives back its value.
    pub fn remove(&mut self, key: &str) -> (r: Option<T>)
        ensures
            keys_sorted(final(self)@),
            table_map(final(self)@) == table_map(old(self)@).remove(key@),
            match r {
                Some(v) => table_map(old(self)@).dom().contains(key@) && v == table_map(
                    old(self)@,
                )[key@],
                None => !table_map(old(self)@).dom().contains(key@),
            },
    {
        proof {
            use_type_invariant(&*self);
        }
        let ghost s = self@;
        let kc = chars_of(key);
        let pos = self.locate(&kc);
        match pos {
            Err(p) => {
                proof {
                    if has_key(s, key@) {
                        let j = choose|j: int| 0 <= j < s.len() && #[trigger] s[j].0 == key@;
                        if j < p {
                            lemma_text_lt_irreflexive(key@);
                        } else {
                            lemma_text_lt_irreflexive(key@);
                        }
                    }
                    assert(table_map(s).remove(key@) =~= table_map(s));
                }
                None
            },
            Ok(i) => {
                let mut e: Vec<(String, T)> = Vec::new();
                std::mem::swap(&mut e, &mut self.entries);
                assert(e@.map_values(|e: (String, T)| (e.0@, e.1)) == s);
                let (_k, v) = e.remove(i);
                let ghost t = e@.map_values(|e: (String, T)| (e.0@, e.1));
                assert(t =~= s.remove(i as int));
                proof {
                    assert forall|a: int, b: int| 0 <= a < b < t.len() implies text_lt(
                        #[trigger] t[a].0,
                        #[trigger] t[b].0,
                    ) by {
                        if b < i {
                            assert(text_lt(s[a].0, s[b].0));
                        } else if a < i {
                            assert(text_lt(s[a].0, s[b + 1].0));
                        } else {
                            assert(text_lt(s[a + 1].0, s[b + 1].0));
                        }
                    }
                    lemma_table_map_entry(s, i as int);
                    let m = table_map(s).remove(key@);
                    assert forall|x: Seq<char>| #[trigger] m.dom().contains(x) implies table_map(
                        t,
                    ).dom().contains(x) && table_map(t)[x] == m[x] by {
                        let j = choose|j: int| 0 <= j < s.len() && #[trigger] s[j].0 == x;
                        lemma_table_map_entry(s, j);
                        if j < i {
                            lemma_table_map_entry(t, j);
                        } else {
                            assert(j != i);
                            assert(t[j - 1] == s[j]);
                            lemma_table_map_entry(t, j - 1);
                        }
                    }
                    assert forall|x: Seq<char>| #[trigger] table_map(t).dom().contains(
                        x,
                    ) implies m.dom().contains(x) by {
                        let j = choose|j: int| 0 <= j < t.len() && #[trigger] t[j].0 == x;
                        if j < i {
                            lemma_table_map_entry(s, j);
                            lemma_sorted_keys_distinct(s, j, i as int);
                        } else {
                            assert(t[j] == s[j + 1]);
                            lemma_table_map_entry(s, j + 1);
                            lemma_sorted_keys_distinct(s, j + 1, i as int);
                        }
                    }
                    assert(table_map(t) =~= m);
                }
                self.entries = e;
                Some(v)
            },
        }
    }
}

} // verus!
