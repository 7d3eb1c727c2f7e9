//! The response's header mapping: lowercase keys, each held once, looked up
//! and updated by a linear scan over the entry list.

use vstd::prelude::*;

verus! {

/// The value of the first entry whose key is `k`, if any.
pub open spec fn lookup(es: Seq<(Seq<char>, Seq<char>)>, k: Seq<char>) -> Option<Seq<char>>
    decreases es.len(),
{
    if es.len() == 0 {
        None
    } else if es[0].0 == k {
        Some(es[0].1)
    } else {
        lookup(es.skip(1), k)
    }
}

/// `es` with `(k, v)` set: the first entry keyed `k` is replaced, or the
/// pair is appended when no entry has that key.
pub open spec fn insert_entry(
    es: Seq<(Seq<char>, Seq<char>)>,
    k: Seq<char>,
    v: Seq<char>,
) -> Seq<(Seq<char>, Seq<char>)>
    decreases es.len(),
{
    if es.len() == 0 {
        seq![(k, v)]
    } else if es[0].0 == k {
        seq![(k, v)] + es.skip(1)
    } else {
        seq![es[0]] + insert_entry(es.skip(1), k, v)
    }
}

/// `es` without its first entry keyed `k`, if there is one.
pub open spec fn remove_entry(es: Seq<(Seq<char>, Seq<char>)>, k: Seq<char>) -> Seq<
    (Seq<char>, Seq<char>),
>
    decreases es.len(),
{
    if es.len() == 0 {
        es
    } else if es[0].0 == k {
        es.skip(1)
    } else {
        seq![es[0]] + remove_entry(es.skip(1), k)
    }
}

/// No two entries share a key.
pub open spec fn unique_keys(es: Seq<(Seq<char>, Seq<char>)>) -> bool {
    forall|i: int, j: int| 0 <= i < j < es.len() ==> es[i].0 != es[j].0
}

/// A set of response headers. Field names (the keys) are lowercase and each
/// appears at most once; the order entries were first inserted in is kept but
/// carries no meaning.
pub struct Headers {
    entries: Vec<(String, String)>,
}

impl View for Headers {
    type V = Seq<(Seq<char>, Seq<char>)>;

    closed spec fn view(&self) -> Seq<(Seq<char>, Seq<char>)> {
        Seq::new(self.entries@.len(), |i: int| (self.entries@[i].0@, self.entries@[i].1@))
    }
}

impl Headers {
    pub open spec fn wf(&self) -> bool {
        unique_keys(self@)
    }

    pub fn new() -> (r: Headers)
        ensures
            r@ == Seq::<(Seq<char>, Seq<char>)>::empty(),
            r.wf(),
    {
        let r = Headers { entries: Vec::new() };
        proof {
            assert(r@ =~= Seq::<(Seq<char>, Seq<char>)>::empty());
        }
        r
    }

    /// How many headers are held.
    pub fn len(&self) -> (r: usize)
        ensures
            r == self@.len(),
    {
        self.entries.len()
    }

    /// The entry at position `i`, for walking all headers.
    pub fn entry_at(&self, i: usize) -> (r: (&String, &String))
        requires
            i < self@.len(),
        ensures
            r.0@ == self@[i as int].0,
            r.1@ == self@[i as int].1,
    {
        (&self.entries[i].0, &self.entries[i].1)
    }

    /// The value stored under `key`, if any.
    pub fn get(&self, key: &str) -> (r: Option<&String>)
        ensures
            match r {
                Some(v) => lookup(self@, key@) == Some(v@),
                None => lookup(self@, key@) is None,
            },
    {
        let n = self.entries.len();
        let mut i: usize = 0;
        proof {
            assert(self@.skip(0) =~= self@);
        }
        while i < n
            invariant
                i <= n,
                n == self@.len(),
                lookup(self@, key@) == lookup(self@.skip(i as int), key@),
            decreases n - i,
        {
            proof {
                assert(self@.skip(i as int)[0] == self@[i as int]);
            }
            if crate::parse::str_eq(self.entries[i].0.as_str(), key) {
                return Some(&self.entries[i].1);
            }
            proof {
                assert(self@.skip(i as int).skip(1) =~= self@.skip(i as int + 1));
            }
            i += 1;
        }
        proof {
            assert(self@.skip(n as int) =~= Seq::<(Seq<char>, Seq<char>)>::empty());
        }
        None
    }

    /// Sets `key` to `value`, replacing an existing entry of that key.
    pub fn insert(&mut self, key: String, value: String)
        requires
            old(self).wf(),
        ensures
            final(self)@ == insert_entry(old(self)@, key@, value@),
            final(self).wf(),
    {
        let n = self.entries.len();
        let mut i: usize = 0;
        while i < n
            invariant
                i <= n,
                n == self@.len(),
                self == old(self),
                old(self).wf(),
                forall|j: int| 0 <= j < i ==> self@[j].0 != key@,
            decreases n - i,
        {
            if crate::parse::str_eq(self.entries[i].0.as_str(), key.as_str()) {
                proof {
                    assert(old(self)@[i as int].0 == key@);
                }
                self.entries[i] = (key, value);
                proof {
                    lemma_insert_found(old(self)@, key@, value@, i as int);
                    assert(self@ =~= old(self)@.update(i as int, (key@, value@)));
                }
                return ;
            }
            i += 1;
        }
        self.entries.push((key, value));
        proof {
            lemma_insert_append(old(self)@, key@, value@);
            assert(self@ =~= old(self)@ + seq![(key@, value@)]);
        }
    }

    /// Removes the entry stored under `key`, if any.
    pub fn remove(&mut self, key: &str)
        requires
            old(self).wf(),
        ensures
            final(self)@ == remove_entry(old(self)@, key@),
            final(self).wf(),
    {
        let n = self.entries.len();
        let mut i: usize = 0;
        while i < n
            invariant
                i <= n,
                n == self@.len(),
                self == old(self),
                old(self).wf(),
                forall|j: int| 0 <= j < i ==> self@[j].0 != key@,
            decreases n - i,
        {
            if crate::parse::str_eq(self.entries[i].0.as_str(), key) {
                self.entries.remove(i);
                proof {
                    lemma_remove_found(old(self)@, key@, i as int);
                    assert(self@ =~= old(self)@.remove(i as int));
                }
                return ;
            }
            i += 1;
        }
        proof {
            lemma_remove_missing(old(self)@, key@);
        }
    }
}

/// Replacing the first (and, with unique keys, only) entry keyed `k` is an
/// in-place update.
proof fn lemma_insert_found(es: Seq<(Seq<char>, Seq<char>)>, k: Seq<char>, v: Seq<char>, i: int)
    requires
        0 <= i < es.len(),
        es[i].0 == k,
        forall|j: int| 0 <= j < i ==> es[j].0 != k,
        unique_keys(es),
    ensures
        insert_entry(es, k, v) == es.update(i, (k, v)),
        unique_keys(es.update(i, (k, v))),
    decreases i,
{
    if i == 0 {
        assert(insert_entry(es, k, v) =~= es.update(0, (k, v)));
    } else {
        assert(unique_keys(es.skip(1))) by {
            assert(forall|a: int| 0 <= a < es.skip(1).len() ==> #[trigger] es.skip(1)[a] == es[a
                + 1]);
        }
        lemma_insert_found(es.skip(1), k, v, i - 1);
        assert(insert_entry(es, k, v) =~= es.update(i, (k, v))) by {
            assert(es.skip(1).update(i - 1, (k, v)) =~= es.update(i, (k, v)).skip(1));
        }
    }
    assert(unique_keys(es.update(i, (k, v)))) by {
        assert(forall|j: int|
            0 <= j < es.len() && j != i ==> es.update(i, (k, v))[j] == es[j] && es[j].0 != k);
    }
}

/// Inserting a key no entry holds appends the pair.
proof fn lemma_insert_append(es: Seq<(Seq<char>, Seq<char>)>, k: Seq<char>, v: Seq<char>)
    requires
        forall|j: int| 0 <= j < es.len() ==> es[j].0 != k,
        unique_keys(es),
    ensures
        insert_entry(es, k, v) == es + seq![(k, v)],
        unique_keys(es + seq![(k, v)]),
    decreases es.len(),
{
    if es.len() == 0 {
        assert(insert_entry(es, k, v) =~= es + seq![(k, v)]);
    } else {
        assert(unique_keys(es.skip(1))) by {
            assert(forall|a: int| 0 <= a < es.skip(1).len() ==> #[trigger] es.skip(1)[a] == es[a
                + 1]);
        }
        lemma_insert_append(es.skip(1), k, v);
        assert(insert_entry(es, k, v) =~= es + seq![(k, v)]) by {
            assert(es.skip(1) + seq![(k, v)] =~= (es + seq![(k, v)]).skip(1));
        }
    }
    assert(unique_keys(es + seq![(k, v)])) by {
        assert(forall|j: int| 0 <= j < es.len() ==> (es + seq![(k, v)])[j] == es[j]);
        assert((es + seq![(k, v)])[es.len() as int] == (k, v));
    }
}

/// Removing the first entry keyed `k` deletes exactly that position.
proof fn lemma_remove_found(es: Seq<(Seq<char>, Seq<char>)>, k: Seq<char>, i: int)
    requires
        0 <= i < es.len(),
        es[i].0 == k,
        forall|j: int| 0 <= j < i ==> es[j].0 != k,
        unique_keys(es),
    ensures
        remove_entry(es, k) == es.remove(i),
        unique_keys(es.remove(i)),
    decreases i,
{
    if i == 0 {
        assert(remove_entry(es, k) =~= es.remove(0));
    } else {
        assert(unique_keys(es.skip(1))) by {
            assert(forall|a: int| 0 <= a < es.skip(1).len() ==> #[trigger] es.skip(1)[a] == es[a
                + 1]);
        }
        lemma_remove_found(es.skip(1), k, i - 1);
        assert(remove_entry(es, k) =~= es.remove(i)) by {
            assert(es.skip(1).remove(i - 1) =~= es.remove(i).skip(1));
        }
    }
    assert(unique_keys(es.remove(i))) by {
        assert(forall|j: int|
            0 <= j < es.remove(i).len() ==> es.remove(i)[j] == (if j < i {
                es[j]
            } else {
                es[j + 1]
            }));
    }
}

/// Removing a key no entry holds leaves the entries unchanged.
proof fn lemma_remove_missing(es: Seq<(Seq<char>, Seq<char>)>, k: Seq<char>)
    requires
        forall|j: int| 0 <= j < es.len() ==> es[j].0 != k,
    ensures
        remove_entry(es, k) == es,
    decreases es.len(),
{
    if es.len() == 0 {
    } else {
        lemma_remove_missing(es.skip(1), k);
        assert(remove_entry(es, k) =~= es) by {
            assert(seq![es[0]] + es.skip(1) =~= es);
        }
    }
}

} // verus!
