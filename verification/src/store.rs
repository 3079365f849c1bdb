//! An in-memory model of one node's slice of the key-value store.
//!
//! The store holds string values under string keys and named sets of
//! strings, the operations the ledger and the aggregator are built on:
//! get, set, delete, an increment that treats the value as a decimal
//! counter, and set add, remove and query. Counter reads fall back to
//! zero when the value is absent or not a number, as the protocol favors
//! availability over strictness on reads.

use vstd::prelude::*;
use vstd::string::StringExecFns;

use crate::codec::encode_int;
use crate::codec::int_to_string;
use crate::codec::lemma_str_int_encode;
use crate::codec::parse_i32;
use crate::codec::str_int;

verus! {

/// No two entries share a key.
pub open spec fn distinct_keys(es: Seq<(String, String)>) -> bool {
    forall|a: int, b: int| 0 <= a < b < es.len() ==> es[a].0@ != es[b].0@
}

/// No two sets share a name.
pub open spec fn distinct_names(es: Seq<(String, Vec<String>)>) -> bool {
    forall|a: int, b: int| 0 <= a < b < es.len() ==> es[a].0@ != es[b].0@
}

/// The views of a vector of strings.
pub open spec fn views_of(ms: Seq<String>) -> Seq<Seq<char>> {
    Seq::new(ms.len(), |j: int| ms[j]@)
}

/// No member occurs twice.
pub open spec fn distinct_members(ms: Seq<Seq<char>>) -> bool {
    forall|a: int, b: int| 0 <= a < b < ms.len() ==> ms[a] != ms[b]
}

/// The value stored under `k`, scanning the entries in order.
pub open spec fn lookup_val(es: Seq<(String, String)>, k: Seq<char>) -> Option<Seq<char>>
    decreases es.len(),
{
    if es.len() == 0 {
        None
    } else if es[0].0@ == k {
        Some(es[0].1@)
    } else {
        lookup_val(es.drop_first(), k)
    }
}

/// The members of the set named `k`, scanning the sets in order.
pub open spec fn lookup_set(es: Seq<(String, Vec<String>)>, k: Seq<char>) -> Option<Seq<Seq<char>>>
    decreases es.len(),
{
    if es.len() == 0 {
        None
    } else if es[0].0@ == k {
        Some(views_of(es[0].1@))
    } else {
        lookup_set(es.drop_first(), k)
    }
}

/// With distinct keys, a lookup is decided by the entry that carries the
/// key, wherever it stands.
proof fn lemma_lookup_val(es: Seq<(String, String)>, k: Seq<char>)
    requires
        distinct_keys(es),
    ensures
        (lookup_val(es, k) is None) <==> (forall|j: int| 0 <= j < es.len() ==> es[j].0@ != k),
        forall|j: int|
            0 <= j < es.len() && es[j].0@ == k ==> lookup_val(es, k) == Some(es[j].1@),
    decreases es.len(),
{
    if es.len() > 0 {
        if es[0].0@ == k {
            assert forall|j: int|
                0 <= j < es.len() && es[j].0@ == k implies lookup_val(es, k) == Some(
                es[j].1@,
            ) by {
                if j != 0 {
                    assert(es[0].0@ != es[j].0@);
                }
            }
        } else {
            let tail = es.drop_first();
            assert(distinct_keys(tail)) by {
                assert forall|a: int, b: int| 0 <= a < b < tail.len() implies tail[a].0@
                    != tail[b].0@ by {
                    assert(tail[a] == es[a + 1]);
                    assert(tail[b] == es[b + 1]);
                }
            }
            lemma_lookup_val(tail, k);
            assert forall|j: int|
                0 <= j < es.len() && es[j].0@ == k implies lookup_val(es, k) == Some(
                es[j].1@,
            ) by {
                assert(j >= 1);
                assert(tail[j - 1] == es[j]);
            }
            if lookup_val(es, k) is None {
                assert forall|j: int| 0 <= j < es.len() implies es[j].0@ != k by {
                    if j >= 1 {
                        assert(tail[j - 1] == es[j]);
                    }
                }
            } else {
                let jx = choose|jx: int| 0 <= jx < tail.len() && tail[jx].0@ == k;
                assert(tail[jx] == es[jx + 1]);
            }
        }
    }
}

/// With distinct names, a set lookup is decided by the set that carries
/// the name, wherever it stands.
proof fn lemma_lookup_set(es: Seq<(String, Vec<String>)>, k: Seq<char>)
    requires
        distinct_names(es),
    ensures
        (lookup_set(es, k) is None) <==> (forall|j: int| 0 <= j < es.len() ==> es[j].0@ != k),
        forall|j: int|
            0 <= j < es.len() && es[j].0@ == k ==> lookup_set(es, k) == Some(views_of(es[j].1@)),
    decreases es.len(),
{
    if es.len() > 0 {
        if es[0].0@ == k {
            assert forall|j: int|
                0 <= j < es.len() && es[j].0@ == k implies lookup_set(es, k) == Some(
                views_of(es[j].1@),
            ) by {
                if j != 0 {
                    assert(es[0].0@ != es[j].0@);
                }
            }
        } else {
            let tail = es.drop_first();
            assert(distinct_names(tail)) by {
                assert forall|a: int, b: int| 0 <= a < b < tail.len() implies tail[a].0@
                    != tail[b].0@ by {
                    assert(tail[a] == es[a + 1]);
                    assert(tail[b] == es[b + 1]);
                }
            }
            lemma_lookup_set(tail, k);
            assert forall|j: int|
                0 <= j < es.len() && es[j].0@ == k implies lookup_set(es, k) == Some(
                views_of(es[j].1@),
            ) by {
                assert(j >= 1);
                assert(tail[j - 1] == es[j]);
            }
            if lookup_set(es, k) is None {
                assert forall|j: int| 0 <= j < es.len() implies es[j].0@ != k by {
                    if j >= 1 {
                        assert(tail[j - 1] == es[j]);
                    }
                }
            } else {
                let jx = choose|jx: int| 0 <= jx < tail.len() && tail[jx].0@ == k;
                assert(tail[jx] == es[jx + 1]);
            }
        }
    }
}

/// The members of a set after removing `m`, if it is there.
pub open spec fn remove_first(ms: Seq<Seq<char>>, m: Seq<char>) -> Seq<Seq<char>>
    decreases ms.len(),
{
    if ms.len() == 0 {
        ms
    } else if ms[0] == m {
        ms.drop_first()
    } else {
        seq![ms[0]] + remove_first(ms.drop_first(), m)
    }
}

proof fn lemma_remove_first_at(ms: Seq<Seq<char>>, m: Seq<char>, j: int)
    requires
        0 <= j < ms.len(),
        ms[j] == m,
        forall|i: int| 0 <= i < j ==> ms[i] != m,
    ensures
        remove_first(ms, m) == ms.remove(j),
    decreases j,
{
    if j == 0 {
        assert(remove_first(ms, m) =~= ms.remove(0));
    } else {
        let tail = ms.drop_first();
        assert(tail[j - 1] == ms[j]);
        assert forall|i: int| 0 <= i < j - 1 implies tail[i] != m by {
            assert(tail[i] == ms[i + 1]);
        }
        lemma_remove_first_at(tail, m, j - 1);
        assert(remove_first(ms, m) =~= ms.remove(j));
    }
}

proof fn lemma_remove_first_absent(ms: Seq<Seq<char>>, m: Seq<char>)
    requires
        forall|i: int| 0 <= i < ms.len() ==> ms[i] != m,
    ensures
        remove_first(ms, m) == ms,
    decreases ms.len(),
{
    if ms.len() > 0 {
        assert forall|i: int| 0 <= i < ms.drop_first().len() implies ms.drop_first()[i] != m by {
            assert(ms.drop_first()[i] == ms[i + 1]);
        }
        lemma_remove_first_absent(ms.drop_first(), m);
        assert(remove_first(ms, m) =~= ms);
    }
}

/// In a well-formed store no set holds a member twice.
pub proof fn lemma_members_distinct(s: Store, name: Seq<char>)
    requires
        s.wf(),
    ensures
        distinct_members(s.members(name)),
{
    lemma_lookup_set(s.sets@, name);
    if lookup_set(s.sets@, name) is Some {
        let jx = choose|jx: int| 0 <= jx < s.sets@.len() && s.sets@[jx].0@ == name;
        assert(lookup_set(s.sets@, name) == Some(views_of(s.sets@[jx].1@)));
    }
}

/// A counter read is always counter-sized, whatever the store holds.
pub proof fn lemma_counter_range(s: Store, k: Seq<char>)
    ensures
        i32::MIN as int <= s.counter(k) <= i32::MAX as int,
{
    match s.val(k) {
        Some(v) => crate::codec::lemma_str_int_range(v),
        None => {},
    }
}

/// One node's slice of the key-value store: string values under string
/// keys, and named sets of strings.
pub struct Store {
    entries: Vec<(String, String)>,
    sets: Vec<(String, Vec<String>)>,
}

impl Store {
    /// Keys and set names are unique, and no set holds a member twice.
    pub closed spec fn wf(self) -> bool {
        &&& distinct_keys(self.entries@)
        &&& distinct_names(self.sets@)
        &&& forall|j: int|
            0 <= j < self.sets@.len() ==> distinct_members(views_of(#[trigger] self.sets@[j].1@))
    }

    /// The value stored under `k`.
    pub closed spec fn val(self, k: Seq<char>) -> Option<Seq<char>> {
        lookup_val(self.entries@, k)
    }

    /// The members of the set named `name`, in insertion order; a set
    /// never added to is empty.
    pub closed spec fn members(self, name: Seq<char>) -> Seq<Seq<char>> {
        match lookup_set(self.sets@, name) {
            None => Seq::empty(),
            Some(ms) => ms,
        }
    }

    /// The counter under `k`: the decimal value stored there, or zero when
    /// the key is absent or its value is not a number.
    pub open spec fn counter(self, k: Seq<char>) -> int {
        match self.val(k) {
            None => 0,
            Some(s) => str_int(s),
        }
    }

    /// An empty store.
    pub fn new() -> (r: Store)
        ensures
            r.wf(),
            forall|k: Seq<char>| #[trigger] r.val(k) is None,
            forall|n: Seq<char>| #[trigger] r.members(n) == Seq::<Seq<char>>::empty(),
    {
        Store { entries: Vec::new(), sets: Vec::new() }
    }

    fn find_member(ms: &Vec<String>, m: &String) -> (r: Option<usize>)
        ensures
            match r {
                Some(j) => j < ms@.len() && ms@[j as int]@ == m@ && (forall|i: int|
                    0 <= i < j ==> ms@[i]@ != m@),
                None => forall|i: int| 0 <= i < ms@.len() ==> ms@[i]@ != m@,
            },
    {
        let mut j: usize = 0;
        while j < ms.len()
            invariant
                j <= ms@.len(),
                forall|i: int| 0 <= i < j ==> ms@[i]@ != m@,
            decreases ms@.len() - j,
        {
            if ms[j] == *m {
                return Some(j);
            }
            j = j + 1;
        }
        None
    }

    fn find_key(&self, k: &String) -> (r: Option<usize>)
        ensures
            match r {
                Some(j) => j < self.entries@.len() && self.entries@[j as int].0@ == k@,
                None => forall|i: int| 0 <= i < self.entries@.len() ==> self.entries@[i].0@ != k@,
            },
    {
        let mut j: usize = 0;
        while j < self.entries.len()
            invariant
                j <= self.entries@.len(),
                forall|i: int| 0 <= i < j ==> self.entries@[i].0@ != k@,
            decreases self.entries@.len() - j,
        {
            if self.entries[j].0 == *k {
                return Some(j);
            }
            j = j + 1;
        }
        None
    }

    fn find_set(&self, k: &String) -> (r: Option<usize>)
        ensures
            match r {
                Some(j) => j < self.sets@.len() && self.sets@[j as int].0@ == k@,
                None => forall|i: int| 0 <= i < self.sets@.len() ==> self.sets@[i].0@ != k@,
            },
    {
        let mut j: usize = 0;
        while j < self.sets.len()
            invariant
                j <= self.sets@.len(),
                forall|i: int| 0 <= i < j ==> self.sets@[i].0@ != k@,
            decreases self.sets@.len() - j,
        {
            if self.sets[j].0 == *k {
                return Some(j);
            }
            j = j + 1;
        }
        None
    }

    /// Reads the value under `k`, if any.
    pub fn get(&self, k: &str) -> (r: Option<String>)
        requires
            self.wf(),
        ensures
            match r {
                None => self.val(k@) is None,
                Some(v) => self.val(k@) == Some(v@),
            },
    {
        let kk = String::from_str(k);
        proof {
            lemma_lookup_val(self.entries@, k@);
        }
        match self.find_key(&kk) {
            Some(j) => Some(self.entries[j].1.clone()),
            None => None,
        }
    }

    /// Writes `v` under `k`, replacing any prior value.
    pub fn set(&mut self, k: &str, v: String)
        requires
            old(self).wf(),
        ensures
            final(self).wf(),
            final(self).val(k@) == Some(v@),
            forall|k2: Seq<char>|
                k2 != k@ ==> #[trigger] final(self).val(k2) == old(self).val(k2),
            forall|n: Seq<char>| #[trigger] final(self).members(n) == old(self).members(n),
    {
        let kk = String::from_str(k);
        let ghost olde = self.entries@;
        match self.find_key(&kk) {
            Some(j) => {
                self.entries[j] = (kk, v);
                proof {
                    let newe = self.entries@;
                    assert(newe == olde.update(j as int, (kk, v)));
                    assert(distinct_keys(newe)) by {
                        assert forall|a: int, b: int| 0 <= a < b < newe.len() implies newe[a].0@
                            != newe[b].0@ by {
                            assert(olde[a].0@ != olde[b].0@);
                        }
                    }
                    Self::lemma_val_update(olde, newe, j as int, k@, v@);
                }
            },
            None => {
                self.entries.push((kk, v));
                proof {
                    let newe = self.entries@;
                    assert(distinct_keys(newe)) by {
                        assert forall|a: int, b: int| 0 <= a < b < newe.len() implies newe[a].0@
                            != newe[b].0@ by {
                            if b < olde.len() {
                                assert(olde[a].0@ != olde[b].0@);
                            } else {
                                assert(olde[a].0@ != k@);
                            }
                        }
                    }
                    Self::lemma_val_update(olde, newe, olde.len() as int, k@, v@);
                }
            },
        }
    }

    /// After replacing or adding the entry at `j` with key `k` and value
    /// `v`, lookups see `v` under `k` and are otherwise unchanged.
    proof fn lemma_val_update(
        olde: Seq<(String, String)>,
        newe: Seq<(String, String)>,
        j: int,
        k: Seq<char>,
        v: Seq<char>,
    )
        requires
            distinct_keys(olde),
            distinct_keys(newe),
            0 <= j < newe.len(),
            newe[j].0@ == k,
            newe[j].1@ == v,
            (j < olde.len() && newe.len() == olde.len()) || (j == olde.len() && newe.len()
                == olde.len() + 1),
            forall|i: int| 0 <= i < newe.len() && i != j ==> newe[i] == olde[i],
            j < olde.len() ==> olde[j].0@ == k,
            j == olde.len() ==> (forall|i: int| 0 <= i < olde.len() ==> olde[i].0@ != k),
        ensures
            lookup_val(newe, k) == Some(v),
            forall|k2: Seq<char>|
                k2 != k ==> #[trigger] lookup_val(newe, k2) == lookup_val(olde, k2),
    {
        lemma_lookup_val(newe, k);
        assert forall|k2: Seq<char>| k2 != k implies #[trigger] lookup_val(newe, k2)
            == lookup_val(olde, k2) by {
            lemma_lookup_val(newe, k2);
            lemma_lookup_val(olde, k2);
            if lookup_val(olde, k2) is None {
                assert forall|i: int| 0 <= i < newe.len() implies newe[i].0@ != k2 by {
                    if i != j {
                        assert(newe[i] == olde[i]);
                    }
                }
            } else {
                let jx = choose|jx: int| 0 <= jx < olde.len() && olde[jx].0@ == k2;
                assert(jx != j);
                assert(newe[jx] == olde[jx]);
                assert(lookup_val(olde, k2) == Some(olde[jx].1@));
                assert(lookup_val(newe, k2) == Some(newe[jx].1@));
            }
        }
    }

    /// Deletes the value under `k`, if any.
    pub fn del(&mut self, k: &str)
        requires
            old(self).wf(),
        ensures
            final(self).wf(),
            final(self).val(k@) is None,
            forall|k2: Seq<char>|
                k2 != k@ ==> #[trigger] final(self).val(k2) == old(self).val(k2),
            forall|n: Seq<char>| #[trigger] final(self).members(n) == old(self).members(n),
    {
        let kk = String::from_str(k);
        let ghost olde = self.entries@;
        match self.find_key(&kk) {
            Some(j) => {
                self.entries.remove(j);
                proof {
                    let newe = self.entries@;
                    assert(newe == olde.remove(j as int));
                    assert(distinct_keys(newe)) by {
                        assert forall|a: int, b: int| 0 <= a < b < newe.len() implies newe[a].0@
                            != newe[b].0@ by {
                            let a0 = if a < j { a } else { a + 1 };
                            let b0 = if b < j { b } else { b + 1 };
                            assert(newe[a] == olde[a0]);
                            assert(newe[b] == olde[b0]);
                            assert(olde[a0].0@ != olde[b0].0@);
                        }
                    }
                    lemma_lookup_val(newe, k@);
                    assert forall|i: int| 0 <= i < newe.len() implies newe[i].0@ != k@ by {
                        let i0 = if i < j { i } else { i + 1 };
                        assert(newe[i] == olde[i0]);
                        if i0 != j {
                            assert(olde[i0].0@ != olde[j as int].0@);
                        }
                    }
                    assert forall|k2: Seq<char>| k2 != k@ implies #[trigger] lookup_val(newe, k2)
                        == lookup_val(olde, k2) by {
                        lemma_lookup_val(newe, k2);
                        lemma_lookup_val(olde, k2);
                        if lookup_val(olde, k2) is None {
                            assert forall|i: int| 0 <= i < newe.len() implies newe[i].0@
                                != k2 by {
                                let i0 = if i < j { i } else { i + 1 };
                                assert(newe[i] == olde[i0]);
                            }
                        } else {
                            let jx = choose|jx: int| 0 <= jx < olde.len() && olde[jx].0@ == k2;
                            assert(jx != j);
                            let jn = if jx < j { jx } else { jx - 1 };
                            assert(newe[jn] == olde[jx]);
                            assert(lookup_val(olde, k2) == Some(olde[jx].1@));
                            assert(lookup_val(newe, k2) == Some(newe[jn].1@));
                        }
                    }
                }
            },
            None => {
                proof {
                    lemma_lookup_val(olde, k@);
                }
            },
        }
    }

    /// Adds `delta` to the counter under `k` and stores and returns the
    /// new value.
    pub fn increment(&mut self, k: &str, delta: i32) -> (r: i32)
        requires
            old(self).wf(),
            i32::MIN as int <= old(self).counter(k@) + delta <= i32::MAX as int,
        ensures
            final(self).wf(),
            r as int == old(self).counter(k@) + delta,
            final(self).counter(k@) == old(self).counter(k@) + delta,
            final(self).val(k@) == Some(encode_int(old(self).counter(k@) + delta)),
            forall|k2: Seq<char>|
                k2 != k@ ==> #[trigger] final(self).val(k2) == old(self).val(k2),
            forall|n: Seq<char>| #[trigger] final(self).members(n) == old(self).members(n),
    {
        let cur: i32 = match self.get(k) {
            None => 0,
            Some(v) => parse_i32(v.as_str()),
        };
        let next = cur + delta;
        self.set(k, int_to_string(next));
        proof {
            lemma_str_int_encode(next as int);
        }
        next
    }

    /// Adds `member` to the set named `name`; adding a member that is
    /// already there changes nothing.
    pub fn set_add(&mut self, name: &str, member: String)
        requires
            old(self).wf(),
        ensures
            final(self).wf(),
            final(self).members(name@) == (if old(self).members(name@).contains(member@) {
                old(self).members(name@)
            } else {
                old(self).members(name@).push(member@)
            }),
            forall|n2: Seq<char>|
                n2 != name@ ==> #[trigger] final(self).members(n2) == old(self).members(n2),
            forall|k: Seq<char>| #[trigger] final(self).val(k) == old(self).val(k),
    {
        let nn = String::from_str(name);
        let ghost olds = self.sets@;
        match self.find_set(&nn) {
            Some(j) => {
                let pair = self.sets.remove(j);
                let (pname, mut ms) = pair;
                let ghost oldms = ms@;
                let fnd = Self::find_member(&ms, &member);
                if fnd.is_none() {
                    ms.push(member);
                }
                proof {
                    if fnd is Some {
                        let mi = fnd.unwrap();
                        assert(views_of(ms@).contains(member@)) by {
                            assert(views_of(ms@)[mi as int] == member@);
                        }
                        assert(views_of(ms@) == views_of(oldms));
                    } else {
                        assert(!views_of(oldms).contains(member@)) by {
                            if views_of(oldms).contains(member@) {
                                let i = choose|i: int|
                                    0 <= i < views_of(oldms).len() && views_of(oldms)[i]
                                        == member@;
                                assert(oldms[i]@ == member@);
                            }
                        }
                        assert(views_of(ms@) =~= views_of(oldms).push(member@));
                    }
                }
                self.sets.insert(j, (pname, ms));
                proof {
                    let news = self.sets@;
                    assert(news =~= olds.update(j as int, news[j as int]));
                    assert(news[j as int].0@ == name@);
                    Self::lemma_set_update(olds, news, j as int, name@);
                    lemma_lookup_set(olds, name@);
                }
            },
            None => {
                let mut ms: Vec<String> = Vec::new();
                ms.push(member);
                self.sets.push((nn, ms));
                proof {
                    let news = self.sets@;
                    assert(views_of(news[olds.len() as int].1@) =~= Seq::<
                        Seq<char>,
                    >::empty().push(member@));
                    assert(distinct_members(views_of(news[olds.len() as int].1@)));
                    Self::lemma_set_update(olds, news, olds.len() as int, name@);
                    lemma_lookup_set(olds, name@);
                    assert(old(self).members(name@) =~= Seq::<Seq<char>>::empty());
                    assert(final(self).members(name@) =~= old(self).members(name@).push(
                        member@,
                    ));
                }
            },
        }
    }

    /// After replacing or adding the set at `j` named `name`, set lookups
    /// see its members under `name` and are otherwise unchanged, and
    /// value lookups are untouched.
    proof fn lemma_set_update(
        olds: Seq<(String, Vec<String>)>,
        news: Seq<(String, Vec<String>)>,
        j: int,
        name: Seq<char>,
    )
        requires
            distinct_names(olds),
            0 <= j < news.len(),
            news[j].0@ == name,
            (j < olds.len() && news.len() == olds.len()) || (j == olds.len() && news.len()
                == olds.len() + 1),
            forall|i: int| 0 <= i < news.len() && i != j ==> news[i] == olds[i],
            j < olds.len() ==> olds[j].0@ == name,
            j == olds.len() ==> (forall|i: int| 0 <= i < olds.len() ==> olds[i].0@ != name),
        ensures
            distinct_names(news),
            lookup_set(news, name) == Some(views_of(news[j].1@)),
            forall|n2: Seq<char>|
                n2 != name ==> #[trigger] lookup_set(news, n2) == lookup_set(olds, n2),
    {
        assert(distinct_names(news)) by {
            assert forall|a: int, b: int| 0 <= a < b < news.len() implies news[a].0@
                != news[b].0@ by {
                if a == j {
                    assert(news[b] == olds[b]);
                    assert(olds[j].0@ != olds[b].0@);
                } else if b == j {
                    assert(news[a] == olds[a]);
                    if j < olds.len() {
                        assert(olds[a].0@ != olds[j].0@);
                    }
                } else {
                    assert(news[a] == olds[a]);
                    assert(news[b] == olds[b]);
                    assert(olds[a].0@ != olds[b].0@);
                }
            }
        }
        lemma_lookup_set(news, name);
        assert forall|n2: Seq<char>| n2 != name implies #[trigger] lookup_set(news, n2)
            == lookup_set(olds, n2) by {
            lemma_lookup_set(news, n2);
            lemma_lookup_set(olds, n2);
            if lookup_set(olds, n2) is None {
                assert forall|i: int| 0 <= i < news.len() implies news[i].0@ != n2 by {
                    if i != j {
                        assert(news[i] == olds[i]);
                    }
                }
            } else {
                let jx = choose|jx: int| 0 <= jx < olds.len() && olds[jx].0@ == n2;
                assert(jx != j);
                assert(news[jx] == olds[jx]);
                assert(lookup_set(olds, n2) == Some(views_of(olds[jx].1@)));
                assert(lookup_set(news, n2) == Some(views_of(news[jx].1@)));
            }
        }
    }

    /// Removes `member` from the set named `name`, if it is there.
    pub fn set_del(&mut self, name: &str, member: &str)
        requires
            old(self).wf(),
        ensures
            final(self).wf(),
            final(self).members(name@) == remove_first(old(self).members(name@), member@),
            forall|n2: Seq<char>|
                n2 != name@ ==> #[trigger] final(self).members(n2) == old(self).members(n2),
            forall|k: Seq<char>| #[trigger] final(self).val(k) == old(self).val(k),
    {
        let nn = String::from_str(name);
        let mm = String::from_str(member);
        let ghost olds = self.sets@;
        match self.find_set(&nn) {
            Some(j) => {
                let pair = self.sets.remove(j);
                let (pname, mut ms) = pair;
                let ghost oldms = ms@;
                let fnd = Self::find_member(&ms, &mm);
                if let Some(mi) = fnd {
                    ms.remove(mi);
                }
                proof {
                    if fnd is Some {
                        let mi = fnd.unwrap();
                        assert(views_of(oldms)[mi as int] == member@);
                        assert forall|i: int| 0 <= i < mi implies views_of(oldms)[i]
                            != member@ by {
                            assert(views_of(oldms)[i] == oldms[i]@);
                        }
                        lemma_remove_first_at(views_of(oldms), member@, mi as int);
                        assert(views_of(ms@) =~= views_of(oldms).remove(mi as int));
                        assert(distinct_members(views_of(ms@))) by {
                            let vold = views_of(oldms);
                            let vnew = views_of(ms@);
                            assert forall|a: int, b: int| 0 <= a < b < vnew.len() implies vnew[a]
                                != vnew[b] by {
                                let a0 = if a < mi { a } else { a + 1 };
                                let b0 = if b < mi { b } else { b + 1 };
                                assert(vnew[a] == vold[a0]);
                                assert(vnew[b] == vold[b0]);
                            }
                        }
                    } else {
                        assert forall|i: int| 0 <= i < views_of(oldms).len() implies views_of(
                            oldms,
                        )[i] != member@ by {
                            assert(views_of(oldms)[i] == oldms[i]@);
                        }
                        lemma_remove_first_absent(views_of(oldms), member@);
                    }
                }
                self.sets.insert(j, (pname, ms));
                proof {
                    let news = self.sets@;
                    assert(news =~= olds.update(j as int, news[j as int]));
                    assert(news[j as int].0@ == name@);
                    Self::lemma_set_update(olds, news, j as int, name@);
                    lemma_lookup_set(olds, name@);
                }
            },
            None => {
                proof {
                    lemma_lookup_set(olds, name@);
                    assert(old(self).members(name@) =~= Seq::<Seq<char>>::empty());
                    lemma_remove_first_absent(old(self).members(name@), member@);
                }
            },
        }
    }

    /// Reads the members of the set named `name`, in insertion order; a
    /// set never added to reads as empty.
    pub fn set_members(&self, name: &str) -> (r: Vec<String>)
        requires
            self.wf(),
        ensures
            views_of(r@) == self.members(name@),
    {
        let nn = String::from_str(name);
        proof {
            lemma_lookup_set(self.sets@, name@);
        }
        match self.find_set(&nn) {
            Some(j) => {
                let ms = &self.sets[j].1;
                let mut r: Vec<String> = Vec::new();
                let mut i: usize = 0;
                while i < ms.len()
                    invariant
                        i <= ms@.len(),
                        r@.len() == i,
                        forall|x: int| 0 <= x < i ==> r@[x]@ == ms@[x]@,
                    decreases ms@.len() - i,
                {
                    r.push(ms[i].clone());
                    i = i + 1;
                }
                proof {
                    assert(views_of(r@) =~= views_of(ms@));
                }
                r
            },
            None => {
                let r: Vec<String> = Vec::new();
                proof {
                    assert(views_of(r@) =~= Seq::<Seq<char>>::empty());
                }
                r
            },
        }
    }
}

} // verus!
