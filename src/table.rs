//! An ordered table from names to texts. Inserting a name that is already
//! present replaces its text in place; a new name goes at the end.
use vstd::prelude::*;
use crate::text::{chars_of, same_chars, string_of};

verus! {

pub type Entries = Seq<(Seq<char>, Seq<char>)>;

/// The index of the first entry named `k` at or after `i`, or -1.
pub open spec fn key_pos_from(s: Entries, k: Seq<char>, i: int) -> int
    decreases s.len() - i,
{
    if i < 0 || i >= s.len() {
        -1
    } else if s[i].0 == k {
        i
    } else {
        key_pos_from(s, k, i + 1)
    }
}

pub open spec fn key_pos(s: Entries, k: Seq<char>) -> int {
    key_pos_from(s, k, 0)
}

/// The text stored under `k`.
pub open spec fn lookup(s: Entries, k: Seq<char>) -> Option<Seq<char>> {
    let p = key_pos(s, k);
    if 0 <= p < s.len() {
        Some(s[p].1)
    } else {
        None
    }
}

/// `s` with `k` bound to `v`: in place if `k` is present, else at the end.
pub open spec fn insert(s: Entries, k: Seq<char>, v: Seq<char>) -> Entries {
    let p = key_pos(s, k);
    if 0 <= p < s.len() {
        s.update(p, (k, v))
    } else {
        s.push((k, v))
    }
}

proof fn lemma_key_pos_from(s: Entries, k: Seq<char>, i: int)
    requires
        0 <= i <= s.len(),
    ensures
        key_pos_from(s, k, i) == -1 || (i <= key_pos_from(s, k, i) < s.len() && s[key_pos_from(
            s,
            k,
            i,
        )].0 == k),
        key_pos_from(s, k, i) == -1 ==> forall|j: int| i <= j < s.len() ==> #[trigger] s[j].0 != k,
        forall|j: int| i <= j < key_pos_from(s, k, i) ==> #[trigger] s[j].0 != k,
    decreases s.len() - i,
{
    if i < s.len() && s[i].0 != k {
        lemma_key_pos_from(s, k, i + 1);
    }
}

/// The first index in `s` named `k`, characterised without recursion.
pub proof fn lemma_key_pos(s: Entries, k: Seq<char>)
    ensures
        key_pos(s, k) == -1 || (0 <= key_pos(s, k) < s.len() && s[key_pos(s, k)].0 == k),
        key_pos(s, k) == -1 <==> forall|j: int| 0 <= j < s.len() ==> #[trigger] s[j].0 != k,
        forall|j: int| 0 <= j < key_pos(s, k) ==> #[trigger] s[j].0 != k,
{
    lemma_key_pos_from(s, k, 0);
}

/// After binding `k` to `v`, looking up `k` gives `v`, and every other name
/// keeps its text.
pub proof fn lemma_lookup_insert(s: Entries, k: Seq<char>, v: Seq<char>, q: Seq<char>)
    ensures
        lookup(insert(s, k, v), q) == if q == k {
            Some(v)
        } else {
            lookup(s, q)
        },
{
    let t = insert(s, k, v);
    lemma_key_pos(s, k);
    lemma_key_pos(s, q);
    lemma_key_pos(t, q);
    let p = key_pos(s, k);
    if q == k {
        if p >= 0 {
            assert(t[p].0 == k);
            if key_pos(t, q) < p {
                assert(t[key_pos(t, q)].0 == s[key_pos(t, q)].0);
            }
        } else {
            assert(t[s.len() as int].0 == k);
            if key_pos(t, q) < s.len() {
                assert(t[key_pos(t, q)].0 == s[key_pos(t, q)].0);
            }
        }
    } else {
        let pq = key_pos(s, q);
        if pq >= 0 {
            assert(t[pq].0 == q);
            if key_pos(t, q) < pq {
                assert(t[key_pos(t, q)].0 == s[key_pos(t, q)].0);
            }
        } else {
            assert forall|j: int| 0 <= j < t.len() implies #[trigger] t[j].0 != q by {
                if j < s.len() {
                    assert(s[j].0 != q);
                }
            }
        }
    }
}

/// An ordered table of named texts.
pub struct Table {
    entries: Vec<(Vec<char>, Vec<char>)>,
}

impl View for Table {
    type V = Entries;

    closed spec fn view(&self) -> Entries {
        Seq::new(self.entries@.len(), |i: int| (self.entries@[i].0@, self.entries@[i].1@))
    }
}

impl Table {
    /// An empty table.
    pub fn new() -> (r: Table)
        ensures
            r@ == Seq::<(Seq<char>, Seq<char>)>::empty(),
    {
        let r = Table { entries: Vec::new() };
        assert(r@ =~= Seq::<(Seq<char>, Seq<char>)>::empty());
        r
    }

    /// The number of names in the table.
    pub fn len(&self) -> (r: usize)
        ensures
            r == self@.len(),
    {
        self.entries.len()
    }

    pub(crate) fn position(&self, k: &Vec<char>) -> (r: Option<usize>)
        ensures
            match r {
                Some(p) => p == key_pos(self@, k@) && p < self@.len(),
                None => key_pos(self@, k@) == -1,
            },
    {
        proof {
            lemma_key_pos(self@, k@);
        }
        let mut i: usize = 0;
        while i < self.entries.len()
            invariant
                i <= self.entries@.len(),
                self@.len() == self.entries@.len(),
                key_pos(self@, k@) == key_pos_from(self@, k@, i as int),
            decreases self.entries.len() - i,
        {
            if same_chars(&self.entries[i].0, k) {
                return Some(i);
            }
            i = i + 1;
        }
        None
    }

    pub(crate) fn entry(&self, i: usize) -> (r: (&Vec<char>, &Vec<char>))
        requires
            i < self@.len(),
        ensures
            (r.0@, r.1@) == self@[i as int],
    {
        (&self.entries[i].0, &self.entries[i].1)
    }

    pub(crate) fn get_chars(&self, k: &Vec<char>) -> (r: Option<&Vec<char>>)
        ensures
            match r {
                Some(v) => lookup(self@, k@) == Some(v@),
                None => lookup(self@, k@) is None,
            },
    {
        assert(self@.len() == self.entries@.len());
        match self.position(k) {
            Some(p) => Some(&self.entries[p].1),
            None => None,
        }
    }

    pub(crate) fn insert_chars(&mut self, k: Vec<char>, v: Vec<char>)
        ensures
            final(self)@ == insert(old(self)@, k@, v@),
    {
        let ghost k0 = k@;
        assert(self@.len() == self.entries@.len());
        let ghost v0 = v@;
        match self.position(&k) {
            Some(p) => {
                self.entries.set(p, (k, v));
                assert(self@ =~= insert(old(self)@, k0, v0));
            },
            None => {
                self.entries.push((k, v));
                assert(self@ =~= insert(old(self)@, k0, v0));
            },
        }
    }

    /// Binds `name` to `value`, replacing an earlier binding of `name`.
    pub fn insert(&mut self, name: &str, value: &str)
        ensures
            final(self)@ == insert(old(self)@, name@, value@),
    {
        let k = chars_of(name);
        let v = chars_of(value);
        self.insert_chars(k, v);
    }

    /// The text bound to `name`.
    pub fn get(&self, name: &str) -> (r: Option<String>)
        ensures
            match r {
                Some(v) => lookup(self@, name@) == Some(v@),
                None => lookup(self@, name@) is None,
            },
    {
        let k = chars_of(name);
        match self.get_chars(&k) {
            Some(v) => Some(string_of(v)),
            None => None,
        }
    }
}

} // verus!
