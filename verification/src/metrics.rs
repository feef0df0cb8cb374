//! Named counters for monitoring dispatch and collection activity.

use vstd::prelude::*;

use crate::error::Error;

verus! {

/// No key occurs twice among the stored pairs.
pub open spec fn keys_unique(s: Seq<(String, i64)>) -> bool {
    forall|p: int, q: int|
        0 <= p < q < s.len() ==> #[trigger] s[p].0@ != #[trigger] s[q].0@
}

/// Some stored pair carries the key `k`.
pub open spec fn seq_contains_key(s: Seq<(String, i64)>, k: Seq<char>) -> bool {
    exists|p: int| 0 <= p < s.len() && #[trigger] s[p].0@ == k
}

/// The counter stored under key `k`, or zero where none exists yet.
pub open spec fn seq_count_of(s: Seq<(String, i64)>, k: Seq<char>) -> int {
    if seq_contains_key(s, k) {
        s[choose|p: int| 0 <= p < s.len() && #[trigger] s[p].0@ == k].1 as int
    } else {
        0
    }
}

/// With no key twice, the pair at a known position is the one its key's
/// counter is read from.
proof fn lemma_count_at(s: Seq<(String, i64)>, p: int)
    requires
        keys_unique(s),
        0 <= p < s.len(),
    ensures
        seq_contains_key(s, s[p].0@),
        seq_count_of(s, s[p].0@) == s[p].1 as int,
{
    let k = s[p].0@;
    assert(seq_contains_key(s, k));
    let q = choose|q: int| 0 <= q < s.len() && #[trigger] s[q].0@ == k;
    if p < q {
        assert(s[p].0@ != s[q].0@);
    }
    if q < p {
        assert(s[q].0@ != s[p].0@);
    }
}

/// Replacing the pair at `p` by one with the same key leaves every other
/// key's presence and counter unchanged.
proof fn lemma_update_frame(s1: Seq<(String, i64)>, s2: Seq<(String, i64)>, p: int)
    requires
        keys_unique(s1),
        0 <= p < s1.len(),
        s2.len() == s1.len(),
        forall|i: int| 0 <= i < s1.len() ==> #[trigger] s2[i].0@ == s1[i].0@,
        forall|i: int| 0 <= i < s1.len() && i != p ==> #[trigger] s2[i] == s1[i],
    ensures
        keys_unique(s2),
        forall|k: Seq<char>|
            k != s1[p].0@ ==> #[trigger] seq_count_of(s2, k) == seq_count_of(s1, k),
        forall|k: Seq<char>|
            k != s1[p].0@ ==> (#[trigger] seq_contains_key(s2, k) <==> seq_contains_key(s1, k)),
{
    assert forall|k: Seq<char>| k != s1[p].0@ implies (#[trigger] seq_contains_key(s2, k)
        <==> seq_contains_key(s1, k)) by {
        if seq_contains_key(s1, k) {
            let q = choose|q: int| 0 <= q < s1.len() && #[trigger] s1[q].0@ == k;
            assert(s2[q].0@ == k);
        }
        if seq_contains_key(s2, k) {
            let q = choose|q: int| 0 <= q < s2.len() && #[trigger] s2[q].0@ == k;
            assert(s1[q].0@ == k);
        }
    };
    assert forall|k: Seq<char>| k != s1[p].0@ implies #[trigger] seq_count_of(s2, k)
        == seq_count_of(s1, k) by {
        if seq_contains_key(s1, k) {
            let q = choose|q: int| 0 <= q < s1.len() && #[trigger] s1[q].0@ == k;
            assert(q != p);
            assert(s2[q] == s1[q]);
            lemma_count_at(s1, q);
            lemma_count_at(s2, q);
        }
    };
}

/// Appending a pair whose key is new keeps the keys unique, stores its
/// counter under its key, and leaves every other key unchanged.
proof fn lemma_push_frame(s1: Seq<(String, i64)>, x: (String, i64))
    requires
        keys_unique(s1),
        !seq_contains_key(s1, x.0@),
    ensures
        keys_unique(s1.push(x)),
        seq_contains_key(s1.push(x), x.0@),
        seq_count_of(s1.push(x), x.0@) == x.1 as int,
        forall|k: Seq<char>|
            k != x.0@ ==> #[trigger] seq_count_of(s1.push(x), k) == seq_count_of(s1, k),
        forall|k: Seq<char>|
            k != x.0@ ==> (#[trigger] seq_contains_key(s1.push(x), k) <==> seq_contains_key(
                s1,
                k,
            )),
{
    let s2 = s1.push(x);
    assert(s2[s1.len() as int].0@ == x.0@);
    assert(keys_unique(s2));
    lemma_count_at(s2, s1.len() as int);
    assert forall|k: Seq<char>| k != x.0@ implies (#[trigger] seq_contains_key(s2, k)
        <==> seq_contains_key(s1, k)) by {
        if seq_contains_key(s1, k) {
            let q = choose|q: int| 0 <= q < s1.len() && #[trigger] s1[q].0@ == k;
            assert(s2[q].0@ == k);
        }
        if seq_contains_key(s2, k) {
            let q = choose|q: int| 0 <= q < s2.len() && #[trigger] s2[q].0@ == k;
            assert(q != s1.len());
            assert(s1[q].0@ == k);
        }
    };
    assert forall|k: Seq<char>| k != x.0@ implies #[trigger] seq_count_of(s2, k) == seq_count_of(
        s1,
        k,
    ) by {
        if seq_contains_key(s1, k) {
            let q = choose|q: int| 0 <= q < s1.len() && #[trigger] s1[q].0@ == k;
            lemma_count_at(s1, q);
            lemma_count_at(s2, q);
        }
    };
}

/// A mapping from string keys to signed counters.
#[derive(Debug)]
pub struct Metrics {
    data: Vec<(String, i64)>,
}

impl Metrics {
    /// The stored key/counter pairs.
    pub closed spec fn pairs(&self) -> Seq<(String, i64)> {
        self.data@
    }

    /// Well-formedness: no key occurs twice.
    pub open spec fn wf(&self) -> bool {
        keys_unique(self.pairs())
    }

    /// Whether a counter named `k` exists.
    pub open spec fn contains_key(&self, k: Seq<char>) -> bool {
        seq_contains_key(self.pairs(), k)
    }

    /// The counter named `k`, or zero where none exists yet.
    pub open spec fn count_of(&self, k: Seq<char>) -> int {
        seq_count_of(self.pairs(), k)
    }

    /// An empty set of counters.
    pub fn new() -> (m: Self)
        ensures
            m.wf(),
            m.pairs().len() == 0,
    {
        Metrics { data: Vec::new() }
    }

    /// The position of the pair holding `key`, where one exists.
    fn find(&self, key: &String) -> (r: Option<usize>)
        requires
            self.wf(),
        ensures
            match r {
                Some(p) => p < self.pairs().len() && self.pairs()[p as int].0@ == key@,
                None => !self.contains_key(key@),
            },
    {
        let mut p: usize = 0;
        while p < self.data.len()
            invariant
                p <= self.pairs().len(),
                forall|q: int| 0 <= q < p ==> #[trigger] self.pairs()[q].0@ != key@,
            decreases self.data.len() - p,
        {
            if self.data[p].0 == *key {
                return Some(p);
            }
            p = p + 1;
        }
        None
    }

    /// Adds one to the counter named `key`, creating it at one where no
    /// such counter exists yet; at the numeric maximum the counter stays
    /// put instead of overflowing.
    pub fn inc(&mut self, key: String) -> (r: Result<(), Error>)
        requires
            old(self).wf(),
        ensures
            r == Ok::<(), Error>(()),
            final(self).wf(),
            final(self).contains_key(key@),
            final(self).count_of(key@) == (if old(self).count_of(key@) < i64::MAX {
                old(self).count_of(key@) + 1
            } else {
                old(self).count_of(key@)
            }),
            forall|k: Seq<char>|
                k != key@ ==> #[trigger] final(self).count_of(k) == old(self).count_of(k),
            forall|k: Seq<char>|
                k != key@ ==> (#[trigger] final(self).contains_key(k) <==> old(self).contains_key(
                    k,
                )),
    {
        let ghost s1 = self.pairs();
        match self.find(&key) {
            Some(p) => {
                let c: i64 = self.data[p].1;
                let k2 = self.data[p].0.clone();
                let nc: i64 = if c == i64::MAX {
                    c
                } else {
                    c + 1
                };
                proof {
                    lemma_count_at(s1, p as int);
                }
                self.data.set(p, (k2, nc));
                proof {
                    lemma_update_frame(s1, self.pairs(), p as int);
                    lemma_count_at(self.pairs(), p as int);
                }
                Ok(())
            },
            None => {
                self.data.push((key, 1));
                proof {
                    lemma_push_frame(s1, self.pairs()[s1.len() as int]);
                    assert(self.pairs() =~= s1.push(self.pairs()[s1.len() as int]));
                }
                Ok(())
            },
        }
    }

    /// Subtracts one from the counter named `key`, creating it at minus
    /// one where no such counter exists yet; at the numeric minimum the
    /// counter stays put instead of overflowing.
    pub fn dec(&mut self, key: String) -> (r: Result<(), Error>)
        requires
            old(self).wf(),
        ensures
            r == Ok::<(), Error>(()),
            final(self).wf(),
            final(self).contains_key(key@),
            final(self).count_of(key@) == (if old(self).count_of(key@) > i64::MIN {
                old(self).count_of(key@) - 1
            } else {
                old(self).count_of(key@)
            }),
            forall|k: Seq<char>|
                k != key@ ==> #[trigger] final(self).count_of(k) == old(self).count_of(k),
            forall|k: Seq<char>|
                k != key@ ==> (#[trigger] final(self).contains_key(k) <==> old(self).contains_key(
                    k,
                )),
    {
        let ghost s1 = self.pairs();
        match self.find(&key) {
            Some(p) => {
                let c: i64 = self.data[p].1;
                let k2 = self.data[p].0.clone();
                let nc: i64 = if c == i64::MIN {
                    c
                } else {
                    c - 1
                };
                proof {
                    lemma_count_at(s1, p as int);
                }
                self.data.set(p, (k2, nc));
                proof {
                    lemma_update_frame(s1, self.pairs(), p as int);
                    lemma_count_at(self.pairs(), p as int);
                }
                Ok(())
            },
            None => {
                self.data.push((key, -1));
                proof {
                    lemma_push_frame(s1, self.pairs()[s1.len() as int]);
                    assert(self.pairs() =~= s1.push(self.pairs()[s1.len() as int]));
                }
                Ok(())
            },
        }
    }

    /// An owned copy of every key/counter pair.
    pub fn snapshot(&self) -> (r: Result<Vec<(String, i64)>, Error>)
        ensures
            match r {
                Ok(v) => v@ == self.pairs(),
                Err(_) => false,
            },
    {
        let mut out: Vec<(String, i64)> = Vec::new();
        let mut p: usize = 0;
        while p < self.data.len()
            invariant
                p <= self.pairs().len(),
                out@.len() == p,
                forall|q: int| 0 <= q < p ==> #[trigger] out@[q] == self.pairs()[q],
            decreases self.data.len() - p,
        {
            let k2 = self.data[p].0.clone();
            let v2: i64 = self.data[p].1;
            out.push((k2, v2));
            p = p + 1;
        }
        proof {
            assert(out@ =~= self.pairs());
        }
        Ok(out)
    }
}

impl Default for Metrics {
    /// An empty set of counters.
    fn default() -> (m: Self)
        ensures
            m.wf(),
            m.pairs().len() == 0,
    {
        Metrics::new()
    }
}

} // verus!
