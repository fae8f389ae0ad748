//! In-memory model of the key-value store the core runs against: string
//! entries with an absolute expiry, append-only lists, and sets, the three
//! shapes the store uses. The representation is a log of writes; the views
//! give each key's current string entry, list contents and set membership,
//! and every operation's contract is stated over those views. Expiry is
//! judged against a caller-supplied `now`, so a key's value is a function of
//! the writes and the query instant alone.

use vstd::prelude::*;

verus! {

/// The current string entry for `k`: value and absolute expiry of the last
/// write to `k`, if any.
spec fn lookup_str(log: Seq<(String, String, u64)>, k: Seq<char>) -> Option<
    (Seq<char>, u64),
>
    decreases log.len(),
{
    if log.len() == 0 {
        None
    } else if log.last().0@ == k {
        Some((log.last().1@, log.last().2))
    } else {
        lookup_str(log.drop_last(), k)
    }
}

/// The items appended under `k`, oldest first.
spec fn items_for(log: Seq<(String, String)>, k: Seq<char>) -> Seq<Seq<char>>
    decreases log.len(),
{
    if log.len() == 0 {
        Seq::empty()
    } else {
        let rest = items_for(log.drop_last(), k);
        if log.last().0@ == k {
            rest.push(log.last().1@)
        } else {
            rest
        }
    }
}

/// The members added under `k`.
spec fn members_for(log: Seq<(String, String)>, k: Seq<char>) -> Set<Seq<char>>
    decreases log.len(),
{
    if log.len() == 0 {
        Set::empty()
    } else {
        let rest = members_for(log.drop_last(), k);
        if log.last().0@ == k {
            rest.insert(log.last().1@)
        } else {
            rest
        }
    }
}

/// The key-value store model: a log of string writes (`SET key value EX`),
/// list appends (`RPUSH`) and set additions (`SADD`).
pub struct KvStore {
    strs: Vec<(String, String, u64)>,
    lists: Vec<(String, String)>,
    sets: Vec<(String, String)>,
}

impl KvStore {
    /// The string entry at `k`: its value and absolute expiry, if ever set.
    pub closed spec fn str_at(self, k: Seq<char>) -> Option<(Seq<char>, u64)> {
        lookup_str(self.strs@, k)
    }

    /// The list at `k`, oldest item first; empty if never pushed.
    pub closed spec fn list_at(self, k: Seq<char>) -> Seq<Seq<char>> {
        items_for(self.lists@, k)
    }

    /// The set at `k`; empty if never added to.
    pub closed spec fn set_at(self, k: Seq<char>) -> Set<Seq<char>> {
        members_for(self.sets@, k)
    }

    /// An empty store: no entry under any key.
    pub fn new() -> (r: KvStore)
        ensures
            forall|k: Seq<char>| r.str_at(k) is None,
            forall|k: Seq<char>| r.list_at(k) == Seq::<Seq<char>>::empty(),
            forall|k: Seq<char>| r.set_at(k) == Set::<Seq<char>>::empty(),
    {
        KvStore { strs: Vec::new(), lists: Vec::new(), sets: Vec::new() }
    }

    /// `SET key val` with an absolute expiry: overwrites any previous entry
    /// and resets its expiry. No other key, list or set changes.
    pub fn set_ex(&mut self, key: String, val: String, expires_at: u64)
        ensures
            final(self).str_at(key@) == Some((val@, expires_at)),
            forall|k: Seq<char>| k != key@ ==> final(self).str_at(k) == old(self).str_at(k),
            forall|k: Seq<char>| final(self).list_at(k) == old(self).list_at(k),
            forall|k: Seq<char>| final(self).set_at(k) == old(self).set_at(k),
    {
        let ghost prev = self.strs@;
        self.strs.push((key, val, expires_at));
        proof {
            assert(self.strs@.drop_last() =~= prev);
        }
    }

    /// `GET key` at instant `now`: the last value set, unless the entry has
    /// expired (`now` at or past its expiry) or was never set.
    pub fn get(&self, key: &String, now: u64) -> (r: Option<String>)
        ensures
            match self.str_at(key@) {
                Some(p) => {
                    if now < p.1 {
                        r matches Some(v) && v@ == p.0
                    } else {
                        r is None
                    }
                },
                None => r is None,
            },
    {
        let mut i = self.strs.len();
        proof {
            assert(self.strs@.subrange(0, self.strs@.len() as int) =~= self.strs@);
        }
        while i > 0
            invariant
                i <= self.strs@.len(),
                lookup_str(self.strs@, key@) == lookup_str(
                    self.strs@.subrange(0, i as int),
                    key@,
                ),
            decreases i,
        {
            let e = &self.strs[i - 1];
            if e.0.eq(key) {
                proof {
                    assert(self.strs@.subrange(0, i as int).last() == self.strs@[i - 1]);
                }
                if now < e.2 {
                    return Some(e.1.clone());
                } else {
                    return None;
                }
            }
            proof {
                assert(self.strs@.subrange(0, i as int).drop_last() =~= self.strs@.subrange(
                    0,
                    i - 1,
                ));
            }
            i = i - 1;
        }
        proof {
            assert(self.strs@.subrange(0, 0) =~= Seq::<(String, String, u64)>::empty());
        }
        None
    }

    /// `RPUSH key val`: appends one item to the list at `key`. No other key
    /// changes.
    pub fn rpush(&mut self, key: String, val: String)
        ensures
            final(self).list_at(key@) == old(self).list_at(key@).push(val@),
            forall|k: Seq<char>| k != key@ ==> final(self).list_at(k) == old(self).list_at(k),
            forall|k: Seq<char>| final(self).str_at(k) == old(self).str_at(k),
            forall|k: Seq<char>| final(self).set_at(k) == old(self).set_at(k),
    {
        let ghost prev = self.lists@;
        self.lists.push((key, val));
        proof {
            assert(self.lists@.drop_last() =~= prev);
        }
    }

    /// `LRANGE key 0 -1`: the whole list at `key`, oldest first.
    pub fn lrange_all(&self, key: &String) -> (r: Vec<String>)
        ensures
            r@.len() == self.list_at(key@).len(),
            forall|i: int| 0 <= i < r@.len() ==> #[trigger] r@[i]@ == self.list_at(key@)[i],
    {
        let mut out: Vec<String> = Vec::new();
        let mut i: usize = 0;
        while i < self.lists.len()
            invariant
                i <= self.lists@.len(),
                out@.len() == items_for(self.lists@.subrange(0, i as int), key@).len(),
                forall|j: int|
                    0 <= j < out@.len() ==> #[trigger] out@[j]@ == items_for(
                        self.lists@.subrange(0, i as int),
                        key@,
                    )[j],
            decreases self.lists@.len() - i,
        {
            proof {
                assert(self.lists@.subrange(0, i + 1).drop_last() =~= self.lists@.subrange(
                    0,
                    i as int,
                ));
                assert(self.lists@.subrange(0, i + 1).last() == self.lists@[i as int]);
            }
            let e = &self.lists[i];
            if e.0.eq(key) {
                out.push(e.1.clone());
            }
            i = i + 1;
        }
        proof {
            assert(self.lists@.subrange(0, self.lists@.len() as int) =~= self.lists@);
        }
        out
    }

    /// `SADD key member`: adds one member to the set at `key`. No other key
    /// changes; adding an existing member changes nothing.
    pub fn sadd(&mut self, key: String, member: String)
        ensures
            final(self).set_at(key@) == old(self).set_at(key@).insert(member@),
            forall|k: Seq<char>| k != key@ ==> final(self).set_at(k) == old(self).set_at(k),
            forall|k: Seq<char>| final(self).str_at(k) == old(self).str_at(k),
            forall|k: Seq<char>| final(self).list_at(k) == old(self).list_at(k),
    {
        let ghost prev = self.sets@;
        self.sets.push((key, member));
        proof {
            assert(self.sets@.drop_last() =~= prev);
        }
    }

    /// `SMEMBERS key`: the members of the set at `key`, each exactly once,
    /// in unspecified order.
    pub fn smembers(&self, key: &String) -> (r: Vec<String>)
        ensures
            forall|i: int, j: int| 0 <= i < j < r@.len() ==> r@[i]@ != r@[j]@,
            forall|i: int| 0 <= i < r@.len() ==> self.set_at(key@).contains(#[trigger] r@[i]@),
            forall|m: Seq<char>|
                self.set_at(key@).contains(m) ==> exists|i: int| 0 <= i < r@.len() && r@[i]@ == m,
    {
        let mut out: Vec<String> = Vec::new();
        let mut i: usize = 0;
        while i < self.sets.len()
            invariant
                i <= self.sets@.len(),
                forall|a: int, b: int| 0 <= a < b < out@.len() ==> out@[a]@ != out@[b]@,
                forall|a: int|
                    0 <= a < out@.len() ==> members_for(
                        self.sets@.subrange(0, i as int),
                        key@,
                    ).contains(#[trigger] out@[a]@),
                forall|m: Seq<char>|
                    members_for(self.sets@.subrange(0, i as int), key@).contains(m) ==> exists|a: int|
                        0 <= a < out@.len() && out@[a]@ == m,
            decreases self.sets@.len() - i,
        {
            let ghost pre = self.sets@.subrange(0, i as int);
            let ghost entry = self.sets@[i as int];
            let ghost pre_out = out@;
            proof {
                assert(self.sets@.subrange(0, i + 1).drop_last() =~= pre);
                assert(self.sets@.subrange(0, i + 1).last() == entry);
            }
            let e = &self.sets[i];
            if e.0.eq(key) {
                if !vec_contains_str(&out, &e.1) {
                    out.push(e.1.clone());
                }
            }
            proof {
                let post_set = members_for(self.sets@.subrange(0, i + 1), key@);
                assert forall|m: Seq<char>| post_set.contains(m) implies exists|a: int|
                    0 <= a < out@.len() && out@[a]@ == m by {
                    if entry.0@ == key@ && m == entry.1@ {
                        if exists|a: int| 0 <= a < pre_out.len() && pre_out[a]@ == m {
                            let a = choose|a: int| 0 <= a < pre_out.len() && pre_out[a]@ == m;
                            assert(out@[a]@ == m);
                        } else {
                            assert(out@[out@.len() - 1]@ == m);
                        }
                    } else {
                        assert(members_for(pre, key@).contains(m));
                        let a = choose|a: int| 0 <= a < pre_out.len() && pre_out[a]@ == m;
                        assert(out@[a]@ == m);
                    }
                }
            }
            i = i + 1;
        }
        proof {
            assert(self.sets@.subrange(0, self.sets@.len() as int) =~= self.sets@);
        }
        out
    }
}

/// Whether some element of `s` views to the characters `x`.
#[verifier::opaque]
pub open spec fn holds_view(s: Seq<String>, x: Seq<char>) -> bool {
    exists|c: int| 0 <= c < s.len() && s[c]@ == x
}

/// The distinct strings of `v`, first occurrences in order: the same
/// members, each exactly once.
pub fn distinct_strings(v: &Vec<String>) -> (r: Vec<String>)
    ensures
        forall|i: int, j: int| 0 <= i < j < r@.len() ==> r@[i]@ != r@[j]@,
        forall|a: int| 0 <= a < r@.len() ==> holds_view(v@, #[trigger] r@[a]@),
        forall|a: int| #![trigger v@[a]] 0 <= a < v@.len() ==> holds_view(r@, v@[a]@),
{
    let mut out: Vec<String> = Vec::new();
    let ghost mut wit_src: Seq<int> = Seq::empty();
    let ghost mut wit_out: Seq<int> = Seq::empty();
    let mut i: usize = 0;
    while i < v.len()
        invariant
            i <= v@.len(),
            forall|a: int, b: int| 0 <= a < b < out@.len() ==> out@[a]@ != out@[b]@,
            wit_src.len() == out@.len(),
            forall|a: int|
                0 <= a < out@.len() ==> 0 <= #[trigger] wit_src[a] < v@.len() && v@[wit_src[a]]@
                    == out@[a]@,
            wit_out.len() == i,
            forall|a: int|
                0 <= a < i ==> 0 <= #[trigger] wit_out[a] < out@.len() && out@[wit_out[a]]@
                    == v@[a]@,
        decreases v@.len() - i,
    {
        let ghost pre_out = out@;
        let present = vec_contains_str(&out, &v[i]);
        if !present {
            out.push(v[i].clone());
            proof {
                wit_src = wit_src.push(i as int);
                wit_out = wit_out.push(out@.len() - 1);
                assert(out@[out@.len() - 1]@ == v@[i as int]@);
            }
        } else {
            proof {
                let c = choose|c: int| 0 <= c < pre_out.len() && pre_out[c]@ == v@[i as int]@;
                wit_out = wit_out.push(c);
                assert(out@[c]@ == v@[i as int]@);
            }
        }
        i = i + 1;
    }
    proof {
        assert forall|a: int| 0 <= a < out@.len() implies holds_view(
            v@,
            #[trigger] out@[a]@,
        ) by {
            reveal(holds_view);
            assert(0 <= wit_src[a] < v@.len() && v@[wit_src[a]]@ == out@[a]@);
        }
        assert forall|a: int| #![trigger v@[a]] 0 <= a < v@.len() implies holds_view(
            out@,
            v@[a]@,
        ) by {
            reveal(holds_view);
            assert(0 <= wit_out[a] < out@.len() && out@[wit_out[a]]@ == v@[a]@);
        }
    }
    out
}

/// Whether some element of `v` views to the same characters as `s`.
pub fn vec_contains_str(v: &Vec<String>, s: &String) -> (b: bool)
    ensures
        b == exists|i: int| 0 <= i < v@.len() && v@[i]@ == s@,
{
    let mut i: usize = 0;
    while i < v.len()
        invariant
            i <= v@.len(),
            forall|j: int| 0 <= j < i ==> v@[j]@ != s@,
        decreases v@.len() - i,
    {
        if v[i].eq(s) {
            return true;
        }
        i = i + 1;
    }
    false
}

} // verus!
