use vstd::prelude::*;

use crate::order::{lemma_lt_irreflexive, lemma_lt_total, lemma_lt_transitive, seq_lt, str_lt};
use crate::types::{BetInfo, BetView, ClaimInfo, ClaimView};

verus! {

/// A primary key of the ledger: round id, then player address.
pub type LedgerKey = (u128, Seq<char>);

/// A record that the ledger can hold, keyed by `(round id, player)`.
pub trait LedgerEntry: View + Sized {
    spec fn key_of(v: Self::V) -> LedgerKey;

    fn round_id(&self) -> (r: u128)
        ensures
            r == Self::key_of(self@).0,
    ;

    fn player_ref(&self) -> (r: &String)
        ensures
            r@ == Self::key_of(self@).1,
    ;

    fn copy_entry(&self) -> (r: Self)
        ensures
            r@ == self@,
    ;
}

impl LedgerEntry for BetInfo {
    open spec fn key_of(v: BetView) -> LedgerKey {
        (v.round_id, v.player)
    }

    fn round_id(&self) -> (r: u128) {
        self.round_id
    }

    fn player_ref(&self) -> (r: &String) {
        &self.player
    }

    fn copy_entry(&self) -> (r: Self) {
        self.duplicate()
    }
}

impl LedgerEntry for ClaimInfo {
    open spec fn key_of(v: ClaimView) -> LedgerKey {
        (v.round_id, v.player)
    }

    fn round_id(&self) -> (r: u128) {
        self.round_id
    }

    fn player_ref(&self) -> (r: &String) {
        &self.player
    }

    fn copy_entry(&self) -> (r: Self) {
        self.duplicate()
    }
}

/// The order of primary keys: by round id, then by player.
pub open spec fn key_lt(a: LedgerKey, b: LedgerKey) -> bool {
    a.0 < b.0 || (a.0 == b.0 && seq_lt(a.1, b.1))
}

pub proof fn lemma_key_order(a: LedgerKey, b: LedgerKey, c: LedgerKey)
    ensures
        !key_lt(a, a),
        key_lt(a, b) && key_lt(b, c) ==> key_lt(a, c),
        a == b || key_lt(a, b) || key_lt(b, a),
{
    lemma_lt_irreflexive(a.1);
    lemma_lt_total(a.1, b.1);
    if key_lt(a, b) && key_lt(b, c) && a.0 == b.0 && b.0 == c.0 {
        lemma_lt_transitive(a.1, b.1, c.1);
    }
}

/// Whether key `a` sorts strictly before key `b`.
pub fn key_lt_exec(r1: u128, p1: &String, r2: u128, p2: &String) -> (r: bool)
    ensures
        r == key_lt((r1, p1@), (r2, p2@)),
{
    r1 < r2 || (r1 == r2 && str_lt(p1, p2))
}

/// The part of the ledger that a range query walks: one player's records,
/// or one round's.
pub enum Scope {
    Player(String),
    Round(u128),
}

pub open spec fn in_scope(s: Scope, k: LedgerKey) -> bool {
    match s {
        Scope::Player(p) => k.1 == p@,
        Scope::Round(r) => k.0 == r,
    }
}

/// Whether `k` lies past the exclusive cursor `start`.
pub open spec fn after(start: Option<LedgerKey>, k: LedgerKey) -> bool {
    match start {
        None => true,
        Some(c) => key_lt(c, k),
    }
}

/// The cursor of a range query, as a key.
pub open spec fn cursor_key(c: Option<(u128, String)>) -> Option<LedgerKey> {
    match c {
        None => None,
        Some(p) => Some((p.0, p.1@)),
    }
}

/// Whether key `k` is in scope and past the cursor.
pub open spec fn selected(scope: Scope, cur: Option<LedgerKey>, k: LedgerKey) -> bool {
    in_scope(scope, k) && after(cur, k)
}

pub open spec fn view_all<T: View>(s: Seq<T>) -> Seq<T::V> {
    s.map_values(|e: T| e@)
}

/// `r` is the page of `m` that a range query returns: the records in scope
/// past the cursor, in ascending key order, the first `limit` of them.
pub open spec fn is_page<T: LedgerEntry>(
    m: Map<LedgerKey, T::V>,
    scope: Scope,
    start: Option<LedgerKey>,
    limit: nat,
    r: Seq<T::V>,
) -> bool {
    &&& r.len() <= limit
    &&& forall|j: int|
        0 <= j < r.len() ==> in_scope(scope, T::key_of(#[trigger] r[j])) && after(
            start,
            T::key_of(r[j]),
        ) && m.contains_key(T::key_of(r[j])) && m[T::key_of(r[j])] == r[j]
    &&& forall|a: int, b: int|
        0 <= a < b < r.len() ==> key_lt(T::key_of(#[trigger] r[a]), T::key_of(#[trigger] r[b]))
    &&& forall|k: LedgerKey|
        #![trigger m.contains_key(k)]
        m.contains_key(k) && in_scope(scope, k) && after(start, k) ==> (exists|j: int|
            0 <= j < r.len() && T::key_of(#[trigger] r[j]) == k) || (r.len() == limit && (r.len()
            == 0 || key_lt(T::key_of(r.last()), k)))
}

pub open spec fn keys_unique<T: LedgerEntry>(s: Seq<T::V>) -> bool {
    forall|i: int, j: int|
        0 <= i < s.len() && 0 <= j < s.len() && i != j ==> T::key_of(#[trigger] s[i]) != T::key_of(
            #[trigger] s[j],
        )
}

pub open spec fn seq_to_map<T: LedgerEntry>(s: Seq<T::V>) -> Map<LedgerKey, T::V> {
    Map::new(
        |k: LedgerKey| exists|i: int| 0 <= i < s.len() && T::key_of(s[i]) == k,
        |k: LedgerKey| s[choose|i: int| 0 <= i < s.len() && T::key_of(s[i]) == k],
    )
}

/// The records of `s` whose player is `p`, in order.
pub open spec fn listing_of<T: LedgerEntry>(s: Seq<T::V>, p: Seq<char>) -> Seq<T::V>
    decreases s.len(),
{
    if s.len() == 0 {
        Seq::empty()
    } else {
        let r = listing_of::<T>(s.drop_last(), p);
        if T::key_of(s.last()).1 == p {
            r.push(s.last())
        } else {
            r
        }
    }
}

proof fn lemma_listing_sorted<T: LedgerEntry>(s: Seq<T::V>, p: Seq<char>)
    requires
        keys_unique::<T>(s),
        keys_sorted::<T>(s),
    ensures
        keys_sorted::<T>(listing_of::<T>(s, p)),
    decreases s.len(),
{
    if s.len() > 0 {
        let s0 = s.drop_last();
        let n = s.len() - 1;
        assert(keys_unique::<T>(s0)) by {
            assert forall|a: int, b: int|
                0 <= a < s0.len() && 0 <= b < s0.len() && a != b implies T::key_of(
                    #[trigger] s0[a],
                ) != T::key_of(#[trigger] s0[b]) by {
                assert(s0[a] == s[a] && s0[b] == s[b]);
            }
        }
        assert(keys_sorted::<T>(s0)) by {
            assert forall|a: int, b: int| 0 <= a < b < s0.len() implies key_lt(
                T::key_of(#[trigger] s0[a]),
                T::key_of(#[trigger] s0[b]),
            ) by {
                assert(s0[a] == s[a] && s0[b] == s[b]);
            }
        }
        lemma_listing_sorted::<T>(s0, p);
        lemma_listing_of::<T>(s0, p);
        let r0 = listing_of::<T>(s0, p);
        let r = listing_of::<T>(s, p);
        if T::key_of(s.last()).1 == p {
            assert forall|a: int, b: int| 0 <= a < b < r.len() implies key_lt(
                T::key_of(#[trigger] r[a]),
                T::key_of(#[trigger] r[b]),
            ) by {
                assert(r[a] == r0[a]);
                if b < r0.len() {
                    assert(r[b] == r0[b]);
                } else {
                    assert(r[b] == s[n]);
                    let i = choose|i: int| 0 <= i < s0.len() && s0[i] == r0[a];
                    assert(s[i] == s0[i]);
                }
            }
        }
    }
}

proof fn lemma_listing_of<T: LedgerEntry>(s: Seq<T::V>, p: Seq<char>)
    requires
        keys_unique::<T>(s),
    ensures
        keys_unique::<T>(listing_of::<T>(s, p)),
        forall|j: int|
            0 <= j < listing_of::<T>(s, p).len() ==> T::key_of(
                #[trigger] listing_of::<T>(s, p)[j],
            ).1 == p && exists|i: int| 0 <= i < s.len() && s[i] == listing_of::<T>(s, p)[j],
        forall|i: int|
            0 <= i < s.len() && T::key_of(#[trigger] s[i]).1 == p ==> exists|j: int|
                0 <= j < listing_of::<T>(s, p).len() && listing_of::<T>(s, p)[j] == s[i],
    decreases s.len(),
{
    if s.len() > 0 {
        let s0 = s.drop_last();
        assert(keys_unique::<T>(s0)) by {
            assert forall|a: int, b: int|
                0 <= a < s0.len() && 0 <= b < s0.len() && a != b implies T::key_of(
                    #[trigger] s0[a],
                ) != T::key_of(#[trigger] s0[b]) by {
                assert(s0[a] == s[a] && s0[b] == s[b]);
            }
        }
        lemma_listing_of::<T>(s0, p);
        let r0 = listing_of::<T>(s0, p);
        let r = listing_of::<T>(s, p);
        let n = s.len() - 1;
        assert forall|j: int| 0 <= j < r.len() implies (T::key_of(#[trigger] r[j]).1 == p && exists|
            i: int,
        | 0 <= i < s.len() && s[i] == r[j]) by {
            if j < r0.len() {
                assert(r[j] == r0[j]);
                let i = choose|i: int| 0 <= i < s0.len() && s0[i] == r0[j];
                assert(s[i] == s0[i]);
            } else {
                assert(r[j] == s[n]);
            }
        }
        assert forall|i: int| 0 <= i < s.len() && T::key_of(#[trigger] s[i]).1 == p implies exists|
            j: int,
        | 0 <= j < r.len() && r[j] == s[i] by {
            if i < n {
                assert(s0[i] == s[i]);
                let j = choose|j: int| 0 <= j < r0.len() && r0[j] == s0[i];
                assert(r[j] == r0[j]);
            } else {
                assert(r[r.len() - 1] == s[n]);
            }
        }
        assert(keys_unique::<T>(r)) by {
            assert forall|a: int, b: int|
                0 <= a < r.len() && 0 <= b < r.len() && a != b implies T::key_of(#[trigger] r[a])
                != T::key_of(#[trigger] r[b]) by {
                if a < r0.len() && b < r0.len() {
                    assert(r[a] == r0[a] && r[b] == r0[b]);
                } else if a < r0.len() {
                    assert(r[a] == r0[a] && r[b] == s[n]);
                    let i = choose|i: int| 0 <= i < s0.len() && s0[i] == r0[a];
                    assert(s[i] == s0[i]);
                } else {
                    assert(r[b] == r0[b] && r[a] == s[n]);
                    let i = choose|i: int| 0 <= i < s0.len() && s0[i] == r0[b];
                    assert(s[i] == s0[i]);
                }
            }
        }
    }
}

pub open spec fn keys_sorted<T: LedgerEntry>(s: Seq<T::V>) -> bool {
    forall|a: int, b: int|
        0 <= a < b < s.len() ==> key_lt(T::key_of(#[trigger] s[a]), T::key_of(#[trigger] s[b]))
}

proof fn lemma_sorted_unique<T: LedgerEntry>(s: Seq<T::V>)
    requires
        keys_sorted::<T>(s),
    ensures
        keys_unique::<T>(s),
{
    assert forall|i: int, j: int|
        0 <= i < s.len() && 0 <= j < s.len() && i != j implies T::key_of(#[trigger] s[i])
        != T::key_of(#[trigger] s[j]) by {
        lemma_key_order(T::key_of(s[i]), T::key_of(s[j]), T::key_of(s[i]));
        lemma_key_order(T::key_of(s[j]), T::key_of(s[i]), T::key_of(s[j]));
    }
}

proof fn lemma_push_map<T: LedgerEntry>(s0: Seq<T::V>, v: T::V)
    requires
        keys_unique::<T>(s0),
        !seq_to_map::<T>(s0).contains_key(T::key_of(v)),
    ensures
        keys_unique::<T>(s0.push(v)),
        seq_to_map::<T>(s0.push(v)) == seq_to_map::<T>(s0).insert(T::key_of(v), v),
{
    let k = T::key_of(v);
    let s1 = s0.push(v);
    assert forall|i: int| 0 <= i < s0.len() implies T::key_of(#[trigger] s0[i]) != k by {
        lemma_map_at::<T>(s0, i);
    }
    assert(keys_unique::<T>(s1)) by {
        assert forall|a: int, b: int|
            0 <= a < s1.len() && 0 <= b < s1.len() && a != b implies T::key_of(#[trigger] s1[a])
            != T::key_of(#[trigger] s1[b]) by {
            if a < s0.len() {
                assert(s1[a] == s0[a]);
            }
            if b < s0.len() {
                assert(s1[b] == s0[b]);
            }
        }
    }
    let m0 = seq_to_map::<T>(s0);
    let m1 = seq_to_map::<T>(s1);
    assert forall|q: LedgerKey| #[trigger] m1.contains_key(q) <==> m0.insert(k, v).contains_key(q) by {
        if m0.contains_key(q) {
            let i = choose|i: int| 0 <= i < s0.len() && T::key_of(s0[i]) == q;
            assert(s1[i] == s0[i]);
        }
        if q == k {
            assert(s1[s0.len() as int] == v);
        }
        if m1.contains_key(q) && q != k {
            let i = choose|i: int| 0 <= i < s1.len() && T::key_of(s1[i]) == q;
            if i < s0.len() {
                assert(s1[i] == s0[i]);
            }
        }
    }
    assert forall|q: LedgerKey| #[trigger] m1.contains_key(q) implies m1[q] == m0.insert(k, v)[q] by {
        let i = choose|i: int| 0 <= i < s1.len() && T::key_of(s1[i]) == q;
        lemma_map_at::<T>(s1, i);
        if i < s0.len() {
            assert(s1[i] == s0[i]);
            lemma_map_at::<T>(s0, i);
        }
    }
    assert(m1 =~= m0.insert(k, v));
}

proof fn lemma_map_at<T: LedgerEntry>(s: Seq<T::V>, i: int)
    requires
        keys_unique::<T>(s),
        0 <= i < s.len(),
    ensures
        seq_to_map::<T>(s).contains_key(T::key_of(s[i])),
        seq_to_map::<T>(s)[T::key_of(s[i])] == s[i],
{
    let k = T::key_of(s[i]);
    assert(exists|j: int| 0 <= j < s.len() && T::key_of(s[j]) == k);
    let j = choose|j: int| 0 <= j < s.len() && T::key_of(s[j]) == k;
    assert(i == j);
}

/// An indexed store of records, at most one per `(round id, player)`, kept
/// in ascending key order.
pub struct Ledger<T> {
    entries: Vec<T>,
}

impl<T: LedgerEntry> Ledger<T> {
    pub closed spec fn entries_view(&self) -> Seq<T::V> {
        self.entries@.map_values(|e: T| e@)
    }

    /// What the ledger holds, by primary key.
    pub closed spec fn view(&self) -> Map<LedgerKey, T::V> {
        seq_to_map::<T>(self.entries_view())
    }

    pub closed spec fn wf(&self) -> bool {
        keys_unique::<T>(self.entries_view()) && keys_sorted::<T>(self.entries_view())
    }

    pub fn new() -> (r: Self)
        ensures
            r.wf(),
            r.view() == Map::<LedgerKey, T::V>::empty(),
    {
        let r = Ledger { entries: Vec::new() };
        assert(r.view() =~= Map::<LedgerKey, T::V>::empty());
        r
    }

    /// Every stored record sits under its own key.
    pub proof fn lemma_keys_match(&self)
        requires
            self.wf(),
        ensures
            forall|k: LedgerKey| #[trigger]
                self.view().contains_key(k) ==> T::key_of(self.view()[k]) == k,
    {
        assert forall|k: LedgerKey| #[trigger] self.view().contains_key(k) implies T::key_of(
            self.view()[k],
        ) == k by {
            let s = self.entries_view();
            let i = choose|i: int| 0 <= i < s.len() && T::key_of(s[i]) == k;
            lemma_map_at::<T>(s, i);
        }
    }

    fn find(&self, round_id: u128, player: &String) -> (r: Option<usize>)
        requires
            self.wf(),
        ensures
            match r {
                Some(i) => i < self.entries_view().len() && T::key_of(self.entries_view()[i as int])
                    == (round_id, player@),
                None => !self.view().contains_key((round_id, player@)),
            },
    {
        let mut i: usize = 0;
        while i < self.entries.len()
            invariant
                0 <= i <= self.entries@.len(),
                forall|j: int|
                    0 <= j < i ==> T::key_of(#[trigger] self.entries_view()[j]) != (
                        round_id,
                        player@,
                    ),
            decreases self.entries@.len() - i,
        {
            let e = &self.entries[i];
            if e.round_id() == round_id && *e.player_ref() == *player {
                return Some(i);
            }
            i = i + 1;
        }
        None
    }

    /// Whether a record is stored under the key.
    pub fn has(&self, round_id: u128, player: &String) -> (r: bool)
        requires
            self.wf(),
        ensures
            r == self.view().contains_key((round_id, player@)),
    {
        match self.find(round_id, player) {
            Some(i) => {
                proof {
                    lemma_map_at::<T>(self.entries_view(), i as int);
                }
                true
            },
            None => false,
        }
    }

    /// A copy of the record stored under the key, if any.
    pub fn get(&self, round_id: u128, player: &String) -> (r: Option<T>)
        requires
            self.wf(),
        ensures
            match r {
                Some(e) => self.view().contains_key((round_id, player@)) && self.view()[(
                    round_id,
                    player@,
                )] == e@,
                None => !self.view().contains_key((round_id, player@)),
            },
    {
        match self.find(round_id, player) {
            Some(i) => {
                proof {
                    lemma_map_at::<T>(self.entries_view(), i as int);
                }
                Some(self.entries[i].copy_entry())
            },
            None => None,
        }
    }

    /// Stores a record under a key that is not in use yet, at its place in
    /// key order.
    fn push_new(&mut self, e: T)
        requires
            old(self).wf(),
            !old(self).view().contains_key(T::key_of(e@)),
        ensures
            final(self).wf(),
            final(self).view() == old(self).view().insert(T::key_of(e@), e@),
    {
        let ghost s0 = self.entries_view();
        let ghost k = T::key_of(e@);
        let ghost v = e@;
        let mut j: usize = 0;
        let mut placed = false;
        while j < self.entries.len() && !placed
            invariant
                s0 == self.entries_view(),
                k == T::key_of(e@),
                0 <= j <= s0.len(),
                forall|i: int| 0 <= i < j ==> key_lt(T::key_of(#[trigger] s0[i]), k),
                placed ==> j < s0.len() && !key_lt(T::key_of(s0[j as int]), k),
            decreases s0.len() - j, if placed { 0int } else { 1int },
        {
            let x = &self.entries[j];
            assert(s0[j as int] == x@);
            let xr = x.round_id();
            let xp = x.player_ref();
            let er = e.round_id();
            let ep = e.player_ref();
            assert((xr, xp@) == T::key_of(x@));
            assert((er, ep@) == k);
            if key_lt_exec(xr, xp, er, ep) {
                j = j + 1;
            } else {
                placed = true;
            }
        }
        proof {
            if j < s0.len() {
                assert(s0[j as int] == self.entries@[j as int]@);
                lemma_map_at::<T>(s0, j as int);
                lemma_key_order(T::key_of(s0[j as int]), k, k);
            }
        }
        self.entries.insert(j, e);
        let ghost s1 = self.entries_view();
        proof {
            assert(s1 =~= s0.insert(j as int, v));
            assert(keys_sorted::<T>(s1)) by {
                assert forall|a: int, b: int| 0 <= a < b < s1.len() implies key_lt(
                    T::key_of(#[trigger] s1[a]),
                    T::key_of(#[trigger] s1[b]),
                ) by {
                    if b < j {
                        assert(s1[a] == s0[a] && s1[b] == s0[b]);
                    } else if b == j {
                        assert(s1[a] == s0[a]);
                    } else if a > j {
                        assert(s1[a] == s0[a - 1] && s1[b] == s0[b - 1]);
                    } else if a == j {
                        assert(s1[b] == s0[b - 1]);
                        if b - 1 > j {
                            lemma_key_order(k, T::key_of(s0[j as int]), T::key_of(s0[b - 1]));
                        }
                    } else {
                        assert(s1[a] == s0[a] && s1[b] == s0[b - 1]);
                    }
                }
            }
            lemma_sorted_unique::<T>(s1);
            let m0 = seq_to_map::<T>(s0);
            let m1 = seq_to_map::<T>(s1);
            assert forall|q: LedgerKey| #[trigger] m1.contains_key(q) <==> m0.insert(k, v).contains_key(
                q,
            ) by {
                if m0.contains_key(q) {
                    let i = choose|i: int| 0 <= i < s0.len() && T::key_of(s0[i]) == q;
                    if i < j {
                        assert(s1[i] == s0[i]);
                    } else {
                        assert(s1[i + 1] == s0[i]);
                    }
                }
                if q == k {
                    assert(s1[j as int] == v);
                }
                if m1.contains_key(q) && q != k {
                    let i = choose|i: int| 0 <= i < s1.len() && T::key_of(s1[i]) == q;
                    if i < j {
                        assert(s1[i] == s0[i]);
                    } else if i > j {
                        assert(s1[i] == s0[i - 1]);
                    }
                }
            }
            assert forall|q: LedgerKey| #[trigger] m1.contains_key(q) implies m1[q] == m0.insert(
                k,
                v,
            )[q] by {
                let i = choose|i: int| 0 <= i < s1.len() && T::key_of(s1[i]) == q;
                lemma_map_at::<T>(s1, i);
                if i < j {
                    assert(s1[i] == s0[i]);
                    lemma_map_at::<T>(s0, i);
                } else if i > j {
                    assert(s1[i] == s0[i - 1]);
                    lemma_map_at::<T>(s0, i - 1);
                }
            }
            assert(m1 =~= m0.insert(k, v));
        }
    }

    /// Stores a record whose key is new; a record already under that key is
    /// handed back, and nothing changes.
    pub fn insert_new(&mut self, e: T) -> (r: Result<(), T>)
        requires
            old(self).wf(),
        ensures
            final(self).wf(),
            match r {
                Ok(()) => !old(self).view().contains_key(T::key_of(e@)) && final(self).view()
                    == old(self).view().insert(T::key_of(e@), e@),
                Err(x) => old(self).view().contains_key(T::key_of(e@)) && x@ == old(self).view()[T::key_of(
                    e@,
                )] && *final(self) == *old(self),
            },
    {
        let round_id = e.round_id();
        let found = self.get(round_id, e.player_ref());
        match found {
            Some(x) => Err(x),
            None => {
                self.push_new(e);
                Ok(())
            },
        }
    }

    /// Stores a record, replacing any record under the same key.
    pub fn save(&mut self, e: T)
        requires
            old(self).wf(),
        ensures
            final(self).wf(),
            final(self).view() == old(self).view().insert(T::key_of(e@), e@),
    {
        let round_id = e.round_id();
        let found = self.find(round_id, e.player_ref());
        match found {
            None => self.push_new(e),
            Some(i) => {
                let ghost s0 = self.entries_view();
                let ghost k = T::key_of(e@);
                let ghost v = e@;
                self.entries.set(i, e);
                let ghost s1 = self.entries_view();
                proof {
                    assert(s1 =~= s0.update(i as int, v));
                    assert(keys_unique::<T>(s1)) by {
                        assert forall|a: int, b: int|
                            0 <= a < s1.len() && 0 <= b < s1.len() && a != b implies T::key_of(
                            #[trigger] s1[a],
                        ) != T::key_of(#[trigger] s1[b]) by {
                            if a != i && b != i {
                                assert(s1[a] == s0[a] && s1[b] == s0[b]);
                            } else if a == i {
                                assert(s1[b] == s0[b]);
                            } else {
                                assert(s1[a] == s0[a]);
                            }
                        }
                    }
                    let m0 = seq_to_map::<T>(s0);
                    let m1 = seq_to_map::<T>(s1);
                    lemma_map_at::<T>(s0, i as int);
                    lemma_map_at::<T>(s1, i as int);
                    assert forall|q: LedgerKey| #[trigger]
                        m1.contains_key(q) <==> m0.insert(k, v).contains_key(q) by {
                        if m0.contains_key(q) {
                            let j = choose|j: int| 0 <= j < s0.len() && T::key_of(s0[j]) == q;
                            if j != i {
                                assert(s1[j] == s0[j]);
                            }
                        }
                        if m1.contains_key(q) {
                            let j = choose|j: int| 0 <= j < s1.len() && T::key_of(s1[j]) == q;
                            if j != i {
                                assert(s1[j] == s0[j]);
                            }
                        }
                    }
                    assert forall|q: LedgerKey| #[trigger] m1.contains_key(q) implies m1[q] == m0.insert(
                        k,
                        v,
                    )[q] by {
                        let j = choose|j: int| 0 <= j < s1.len() && T::key_of(s1[j]) == q;
                        lemma_map_at::<T>(s1, j);
                        if j != i {
                            assert(s1[j] == s0[j]);
                            lemma_map_at::<T>(s0, j);
                        }
                    }
                    assert(m1 =~= m0.insert(k, v));
                }
            },
        }
    }

    fn in_scope_exec(scope: &Scope, e: &T) -> (r: bool)
        ensures
            r == in_scope(*scope, T::key_of(e@)),
    {
        match scope {
            Scope::Player(p) => *e.player_ref() == *p,
            Scope::Round(r) => e.round_id() == *r,
        }
    }

    fn after_exec(cur: &Option<(u128, String)>, e: &T) -> (r: bool)
        ensures
            r == after(cursor_key(*cur), T::key_of(e@)),
    {
        match cur {
            None => true,
            Some(c) => key_lt_exec(c.0, &c.1, e.round_id(), e.player_ref()),
        }
    }

    /// The position of the least record in scope past the cursor, if any.
    fn least_after(&self, scope: &Scope, cur: &Option<(u128, String)>) -> (r: Option<usize>)
        requires
            self.wf(),
        ensures
            match r {
                Some(b) => b < self.entries_view().len() && selected(
                    *scope,
                    cursor_key(*cur),
                    T::key_of(self.entries_view()[b as int]),
                ) && forall|j: int|
                    0 <= j < self.entries_view().len() && selected(
                        *scope,
                        cursor_key(*cur),
                        T::key_of(#[trigger] self.entries_view()[j]),
                    ) ==> !key_lt(
                        T::key_of(self.entries_view()[j]),
                        T::key_of(self.entries_view()[b as int]),
                    ),
                None => forall|j: int|
                    0 <= j < self.entries_view().len() ==> !selected(
                        *scope,
                        cursor_key(*cur),
                        T::key_of(#[trigger] self.entries_view()[j]),
                    ),
            },
    {
        let ghost sv = self.entries_view();
        let mut best: Option<usize> = None;
        let mut i: usize = 0;
        while i < self.entries.len()
            invariant
                sv == self.entries_view(),
                0 <= i <= sv.len(),
                match best {
                    Some(b) => b < i && selected(*scope, cursor_key(*cur), T::key_of(sv[b as int]))
                        && forall|j: int|
                            0 <= j < i && selected(*scope, cursor_key(*cur), T::key_of(#[trigger] sv[j]))
                            ==> !key_lt(T::key_of(sv[j]), T::key_of(sv[b as int])),
                    None => forall|j: int|
                        0 <= j < i ==> !selected(*scope, cursor_key(*cur), T::key_of(#[trigger] sv[j])),
                },
            decreases sv.len() - i,
        {
            let e = &self.entries[i];
            assert(sv[i as int] == e@);
            if Self::in_scope_exec(scope, e) && Self::after_exec(cur, e) {
                match best {
                    None => {
                        best = Some(i);
                        proof {
                            assert forall|j: int|
                                0 <= j < i + 1 && selected(
                                    *scope,
                                    cursor_key(*cur),
                                    T::key_of(#[trigger] sv[j]),
                                ) implies !key_lt(T::key_of(sv[j]), T::key_of(sv[i as int])) by {
                                lemma_key_order(T::key_of(sv[j]), T::key_of(sv[j]), T::key_of(sv[j]));
                            }
                        }
                    },
                    Some(b) => {
                        let eb = &self.entries[b];
                        assert(sv[b as int] == eb@);
                        if key_lt_exec(e.round_id(), e.player_ref(), eb.round_id(), eb.player_ref()) {
                            best = Some(i);
                            proof {
                                assert forall|j: int|
                                    0 <= j < i + 1 && selected(
                                        *scope,
                                        cursor_key(*cur),
                                        T::key_of(#[trigger] sv[j]),
                                    ) implies !key_lt(T::key_of(sv[j]), T::key_of(sv[i as int])) by {
                                    lemma_key_order(T::key_of(sv[j]), T::key_of(sv[i as int]), T::key_of(sv[b as int]));
                                    lemma_key_order(T::key_of(sv[i as int]), T::key_of(sv[b as int]), T::key_of(sv[j]));
                                }
                            }
                        }
                    },
                }
            }
            i = i + 1;
        }
        best
    }

    /// A range query: the records in scope whose keys lie past the exclusive
    /// cursor, in ascending key order, at most `limit` of them.
    pub fn page(&self, scope: &Scope, start: &Option<(u128, String)>, limit: usize) -> (r: Vec<T>)
        requires
            self.wf(),
        ensures
            is_page::<T>(self.view(), *scope, cursor_key(*start), limit as nat, view_all(r@)),
    {
        let ghost sv = self.entries_view();
        let ghost m = self.view();
        let ghost st = cursor_key(*start);
        let mut out: Vec<T> = Vec::new();
        let mut cur: Option<(u128, String)> = match start {
            None => None,
            Some(c) => Some((c.0, c.1.clone())),
        };
        let mut done = false;
        while out.len() < limit && !done
            invariant
                self.wf(),
                sv == self.entries_view(),
                m == self.view(),
                m == seq_to_map::<T>(sv),
                st == cursor_key(*start),
                out@.len() <= limit,
                forall|j: int|
                    0 <= j < out@.len() ==> (selected(*scope, st, T::key_of((#[trigger] out@[j])@))
                        && m.contains_key(T::key_of(out@[j]@)) && m[T::key_of(out@[j]@)] == out@[j]@),
                forall|a: int, b: int|
                    0 <= a < b < out@.len() ==> key_lt(
                        T::key_of(#[trigger] out@[a]@),
                        T::key_of(#[trigger] out@[b]@),
                    ),
                out@.len() == 0 ==> cursor_key(cur) == st,
                out@.len() > 0 ==> cursor_key(cur) == Some(T::key_of(out@.last()@)),
                forall|i: int|
                    0 <= i < sv.len() && #[trigger] selected(*scope, st, T::key_of(sv[i])) && !after(
                        cursor_key(cur),
                        T::key_of(sv[i]),
                    ) ==> exists|j: int| 0 <= j < out@.len() && T::key_of(out@[j]@) == T::key_of(sv[i]),
                done ==> forall|i: int|
                    0 <= i < sv.len() ==> !#[trigger] selected(*scope, cursor_key(cur), T::key_of(sv[i])),
            decreases limit - out@.len(), if done { 0int } else { 1int },
        {
            let found = self.least_after(scope, &cur);
            match found {
                None => {
                    done = true;
                },
                Some(b) => {
                    let e = &self.entries[b];
                    assert(sv[b as int] == e@);
                    let ghost kb = T::key_of(e@);
                    let ghost out0 = out@;
                    let ghost cur0 = cursor_key(cur);
                    proof {
                        lemma_map_at::<T>(sv, b as int);
                        if out0.len() > 0 {
                            let kl = T::key_of(out0.last()@);
                            assert(out0.last() == out0[out0.len() - 1]);
                            assert(selected(*scope, st, T::key_of(out0[out0.len() - 1]@)));
                            if st is Some {
                                lemma_key_order(st->0, kl, kb);
                            }
                        }
                    }
                    out.push(e.copy_entry());
                    cur = Some((e.round_id(), e.player_ref().clone()));
                    proof {
                        assert(out@.last()@ == e@);
                        assert forall|j: int| 0 <= j < out@.len() implies (selected(
                            *scope,
                            st,
                            T::key_of((#[trigger] out@[j])@),
                        ) && m.contains_key(T::key_of(out@[j]@)) && m[T::key_of(out@[j]@)]
                            == out@[j]@) by {
                            if j < out0.len() {
                                assert(out@[j] == out0[j]);
                            } else {
                                assert(out@[j]@ == e@);
                            }
                        }
                        assert forall|a: int, c: int|
                            0 <= a < c < out@.len() implies key_lt(
                            T::key_of(#[trigger] out@[a]@),
                            T::key_of(#[trigger] out@[c]@),
                        ) by {
                            assert(out@[a] == out0[a]);
                            if c < out0.len() {
                                assert(out@[c] == out0[c]);
                            } else if a < out0.len() - 1 {
                                assert(out0.last() == out0[out0.len() - 1]);
                                lemma_key_order(
                                    T::key_of(out0[a]@),
                                    T::key_of(out0.last()@),
                                    kb,
                                );
                            }
                        }
                        assert forall|i: int|
                            0 <= i < sv.len() && #[trigger] selected(*scope, st, T::key_of(sv[i]))
                                && !after(cursor_key(cur), T::key_of(sv[i])) implies exists|j: int|
                            0 <= j < out@.len() && T::key_of(out@[j]@) == T::key_of(sv[i]) by {
                            let ki = T::key_of(sv[i]);
                            if !after(cur0, ki) {
                                let j = choose|j: int|
                                    0 <= j < out0.len() && T::key_of(out0[j]@) == ki;
                                assert(out@[j] == out0[j]);
                            } else {
                                lemma_key_order(ki, kb, ki);
                                assert(selected(*scope, cur0, ki));
                                assert(ki == kb);
                                assert(T::key_of(out@[out0.len() as int]@) == ki);
                            }
                        }
                    }
                },
            }
        }
        proof {
            let r = view_all(out@);
            assert(r.len() == out@.len());
            assert forall|j: int| 0 <= j < r.len() implies r[j] == out@[j]@ by {}
            assert forall|j: int| 0 <= j < r.len() implies (in_scope(*scope, T::key_of(#[trigger] r[j]))
                && after(st, T::key_of(r[j])) && m.contains_key(T::key_of(r[j])) && m[T::key_of(r[j])]
                == r[j]) by {
                assert(r[j] == out@[j]@);
                assert(selected(*scope, st, T::key_of(out@[j]@)));
            }
            assert forall|a: int, b: int| 0 <= a < b < r.len() implies key_lt(
                T::key_of(#[trigger] r[a]),
                T::key_of(#[trigger] r[b]),
            ) by {
                assert(r[a] == out@[a]@ && r[b] == out@[b]@);
            }
            assert forall|k: LedgerKey|
                #![trigger m.contains_key(k)]
                m.contains_key(k) && in_scope(*scope, k) && after(st, k) implies (exists|j: int|
                    0 <= j < r.len() && T::key_of(#[trigger] r[j]) == k) || (r.len() == limit && (r.len()
                == 0 || key_lt(T::key_of(r.last()), k))) by {
                let i = choose|i: int| 0 <= i < sv.len() && T::key_of(sv[i]) == k;
                assert(selected(*scope, st, T::key_of(sv[i])));
                if !after(cursor_key(cur), k) {
                    let j = choose|j: int| 0 <= j < out@.len() && T::key_of(out@[j]@) == T::key_of(sv[i]);
                    assert(T::key_of(r[j]) == k);
                } else {
                    assert(selected(*scope, cursor_key(cur), T::key_of(sv[i])));
                    assert(!done);
                    assert(r.len() == out@.len());
                    if r.len() > 0 {
                        assert(r.last() == out@.last()@);
                    }
                }
            }
        }
        out
    }

    /// The records of one player, in ascending round order.
    pub closed spec fn listing(&self, p: Seq<char>) -> Seq<T::V> {
        listing_of::<T>(self.entries_view(), p)
    }

    /// A player's listing holds exactly that player's records, each once,
    /// in ascending round order.
    pub proof fn lemma_listing(&self, p: Seq<char>)
        requires
            self.wf(),
        ensures
            keys_unique::<T>(self.listing(p)),
            forall|j: int|
                0 <= j < self.listing(p).len() ==> T::key_of(#[trigger] self.listing(p)[j]).1 == p
                    && self.view().contains_key(T::key_of(self.listing(p)[j])) && self.view()[T::key_of(
                    self.listing(p)[j],
                )] == self.listing(p)[j],
            forall|k: LedgerKey|
                #![trigger self.view().contains_key(k)]
                self.view().contains_key(k) && k.1 == p ==> exists|j: int|
                    0 <= j < self.listing(p).len() && T::key_of(#[trigger] self.listing(p)[j]) == k,
            forall|a: int, b: int|
                0 <= a < b < self.listing(p).len() ==> T::key_of(#[trigger] self.listing(p)[a]).0
                    < T::key_of(#[trigger] self.listing(p)[b]).0,
    {
        let s = self.entries_view();
        lemma_listing_of::<T>(s, p);
        lemma_listing_sorted::<T>(s, p);
        assert forall|a: int, b: int|
            0 <= a < b < self.listing(p).len() implies T::key_of(#[trigger] self.listing(p)[a]).0
            < T::key_of(#[trigger] self.listing(p)[b]).0 by {
            lemma_lt_irreflexive(p);
        }
        let l = self.listing(p);
        assert forall|j: int| 0 <= j < l.len() implies (T::key_of(#[trigger] l[j]).1 == p
            && self.view().contains_key(T::key_of(l[j])) && self.view()[T::key_of(l[j])] == l[j]) by {
            let i = choose|i: int| 0 <= i < s.len() && s[i] == l[j];
            lemma_map_at::<T>(s, i);
        }
        assert forall|k: LedgerKey|
            #![trigger self.view().contains_key(k)]
            self.view().contains_key(k) && k.1 == p implies exists|j: int|
                0 <= j < l.len() && T::key_of(#[trigger] l[j]) == k by {
            let i = choose|i: int| 0 <= i < s.len() && T::key_of(s[i]) == k;
            assert(T::key_of(s[i]).1 == p);
        }
    }

    /// All records of one player, in ascending round order.
    pub fn entries_of(&self, player: &String) -> (r: Vec<T>)
        requires
            self.wf(),
        ensures
            view_all(r@) == self.listing(player@),
    {
        let ghost sv = self.entries_view();
        let mut out: Vec<T> = Vec::new();
        let mut i: usize = 0;
        while i < self.entries.len()
            invariant
                sv == self.entries_view(),
                0 <= i <= sv.len(),
                view_all(out@) == listing_of::<T>(sv.take(i as int), player@),
            decreases sv.len() - i,
        {
            let e = &self.entries[i];
            assert(sv.take(i + 1).drop_last() =~= sv.take(i as int));
            assert(sv.take(i + 1).last() == e@);
            let ghost before = out@;
            if *e.player_ref() == *player {
                out.push(e.copy_entry());
                assert(view_all(out@) =~= view_all(before).push(e@));
            }
            i = i + 1;
        }
        assert(sv.take(sv.len() as int) =~= sv);
        out
    }

    /// Every record, for persisting the ledger.
    pub fn records(&self) -> (r: Vec<T>)
        requires
            self.wf(),
        ensures
            keys_unique::<T>(view_all(r@)),
            seq_to_map::<T>(view_all(r@)) == self.view(),
    {
        let mut out: Vec<T> = Vec::new();
        let mut i: usize = 0;
        while i < self.entries.len()
            invariant
                0 <= i <= self.entries@.len(),
                view_all(out@) == self.entries_view().take(i as int),
            decreases self.entries@.len() - i,
        {
            let x = self.entries[i].copy_entry();
            let ghost o0 = out@;
            assert(self.entries_view()[i as int] == x@);
            out.push(x);
            assert(view_all(out@) =~= view_all(o0).push(x@));
            assert(view_all(out@) =~= self.entries_view().take(i + 1));
            i = i + 1;
        }
        assert(self.entries_view().take(i as int) =~= self.entries_view());
        out
    }

    /// Rebuilds a ledger from persisted records; a record whose key repeats
    /// an earlier one is handed back.
    pub fn from_records(v: &Vec<T>) -> (r: Result<Self, T>)
        ensures
            match r {
                Ok(l) => l.wf() && keys_unique::<T>(view_all(v@)) && l.view() == seq_to_map::<T>(
                    view_all(v@),
                ),
                Err(_) => !keys_unique::<T>(view_all(v@)),
            },
    {
        let ghost vv = view_all(v@);
        let mut l: Ledger<T> = Ledger::new();
        assert(seq_to_map::<T>(vv.take(0)) =~= Map::<LedgerKey, T::V>::empty());
        let mut i: usize = 0;
        while i < v.len()
            invariant
                vv == view_all(v@),
                0 <= i <= v@.len(),
                l.wf(),
                keys_unique::<T>(vv.take(i as int)),
                l.view() == seq_to_map::<T>(vv.take(i as int)),
            decreases v@.len() - i,
        {
            let e = &v[i];
            assert(vv[i as int] == e@);
            if l.has(e.round_id(), e.player_ref()) {
                proof {
                    let s0 = vv.take(i as int);
                    let j = choose|j: int| 0 <= j < s0.len() && T::key_of(s0[j]) == T::key_of(e@);
                    assert(s0[j] == vv[j]);
                    assert(T::key_of(vv[j]) == T::key_of(vv[i as int]));
                }
                return Err(e.copy_entry());
            }
            proof {
                lemma_push_map::<T>(vv.take(i as int), e@);
                assert(vv.take(i + 1) =~= vv.take(i as int).push(e@));
            }
            l.push_new(e.copy_entry());
            i = i + 1;
        }
        assert(vv.take(i as int) =~= vv);
        Ok(l)
    }

    /// Deletes the record under the key, if any.
    pub fn remove(&mut self, round_id: u128, player: &String)
        requires
            old(self).wf(),
        ensures
            final(self).wf(),
            final(self).view() == old(self).view().remove((round_id, player@)),
    {
        let found = self.find(round_id, player);
        match found {
            None => {
                assert(self.view() =~= self.view().remove((round_id, player@)));
            },
            Some(i) => {
                let ghost s0 = self.entries_view();
                let ghost k = (round_id, player@);
                self.entries.remove(i);
                let ghost s1 = self.entries_view();
                proof {
                    assert(s1 =~= s0.remove(i as int));
                    assert(keys_unique::<T>(s1)) by {
                        assert forall|a: int, b: int|
                            0 <= a < s1.len() && 0 <= b < s1.len() && a != b implies T::key_of(
                            #[trigger] s1[a],
                        ) != T::key_of(#[trigger] s1[b]) by {
                            let a0 = if a < i { a } else { a + 1 };
                            let b0 = if b < i { b } else { b + 1 };
                            assert(s1[a] == s0[a0] && s1[b] == s0[b0]);
                        }
                    }
                    let m0 = seq_to_map::<T>(s0);
                    let m1 = seq_to_map::<T>(s1);
                    assert forall|q: LedgerKey| #[trigger]
                        m1.contains_key(q) <==> m0.remove(k).contains_key(q) by {
                        if m0.contains_key(q) && q != k {
                            let j = choose|j: int| 0 <= j < s0.len() && T::key_of(s0[j]) == q;
                            let j1 = if j < i { j } else { j - 1 };
                            assert(s1[j1] == s0[j]);
                        }
                        if m1.contains_key(q) {
                            let j = choose|j: int| 0 <= j < s1.len() && T::key_of(s1[j]) == q;
                            let j0 = if j < i { j } else { j + 1 };
                            assert(s1[j] == s0[j0]);
                        }
                    }
                    assert forall|q: LedgerKey| #[trigger] m1.contains_key(q) implies m1[q] == m0.remove(
                        k,
                    )[q] by {
                        let j = choose|j: int| 0 <= j < s1.len() && T::key_of(s1[j]) == q;
                        let j0 = if j < i { j } else { j + 1 };
                        assert(s1[j] == s0[j0]);
                        lemma_map_at::<T>(s1, j);
                        lemma_map_at::<T>(s0, j0);
                    }
                    assert(m1 =~= m0.remove(k));
                }
            },
        }
    }
}

} // verus!
