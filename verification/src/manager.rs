use vstd::prelude::*;

use crate::date::lemma_key_injective;
use crate::date::Date;
use crate::jsonify::deserialize;
use crate::jsonify::enc_doc;
use crate::jsonify::serialize;
use crate::jsonify::spec_decode;
use crate::jsonify::spec_decode_status;
use crate::jsonify::DecodeError;
use crate::standup::Standup;
use crate::standup::StandupModel;

verus! {

/// The store that results from inserting records one after another into an
/// empty store, each replacing any earlier record of the same date.
pub open spec fn seq_upsert_all(ms: Seq<StandupModel>) -> Seq<StandupModel>
    decreases ms.len(),
{
    if ms.len() == 0 {
        Seq::empty()
    } else {
        seq_upsert(seq_upsert_all(ms.drop_last()), ms.last())
    }
}

/// The record stored under `key`: the first element whose date has that key
/// (under the store invariant there is at most one).
pub open spec fn seq_get(s: Seq<StandupModel>, key: int) -> Option<StandupModel>
    decreases s.len(),
{
    if s.len() == 0 {
        None
    } else if s[0].date.spec_key() == key {
        Some(s[0])
    } else {
        seq_get(s.drop_first(), key)
    }
}

/// How many records are stored under `key`.
pub open spec fn seq_count_key(s: Seq<StandupModel>, key: int) -> int
    decreases s.len(),
{
    if s.len() == 0 {
        0
    } else {
        (if s[0].date.spec_key() == key {
            1int
        } else {
            0int
        }) + seq_count_key(s.drop_first(), key)
    }
}

/// The records with `m` added at its place in date order, replacing the
/// record of the same date if there is one.
pub open spec fn seq_upsert(s: Seq<StandupModel>, m: StandupModel) -> Seq<StandupModel>
    decreases s.len(),
{
    if s.len() == 0 {
        seq![m]
    } else if m.date.spec_key() < s[0].date.spec_key() {
        seq![m] + s
    } else if m.date.spec_key() == s[0].date.spec_key() {
        seq![m] + s.drop_first()
    } else {
        seq![s[0]] + seq_upsert(s.drop_first(), m)
    }
}

/// The records with the one stored under `key` removed.
pub open spec fn seq_remove_key(s: Seq<StandupModel>, key: int) -> Seq<StandupModel>
    decreases s.len(),
{
    if s.len() == 0 {
        s
    } else if s[0].date.spec_key() == key {
        s.drop_first()
    } else {
        seq![s[0]] + seq_remove_key(s.drop_first(), key)
    }
}

/// Strictly ascending date keys: chronological order, one record per date.
pub open spec fn spec_sorted(s: Seq<StandupModel>) -> bool {
    forall|i: int, j: int|
        0 <= i < j < s.len() ==> s[i].date.spec_key() < s[j].date.spec_key()
}

/// Every stored date is a real calendar day.
pub open spec fn spec_all_wf(s: Seq<StandupModel>) -> bool {
    forall|i: int| 0 <= i < s.len() ==> (#[trigger] s[i]).date.wf()
}

/// The in-memory store: records in ascending date order, one per date.
#[derive(Debug)]
pub struct Manager {
    standups: Vec<Standup>,
}

impl View for Manager {
    type V = Seq<StandupModel>;

    closed spec fn view(&self) -> Seq<StandupModel> {
        self.standups.deep_view()
    }
}

/// A key is found exactly when some record carries it, and what is found is
/// such a record.
pub proof fn lemma_seq_get_iff(s: Seq<StandupModel>, key: int)
    ensures
        (seq_get(s, key) is Some) <==> exists|i: int|
            0 <= i < s.len() && (#[trigger] s[i]).date.spec_key() == key,
        seq_get(s, key) matches Some(m) ==> exists|i: int|
            0 <= i < s.len() && #[trigger] s[i] == m && m.date.spec_key() == key,
    decreases s.len(),
{
    if s.len() == 0 {
    } else if s[0].date.spec_key() == key {
    } else {
        lemma_seq_get_iff(s.drop_first(), key);
        if seq_get(s, key) is Some {
            let m = seq_get(s, key)->Some_0;
            let i = choose|i: int|
                0 <= i < s.drop_first().len() && #[trigger] s.drop_first()[i] == m
                    && m.date.spec_key() == key;
            assert(s[i + 1] == m);
        }
        if exists|i: int| 0 <= i < s.len() && (#[trigger] s[i]).date.spec_key() == key {
            let i = choose|i: int| 0 <= i < s.len() && (#[trigger] s[i]).date.spec_key() == key;
            assert(s.drop_first()[i - 1] == s[i]);
        }
    }
}

/// What `seq_upsert` does to lookups, order and contents.
pub proof fn lemma_upsert_props(s: Seq<StandupModel>, m: StandupModel)
    requires
        spec_sorted(s),
    ensures
        spec_sorted(seq_upsert(s, m)),
        seq_get(seq_upsert(s, m), m.date.spec_key()) == Some(m),
        forall|k: int|
            k != m.date.spec_key() ==> #[trigger] seq_get(seq_upsert(s, m), k) == seq_get(s, k),
        forall|i: int|
            0 <= i < seq_upsert(s, m).len() ==> (#[trigger] seq_upsert(s, m)[i] == m || s.contains(
                seq_upsert(s, m)[i],
            )),
        seq_count_key(seq_upsert(s, m), m.date.spec_key()) == 1,
    decreases s.len(),
{
    let k0 = m.date.spec_key();
    let r = seq_upsert(s, m);
    if s.len() == 0 {
        assert(r =~= seq![m]);
        assert(r.drop_first() =~= Seq::<StandupModel>::empty());
        assert forall|k: int| k != k0 implies #[trigger] seq_get(r, k) == seq_get(s, k) by {
            assert(seq_get(r, k) == seq_get(r.drop_first(), k));
        }
        assert(seq_count_key(r.drop_first(), k0) == 0);
        assert(seq_count_key(r, k0) == 1);
    } else if k0 < s[0].date.spec_key() {
        assert(r =~= seq![m] + s);
        assert(r.drop_first() =~= s);
        assert(seq_get(r, k0) == Some(m));
        assert forall|k: int| k != k0 implies #[trigger] seq_get(r, k) == seq_get(s, k) by {
            assert(seq_get(r, k) == seq_get(s, k));
        }
        assert forall|i: int| 0 <= i < r.len() implies (#[trigger] r[i] == m || s.contains(
            r[i],
        )) by {
            if i >= 1 {
                assert(r[i] == s[i - 1]);
            }
        }
        lemma_seq_get_iff(s, k0);
        assert forall|i: int| 0 <= i < s.len() implies (#[trigger] s[i]).date.spec_key() != k0 by {
            if i > 0 {
                assert(s[0].date.spec_key() < s[i].date.spec_key());
            }
        }
        lemma_count_zero_when_absent(s, k0);
        assert(seq_count_key(r, k0) == 1 + seq_count_key(s, k0));
    } else if k0 == s[0].date.spec_key() {
        assert(r =~= seq![m] + s.drop_first());
        assert(r.drop_first() =~= s.drop_first());
        assert forall|k: int| k != k0 implies #[trigger] seq_get(r, k) == seq_get(s, k) by {
            assert(seq_get(r, k) == seq_get(r.drop_first(), k));
        }
        assert forall|i: int| 0 <= i < r.len() implies (#[trigger] r[i] == m || s.contains(
            r[i],
        )) by {
            if i >= 1 {
                assert(r[i] == s[i]);
            }
        }
        assert forall|i: int|
            0 <= i < s.drop_first().len() implies (#[trigger] s.drop_first()[i]).date.spec_key()
            != k0 by {
            assert(s.drop_first()[i] == s[i + 1]);
            assert(s[0].date.spec_key() < s[i + 1].date.spec_key());
        }
        lemma_count_zero_when_absent(s.drop_first(), k0);
        assert(seq_count_key(r, k0) == 1 + seq_count_key(s.drop_first(), k0));
    } else {
        assert(spec_sorted(s.drop_first())) by {
            assert forall|i: int, j: int|
                0 <= i < j < s.drop_first().len() implies s.drop_first()[i].date.spec_key()
                < s.drop_first()[j].date.spec_key() by {
                assert(s.drop_first()[i] == s[i + 1] && s.drop_first()[j] == s[j + 1]);
            }
        }
        lemma_upsert_props(s.drop_first(), m);
        assert(r =~= seq![s[0]] + seq_upsert(s.drop_first(), m));
        assert(r.drop_first() =~= seq_upsert(s.drop_first(), m));
        assert(r[0] == s[0]);
        let rt = seq_upsert(s.drop_first(), m);
        // order: head key below every tail key
        assert forall|i: int, j: int| 0 <= i < j < r.len() implies r[i].date.spec_key()
            < r[j].date.spec_key() by {
            if i == 0 {
                assert(r[j] == rt[j - 1]);
                if rt[j - 1] == m {
                } else {
                    assert(s.drop_first().contains(rt[j - 1]));
                    let x = choose|x: int|
                        0 <= x < s.drop_first().len() && s.drop_first()[x] == rt[j - 1];
                    assert(s[x + 1] == rt[j - 1]);
                }
            } else {
                assert(r[i] == rt[i - 1] && r[j] == rt[j - 1]);
            }
        }
        assert(seq_get(r, k0) == seq_get(rt, k0));
        assert forall|k: int| k != k0 implies #[trigger] seq_get(r, k) == seq_get(s, k) by {
            if k == s[0].date.spec_key() {
            } else {
                assert(seq_get(r, k) == seq_get(rt, k));
                assert(seq_get(s, k) == seq_get(s.drop_first(), k));
            }
        }
        assert forall|i: int| 0 <= i < r.len() implies (#[trigger] r[i] == m || s.contains(
            r[i],
        )) by {
            if i == 0 {
                assert(s[0] == r[0]);
            } else {
                assert(r[i] == rt[i - 1]);
                if rt[i - 1] == m {
                } else {
                    assert(s.drop_first().contains(rt[i - 1]));
                    let x = choose|x: int|
                        0 <= x < s.drop_first().len() && s.drop_first()[x] == rt[i - 1];
                    assert(s[x + 1] == rt[i - 1]);
                }
            }
        }
        assert(seq_count_key(r, k0) == seq_count_key(rt, k0));
        assert(spec_sorted(s.drop_first())) by {
            assert forall|i: int, j: int|
                0 <= i < j < s.drop_first().len() implies s.drop_first()[i].date.spec_key()
                < s.drop_first()[j].date.spec_key() by {
                assert(s.drop_first()[i] == s[i + 1] && s.drop_first()[j] == s[j + 1]);
            }
        }
    }
}

/// Upserting two records of the same date, in either store, leaves exactly
/// one record for that date: the second of the two.
pub proof fn lemma_upsert_last_wins(s: Seq<StandupModel>, a: StandupModel, b: StandupModel)
    requires
        spec_sorted(s),
        a.date.spec_key() == b.date.spec_key(),
    ensures
        seq_get(seq_upsert(seq_upsert(s, a), b), b.date.spec_key()) == Some(b),
        seq_count_key(seq_upsert(seq_upsert(s, a), b), b.date.spec_key()) == 1,
{
    lemma_upsert_props(s, a);
    lemma_upsert_props(seq_upsert(s, a), b);
}

/// Inserting a record dated after everything in the store appends it.
proof fn lemma_upsert_append(s: Seq<StandupModel>, m: StandupModel)
    requires
        forall|i: int| 0 <= i < s.len() ==> (#[trigger] s[i]).date.spec_key() < m.date.spec_key(),
    ensures
        seq_upsert(s, m) == s.push(m),
    decreases s.len(),
{
    if s.len() == 0 {
        assert(seq_upsert(s, m) =~= s.push(m));
    } else {
        assert forall|i: int|
            0 <= i < s.drop_first().len() implies (#[trigger] s.drop_first()[i]).date.spec_key()
            < m.date.spec_key() by {
            assert(s.drop_first()[i] == s[i + 1]);
        }
        lemma_upsert_append(s.drop_first(), m);
        assert(seq_upsert(s, m) =~= s.push(m));
    }
}

/// Replaying a store's own records in order rebuilds the store exactly.
pub proof fn lemma_upsert_all_sorted(s: Seq<StandupModel>)
    requires
        spec_sorted(s),
    ensures
        seq_upsert_all(s) == s,
    decreases s.len(),
{
    if s.len() == 0 {
        assert(seq_upsert_all(s) =~= s);
    } else {
        let pre = s.drop_last();
        assert(spec_sorted(pre)) by {
            assert forall|i: int, j: int| 0 <= i < j < pre.len() implies pre[i].date.spec_key()
                < pre[j].date.spec_key() by {
                assert(pre[i] == s[i] && pre[j] == s[j]);
            }
        }
        lemma_upsert_all_sorted(pre);
        assert forall|i: int|
            0 <= i < pre.len() implies (#[trigger] pre[i]).date.spec_key()
            < s.last().date.spec_key() by {
            assert(pre[i] == s[i]);
        }
        lemma_upsert_append(pre, s.last());
        assert(pre.push(s.last()) =~= s);
    }
}

/// Round trip through the file: flushing a store to text, decoding the text
/// and replaying the decoded records rebuilds the same store, whatever date
/// stands in for unreadable ones.
pub proof fn lemma_store_round_trip(s: Seq<StandupModel>, d: Date)
    requires
        spec_sorted(s),
        spec_all_wf(s),
    ensures
        crate::jsonify::spec_decode(crate::jsonify::enc_doc(s), d) == Ok::<
            Seq<StandupModel>,
            DecodeError,
        >(s),
        seq_upsert_all(s) == s,
{
    crate::jsonify::lemma_decode_encode(s, d);
    lemma_upsert_all_sorted(s);
}

/// A key that no record carries counts zero.
proof fn lemma_count_zero_when_absent(s: Seq<StandupModel>, key: int)
    requires
        forall|i: int| 0 <= i < s.len() ==> (#[trigger] s[i]).date.spec_key() != key,
    ensures
        seq_count_key(s, key) == 0,
    decreases s.len(),
{
    if s.len() > 0 {
        assert forall|i: int|
            0 <= i < s.drop_first().len() implies (#[trigger] s.drop_first()[i]).date.spec_key()
            != key by {
            assert(s.drop_first()[i] == s[i + 1]);
        }
        lemma_count_zero_when_absent(s.drop_first(), key);
    }
}

/// What `seq_remove_key` does to lookups, order and contents.
pub proof fn lemma_remove_key_props(s: Seq<StandupModel>, key: int)
    requires
        spec_sorted(s),
    ensures
        spec_sorted(seq_remove_key(s, key)),
        seq_get(seq_remove_key(s, key), key) is None,
        forall|k: int| k != key ==> #[trigger] seq_get(seq_remove_key(s, key), k) == seq_get(s, k),
        forall|i: int|
            0 <= i < seq_remove_key(s, key).len() ==> s.contains(
                #[trigger] seq_remove_key(s, key)[i],
            ),
        seq_get(s, key) is None ==> seq_remove_key(s, key) == s,
    decreases s.len(),
{
    let r = seq_remove_key(s, key);
    if s.len() == 0 {
        assert(r =~= s);
    } else if s[0].date.spec_key() == key {
        assert(r =~= s.drop_first());
        assert forall|i: int| 0 <= i < r.len() implies s.contains(#[trigger] r[i]) by {
            assert(s[i + 1] == r[i]);
        }
        lemma_seq_get_iff(r, key);
        if seq_get(r, key) is Some {
            let i = choose|i: int| 0 <= i < r.len() && (#[trigger] r[i]).date.spec_key() == key;
            assert(s[i + 1].date.spec_key() == key);
            assert(s[0].date.spec_key() < s[i + 1].date.spec_key());
        }
        assert forall|k: int| k != key implies #[trigger] seq_get(r, k) == seq_get(s, k) by {}
    } else {
        lemma_remove_key_props(s.drop_first(), key);
        assert(r =~= seq![s[0]] + seq_remove_key(s.drop_first(), key));
        assert(r.drop_first() =~= seq_remove_key(s.drop_first(), key));
        assert(r[0] == s[0]);
        let rt = seq_remove_key(s.drop_first(), key);
        assert forall|i: int| 0 <= i < r.len() implies s.contains(#[trigger] r[i]) by {
            if i == 0 {
                assert(s[0] == r[0]);
            } else {
                assert(r[i] == rt[i - 1]);
                assert(s.drop_first().contains(rt[i - 1]));
                let x = choose|x: int|
                    0 <= x < s.drop_first().len() && s.drop_first()[x] == rt[i - 1];
                assert(s[x + 1] == rt[i - 1]);
            }
        }
        assert forall|i: int, j: int| 0 <= i < j < r.len() implies r[i].date.spec_key()
            < r[j].date.spec_key() by {
            if i == 0 {
                assert(r[j] == rt[j - 1]);
                assert(s.drop_first().contains(rt[j - 1]));
                let x = choose|x: int|
                    0 <= x < s.drop_first().len() && s.drop_first()[x] == rt[j - 1];
                assert(s[x + 1] == rt[j - 1]);
            } else {
                assert(r[i] == rt[i - 1] && r[j] == rt[j - 1]);
            }
        }
        assert(seq_get(r, key) == seq_get(rt, key));
        assert forall|k: int| k != key implies #[trigger] seq_get(r, k) == seq_get(s, k) by {
            if k == s[0].date.spec_key() {
            } else {
                assert(seq_get(r, k) == seq_get(rt, k));
                assert(seq_get(s, k) == seq_get(s.drop_first(), k));
            }
        }
        if seq_get(s, key) is None {
            assert(r =~= s);
        }
    }
}

impl Manager {
    /// The store invariant: ascending unique dates, all of them real days.
    pub open spec fn inv(&self) -> bool {
        spec_sorted(self@) && spec_all_wf(self@)
    }

    /// An empty store.
    pub fn new() -> (r: Manager)
        ensures
            r@ =~= Seq::<StandupModel>::empty(),
            r.inv(),
    {
        let r = Manager { standups: Vec::new() };
        assert(r@ =~= Seq::<StandupModel>::empty());
        r
    }

    /// The stored record for `date`, as a copy, or nothing.
    pub fn get(&self, date: &Date) -> (r: Option<Standup>)
        requires
            self.inv(),
            date.wf(),
        ensures
            (r is Some) == (seq_get(self@, date.spec_key()) is Some),
            r matches Some(e) ==> Some(e@) == seq_get(self@, date.spec_key()),
    {
        let n = self.standups.len();
        let mut i: usize = 0;
        loop
            invariant_except_break
                i <= n,
                n == self.standups.len(),
                self.inv(),
                date.wf(),
                forall|j: int| 0 <= j < i ==> (#[trigger] self@[j]).date != *date,
            ensures
                n == self.standups.len(),
                (i < n && self@[i as int].date == *date) || (i == n && forall|j: int|
                    0 <= j < n ==> (#[trigger] self@[j]).date != *date),
            decreases n - i,
        {
            if i >= n {
                break ;
            }
            if self.standups[i].date == *date {
                break ;
            }
            i = i + 1;
        }
        proof {
            lemma_seq_get_iff(self@, date.spec_key());
        }
        if i < n {
            let e = self.standups[i].duplicate();
            proof {
                let k = date.spec_key();
                let m = seq_get(self@, k)->Some_0;
                let x = choose|x: int|
                    0 <= x < self@.len() && #[trigger] self@[x] == m && m.date.spec_key() == k;
                lemma_key_injective(self@[x].date, *date);
                assert(self@[i as int] == self@[x]);
            }
            Some(e)
        } else {
            proof {
                if seq_get(self@, date.spec_key()) is Some {
                    let m = seq_get(self@, date.spec_key())->Some_0;
                    let x = choose|x: int|
                        0 <= x < self@.len() && #[trigger] self@[x] == m && m.date.spec_key()
                            == date.spec_key();
                    lemma_key_injective(self@[x].date, *date);
                }
            }
            None
        }
    }

    /// Stores `standup` under its date, replacing any record already there.
    pub fn insert(&mut self, standup: Standup)
        requires
            old(self).inv(),
            standup.wf(),
        ensures
            final(self)@ == seq_upsert(old(self)@, standup@),
            final(self).inv(),
    {
        let ghost s0 = self@;
        let ghost m = standup@;
        let k = standup.date.key();
        let n = self.standups.len();
        let mut i: usize = 0;
        loop
            invariant_except_break
                i <= n,
                n == self.standups.len(),
                *self == *old(self),
                self.inv(),
                standup.wf(),
                k == standup@.date.spec_key(),
                forall|j: int| 0 <= j < i ==> (#[trigger] self@[j]).date.spec_key() < k,
            ensures
                *self == *old(self),
                i <= n,
                n == self.standups.len(),
                forall|j: int| 0 <= j < i ==> (#[trigger] self@[j]).date.spec_key() < k,
                i < n ==> self@[i as int].date.spec_key() >= k,
            decreases n - i,
        {
            if i >= n {
                break ;
            }
            proof {
                assert(self@[i as int] == self.standups@[i as int].deep_view());
            }
            if self.standups[i].date.key() >= k {
                break ;
            }
            i = i + 1;
        }
        proof {
            lemma_upsert_at(s0, m, i as int);
            lemma_upsert_props(s0, m);
        }
        proof {
            if i < n {
                assert(self@[i as int] == self.standups@[i as int].deep_view());
            }
        }
        if i < n && self.standups[i].date.key() == k {
            self.standups.set(i, standup);
            assert(self@ =~= s0.update(i as int, m));
        } else {
            self.standups.insert(i, standup);
            assert(self@ =~= s0.take(i as int) + seq![m] + s0.skip(i as int));
        }
        proof {
            assert forall|x: int| 0 <= x < self@.len() implies (#[trigger] self@[x]).date.wf() by {
                if self@[x] == m {
                } else {
                    assert(s0.contains(self@[x]));
                    let y = choose|y: int| 0 <= y < s0.len() && s0[y] == self@[x];
                }
            }
        }
    }

    /// Removes and returns the record stored under `date`, if any.
    pub fn delete(&mut self, date: &Date) -> (r: Option<Standup>)
        requires
            old(self).inv(),
            date.wf(),
        ensures
            final(self)@ == seq_remove_key(old(self)@, date.spec_key()),
            final(self).inv(),
            (r is Some) == (seq_get(old(self)@, date.spec_key()) is Some),
            r matches Some(e) ==> Some(e@) == seq_get(old(self)@, date.spec_key()),
            seq_get(final(self)@, date.spec_key()) is None,
    {
        let ghost s0 = self@;
        let n = self.standups.len();
        let mut i: usize = 0;
        loop
            invariant_except_break
                i <= n,
                n == self.standups.len(),
                *self == *old(self),
                self.inv(),
                date.wf(),
                forall|j: int| 0 <= j < i ==> (#[trigger] self@[j]).date != *date,
            ensures
                *self == *old(self),
                n == self.standups.len(),
                (i < n && self@[i as int].date == *date) || (i == n && forall|j: int|
                    0 <= j < n ==> (#[trigger] self@[j]).date != *date),
            decreases n - i,
        {
            if i >= n {
                break ;
            }
            if self.standups[i].date == *date {
                break ;
            }
            i = i + 1;
        }
        proof {
            lemma_seq_get_iff(s0, date.spec_key());
            lemma_remove_key_props(s0, date.spec_key());
        }
        if i < n {
            let e = self.standups.remove(i);
            proof {
                lemma_remove_at(s0, date.spec_key(), i as int);
                assert(self@ =~= s0.take(i as int) + s0.skip(i as int + 1));
                assert forall|x: int|
                    0 <= x < self@.len() implies (#[trigger] self@[x]).date.wf() by {
                    assert(s0.contains(self@[x]));
                    let y = choose|y: int| 0 <= y < s0.len() && s0[y] == self@[x];
                }
                assert(Some(e@) == seq_get(s0, date.spec_key())) by {
                    lemma_seq_get_first_at(s0, date.spec_key(), i as int);
                    lemma_key_injective(s0[i as int].date, *date);
                }
            }
            Some(e)
        } else {
            proof {
                if seq_get(s0, date.spec_key()) is Some {
                    let m = seq_get(s0, date.spec_key())->Some_0;
                    let x = choose|x: int|
                        0 <= x < s0.len() && #[trigger] s0[x] == m && m.date.spec_key()
                            == date.spec_key();
                    lemma_key_injective(s0[x].date, *date);
                }
                assert(self@ =~= seq_remove_key(s0, date.spec_key()));
            }
            None
        }
    }

    /// All stored records in ascending date order, as copies.
    pub fn standups(&self) -> (r: Vec<Standup>)
        requires
            self.inv(),
        ensures
            r.deep_view() == self@,
    {
        let n = self.standups.len();
        let mut r: Vec<Standup> = Vec::new();
        let mut i: usize = 0;
        while i < n
            invariant
                i <= n,
                n == self.standups.len(),
                r@.len() == i,
                forall|j: int| 0 <= j < i ==> (#[trigger] r@[j]).deep_view() == self@[j],
            decreases n - i,
        {
            let e = self.standups[i].duplicate();
            proof {
                assert(self@[i as int] == self.standups@[i as int].deep_view());
                assert(e.deep_view() == self@[i as int]);
            }
            r.push(e);
            i = i + 1;
        }
        proof {
            assert(r.deep_view() =~= self@);
        }
        r
    }

    /// How many records the store holds.
    pub fn len(&self) -> (n: usize)
        ensures
            n == self@.len(),
    {
        self.standups.len()
    }

    /// Builds a store from the journal file text: every decoded record is
    /// inserted in order, later dates of the same day replacing earlier
    /// ones.  Fails exactly when the text does not decode.
    pub fn from_reader(text: &str) -> (r: Result<Manager, DecodeError>)
        ensures
            (r is Ok) == (spec_decode_status(text@) is Ok),
            r matches Err(e) ==> spec_decode_status(text@) == Err::<(), DecodeError>(e),
            r matches Ok(m) ==> m.inv() && exists|d: Date|
                (#[trigger] d.wf()) && spec_decode(text@, d) is Ok && m@ == seq_upsert_all(
                    spec_decode(text@, d)->Ok_0,
                ),
    {
        match deserialize(text) {
            Err(e) => Err(e),
            Ok(list) => {
                let ghost models = list.deep_view();
                let n = list.len();
                let mut m = Manager::new();
                let mut i: usize = 0;
                while i < n
                    invariant
                        i <= n,
                        n == list.len(),
                        models == list.deep_view(),
                        forall|k: int| 0 <= k < n ==> (#[trigger] list@[k]).wf(),
                        m.inv(),
                        m@ == seq_upsert_all(models.take(i as int)),
                    decreases n - i,
                {
                    let ghost pre = models.take(i as int);
                    let e = list[i].duplicate();
                    proof {
                        assert(models[i as int] == list@[i as int]@);
                    }
                    m.insert(e);
                    proof {
                        assert(models.take(i + 1).drop_last() =~= pre);
                        assert(models.take(i + 1).last() == models[i as int]);
                    }
                    i = i + 1;
                }
                proof {
                    assert(models.take(n as int) =~= models);
                    let d = choose|d: Date|
                        (#[trigger] d.wf()) && Ok::<Seq<StandupModel>, DecodeError>(
                            list.deep_view(),
                        ) == spec_decode(text@, d);
                    assert(d.wf() && spec_decode(text@, d) is Ok && m@ == seq_upsert_all(
                        spec_decode(text@, d)->Ok_0,
                    ));
                }
                Ok(m)
            },
        }
    }

    /// The whole store as the journal file text: a JSON array of record
    /// objects in ascending date order.
    pub fn flush(&self) -> (r: String)
        requires
            self.inv(),
        ensures
            r@ == enc_doc(self@),
    {
        let list = self.standups();
        proof {
            assert forall|i: int| 0 <= i < list@.len() implies (#[trigger] list@[i]).wf() by {
                assert(list.deep_view()[i] == list@[i]@);
                assert(list.deep_view()[i] == self@[i]);
            }
        }
        serialize(&list)
    }
}

/// At the first index carrying `key`, the lookup finds that record.
proof fn lemma_seq_get_first_at(s: Seq<StandupModel>, key: int, i: int)
    requires
        0 <= i < s.len(),
        s[i].date.spec_key() == key,
        forall|j: int| 0 <= j < i ==> (#[trigger] s[j]).date.spec_key() != key,
    ensures
        seq_get(s, key) == Some(s[i]),
    decreases i,
{
    if i == 0 {
    } else {
        assert forall|j: int|
            0 <= j < i - 1 implies (#[trigger] s.drop_first()[j]).date.spec_key() != key by {
            assert(s.drop_first()[j] == s[j + 1]);
        }
        assert(s.drop_first()[i - 1] == s[i]);
        lemma_seq_get_first_at(s.drop_first(), key, i - 1);
    }
}

/// Removing at the index that carries `key` realizes `seq_remove_key`.
proof fn lemma_remove_at(s: Seq<StandupModel>, key: int, i: int)
    requires
        0 <= i < s.len(),
        s[i].date.spec_key() == key,
        forall|j: int| 0 <= j < i ==> (#[trigger] s[j]).date.spec_key() != key,
    ensures
        seq_remove_key(s, key) == s.take(i) + s.skip(i + 1),
    decreases i,
{
    if i == 0 {
        assert(seq_remove_key(s, key) =~= s.take(0) + s.skip(1));
    } else {
        assert forall|j: int|
            0 <= j < i - 1 implies (#[trigger] s.drop_first()[j]).date.spec_key() != key by {
            assert(s.drop_first()[j] == s[j + 1]);
        }
        assert(s.drop_first()[i - 1] == s[i]);
        lemma_remove_at(s.drop_first(), key, i - 1);
        assert(seq_remove_key(s, key) =~= seq![s[0]] + seq_remove_key(s.drop_first(), key));
        assert(seq_remove_key(s.drop_first(), key) == s.drop_first().take(i - 1)
            + s.drop_first().skip(i));
        assert(seq_remove_key(s, key) =~= s.take(i) + s.skip(i + 1));
    }
}

/// Upserting at the position the scan found realizes `seq_upsert`.
proof fn lemma_upsert_at(s: Seq<StandupModel>, m: StandupModel, i: int)
    requires
        0 <= i <= s.len(),
        forall|j: int| 0 <= j < i ==> (#[trigger] s[j]).date.spec_key() < m.date.spec_key(),
        i < s.len() ==> s[i].date.spec_key() >= m.date.spec_key(),
    ensures
        (i < s.len() && s[i].date.spec_key() == m.date.spec_key()) ==> seq_upsert(s, m) == s.update(
            i,
            m,
        ),
        (i == s.len() || s[i].date.spec_key() > m.date.spec_key()) ==> seq_upsert(s, m) == s.take(i)
            + seq![m] + s.skip(i),
    decreases i,
{
    if i == 0 {
        if s.len() == 0 {
            assert(seq_upsert(s, m) =~= s.take(0) + seq![m] + s.skip(0));
        } else if s[0].date.spec_key() == m.date.spec_key() {
            assert(seq_upsert(s, m) =~= s.update(0, m));
        } else {
            assert(seq_upsert(s, m) =~= s.take(0) + seq![m] + s.skip(0));
        }
    } else {
        assert forall|j: int|
            0 <= j < i - 1 implies (#[trigger] s.drop_first()[j]).date.spec_key()
            < m.date.spec_key() by {
            assert(s.drop_first()[j] == s[j + 1]);
        }
        if i < s.len() {
            assert(s.drop_first()[i - 1] == s[i]);
        }
        lemma_upsert_at(s.drop_first(), m, i - 1);
        assert(seq_upsert(s, m) == seq![s[0]] + seq_upsert(s.drop_first(), m));
        if i < s.len() && s[i].date.spec_key() == m.date.spec_key() {
            assert(seq_upsert(s, m) =~= s.update(i, m));
        } else {
            assert(seq_upsert(s, m) =~= s.take(i) + seq![m] + s.skip(i));
        }
    }
}

} // verus!
