//! The record accumulator: one in-progress flat record, a mapping from
//! rendered path-key to the ordered list of string values seen for that key.
//!
//! Values accumulate under one key in stream order; they are preserved
//! positionally, never deduplicated and never sorted.  The record is flushed
//! whole at each row boundary and cleared for the next row.
use vstd::prelude::*;

use crate::path_stack::key_of;
use crate::path_stack::segs_view;
use crate::path_stack::to_key;

verus! {

/// The mathematical content of a record: rendered keys in insertion order,
/// each with its ordered list of values.
pub type RecModel = Seq<(Seq<char>, Seq<Seq<char>>)>;

/// Whether some entry of `rec` carries `key`.
pub open spec fn rec_has_key(rec: RecModel, key: Seq<char>) -> bool {
    exists|i: int| 0 <= i < rec.len() && rec[i].0 == key
}

/// The index of the entry carrying `key` (unique when the keys are distinct).
pub open spec fn rec_key_at(rec: RecModel, key: Seq<char>) -> int {
    choose|i: int| 0 <= i < rec.len() && rec[i].0 == key
}

/// The keys of `rec` are pairwise distinct.
pub open spec fn rec_wf(rec: RecModel) -> bool {
    forall|i: int, j: int| 0 <= i < j < rec.len() ==> rec[i].0 != rec[j].0
}

/// The ordered value list of `key` in `rec`; empty when `rec` has no such key.
pub open spec fn values_for(rec: RecModel, key: Seq<char>) -> Seq<Seq<char>> {
    if rec_has_key(rec, key) {
        rec[rec_key_at(rec, key)].1
    } else {
        Seq::empty()
    }
}

/// `rec` with `val` appended to the value list of `key`, the list being
/// created at the end when `key` is absent.
pub open spec fn rec_add(rec: RecModel, key: Seq<char>, val: Seq<char>) -> RecModel {
    if rec_has_key(rec, key) {
        let i = rec_key_at(rec, key);
        rec.update(i, (key, rec[i].1.push(val)))
    } else {
        rec.push((key, seq![val]))
    }
}

proof fn lemma_key_at(rec: RecModel, key: Seq<char>)
    requires
        rec_wf(rec),
        rec_has_key(rec, key),
    ensures
        0 <= rec_key_at(rec, key) < rec.len(),
        rec[rec_key_at(rec, key)].0 == key,
        forall|i: int| 0 <= i < rec.len() && rec[i].0 == key ==> i == rec_key_at(rec, key),
{
    let w = choose|i: int| 0 <= i < rec.len() && rec[i].0 == key;
    assert(0 <= w < rec.len() && rec[w].0 == key);
}

/// Recording a value never removes anything: rec_add keeps every key's
/// distinctness.
pub proof fn lemma_rec_add_wf(rec: RecModel, key: Seq<char>, val: Seq<char>)
    requires
        rec_wf(rec),
    ensures
        rec_wf(rec_add(rec, key, val)),
{
    if rec_has_key(rec, key) {
        lemma_key_at(rec, key);
        let i = rec_key_at(rec, key);
        let rec2 = rec.update(i, (key, rec[i].1.push(val)));
        assert(forall|j: int| 0 <= j < rec2.len() ==> rec2[j].0 == rec[j].0);
    } else {
        let rec2 = rec.push((key, seq![val]));
        assert(forall|j: int| 0 <= j < rec.len() ==> rec2[j].0 == rec[j].0);
        assert(forall|j: int| 0 <= j < rec.len() ==> rec[j].0 != key);
    }
}

/// Recording a value appends it at the end of its key's value list and
/// leaves every other key's list unchanged — so the list for a key is never
/// shorter than the number of occurrences recorded into it.
pub proof fn lemma_record_value_appends(
    rec: RecModel,
    key: Seq<char>,
    val: Seq<char>,
    other: Seq<char>,
)
    requires
        rec_wf(rec),
    ensures
        values_for(rec_add(rec, key, val), key) == values_for(rec, key).push(val),
        other != key ==> values_for(rec_add(rec, key, val), other) == values_for(rec, other),
{
    let rec2 = rec_add(rec, key, val);
    lemma_rec_add_wf(rec, key, val);
    if rec_has_key(rec, key) {
        lemma_key_at(rec, key);
        let i = rec_key_at(rec, key);
        assert(forall|j: int| 0 <= j < rec2.len() ==> rec2[j].0 == rec[j].0);
        assert(rec_has_key(rec2, key));
        lemma_key_at(rec2, key);
        assert(rec_key_at(rec2, key) == i);
        assert(values_for(rec2, key) == rec[i].1.push(val));
        if other != key {
            if rec_has_key(rec, other) {
                lemma_key_at(rec, other);
                let k = rec_key_at(rec, other);
                assert(rec2[k].0 == other);
                assert(rec_has_key(rec2, other));
                lemma_key_at(rec2, other);
                assert(rec_key_at(rec2, other) == k);
                assert(k != i);
                assert(values_for(rec2, other) == rec[k].1);
            } else {
                assert(forall|j: int| 0 <= j < rec2.len() ==> rec2[j].0 != other);
                assert(!rec_has_key(rec2, other));
            }
        }
    } else {
        let n = rec.len() as int;
        assert(rec2 == rec.push((key, seq![val])));
        assert(rec2[n].0 == key);
        assert(rec_has_key(rec2, key));
        lemma_key_at(rec2, key);
        assert(rec_key_at(rec2, key) == n);
        assert(values_for(rec2, key) == seq![val]);
        assert(values_for(rec, key).push(val) =~= seq![val]);
        if other != key {
            if rec_has_key(rec, other) {
                lemma_key_at(rec, other);
                let k = rec_key_at(rec, other);
                assert(rec2[k].0 == other);
                assert(rec_has_key(rec2, other));
                lemma_key_at(rec2, other);
                assert(rec_key_at(rec2, other) == k);
                assert(values_for(rec2, other) == rec[k].1);
            } else {
                assert(forall|j: int| 0 <= j < rec2.len() ==> rec2[j].0 != other);
                assert(!rec_has_key(rec2, other));
            }
        }
    }
}

/// The record built by recording a sequence of (key, value) pairs in
/// order, starting from an empty record.
pub open spec fn rec_of(cs: Seq<(Seq<char>, Seq<char>)>) -> RecModel
    decreases cs.len(),
{
    if cs.len() == 0 {
        Seq::empty()
    } else {
        rec_add(rec_of(cs.drop_last()), cs.last().0, cs.last().1)
    }
}

/// The values that `cs` records under `key`, in order.
pub open spec fn picked(cs: Seq<(Seq<char>, Seq<char>)>, key: Seq<char>) -> Seq<Seq<char>>
    decreases cs.len(),
{
    if cs.len() == 0 {
        Seq::empty()
    } else if cs.last().0 == key {
        picked(cs.drop_last(), key).push(cs.last().1)
    } else {
        picked(cs.drop_last(), key)
    }
}

/// A record built by successive recordings has pairwise distinct keys.
pub proof fn lemma_rec_of_wf(cs: Seq<(Seq<char>, Seq<char>)>)
    ensures
        rec_wf(rec_of(cs)),
    decreases cs.len(),
{
    if cs.len() > 0 {
        lemma_rec_of_wf(cs.drop_last());
        lemma_rec_add_wf(rec_of(cs.drop_last()), cs.last().0, cs.last().1);
    }
}

/// A record accumulated from a sequence of recordings holds, under each
/// key, exactly the values recorded for that key, in recording order —
/// not deduplicated, not sorted.
pub proof fn lemma_rec_of_per_key(cs: Seq<(Seq<char>, Seq<char>)>, key: Seq<char>)
    ensures
        values_for(rec_of(cs), key) == picked(cs, key),
    decreases cs.len(),
{
    if cs.len() == 0 {
        assert(!rec_has_key(rec_of(cs), key));
    } else {
        lemma_rec_of_per_key(cs.drop_last(), key);
        lemma_rec_of_wf(cs.drop_last());
        lemma_record_value_appends(rec_of(cs.drop_last()), cs.last().0, cs.last().1, key);
    }
}

/// The total number of values held by `rec`, across all keys.
pub open spec fn rec_size(rec: RecModel) -> nat
    decreases rec.len(),
{
    if rec.len() == 0 {
        0
    } else {
        rec[0].1.len() + rec_size(rec.drop_first())
    }
}

proof fn lemma_rec_size_update(rec: RecModel, i: int, pair: (Seq<char>, Seq<Seq<char>>))
    requires
        0 <= i < rec.len(),
    ensures
        rec_size(rec.update(i, pair)) + rec[i].1.len() == rec_size(rec) + pair.1.len(),
    decreases rec.len(),
{
    let u = rec.update(i, pair);
    if i == 0 {
        assert(u[0] == pair);
        assert(u.drop_first() =~= rec.drop_first());
    } else {
        assert(u[0] == rec[0]);
        assert(u.drop_first() =~= rec.drop_first().update(i - 1, pair));
        lemma_rec_size_update(rec.drop_first(), i - 1, pair);
    }
}

proof fn lemma_rec_size_push(rec: RecModel, pair: (Seq<char>, Seq<Seq<char>>))
    ensures
        rec_size(rec.push(pair)) == rec_size(rec) + pair.1.len(),
    decreases rec.len(),
{
    let p = rec.push(pair);
    assert(p.len() == rec.len() + 1);
    assert(rec_size(p) == p[0].1.len() + rec_size(p.drop_first()));
    if rec.len() == 0 {
        assert(p[0] == pair);
        assert(p.drop_first() =~= RecModel::empty());
        assert(rec_size(p.drop_first()) == 0);
    } else {
        assert(p[0] == rec[0]);
        assert(p.drop_first() =~= rec.drop_first().push(pair));
        lemma_rec_size_push(rec.drop_first(), pair);
        assert(rec_size(rec) == rec[0].1.len() + rec_size(rec.drop_first()));
    }
}

/// Recording one value grows the record by exactly one value.
pub proof fn lemma_rec_add_size(rec: RecModel, key: Seq<char>, val: Seq<char>)
    requires
        rec_wf(rec),
    ensures
        rec_size(rec_add(rec, key, val)) == rec_size(rec) + 1,
{
    if rec_has_key(rec, key) {
        lemma_key_at(rec, key);
        let i = rec_key_at(rec, key);
        lemma_rec_size_update(rec, i, (key, rec[i].1.push(val)));
    } else {
        lemma_rec_size_push(rec, (key, seq![val]));
    }
}

/// One flattened output row in the making: rendered path-keys with their
/// ordered value lists, in first-seen key order.
#[derive(Debug)]
pub struct Record {
    pairs: Vec<(String, Vec<String>)>,
}

impl View for Record {
    type V = RecModel;

    closed spec fn view(&self) -> RecModel {
        self.pairs.deep_view()
    }
}

impl DeepView for Record {
    type V = RecModel;

    open spec fn deep_view(&self) -> RecModel {
        self@
    }
}

impl Record {
    /// The keys are pairwise distinct.
    pub open spec fn wf(&self) -> bool {
        rec_wf(self@)
    }

    /// An empty record.
    pub fn new() -> (r: Self)
        ensures
            r@ == RecModel::empty(),
            r.wf(),
    {
        let r = Record { pairs: Vec::new() };
        proof {
            assert(r@ =~= RecModel::empty());
        }
        r
    }

    /// The number of distinct keys.
    pub fn len(&self) -> (n: usize)
        ensures
            n == self@.len(),
    {
        self.pairs.len()
    }

    /// True iff no value has been recorded since the last flush; used at
    /// end-of-stream to detect unflushed leftover data.
    pub fn is_empty(&self) -> (b: bool)
        ensures
            b == (self@.len() == 0),
    {
        self.pairs.is_empty()
    }

    /// The entries, in first-seen key order.
    pub fn entries(&self) -> (r: &Vec<(String, Vec<String>)>)
        ensures
            r.deep_view() == self@,
    {
        &self.pairs
    }

    /// The value list recorded under `key`, if any.
    pub fn get<'a>(&'a self, key: &String) -> (r: Option<&'a Vec<String>>)
        requires
            self.wf(),
        ensures
            r is Some <==> rec_has_key(self@, key@),
            r matches Some(v) ==> v.deep_view() == values_for(self@, key@),
    {
        let n = self.pairs.len();
        let mut i: usize = 0;
        while i < n
            invariant
                i <= n == self@.len(),
                self.wf(),
                rec_wf(self@),
                forall|j: int| 0 <= j < i ==> self@[j].0 != key@,
        decreases n - i,
        {
            if self.pairs[i].0 == *key {
                proof {
                    assert(self@[i as int].0 == key@);
                    assert(rec_has_key(self@, key@));
                    lemma_key_at(self@, key@);
                    assert(rec_key_at(self@, key@) == i as int);
                }
                return Some(&self.pairs[i].1);
            }
            i = i + 1;
        }
        proof {
            assert(!rec_has_key(self@, key@));
        }
        None
    }

    /// Appends `value` to the list under `key`, creating the list at the end
    /// when the key is absent.  Duplicate values are preserved positionally.
    pub fn push_value(&mut self, key: String, value: String)
        requires
            old(self).wf(),
        ensures
            final(self)@ == rec_add(old(self)@, key@, value@),
            final(self).wf(),
    {
        let ghost before = self@;
        let n = self.pairs.len();
        let mut i: usize = 0;
        while i < n
            invariant
                i <= n == before.len(),
                before == old(self)@,
                self@ == before,
                rec_wf(before),
                forall|j: int| 0 <= j < i ==> before[j].0 != key@,
        decreases n - i,
        {
            if self.pairs[i].0 == key {
                proof {
                    assert(before[i as int].0 == key@);
                    assert(rec_has_key(before, key@));
                    lemma_key_at(before, key@);
                    assert(rec_key_at(before, key@) == i as int);
                }
                let ghost p0 = self.pairs@;
                let mut entry = self.pairs.remove(i);
                entry.1.push(value);
                let ghost ge = entry;
                self.pairs.insert(i, entry);
                proof {
                    assert(self.pairs@ =~= p0.update(i as int, ge));
                    assert(ge.deep_view() == (key@, before[i as int].1.push(value@))) by {
                        assert(ge.0@ == key@);
                        assert(ge.1.deep_view() =~= before[i as int].1.push(value@));
                    }
                    assert(self@ =~~= before.update(i as int, (key@, before[i as int].1.push(
                        value@,
                    ))));
                    lemma_rec_add_wf(before, key@, value@);
                }
                return ;
            }
            i = i + 1;
        }
        proof {
            assert(!rec_has_key(before, key@));
        }
        let mut vals: Vec<String> = Vec::new();
        vals.push(value);
        self.pairs.push((key, vals));
        proof {
            assert(self@ =~~= before.push((key@, seq![value@])));
            lemma_rec_add_wf(before, key@, value@);
        }
    }

    /// Renders `path` to a key with `separator` and appends `value` to that
    /// key's value list.
    pub fn record_value(&mut self, path: &[Vec<u8>], separator: &str, value: String)
        requires
            old(self).wf(),
        ensures
            final(self)@ == rec_add(old(self)@, key_of(segs_view(path@), separator@), value@),
            final(self).wf(),
    {
        let key = to_key(path, separator);
        self.push_value(key, value);
    }

    /// Hands out the current record and clears the accumulator, ready for a
    /// fresh row's values.
    pub fn flush(&mut self) -> (r: Record)
        ensures
            r@ == old(self)@,
            final(self)@ == RecModel::empty(),
            final(self).wf(),
            old(self).wf() ==> r.wf(),
    {
        let mut taken: Vec<(String, Vec<String>)> = Vec::new();
        core::mem::swap(&mut taken, &mut self.pairs);
        proof {
            assert(final(self)@ =~= RecModel::empty());
        }
        Record { pairs: taken }
    }
}

} // verus!
