//! The durable entry store: create, read, delete, atomic read-and-burn, and
//! the expiry listing used by the purge sweep.

use vstd::prelude::*;

use crate::entry::{is_expired, spec_is_expired, Entry};
use crate::error::Error;
use crate::seqfacts::{
    elem_at, has_key, lemma_elem_at_index, lemma_filter_keyed, lemma_filter_take_step,
    lemma_take_full, unique_keys,
};

verus! {

/// The key of a row: its id.
pub open spec fn entry_key() -> spec_fn(Entry) -> u64 {
    |e: Entry| e.id
}

/// Whether a row with the given id is physically present.
pub open spec fn store_has(s: Seq<Entry>, id: u64) -> bool {
    has_key(s, entry_key(), id)
}

/// The row with the given id (meaningful when present and ids are unique).
pub open spec fn entry_at(s: Seq<Entry>, id: u64) -> Entry {
    elem_at(s, entry_key(), id)
}

/// No two rows share an id.
pub open spec fn ids_unique(s: Seq<Entry>) -> bool {
    unique_keys(s, entry_key())
}

/// Keeps every row but the one with the given id.
pub open spec fn pred_entry_not_id(id: u64) -> spec_fn(Entry) -> bool {
    |e: Entry| e.id != id
}

/// The rows after the one with the given id is removed.
pub open spec fn spec_remove_id(s: Seq<Entry>, id: u64) -> Seq<Entry> {
    s.filter(pred_entry_not_id(id))
}

/// Keeps the rows that have not expired by `now`.
pub open spec fn pred_entry_unexpired(now: u64) -> spec_fn(Entry) -> bool {
    |e: Entry| !spec_is_expired(e, now)
}

/// Keeps the rows whose id is not among `ids`.
pub open spec fn pred_entry_not_in(ids: Seq<u64>) -> spec_fn(Entry) -> bool {
    |e: Entry| !ids.contains(e.id)
}

/// A row is live when it is present and has not expired: every read path must
/// treat anything else as absent.
pub open spec fn live(s: Seq<Entry>, id: u64, now: u64) -> bool {
    store_has(s, id) && !spec_is_expired(entry_at(s, id), now)
}

/// A present row carries the id it is filed under.
pub proof fn lemma_entry_at_id(s: Seq<Entry>, id: u64)
    requires
        store_has(s, id),
    ensures
        entry_at(s, id).id == id,
{
}

/// What removing one id does to presence, to the other rows and to uniqueness.
pub proof fn lemma_remove_id(s: Seq<Entry>, id: u64)
    requires
        ids_unique(s),
    ensures
        ids_unique(spec_remove_id(s, id)),
        spec_remove_id(s, id).len() <= s.len(),
        !store_has(spec_remove_id(s, id), id),
        forall|x: u64|
            #[trigger] store_has(spec_remove_id(s, id), x) <==> store_has(s, x) && x != id,
        forall|x: u64|
            x != id && #[trigger] store_has(s, x) ==> entry_at(spec_remove_id(s, id), x)
                == entry_at(s, x),
{
    lemma_filter_keyed(s, entry_key(), pred_entry_not_id(id));
    assert forall|x: u64| store_has(s, x) && x != id implies #[trigger] store_has(
        spec_remove_id(s, id),
        x,
    ) by {
        lemma_entry_at_id(s, x);
    }
    if store_has(spec_remove_id(s, id), id) {
        lemma_entry_at_id(s, id);
    }
    assert forall|x: u64| x != id && #[trigger] store_has(s, x) implies entry_at(
        spec_remove_id(s, id),
        x,
    ) == entry_at(s, x) by {
        lemma_entry_at_id(s, x);
        assert(store_has(spec_remove_id(s, id), x));
    }
}

/// What appending a row with a fresh id does to presence and to the other
/// rows.
pub proof fn lemma_push_fresh(s: Seq<Entry>, e: Entry)
    requires
        ids_unique(s),
        !store_has(s, e.id),
    ensures
        ids_unique(s.push(e)),
        forall|x: u64| #[trigger] store_has(s.push(e), x) <==> store_has(s, x) || x == e.id,
        forall|x: u64|
            x != e.id && #[trigger] store_has(s, x) ==> entry_at(s.push(e), x) == entry_at(s, x),
        store_has(s.push(e), e.id),
        entry_at(s.push(e), e.id) == e,
{
    let out = s.push(e);
    let kf = entry_key();
    assert forall|i: int, j: int| 0 <= i < j < out.len() implies kf(#[trigger] out[i]) != kf(
        #[trigger] out[j],
    ) by {
        if j == out.len() - 1 {
            assert(out[i] == s[i]);
            if s[i].id == e.id {
                assert(kf(s[i]) == e.id);
            }
        }
    }
    assert(kf(out[out.len() - 1]) == e.id);
    lemma_elem_at_index(out, kf, out.len() - 1);
    assert forall|x: u64| #[trigger] store_has(out, x) implies store_has(s, x) || x == e.id by {
        let w = choose|w: int| 0 <= w < out.len() && kf(#[trigger] out[w]) == x;
        if w < out.len() - 1 {
            assert(kf(s[w]) == x);
        }
    }
    assert forall|x: u64| #[trigger] store_has(s, x) implies store_has(out, x) by {
        let w = choose|w: int| 0 <= w < s.len() && kf(#[trigger] s[w]) == x;
        assert(kf(out[w]) == x);
    }
    assert forall|x: u64| x != e.id && #[trigger] store_has(s, x) implies entry_at(out, x)
        == entry_at(s, x) by {
        let w = choose|w: int| 0 <= w < s.len() && kf(#[trigger] s[w]) == x;
        lemma_elem_at_index(s, kf, w);
        assert(kf(out[w]) == x);
        lemma_elem_at_index(out, kf, w);
    }
}

/// Durable keyed storage for pastes. Ids are assigned from a counter and never
/// reused, so every row carries a distinct id.
pub struct EntryStore {
    rows: Vec<Entry>,
    next_id: u64,
}

impl View for EntryStore {
    type V = Seq<Entry>;

    closed spec fn view(&self) -> Seq<Entry> {
        self.rows@
    }
}

impl EntryStore {
    /// Internal consistency: ids are unique and all lie below the counter.
    pub closed spec fn wf(&self) -> bool {
        &&& ids_unique(self.rows@)
        &&& forall|x: u64| #[trigger] store_has(self.rows@, x) ==> x < self.next_id
    }

    /// Whether a fresh id can still be assigned.
    pub closed spec fn can_assign_id(&self) -> bool {
        self.next_id < u64::MAX
    }

    /// An empty store.
    pub fn new() -> (r: EntryStore)
        ensures
            r.wf(),
            r@ == Seq::<Entry>::empty(),
            r.can_assign_id(),
    {
        let r = EntryStore { rows: Vec::new(), next_id: 0 };
        proof {
            assert(r.rows@ =~= Seq::<Entry>::empty());
        }
        r
    }

    /// Number of physically present rows.
    pub fn row_count(&self) -> (n: usize)
        ensures
            n == self@.len(),
    {
        self.rows.len()
    }

    /// Whether a row with this id is physically present.
    pub fn contains(&self, id: u64) -> (r: bool)
        requires
            self.wf(),
        ensures
            r == store_has(self@, id),
    {
        match self.find_index(id) {
            Some(_) => true,
            None => false,
        }
    }

    fn find_index(&self, id: u64) -> (r: Option<usize>)
        ensures
            (match r {
                Some(i) => i < self@.len() && self@[i as int].id == id && store_has(self@, id),
                None => !store_has(self@, id),
            }),
    {
        let n = self.rows.len();
        let mut i: usize = 0;
        while i < n
            invariant
                n == self.rows@.len(),
                i <= n,
                forall|j: int| 0 <= j < i ==> self.rows@[j].id != id,
            decreases n - i,
        {
            if self.rows[i].id == id {
                proof {
                    let kf = entry_key();
                    assert(kf(self.rows@[i as int]) == id);
                }
                return Some(i);
            }
            i += 1;
        }
        proof {
            if store_has(self@, id) {
                let kf = entry_key();
                let j = choose|j: int| 0 <= j < self.rows@.len() && kf(#[trigger] self.rows@[j]) == id;
                assert(self.rows@[j].id != id);
            }
        }
        None
    }

    /// Assigns a fresh unique id, persists the row, and returns the id.
    pub fn create(
        &mut self,
        content: String,
        language_hint: Option<String>,
        expires_at: Option<u64>,
        burn_after_read: bool,
        now: u64,
    ) -> (id: u64)
        requires
            old(self).wf(),
            old(self).can_assign_id(),
        ensures
            final(self).wf(),
            !store_has(old(self)@, id),
            final(self)@ == old(self)@.push(
                (Entry {
                    id,
                    content,
                    language_hint,
                    created_at: now,
                    expires_at,
                    burn_after_read,
                }),
            ),
    {
        let id = self.next_id;
        let row = Entry { id, content, language_hint, created_at: now, expires_at, burn_after_read };
        proof {
            if store_has(self.rows@, id) {
                assert(id < self.next_id);
            }
        }
        self.rows.push(row);
        self.next_id = self.next_id + 1;
        proof {
            let s = self.rows@;
            let kf = entry_key();
            assert forall|i: int, j: int| 0 <= i < j < s.len() implies kf(#[trigger] s[i]) != kf(
                #[trigger] s[j],
            ) by {
                if j == s.len() - 1 {
                    assert(s[i] == old(self)@[i]);
                    crate::seqfacts::lemma_elem_at_index(old(self)@, kf, i);
                }
            }
            assert forall|x: u64| #[trigger] store_has(s, x) implies x < self.next_id by {
                let j = choose|j: int| 0 <= j < s.len() && kf(#[trigger] s[j]) == x;
                if j < s.len() - 1 {
                    assert(old(self)@[j] == s[j]);
                    assert(store_has(old(self)@, x)) by {
                        assert(kf(old(self)@[j]) == x);
                    }
                } else {
                    assert(x == id);
                }
            }
        }
        id
    }

    /// Plain read: the row as stored, with no burn side effect. Absent and
    /// expired rows alike answer `NotFound`.
    pub fn read(&self, id: u64, now: u64) -> (r: Result<Entry, Error>)
        requires
            self.wf(),
        ensures
            (match r {
                Ok(e) => live(self@, id, now) && e == entry_at(self@, id),
                Err(err) => err == Error::NotFound && !live(self@, id, now),
            }),
    {
        match self.find_index(id) {
            None => Err(Error::NotFound),
            Some(i) => {
                proof {
                    lemma_elem_at_index(self@, entry_key(), i as int);
                }
                let e = &self.rows[i];
                if is_expired(e, now) {
                    Err(Error::NotFound)
                } else {
                    Ok(e.clone())
                }
            },
        }
    }

    /// Read for the fetch path: a live burn-after-read row is removed as part
    /// of the same logical operation, so only the first such read succeeds.
    pub fn read_consuming(&mut self, id: u64, now: u64) -> (r: Result<Entry, Error>)
        requires
            old(self).wf(),
        ensures
            final(self).wf(),
            final(self).can_assign_id() == old(self).can_assign_id(),
            (match r {
                Ok(e) => live(old(self)@, id, now) && e == entry_at(old(self)@, id)
                    && final(self)@ == (if e.burn_after_read {
                    spec_remove_id(old(self)@, id)
                } else {
                    old(self)@
                }),
                Err(err) => err == Error::NotFound && !live(old(self)@, id, now) && final(self)@
                    == old(self)@,
            }),
    {
        let r = self.read(id, now);
        match r {
            Err(e) => Err(e),
            Ok(e) => {
                if e.burn_after_read {
                    self.remove_row(id);
                }
                Ok(e)
            },
        }
    }

    /// Idempotent removal: `Ok` when a row was removed, `NotFound` when there
    /// was nothing to remove; either way the id is gone afterwards.
    pub fn delete(&mut self, id: u64) -> (r: Result<(), Error>)
        requires
            old(self).wf(),
        ensures
            final(self).wf(),
            final(self).can_assign_id() == old(self).can_assign_id(),
            final(self)@ == spec_remove_id(old(self)@, id),
            r is Ok <==> store_has(old(self)@, id),
            r is Err ==> r == Result::<(), Error>::Err(Error::NotFound),
    {
        let found = self.contains(id);
        self.remove_row(id);
        if found {
            Ok(())
        } else {
            Err(Error::NotFound)
        }
    }

    fn remove_row(&mut self, id: u64)
        requires
            old(self).wf(),
        ensures
            final(self).wf(),
            final(self).can_assign_id() == old(self).can_assign_id(),
            final(self)@ == spec_remove_id(old(self)@, id),
    {
        let mut out: Vec<Entry> = Vec::new();
        let n = self.rows.len();
        let mut i: usize = 0;
        proof {
            lemma_remove_id(self.rows@, id);
            assert(self.rows@.take(0) =~= Seq::<Entry>::empty());
            reveal(Seq::filter);
        }
        while i < n
            invariant
                n == self.rows@.len(),
                i <= n,
                out@ == spec_remove_id(self.rows@.take(i as int), id),
            decreases n - i,
        {
            proof {
                lemma_filter_take_step(self.rows@, pred_entry_not_id(id), i as int);
            }
            let e = &self.rows[i];
            if e.id != id {
                out.push(e.clone());
            }
            i += 1;
        }
        proof {
            lemma_take_full(self.rows@);
        }
        self.rows = out;
        proof {
            lemma_remove_id(old(self)@, id);
        }
    }

    /// Every id whose row has expired by `now`, with no duplicates; used by
    /// the purge sweep.
    pub fn list_expired(&self, now: u64) -> (r: Vec<u64>)
        requires
            self.wf(),
        ensures
            forall|x: u64|
                #[trigger] r@.contains(x) <==> store_has(self@, x) && spec_is_expired(
                    entry_at(self@, x),
                    now,
                ),
            forall|i: int, j: int| 0 <= i < j < r@.len() ==> r@[i] != r@[j],
    {
        let n = self.rows.len();
        let mut out: Vec<u64> = Vec::new();
        let mut i: usize = 0;
        while i < n
            invariant
                self.wf(),
                n == self.rows@.len(),
                i <= n,
                forall|x: u64|
                    #[trigger] out@.contains(x) <==> exists|j: int|
                        0 <= j < i && (#[trigger] self.rows@[j]).id == x && spec_is_expired(
                            self.rows@[j],
                            now,
                        ),
                forall|a: int, b: int| 0 <= a < b < out@.len() ==> out@[a] != out@[b],
            decreases n - i,
        {
            let e = &self.rows[i];
            let ghost prev = out@;
            let expired_here = is_expired(e, now);
            if expired_here {
                proof {
                    if prev.contains(e.id) {
                        let j = choose|j: int|
                            0 <= j < i && (#[trigger] self.rows@[j]).id == e.id && spec_is_expired(
                                self.rows@[j],
                                now,
                            );
                        let kf = entry_key();
                        assert(kf(self.rows@[j]) == kf(self.rows@[i as int]));
                    }
                }
                out.push(e.id);
            }
            proof {
                let s = self.rows@;
                assert forall|x: u64| #[trigger] out@.contains(x) implies exists|j: int|
                    0 <= j < i + 1 && (#[trigger] s[j]).id == x && spec_is_expired(s[j], now) by {
                    let a = choose|a: int| 0 <= a < out@.len() && out@[a] == x;
                    if a < prev.len() {
                        assert(prev[a] == x);
                        assert(prev.contains(x));
                        let j = choose|j: int|
                            0 <= j < i && (#[trigger] s[j]).id == x && spec_is_expired(s[j], now);
                        assert(0 <= j < i + 1 && s[j].id == x && spec_is_expired(s[j], now));
                    } else {
                        assert(expired_here && x == s[i as int].id);
                        assert(s[i as int].id == x && spec_is_expired(s[i as int], now));
                    }
                }
                assert forall|x: u64|
                    (exists|j: int|
                        0 <= j < i + 1 && (#[trigger] s[j]).id == x && spec_is_expired(
                            s[j],
                            now,
                        )) implies #[trigger] out@.contains(x) by {
                    let j = choose|j: int|
                        0 <= j < i + 1 && (#[trigger] s[j]).id == x && spec_is_expired(s[j], now);
                    if j < i {
                        assert(prev.contains(x));
                        let a = choose|a: int| 0 <= a < prev.len() && prev[a] == x;
                        assert(out@[a] == x);
                    } else {
                        assert(out@[out@.len() - 1] == x);
                    }
                }
            }
            i += 1;
        }
        proof {
            let s = self.rows@;
            let kf = entry_key();
            assert forall|x: u64| #[trigger] out@.contains(x) implies store_has(s, x)
                && spec_is_expired(entry_at(s, x), now) by {
                let j = choose|j: int|
                    0 <= j < n && (#[trigger] s[j]).id == x && spec_is_expired(s[j], now);
                lemma_elem_at_index(s, kf, j);
            }
            assert forall|x: u64| store_has(s, x) && spec_is_expired(entry_at(s, x), now)
                implies #[trigger] out@.contains(x) by {
                let j = choose|j: int| 0 <= j < s.len() && kf(#[trigger] s[j]) == x;
                lemma_elem_at_index(s, kf, j);
                assert(s[j].id == x && spec_is_expired(s[j], now));
            }
        }
        out
    }

    /// Runtime check matching `can_assign_id`, for callers outside the proof.
    pub fn has_id_headroom(&self) -> (r: bool)
        ensures
            r == self.can_assign_id(),
    {
        self.next_id < u64::MAX
    }
}

/// What a consistent store guarantees of its rows.
pub proof fn lemma_store_wf(s: EntryStore)
    requires
        s.wf(),
    ensures
        ids_unique(s@),
{
}

} // verus!
