//! The persistence store: rows in their persisted representation,
//! the id-assignment rule, and recovery of the entry set.
//!
//! A row holds an entry the way it is persisted: the id as an
//! integer, the timestamp as canonical text, the title with an empty
//! string standing for "no title", and the content. The store owns
//! the collection of rows; the caller that needs a stable display
//! order must sort the recovered entries. The store assumes a single
//! process accessing the backing rows at a time; concurrent external
//! access is an unguarded hazard, not a supported scenario.

use crate::diaryentry::DiaryEntry;
use crate::diaryentry::EntryView;
use crate::timestamps::timestamp_chars;
use crate::timestamps::timestamp_of_chars;
use crate::timestamps::TimeStamp;
use vstd::prelude::*;

verus! {

/// Errors of the persistence store.
#[derive(Debug, Clone, Copy, PartialEq, Eq, Structural)]
pub enum StoreError {
    /// The underlying storage could not be opened, read or written.
    Io,
    /// The recovered rows are mutually inconsistent: the columns
    /// disagree in count, or a stored timestamp does not parse.
    Corrupt,
}

/// The mathematical content of a [`Row`].
#[verifier::ext_equal]
pub ghost struct RowView {
    pub id: u64,
    pub timestamp: Seq<char>,
    pub title: Seq<char>,
    pub content: Seq<char>,
}

/// One persisted row: the stored representation of a diary entry.
#[derive(Debug, Clone, PartialEq, Eq)]
pub struct Row {
    /// The stable id of the entry this row stores.
    pub id: u64,
    /// The entry's timestamp in canonical text form.
    pub timestamp: String,
    /// The entry's title; an empty string stands for "no title".
    pub title: String,
    /// The entry's content body.
    pub content: String,
}

impl View for Row {
    type V = RowView;

    open spec fn view(&self) -> RowView {
        RowView {
            id: self.id,
            timestamp: self.timestamp@,
            title: self.title@,
            content: self.content@,
        }
    }
}

/// The row that persists an entry: canonical timestamp text, and an
/// empty title column for an absent title.
pub open spec fn row_of_entry(e: EntryView) -> RowView {
    RowView {
        id: e.id,
        timestamp: timestamp_chars(e.date),
        title: match e.title {
            Some(t) => t,
            None => Seq::<char>::empty(),
        },
        content: e.content,
    }
}

/// The entry a row reconstructs to: the timestamp parsed back from
/// its text, and an empty title column read as "no title". Meaningful
/// only when the timestamp text parses.
pub open spec fn entry_of_row(r: RowView) -> EntryView {
    EntryView {
        id: r.id,
        date: match timestamp_of_chars(r.timestamp) {
            Some(t) => t,
            None => TimeStamp { year: 0, month: 0, day: 0, hour: 0, minute: 0, second: 0 },
        },
        title: if r.title.len() == 0 {
            None
        } else {
            Some(r.title)
        },
        content: r.content,
    }
}

/// The largest id among the rows, or zero when there are none.
pub open spec fn max_id_of(s: Seq<RowView>) -> int
    decreases s.len(),
{
    if s.len() == 0 {
        0
    } else {
        let m = max_id_of(s.drop_last());
        if s.last().id > m {
            s.last().id as int
        } else {
            m
        }
    }
}

/// The ids of the rows, in row order.
pub open spec fn ids_of(s: Seq<RowView>) -> Seq<u64> {
    s.map_values(|r: RowView| r.id)
}

/// The rows that survive deleting `id`: every row whose id differs,
/// in their original order.
pub open spec fn without_id(s: Seq<RowView>, id: u64) -> Seq<RowView>
    decreases s.len(),
{
    if s.len() == 0 {
        Seq::<RowView>::empty()
    } else if s.first().id == id {
        without_id(s.drop_first(), id)
    } else {
        seq![s.first()] + without_id(s.drop_first(), id)
    }
}

/// The store of persisted rows.
#[derive(Debug)]
pub struct Store {
    rows: Vec<Row>,
}

impl View for Store {
    type V = Seq<RowView>;

    closed spec fn view(&self) -> Seq<RowView> {
        self.rows@.map_values(|r: Row| r@)
    }
}

impl Store {
    /// Every stored timestamp parses back, and every id leaves room
    /// for a successor: what the store's own operations maintain.
    pub open spec fn wf(self) -> bool {
        forall|i: int|
            0 <= i < self@.len() ==> (#[trigger] self@[i]).id < u64::MAX && timestamp_of_chars(
                self@[i].timestamp,
            ) is Some
    }

    /// An empty store.
    pub fn new() -> (s: Store)
        ensures
            s@ == Seq::<RowView>::empty(),
            s.wf(),
    {
        let s = Store { rows: Vec::new() };
        proof {
            assert(s@ =~= Seq::<RowView>::empty());
        }
        s
    }

    /// Rebuilds a store from the four recovered columns.
    ///
    /// Fails with `Corrupt` exactly when the columns disagree in
    /// count or some timestamp text does not parse; otherwise the
    /// rows are the columns zipped in order.
    pub fn from_columns(
        ids: Vec<u64>,
        timestamps: Vec<String>,
        titles: Vec<String>,
        contents: Vec<String>,
    ) -> (r: Result<Store, StoreError>)
        requires
            forall|i: int| 0 <= i < ids@.len() ==> ids@[i] < u64::MAX,
        ensures
            match r {
                Ok(s) => {
                    &&& s.wf()
                    &&& ids@.len() == timestamps@.len() == titles@.len() == contents@.len()
                    &&& s@.len() == ids@.len()
                    &&& forall|i: int|
                        0 <= i < s@.len() ==> s@[i] == (RowView {
                            id: ids@[i],
                            timestamp: timestamps@[i]@,
                            title: titles@[i]@,
                            content: contents@[i]@,
                        })
                },
                Err(e) => {
                    &&& e == StoreError::Corrupt
                    &&& (ids@.len() != timestamps@.len() || timestamps@.len() != titles@.len()
                        || titles@.len() != contents@.len() || exists|i: int|
                        0 <= i < timestamps@.len() && timestamp_of_chars(
                            timestamps@[i]@,
                        ) is None)
                },
            },
    {
        if ids.len() != timestamps.len() || timestamps.len() != titles.len() || titles.len()
            != contents.len() {
            return Err(StoreError::Corrupt);
        }
        let mut rows: Vec<Row> = Vec::new();
        let mut i: usize = 0;
        while i < ids.len()
            invariant
                i <= ids@.len(),
                ids@.len() == timestamps@.len() == titles@.len() == contents@.len(),
                forall|k: int| 0 <= k < ids@.len() ==> ids@[k] < u64::MAX,
                rows@.len() == i,
                forall|k: int|
                    0 <= k < i ==> (#[trigger] rows@[k])@ == (RowView {
                        id: ids@[k],
                        timestamp: timestamps@[k]@,
                        title: titles@[k]@,
                        content: contents@[k]@,
                    }),
                forall|k: int|
                    0 <= k < i ==> timestamp_of_chars(#[trigger] timestamps@[k]@) is Some,
            decreases ids@.len() - i,
        {
            if TimeStamp::from_string(timestamps[i].as_str()).is_none() {
                return Err(StoreError::Corrupt);
            }
            let row = Row {
                id: ids[i],
                timestamp: timestamps[i].clone(),
                title: titles[i].clone(),
                content: contents[i].clone(),
            };
            rows.push(row);
            i = i + 1;
        }
        let s = Store { rows };
        proof {
            assert(forall|k: int| 0 <= k < s@.len() ==> s@[k] == s.rows@[k]@);
        }
        Ok(s)
    }

    /// The largest id currently stored: with four entries stored
    /// under sequential ids this is four. Zero when the store is
    /// empty.
    pub fn get_latest_id(&self) -> (r: u64)
        ensures
            r == max_id_of(self@),
    {
        let mut m: u64 = 0;
        let mut i: usize = 0;
        proof {
            assert(self@.subrange(0, 0) =~= Seq::<RowView>::empty());
        }
        while i < self.rows.len()
            invariant
                i <= self.rows@.len(),
                self@.len() == self.rows@.len(),
                forall|k: int| 0 <= k < self@.len() ==> self@[k] == self.rows@[k]@,
                m == max_id_of(self@.subrange(0, i as int)),
            decreases self.rows@.len() - i,
        {
            proof {
                assert(self@.subrange(0, i + 1int).drop_last() =~= self@.subrange(0, i as int));
                assert(self@.subrange(0, i + 1int).last() == self@[i as int]);
            }
            if self.rows[i].id > m {
                m = self.rows[i].id;
            }
            i = i + 1;
        }
        proof {
            assert(self@.subrange(0, self@.len() as int) =~= self@);
        }
        m
    }

    /// The id the next inserted entry must carry: one more than the
    /// largest currently stored id, so one on an empty store. It is
    /// computed from the rows now present, never from a separate
    /// counter: deleting everything starts over at one, while
    /// deleting a non-maximal entry shifts nothing.
    pub fn next_id(&self) -> (r: u64)
        requires
            self.wf(),
        ensures
            r == max_id_of(self@) + 1,
    {
        proof {
            lemma_max_id_is_ub(self@);
            if self@.len() > 0 {
                lemma_max_id_attained(self@);
            }
        }
        self.get_latest_id() + 1
    }

    /// Appends the row persisting `entry`. The entry's timestamp must
    /// render to text that parses back, and its id must leave room
    /// for a successor: both hold of entries built from this store's
    /// own ids and a captured wall-clock date with a four-digit year.
    pub fn store_entry(&mut self, entry: &DiaryEntry) -> (r: Result<(), StoreError>)
        requires
            entry.id < u64::MAX,
            timestamp_of_chars(timestamp_chars(entry.date)) is Some,
        ensures
            r is Ok,
            final(self)@ == old(self)@.push(row_of_entry(entry@)),
            old(self).wf() ==> final(self).wf(),
    {
        let title: String = match &entry.title {
            Some(t) => t.clone(),
            None => String::new(),
        };
        let row = Row { id: entry.id, timestamp: entry.date.to_text(), title, content:
            entry.content.clone() };
        proof {
            assert(row@ == row_of_entry(entry@));
        }
        self.rows.push(row);
        proof {
            assert(self@ =~= old(self)@.push(row_of_entry(entry@)));
        }
        Ok(())
    }

    /// Removes every row carrying `id`; removing an id that is not
    /// present is a no-op. Ids of other rows, and their order, are
    /// untouched, and a removed id is never handed out again while
    /// a larger one remains stored.
    pub fn remove_id(&mut self, id: u64) -> (r: Result<(), StoreError>)
        ensures
            r is Ok,
            final(self)@ == without_id(old(self)@, id),
            old(self).wf() ==> final(self).wf(),
    {
        let mut kept: Vec<Row> = Vec::new();
        proof {
            assert(kept@.map_values(|r: Row| r@) =~= Seq::<RowView>::empty());
        }
        while self.rows.len() > 0
            invariant
                kept@.map_values(|r: Row| r@) + without_id(self@, id) =~= without_id(
                    old(self)@,
                    id,
                ),
                forall|k: int| 0 <= k < self@.len() ==> self@[k] == self.rows@[k]@,
                self@.len() == self.rows@.len(),
                old(self).wf() ==> forall|k: int|
                    0 <= k < kept@.len() ==> (#[trigger] kept@[k])@.id < u64::MAX
                        && timestamp_of_chars(kept@[k]@.timestamp) is Some,
                old(self).wf() ==> forall|k: int|
                    0 <= k < self@.len() ==> (#[trigger] self@[k]).id < u64::MAX
                        && timestamp_of_chars(self@[k].timestamp) is Some,
            decreases self.rows@.len(),
        {
            let ghost pre = self@;
            let row = self.rows.remove(0);
            proof {
                assert(self@ =~= pre.drop_first());
                assert(row@ == pre.first());
            }
            if row.id != id {
                let ghost kept_pre = kept@.map_values(|r: Row| r@);
                kept.push(row);
                proof {
                    assert(kept@.map_values(|r: Row| r@) =~= kept_pre.push(pre.first()));
                    assert(without_id(pre, id) =~= seq![pre.first()] + without_id(
                        pre.drop_first(),
                        id,
                    ));
                    assert(kept@.map_values(|r: Row| r@) + without_id(self@, id) =~= kept_pre
                        + without_id(pre, id));
                }
            }
        }
        proof {
            assert(self@ =~= Seq::<RowView>::empty());
        }
        self.rows = kept;
        proof {
            assert(self@ =~= without_id(old(self)@, id));
        }
        Ok(())
    }

    /// Recovers every stored entry, reconstructed from its row, in
    /// row order: no display ordering is implied, the caller sorts.
    pub fn get_entries(&self) -> (r: Result<Vec<DiaryEntry>, StoreError>)
        requires
            self.wf(),
        ensures
            r matches Ok(entries) && entries@.len() == self@.len() && forall|i: int|
                0 <= i < self@.len() ==> (#[trigger] entries@[i])@ == entry_of_row(self@[i]),
    {
        let mut entries: Vec<DiaryEntry> = Vec::new();
        let mut i: usize = 0;
        proof {
            assert(entries@.map_values(|e: DiaryEntry| e@) =~= self@.subrange(0, 0).map_values(
                |rv: RowView| entry_of_row(rv),
            ));
        }
        while i < self.rows.len()
            invariant
                self.wf(),
                i <= self.rows@.len(),
                self@.len() == self.rows@.len(),
                forall|k: int| 0 <= k < self@.len() ==> self@[k] == self.rows@[k]@,
                entries@.map_values(|e: DiaryEntry| e@) =~= self@.subrange(
                    0,
                    i as int,
                ).map_values(|rv: RowView| entry_of_row(rv)),
            decreases self.rows@.len() - i,
        {
            let row = &self.rows[i];
            let date = match TimeStamp::from_string(row.timestamp.as_str()) {
                Some(d) => d,
                None => {
                    proof {
                        assert(timestamp_of_chars(self@[i as int].timestamp) is Some);
                    }
                    return Err(StoreError::Corrupt);
                },
            };
            let title: Option<String> = if row.title.as_str().is_empty() {
                None
            } else {
                Some(row.title.clone())
            };
            let entry = DiaryEntry { id: row.id, date, title, content: row.content.clone() };
            proof {
                assert(entry@ == entry_of_row(self@[i as int]));
            }
            let ghost prev = entries@;
            entries.push(entry);
            proof {
                let post = self@.subrange(0, i + 1int).map_values(|rv: RowView| entry_of_row(rv));
                assert(prev.map_values(|e: DiaryEntry| e@).len() == i);
                assert forall|k: int| 0 <= k < i + 1 implies entries@.map_values(|e: DiaryEntry| e@)[k]
                    == post[k] by {
                    assert(self@.subrange(0, i + 1int)[k] == self@[k]);
                    if k < i {
                        assert(entries@[k] == prev[k]);
                        assert(prev.map_values(|e: DiaryEntry| e@)[k] == self@.subrange(
                            0,
                            i as int,
                        ).map_values(|rv: RowView| entry_of_row(rv))[k]);
                        assert(self@.subrange(0, i as int)[k] == self@[k]);
                    } else {
                        assert(entries@[k] == entry);
                    }
                }
                assert(entries@.map_values(|e: DiaryEntry| e@) =~= post);
            }
            i = i + 1;
        }
        proof {
            assert(self@.subrange(0, self@.len() as int) =~= self@);
            assert(entries@.map_values(|e: DiaryEntry| e@).len() == entries@.len());
            assert forall|k: int| 0 <= k < self@.len() implies (#[trigger] entries@[k])@
                == entry_of_row(self@[k]) by {
                assert(entries@.map_values(|e: DiaryEntry| e@)[k] == entries@[k]@);
                assert(self@.map_values(|rv: RowView| entry_of_row(rv))[k] == entry_of_row(
                    self@[k],
                ));
            }
        }
        Ok(entries)
    }

    /// Destroys every stored row unconditionally.
    pub fn initialize_db(&mut self)
        ensures
            final(self)@ == Seq::<RowView>::empty(),
            final(self).wf(),
    {
        self.rows = Vec::new();
        proof {
            assert(self@ =~= Seq::<RowView>::empty());
        }
    }
}

/// With rows carrying the ids one through `k` in order, the largest
/// id is `k`.
proof fn lemma_max_of_sequential(s: Seq<RowView>, k: nat)
    requires
        ids_of(s) == Seq::new(k, |i: int| (i + 1) as u64),
        k < u64::MAX,
    ensures
        max_id_of(s) == k,
    decreases s.len(),
{
    assert(ids_of(s).len() == s.len());
    assert(Seq::new(k, |i: int| (i + 1) as u64).len() == k);
    assert(s.len() == k);
    if k > 0 {
        assert(s.last().id == ids_of(s)[k - 1]);
        assert(ids_of(s)[k - 1] == Seq::new(k, |i: int| (i + 1) as u64)[k - 1]);
        assert(ids_of(s.drop_last()).len() == k - 1);
        assert forall|i: int| 0 <= i < k - 1 implies ids_of(s.drop_last())[i] == (i + 1) as u64 by {
            assert(ids_of(s.drop_last())[i] == s.drop_last()[i].id);
            assert(s.drop_last()[i] == s[i]);
            assert(ids_of(s)[i] == s[i].id);
            assert(ids_of(s)[i] == Seq::new(k, |j: int| (j + 1) as u64)[i]);
        }
        assert(ids_of(s.drop_last()) =~= Seq::new((k - 1) as nat, |i: int| (i + 1) as u64));
        lemma_max_of_sequential(s.drop_last(), (k - 1) as nat);
    }
}

/// The law of sequential identity: while entries are only inserted,
/// ids run one, two, three, ... in insertion order. With the ids one
/// through `k` stored, the next id handed out is `k + 1`, and
/// appending the row that carries it extends the stored ids to one
/// through `k + 1`.
pub proof fn lemma_sequential_ids(s: Seq<RowView>, r: RowView, k: nat)
    requires
        ids_of(s) == Seq::new(k, |i: int| (i + 1) as u64),
        k < u64::MAX,
        r.id == k + 1,
    ensures
        max_id_of(s) == k,
        ids_of(s.push(r)) == Seq::new((k + 1) as nat, |i: int| (i + 1) as u64),
{
    lemma_max_of_sequential(s, k);
    assert(ids_of(s).len() == s.len());
    assert(Seq::new(k, |i: int| (i + 1) as u64).len() == k);
    assert(s.len() == k);
    assert(ids_of(s.push(r)).len() == k + 1);
    assert forall|i: int| 0 <= i < k + 1 implies ids_of(s.push(r))[i] == (i + 1) as u64 by {
        assert(ids_of(s.push(r))[i] == s.push(r)[i].id);
        if i < k {
            assert(s.push(r)[i] == s[i]);
            assert(ids_of(s)[i] == s[i].id);
            assert(ids_of(s)[i] == Seq::new(k, |j: int| (j + 1) as u64)[i]);
        } else {
            assert(s.push(r)[i] == r);
        }
    }
    assert(ids_of(s.push(r)) =~= Seq::new((k + 1) as nat, |i: int| (i + 1) as u64));
}

/// Deleting an id keeps exactly the rows whose id differs.
pub proof fn lemma_without_id_contains(s: Seq<RowView>, d: u64)
    ensures
        forall|x: RowView| #[trigger]
            without_id(s, d).contains(x) <==> (s.contains(x) && x.id != d),
    decreases s.len(),
{
    if s.len() == 0 {
        assert forall|x: RowView| !(#[trigger] without_id(s, d).contains(x)) && !s.contains(
            x,
        ) by {}
    } else {
        lemma_without_id_contains(s.drop_first(), d);
        let rest = s.drop_first();
        assert forall|x: RowView| #[trigger]
            s.contains(x) <==> (x == s.first() || rest.contains(x)) by {
            if s.contains(x) {
                let i = choose|i: int| 0 <= i < s.len() && s[i] == x;
                if i > 0 {
                    assert(rest[i - 1] == x);
                }
            }
            if rest.contains(x) {
                let i = choose|i: int| 0 <= i < rest.len() && rest[i] == x;
                assert(s[i + 1] == x);
            }
            if x == s.first() {
                assert(s[0] == x);
            }
        }
        if s.first().id == d {
            assert(without_id(s, d) == without_id(rest, d));
        } else {
            let w = seq![s.first()] + without_id(rest, d);
            assert(without_id(s, d) == w);
            assert forall|x: RowView| #[trigger]
                w.contains(x) <==> (x == s.first() || without_id(rest, d).contains(x)) by {
                if w.contains(x) {
                    let i = choose|i: int| 0 <= i < w.len() && w[i] == x;
                    if i > 0 {
                        assert(without_id(rest, d)[i - 1] == x);
                    }
                }
                if without_id(rest, d).contains(x) {
                    let i = choose|i: int|
                        0 <= i < without_id(rest, d).len() && without_id(rest, d)[i] == x;
                    assert(w[i + 1] == x);
                }
                if x == s.first() {
                    assert(w[0] == x);
                }
            }
        }
    }
}

/// The law of stable identity under deletion: when some surviving
/// row carries the largest stored id, deleting another id leaves the
/// largest id, and with it the next id handed out, unchanged. A
/// deleted id below the maximum is therefore never reused.
pub proof fn lemma_delete_keeps_next_id(s: Seq<RowView>, d: u64)
    requires
        exists|i: int|
            0 <= i < s.len() && (#[trigger] s[i]).id == max_id_of(s) && s[i].id != d,
    ensures
        max_id_of(without_id(s, d)) == max_id_of(s),
{
    let w = without_id(s, d);
    lemma_without_id_contains(s, d);
    lemma_max_id_is_ub(s);
    lemma_max_id_is_ub(w);
    let i = choose|i: int|
        0 <= i < s.len() && (#[trigger] s[i]).id == max_id_of(s) && s[i].id != d;
    assert(s.contains(s[i]));
    assert(w.contains(s[i]));
    let j = choose|j: int| 0 <= j < w.len() && w[j] == s[i];
    assert(w[j].id <= max_id_of(w));
    assert forall|k: int| 0 <= k < w.len() implies (#[trigger] w[k]).id <= max_id_of(s) by {
        assert(w.contains(w[k]));
        assert(s.contains(w[k]));
        let l = choose|l: int| 0 <= l < s.len() && s[l] == w[k];
        assert(s[l].id <= max_id_of(s));
    }
    lemma_max_id_within(w, max_id_of(s));
}

/// The law of the lossless row: an entry with a normalized title and
/// a timestamp whose text parses back to itself reconstructs exactly
/// from the row that persists it. In particular an absent title
/// comes back as absent, not as an empty one.
pub proof fn lemma_entry_row_round_trip(e: EntryView)
    requires
        timestamp_of_chars(timestamp_chars(e.date)) == Some(e.date),
        crate::diaryentry::title_is_normalized(e.title),
    ensures
        entry_of_row(row_of_entry(e)) == e,
{
    match e.title {
        Some(t) => {
            assert(t.len() > 0);
            assert(entry_of_row(row_of_entry(e)) =~= e);
        },
        None => {
            assert(entry_of_row(row_of_entry(e)) =~= e);
        },
    }
}

/// The largest id is at least every stored id, and never negative.
pub proof fn lemma_max_id_is_ub(s: Seq<RowView>)
    ensures
        max_id_of(s) >= 0,
        forall|i: int| 0 <= i < s.len() ==> (#[trigger] s[i]).id <= max_id_of(s),
    decreases s.len(),
{
    if s.len() > 0 {
        lemma_max_id_is_ub(s.drop_last());
        assert(forall|i: int| 0 <= i < s.len() - 1 ==> s[i] == s.drop_last()[i]);
    }
}

/// A non-empty store attains its largest id on some row.
pub proof fn lemma_max_id_attained(s: Seq<RowView>)
    requires
        s.len() > 0,
    ensures
        exists|i: int| 0 <= i < s.len() && (#[trigger] s[i]).id == max_id_of(s),
    decreases s.len(),
{
    if s.last().id > max_id_of(s.drop_last()) {
        assert(s[s.len() - 1].id == max_id_of(s));
    } else if s.len() == 1 {
        assert(s[0].id == max_id_of(s));
    } else {
        lemma_max_id_attained(s.drop_last());
        let i = choose|i: int|
            0 <= i < s.drop_last().len() && (#[trigger] s.drop_last()[i]).id == max_id_of(
                s.drop_last(),
            );
        assert(s[i].id == max_id_of(s));
    }
}

/// The largest id does not exceed any bound that every id respects.
pub proof fn lemma_max_id_within(s: Seq<RowView>, bound: int)
    requires
        bound >= 0,
        forall|i: int| 0 <= i < s.len() ==> (#[trigger] s[i]).id <= bound,
    ensures
        max_id_of(s) <= bound,
    decreases s.len(),
{
    if s.len() > 0 {
        assert(forall|i: int| 0 <= i < s.len() - 1 ==> s.drop_last()[i] == s[i]);
        lemma_max_id_within(s.drop_last(), bound);
    }
}

} // verus!
