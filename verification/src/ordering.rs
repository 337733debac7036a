//! Display order and position lookup.
//!
//! Entries are displayed in a total order by timestamp, then title
//! (an absent title reads as empty), then content - never by id.
//! Display positions are transient: they depend on the sort, so a
//! position is mapped to the stable id of the entry at that position
//! within one command invocation, and the id is what delete and view
//! operate on.

use crate::diaryentry::DiaryEntry;
use crate::diaryentry::EntryView;
use crate::timestamps::TimeStamp;
use vstd::prelude::*;

verus! {

/// Failure of mapping a display position to an entry.
#[derive(Debug, Clone, Copy, PartialEq, Eq, Structural)]
pub enum LookupError {
    /// The position is not below the number of entries.
    IndexOutOfRange,
}

/// Timestamp order: lexicographic by year, month, day, hour, minute,
/// second.
pub open spec fn ts_le(a: TimeStamp, b: TimeStamp) -> bool {
    if a.year != b.year {
        a.year < b.year
    } else if a.month != b.month {
        a.month < b.month
    } else if a.day != b.day {
        a.day < b.day
    } else if a.hour != b.hour {
        a.hour < b.hour
    } else if a.minute != b.minute {
        a.minute < b.minute
    } else {
        a.second <= b.second
    }
}

/// Lexicographic order on character sequences, by code point; a
/// proper prefix comes first.
pub open spec fn chars_le(a: Seq<char>, b: Seq<char>) -> bool
    decreases a.len(),
{
    if a.len() == 0 {
        true
    } else if b.len() == 0 {
        false
    } else if a[0] as int != b[0] as int {
        (a[0] as int) < (b[0] as int)
    } else {
        chars_le(a.drop_first(), b.drop_first())
    }
}

/// The title as sorted: an absent title reads as the empty text.
pub open spec fn title_or_empty(title: Option<Seq<char>>) -> Seq<char> {
    match title {
        Some(t) => t,
        None => Seq::<char>::empty(),
    }
}

/// Display order on entries: by timestamp, then title-or-empty, then
/// content, in that priority - the id takes no part.
pub open spec fn entry_le(a: EntryView, b: EntryView) -> bool {
    if a.date != b.date {
        ts_le(a.date, b.date)
    } else if title_or_empty(a.title) != title_or_empty(b.title) {
        chars_le(title_or_empty(a.title), title_or_empty(b.title))
    } else {
        chars_le(a.content, b.content)
    }
}

/// The character order relates every pair, one way or the other.
pub proof fn lemma_chars_le_total(a: Seq<char>, b: Seq<char>)
    ensures
        chars_le(a, b) || chars_le(b, a),
    decreases a.len(),
{
    if a.len() > 0 && b.len() > 0 && a[0] as int == b[0] as int {
        lemma_chars_le_total(a.drop_first(), b.drop_first());
    }
}

/// Two sequences below each other in the character order are equal.
pub proof fn lemma_chars_le_antisym(a: Seq<char>, b: Seq<char>)
    requires
        chars_le(a, b),
        chars_le(b, a),
    ensures
        a == b,
    decreases a.len(),
{
    if a.len() == 0 {
        assert(b.len() == 0);
        assert(a =~= b);
    } else {
        assert(b.len() > 0);
        assert(a[0] as int == b[0] as int);
        assert(a[0] == b[0]);
        lemma_chars_le_antisym(a.drop_first(), b.drop_first());
        assert forall|i: int| 0 <= i < a.len() implies a[i] == b[i] by {
            if i > 0 {
                assert(a[i] == a.drop_first()[i - 1]);
                assert(b[i] == b.drop_first()[i - 1]);
            }
        }
        assert(a =~= b);
    }
}

/// The character order is transitive.
pub proof fn lemma_chars_le_trans(a: Seq<char>, b: Seq<char>, c: Seq<char>)
    requires
        chars_le(a, b),
        chars_le(b, c),
    ensures
        chars_le(a, c),
    decreases a.len(),
{
    if a.len() > 0 {
        assert(b.len() > 0);
        assert(c.len() > 0);
        if a[0] as int == b[0] as int && b[0] as int == c[0] as int {
            lemma_chars_le_trans(a.drop_first(), b.drop_first(), c.drop_first());
        }
    }
}

/// The display order relates every pair of entries.
pub proof fn lemma_entry_le_total(a: EntryView, b: EntryView)
    ensures
        entry_le(a, b) || entry_le(b, a),
{
    if a.date == b.date {
        if title_or_empty(a.title) == title_or_empty(b.title) {
            lemma_chars_le_total(a.content, b.content);
        } else {
            lemma_chars_le_total(title_or_empty(a.title), title_or_empty(b.title));
        }
    }
}

/// The display order is transitive.
pub proof fn lemma_entry_le_trans(a: EntryView, b: EntryView, c: EntryView)
    requires
        entry_le(a, b),
        entry_le(b, c),
    ensures
        entry_le(a, c),
{
    let ta = title_or_empty(a.title);
    let tb = title_or_empty(b.title);
    let tc = title_or_empty(c.title);
    if a.date == b.date && b.date == c.date {
        if ta == tb && tb == tc {
            lemma_chars_le_trans(a.content, b.content, c.content);
        } else if ta == tb {
            // entry_le(b, c) orders the titles; a's title equals b's.
        } else if tb == tc {
            // entry_le(a, b) orders the titles; c's title equals b's.
        } else {
            lemma_chars_le_trans(ta, tb, tc);
            if ta == tc {
                lemma_chars_le_antisym(ta, tb);
            }
        }
    }
}

/// Whether `a` sorts at or before `b` in display order.
pub fn entry_le_exec(a: &DiaryEntry, b: &DiaryEntry) -> (r: bool)
    ensures
        r == entry_le(a@, b@),
{
    if a.date != b.date {
        ts_le_exec(&a.date, &b.date)
    } else {
        proof {
            reveal_strlit("");
            assert(""@ =~= Seq::<char>::empty());
        }
        let ta: &str = match &a.title {
            Some(t) => t.as_str(),
            None => "",
        };
        let tb: &str = match &b.title {
            Some(t) => t.as_str(),
            None => "",
        };
        proof {
            assert(ta@ == title_or_empty(a@.title));
            assert(tb@ == title_or_empty(b@.title));
        }
        if !str_eq(ta, tb) {
            str_le(ta, tb)
        } else {
            str_le(a.content.as_str(), b.content.as_str())
        }
    }
}

/// Whether `a` is at or before `b` in timestamp order.
fn ts_le_exec(a: &TimeStamp, b: &TimeStamp) -> (r: bool)
    ensures
        r == ts_le(*a, *b),
{
    if a.year != b.year {
        a.year < b.year
    } else if a.month != b.month {
        a.month < b.month
    } else if a.day != b.day {
        a.day < b.day
    } else if a.hour != b.hour {
        a.hour < b.hour
    } else if a.minute != b.minute {
        a.minute < b.minute
    } else {
        a.second <= b.second
    }
}

/// Whether two strings hold the same characters.
fn str_eq(a: &str, b: &str) -> (r: bool)
    ensures
        r == (a@ == b@),
{
    let an = a.unicode_len();
    let bn = b.unicode_len();
    if an != bn {
        return false;
    }
    let mut i: usize = 0;
    while i < an
        invariant
            i <= an,
            an == a@.len(),
            an == b@.len(),
            forall|k: int| 0 <= k < i ==> a@[k] == b@[k],
        decreases an - i,
    {
        if a.get_char(i) != b.get_char(i) {
            return false;
        }
        i = i + 1;
    }
    proof {
        assert(a@ =~= b@);
    }
    true
}

/// Whether `a` is at or before `b` in the character order.
fn str_le(a: &str, b: &str) -> (r: bool)
    ensures
        r == chars_le(a@, b@),
{
    let an = a.unicode_len();
    let bn = b.unicode_len();
    let mut i: usize = 0;
    proof {
        assert(a@.skip(0) =~= a@);
        assert(b@.skip(0) =~= b@);
    }
    loop
        invariant
            i <= an,
            i <= bn,
            an == a@.len(),
            bn == b@.len(),
            chars_le(a@, b@) == chars_le(a@.skip(i as int), b@.skip(i as int)),
        decreases an - i,
    {
        if i >= an {
            return true;
        }
        if i >= bn {
            return false;
        }
        let ca = a.get_char(i);
        let cb = b.get_char(i);
        if ca < cb {
            return true;
        }
        if cb < ca {
            return false;
        }
        proof {
            assert(a@.skip(i as int).drop_first() =~= a@.skip(i + 1int));
            assert(b@.skip(i as int).drop_first() =~= b@.skip(i + 1int));
        }
        i = i + 1;
    }
}

/// Sorts entries into display order: by timestamp, then title, then
/// content. The result holds exactly the given entries.
pub fn sort_entries(entries: &mut Vec<DiaryEntry>)
    ensures
        final(entries)@.len() == old(entries)@.len(),
        forall|i: int, j: int|
            0 <= i < j < final(entries)@.len() ==> entry_le(
                #[trigger] final(entries)@[i]@,
                #[trigger] final(entries)@[j]@,
            ),
        final(entries)@.to_multiset() == old(entries)@.to_multiset(),
{
    let mut out: Vec<DiaryEntry> = Vec::new();
    proof {
        out@.to_multiset_ensures();
        old(entries)@.to_multiset_ensures();
        assert(out@.to_multiset().add(old(entries)@.to_multiset()) =~= old(
            entries,
        )@.to_multiset());
    }
    while entries.len() > 0
        invariant
            forall|i: int, j: int|
                0 <= i < j < out@.len() ==> entry_le(
                    #[trigger] out@[i]@,
                    #[trigger] out@[j]@,
                ),
            out@.to_multiset().add(entries@.to_multiset()) == old(entries)@.to_multiset(),
            out@.len() + entries@.len() == old(entries)@.len(),
        decreases entries@.len(),
    {
        let ghost pre = entries@;
        let e = entries.remove(0);
        proof {
            pre.to_multiset_ensures();
            assert(entries@ =~= pre.remove(0));
            assert(entries@.to_multiset() == pre.to_multiset().remove(e));
            assert(pre[0] == e);
            assert(pre.contains(e));
            assert(pre.to_multiset().count(e) > 0);
        }
        let mut p: usize = 0;
        while p < out.len() && entry_le_exec(&out[p], &e)
            invariant
                p <= out@.len(),
                forall|k: int| 0 <= k < p ==> entry_le(#[trigger] out@[k]@, e@),
            decreases out@.len() - p,
        {
            p = p + 1;
        }
        proof {
            if p < out@.len() {
                lemma_entry_le_total(out@[p as int]@, e@);
            }
        }
        let ghost sorted_pre = out@;
        out.insert(p, e);
        proof {
            let t = out@;
            // the inserted element sits at p; everything else shifts by one
            assert(t.remove(p as int) =~= sorted_pre);
            t.to_multiset_ensures();
            sorted_pre.to_multiset_ensures();
            assert(t[p as int] == e);
            assert(t.contains(e));
            assert(t.to_multiset().count(e) > 0);
            assert(sorted_pre.to_multiset() == t.to_multiset().remove(e));
            assert forall|w: DiaryEntry|
                t.to_multiset().count(w) == sorted_pre.to_multiset().insert(e).count(w) by {}
            assert(t.to_multiset() =~= sorted_pre.to_multiset().insert(e));
            assert forall|w: DiaryEntry|
                out@.to_multiset().add(entries@.to_multiset()).count(w) == old(
                    entries,
                )@.to_multiset().count(w) by {
                assert(sorted_pre.to_multiset().add(pre.to_multiset()).count(w) == old(
                    entries,
                )@.to_multiset().count(w));
            }
            assert(out@.to_multiset().add(entries@.to_multiset()) =~= old(
                entries,
            )@.to_multiset());
            // sortedness of the extended prefix
            assert forall|i: int, j: int| 0 <= i < j < t.len() implies entry_le(
                #[trigger] t[i]@,
                #[trigger] t[j]@,
            ) by {
                if j < p {
                    assert(t[i] == sorted_pre[i] && t[j] == sorted_pre[j]);
                } else if i < p && j == p {
                    assert(t[i] == sorted_pre[i]);
                } else if i < p && j > p {
                    assert(t[i] == sorted_pre[i] && t[j] == sorted_pre[j - 1]);
                } else if i == p && j > p {
                    assert(t[j] == sorted_pre[j - 1]);
                    if j - 1 > p {
                        lemma_entry_le_trans(e@, sorted_pre[p as int]@, sorted_pre[j - 1]@);
                    }
                } else {
                    assert(t[i] == sorted_pre[i - 1] && t[j] == sorted_pre[j - 1]);
                }
            }
        }
    }
    proof {
        assert(entries@ =~= Seq::<DiaryEntry>::empty());
        entries@.to_multiset_ensures();
        assert(entries@.to_multiset().len() == 0);
        assert forall|w: DiaryEntry|
            out@.to_multiset().count(w) == old(entries)@.to_multiset().count(w) by {
            assert(out@.to_multiset().add(entries@.to_multiset()).count(w) == old(
                entries,
            )@.to_multiset().count(w));
        }
        assert(out@.to_multiset() =~= old(entries)@.to_multiset());
        out@.to_multiset_ensures();
        assert(out@.len() == out@.to_multiset().len());
        assert(old(entries)@.len() == old(entries)@.to_multiset().len());
    }
    *entries = out;
}

/// Maps a zero-based display position within a sorted listing to the
/// stable id of the entry at that position. Fails exactly when the
/// position is not below the number of entries; the position is
/// never itself an id.
pub fn resolve(position: u64, sorted_entries: &Vec<DiaryEntry>) -> (r: Result<u64, LookupError>)
    ensures
        position < sorted_entries@.len() ==> r == Ok::<u64, LookupError>(
            sorted_entries@[position as int].id,
        ),
        position >= sorted_entries@.len() ==> r == Err::<u64, LookupError>(
            LookupError::IndexOutOfRange,
        ),
{
    if position >= sorted_entries.len() as u64 {
        return Err(LookupError::IndexOutOfRange);
    }
    Ok(sorted_entries[position as usize].id)
}

} // verus!
