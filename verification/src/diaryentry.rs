//! The diary entry value object: a stable id, a timestamp, an
//! optional title and a content body.
//!
//! An absent title and an empty title are the same "no title" state;
//! constructors normalize an empty title to `None` at the boundary.

use crate::backend::Store;
use crate::timestamps::timestamp_chars;
use crate::timestamps::TimeStamp;
use vstd::prelude::*;

verus! {

/// The mathematical content of a [`DiaryEntry`].
#[verifier::ext_equal]
pub ghost struct EntryView {
    pub id: u64,
    pub date: TimeStamp,
    pub title: Option<Seq<char>>,
    pub content: Seq<char>,
}

/// One diary entry. Entries are immutable once created; editing is
/// modeled as delete plus re-add.
#[derive(Debug, Clone, PartialEq, Eq)]
pub struct DiaryEntry {
    /// The store-wide stable id of this entry.
    pub id: u64,
    /// When the entry was created.
    pub date: TimeStamp,
    /// The optional title; never `Some` of an empty string when built
    /// through the constructors here.
    pub title: Option<String>,
    /// The body of the entry.
    pub content: String,
}

impl View for DiaryEntry {
    type V = EntryView;

    open spec fn view(&self) -> EntryView {
        EntryView {
            id: self.id,
            date: self.date,
            title: self.title.deep_view(),
            content: self.content@,
        }
    }
}

/// An empty title collapses to `None`; anything else is kept as is.
pub open spec fn normalized_title(title: Option<Seq<char>>) -> Option<Seq<char>> {
    match title {
        Some(t) => if t.len() == 0 {
            None
        } else {
            Some(t)
        },
        None => None,
    }
}

/// A title `None` or a non-empty `Some`: what the constructors produce.
pub open spec fn title_is_normalized(title: Option<Seq<char>>) -> bool {
    title == normalized_title(title)
}

/// The one-line label of an entry: its title, or `Untitled`.
pub open spec fn title_label(title: Option<Seq<char>>) -> Seq<char> {
    match title {
        Some(t) => t,
        None => "Untitled"@,
    }
}

/// The one-line summary of an entry: `<title-or-Untitled> (<timestamp>)`.
pub open spec fn summary_chars(e: EntryView) -> Seq<char> {
    title_label(e.title) + " ("@ + timestamp_chars(e.date) + ")"@
}

/// The detail view of an entry: its summary, a colon, and the content
/// body on the following line.
pub open spec fn detail_chars(e: EntryView) -> Seq<char> {
    summary_chars(e) + ":\n"@ + e.content
}

impl DiaryEntry {
    /// Builds a new entry from an optional title and a content body.
    ///
    /// The id is the next one the store would assign; the timestamp
    /// is a capture of the current time; an empty title is normalized
    /// to `None`.
    pub fn from_str_and_option(title: &Option<String>, content: &str, store: &Store) -> (r:
        DiaryEntry)
        requires
            store.wf(),
        ensures
            r.id == crate::backend::max_id_of(store@) + 1,
            r@.title == normalized_title(title.deep_view()),
            r@.content == content@,
            1 <= r.date.month <= 12,
            1 <= r.date.day <= 31,
            r.date.hour <= 23,
            r.date.minute <= 59,
            r.date.second <= 59,
    {
        let norm_title: Option<String> = match title {
            Some(t) => if t.as_str().is_empty() {
                None
            } else {
                Some(t.clone())
            },
            None => None,
        };
        DiaryEntry {
            id: store.next_id(),
            date: TimeStamp::new(),
            title: norm_title,
            content: content.to_owned(),
        }
    }

    /// Builds a new entry from a title and a content body; an empty
    /// title is normalized to `None`, as everywhere else.
    pub fn new(title: &str, content: &str, store: &Store) -> (r: DiaryEntry)
        requires
            store.wf(),
        ensures
            r.id == crate::backend::max_id_of(store@) + 1,
            r@.title == normalized_title(Some(title@)),
            r@.content == content@,
            1 <= r.date.month <= 12,
            1 <= r.date.day <= 31,
            r.date.hour <= 23,
            r.date.minute <= 59,
            r.date.second <= 59,
    {
        let norm_title: Option<String> = if title.is_empty() {
            None
        } else {
            Some(title.to_owned())
        };
        DiaryEntry {
            id: store.next_id(),
            date: TimeStamp::new(),
            title: norm_title,
            content: content.to_owned(),
        }
    }

    /// Renders the one-line summary: the title, or `Untitled`, then
    /// the timestamp in parentheses.
    pub fn summary(&self) -> (r: String)
        ensures
            r@ == summary_chars(self@),
    {
        let mut s = String::new();
        match &self.title {
            Some(t) => s.append(t.as_str()),
            None => s.append("Untitled"),
        }
        s.append(" (");
        let ts = self.date.to_text();
        s.append(ts.as_str());
        s.append(")");
        proof {
            assert(s@ =~= summary_chars(self@));
        }
        s
    }

    /// Renders the detail view: the summary, a colon, and the content
    /// body on the following line.
    pub fn show_detail(&self) -> (r: String)
        ensures
            r@ == detail_chars(self@),
    {
        let mut s = self.summary();
        s.append(":\n");
        s.append(self.content.as_str());
        proof {
            assert(s@ =~= detail_chars(self@));
        }
        s
    }
}

} // verus!
