//! The record files of a project: which entries of its memory directory are
//! records, and in what order they are listed.
//!
//! The memory directory is the isolation boundary: listing reads that
//! directory and takes no project id. Symbolic links are not followed and are
//! not returned.
use vstd::prelude::*;

use crate::error::{persistence, persistence_error, Error, ErrorView};
use crate::identity::Project;
use crate::text::chars_of;

verus! {

/// One entry of a project's memory directory, as the caller found it.
#[derive(Debug)]
pub enum DirectoryEntry {
    /// The entry could not be read; the system error text.
    Unreadable(String),
    /// The entry's type could not be read: the entry's path text and the
    /// system error text.
    Uninspectable(String, String),
    /// A directory, a symbolic link, or anything else that is not a regular file.
    Other,
    /// A regular file with this name.
    File(String),
    /// A regular file whose name is not valid UTF-8.
    NonUtf8File,
}

/// What the caller found when it listed a project's memory directory.
#[derive(Debug)]
pub enum Listing {
    /// The directory could not be read; the system error text.
    Unreadable(String),
    /// The directory's entries, in the order the system gave them.
    Entries(Vec<DirectoryEntry>),
}

/// What a [`Listing`] reports.
pub enum ListingView {
    Unreadable(Seq<char>),
    Entries(Seq<EntryView>),
}

impl View for Listing {
    type V = ListingView;

    open spec fn view(&self) -> ListingView {
        match self {
            Listing::Unreadable(d) => ListingView::Unreadable(d@),
            Listing::Entries(entries) => ListingView::Entries(
                entries@.map_values(|x: DirectoryEntry| x@),
            ),
        }
    }
}

/// What a [`DirectoryEntry`] reports.
pub enum EntryView {
    Unreadable(Seq<char>),
    Uninspectable(Seq<char>, Seq<char>),
    Other,
    File(Seq<char>),
    NonUtf8File,
}

impl View for DirectoryEntry {
    type V = EntryView;

    open spec fn view(&self) -> EntryView {
        match self {
            DirectoryEntry::Unreadable(d) => EntryView::Unreadable(d@),
            DirectoryEntry::Uninspectable(p, d) => EntryView::Uninspectable(p@, d@),
            DirectoryEntry::Other => EntryView::Other,
            DirectoryEntry::File(n) => EntryView::File(n@),
            DirectoryEntry::NonUtf8File => EntryView::NonUtf8File,
        }
    }
}

/// The names of the regular files among `entries`, in order, or the error
/// for the first entry that could not be read, inspected or named.
pub open spec fn record_files(dir: Seq<char>, entries: Seq<EntryView>) -> Result<
    Seq<Seq<char>>,
    ErrorView,
>
    decreases entries.len(),
{
    if entries.len() == 0 {
        Ok(Seq::empty())
    } else {
        let rest = record_files(dir, entries.drop_first());
        match entries[0] {
            EntryView::Unreadable(d) => Err(persistence_error("read "@ + dir, d)),
            EntryView::Uninspectable(p, d) => Err(persistence_error("inspect "@ + p, d)),
            EntryView::Other => rest,
            EntryView::NonUtf8File => Err(
                ErrorView::Persistence("record file name is not valid UTF-8 in "@ + dir),
            ),
            EntryView::File(n) => match rest {
                Ok(ns) => Ok(seq![n] + ns),
                Err(e) => Err(e),
            },
        }
    }
}

/// The record names a search returned, or its error.
pub open spec fn names_outcome(r: Result<Vec<String>, Error>) -> Result<Seq<Seq<char>>, ErrorView> {
    match r {
        Ok(v) => Ok(texts_of(v@)),
        Err(e) => Err(e@),
    }
}

/// Whether `r` is what searching the memory directory `dir` answers for
/// `listing`: the names of its regular files, sorted, or the error of the
/// directory or of the first entry that could not be read, inspected or named.
pub open spec fn search_answers(
    dir: Seq<char>,
    listing: ListingView,
    r: Result<Seq<Seq<char>>, ErrorView>,
) -> bool {
    match listing {
        ListingView::Unreadable(d) => r == Err::<Seq<Seq<char>>, ErrorView>(
            persistence_error("read "@ + dir, d),
        ),
        ListingView::Entries(entries) => match record_files(dir, entries) {
            Err(err) => r == Err::<Seq<Seq<char>>, ErrorView>(err),
            Ok(names) => r is Ok && texts_sorted(r->Ok_0) && r->Ok_0.to_multiset()
                == names.to_multiset(),
        },
    }
}

/// Whether `a` comes before `b`, or equals it, in lexicographic order of
/// characters (for UTF-8 text, the byte order `String` sorts by).
pub open spec fn text_le(a: Seq<char>, b: Seq<char>) -> bool
    decreases a.len(),
{
    if a.len() == 0 {
        true
    } else if b.len() == 0 {
        false
    } else if a[0] != b[0] {
        a[0] < b[0]
    } else {
        text_le(a.drop_first(), b.drop_first())
    }
}

/// Whether the texts of `s` are in lexicographic order.
pub open spec fn texts_sorted(s: Seq<Seq<char>>) -> bool {
    forall|i: int, j: int| 0 <= i < j < s.len() ==> text_le(#[trigger] s[i], #[trigger] s[j])
}

/// The characters of each string.
pub open spec fn texts_of(v: Seq<String>) -> Seq<Seq<char>> {
    v.map_values(|s: String| s@)
}

proof fn lemma_text_le_total(a: Seq<char>, b: Seq<char>)
    ensures
        text_le(a, b) || text_le(b, a),
    decreases a.len(),
{
    if a.len() > 0 && b.len() > 0 && a[0] == b[0] {
        lemma_text_le_total(a.drop_first(), b.drop_first());
    }
}

proof fn lemma_text_le_reflexive(a: Seq<char>)
    ensures
        text_le(a, a),
    decreases a.len(),
{
    if a.len() > 0 {
        lemma_text_le_reflexive(a.drop_first());
    }
}

proof fn lemma_text_le_antisymmetric(a: Seq<char>, b: Seq<char>)
    requires
        text_le(a, b),
        text_le(b, a),
    ensures
        a == b,
    decreases a.len(),
{
    if a.len() > 0 && b.len() > 0 {
        lemma_text_le_antisymmetric(a.drop_first(), b.drop_first());
        assert(a == seq![a[0]] + a.drop_first());
        assert(b == seq![b[0]] + b.drop_first());
    }
}

proof fn lemma_text_le_transitive(a: Seq<char>, b: Seq<char>, c: Seq<char>)
    requires
        text_le(a, b),
        text_le(b, c),
    ensures
        text_le(a, c),
    decreases a.len(),
{
    if a.len() > 0 && b.len() > 0 && c.len() > 0 && a[0] == b[0] && b[0] == c[0] {
        lemma_text_le_transitive(a.drop_first(), b.drop_first(), c.drop_first());
    }
}

/// Whether the characters `a` come before or equal `b`.
fn chars_le(a: &[char], b: &[char]) -> (r: bool)
    ensures
        r == text_le(a@, b@),
{
    let mut i: usize = 0;
    assert(a@.skip(0) == a@);
    assert(b@.skip(0) == b@);
    while i < a.len() && i < b.len() && a[i] == b[i]
        invariant
            i <= a@.len(),
            i <= b@.len(),
            text_le(a@, b@) == text_le(a@.skip(i as int), b@.skip(i as int)),
        decreases a@.len() - i,
    {
        assert(a@.skip(i as int).drop_first() == a@.skip(i + 1));
        assert(b@.skip(i as int).drop_first() == b@.skip(i + 1));
        i = i + 1;
    }
    if i == a.len() {
        true
    } else if i == b.len() {
        false
    } else {
        a[i] < b[i]
    }
}

/// The strings of `names`, sorted.
fn sort_texts(names: Vec<String>) -> (r: Vec<String>)
    ensures
        texts_sorted(texts_of(r@)),
        texts_of(r@).to_multiset() == texts_of(names@).to_multiset(),
{
    let mut out: Vec<String> = Vec::new();
    let mut k: usize = 0;
    assert(texts_of(names@).take(0) == Seq::<Seq<char>>::empty());
    assert(texts_of(out@) == Seq::<Seq<char>>::empty());
    while k < names.len()
        invariant
            k <= names@.len(),
            texts_sorted(texts_of(out@)),
            texts_of(out@).to_multiset() == texts_of(names@).take(k as int).to_multiset(),
        decreases names@.len() - k,
    {
        let name = names[k].clone();
        let name_chars = chars_of(name.as_str());
        let mut pos: usize = 0;
        while pos < out.len() && chars_le(chars_of(out[pos].as_str()).as_slice(), name_chars.as_slice())
            invariant
                pos <= out@.len(),
                name_chars@ == name@,
                forall|j: int| 0 <= j < pos ==> text_le(#[trigger] texts_of(out@)[j], name@),
            decreases out@.len() - pos,
        {
            pos = pos + 1;
        }
        let ghost before = texts_of(out@);
        proof {
            if pos < before.len() {
                lemma_text_le_total(before[pos as int], name@);
            }
        }
        out.insert(pos, name);
        proof {
            let after = texts_of(out@);
            assert(after == before.insert(pos as int, names@[k as int]@));
            assert forall|i: int, j: int| 0 <= i < j < after.len() implies text_le(
                #[trigger] after[i],
                #[trigger] after[j],
            ) by {
                if i < pos && j == pos {
                } else if i < pos && j > pos {
                    assert(after[j] == before[j - 1]);
                } else if i == pos && j > pos {
                    assert(after[j] == before[j - 1]);
                    if j - 1 > pos {
                        assert(text_le(before[pos as int], before[j - 1]));
                        lemma_text_le_transitive(name@, before[pos as int], before[j - 1]);
                    }
                } else if i > pos {
                    assert(after[i] == before[i - 1]);
                    assert(after[j] == before[j - 1]);
                }
            }
            assert(texts_of(names@).take(k + 1) == texts_of(names@).take(k as int).push(
                names@[k as int]@,
            ));
            vstd::seq_lib::to_multiset_insert(before, pos as int, names@[k as int]@);
            vstd::seq_lib::to_multiset_build(texts_of(names@).take(k as int), names@[k as int]@);
            assert(after.to_multiset() == before.to_multiset().insert(names@[k as int]@));
            assert(texts_of(names@).take(k + 1).to_multiset() == texts_of(names@).take(
                k as int,
            ).to_multiset().insert(names@[k as int]@));
        }
        k = k + 1;
    }
    assert(texts_of(names@).take(names@.len() as int) == texts_of(names@));
    out
}

impl Project {
    /// Names of the record files stored for this project, sorted by name,
    /// from the `listing` of its memory directory.
    ///
    /// Only regular files are records. The first entry that could not be
    /// read, inspected or named as UTF-8 makes the whole listing fail.
    pub fn search(&self, listing: &Listing) -> (r: Result<Vec<String>, Error>)
        ensures
            search_answers(self@.memory_directory, listing@, names_outcome(r)),
    {
        let dir = self.memory_directory();
        let entries = match listing {
            Listing::Unreadable(d) => {
                let mut context = String::from_str("read ");
                context.append(dir);
                return Err(persistence(context.as_str(), d.as_str()));
            },
            Listing::Entries(entries) => entries,
        };
        let ghost all = entries@.map_values(|x: DirectoryEntry| x@);
        let mut names: Vec<String> = Vec::new();
        let mut i: usize = 0;
        assert(all.skip(0) == all);
        assert(forall|ns: Seq<Seq<char>>| texts_of(names@) + ns == ns);
        while i < entries.len()
            invariant
                i <= entries@.len(),
                listing is Entries && listing->Entries_0 == *entries,
                all == entries@.map_values(|x: DirectoryEntry| x@),
                dir@ == self@.memory_directory,
                record_files(dir@, all) == match record_files(dir@, all.skip(i as int)) {
                    Ok(ns) => Ok(texts_of(names@) + ns),
                    Err(e) => Err(e),
                },
            decreases entries@.len() - i,
        {
            assert(all.skip(i as int).drop_first() == all.skip(i + 1));
            assert(all.skip(i as int)[0] == entries@[i as int]@);
            match &entries[i] {
                DirectoryEntry::Unreadable(d) => {
                    let mut context = String::from_str("read ");
                    context.append(dir);
                    return Err(persistence(context.as_str(), d.as_str()));
                },
                DirectoryEntry::Uninspectable(p, d) => {
                    let mut context = String::from_str("inspect ");
                    context.append(p.as_str());
                    return Err(persistence(context.as_str(), d.as_str()));
                },
                DirectoryEntry::Other => {},
                DirectoryEntry::NonUtf8File => {
                    let mut text = String::from_str("record file name is not valid UTF-8 in ");
                    text.append(dir);
                    return Err(Error::Persistence(text));
                },
                DirectoryEntry::File(n) => {
                    let ghost before = texts_of(names@);
                    names.push(n.clone());
                    assert(texts_of(names@) == before.push(n@));
                    assert(before + (seq![n@] + record_files(dir@, all.skip(i + 1))->Ok_0) == before.push(n@) + record_files(dir@, all.skip(i + 1))->Ok_0);
                },
            }
            i = i + 1;
        }
        assert(all.skip(entries@.len() as int) == Seq::<EntryView>::empty());
        assert(texts_of(names@) + Seq::<Seq<char>>::empty() == texts_of(names@));
        Ok(sort_texts(names))
    }
}

/// What a search answers is fixed by the project's memory directory and the
/// listing of that directory alone: two answers for the same listing are equal.
pub proof fn lemma_search_answer_is_unique(
    dir: Seq<char>,
    listing: ListingView,
    r1: Result<Seq<Seq<char>>, ErrorView>,
    r2: Result<Seq<Seq<char>>, ErrorView>,
)
    requires
        search_answers(dir, listing, r1),
        search_answers(dir, listing, r2),
    ensures
        r1 == r2,
{
    if let ListingView::Entries(entries) = listing {
        if record_files(dir, entries) is Ok {
            let leq = |a: Seq<char>, b: Seq<char>| text_le(a, b);
            assert forall|a: Seq<char>| #[trigger] leq(a, a) by {
                lemma_text_le_reflexive(a);
            }
            assert forall|a: Seq<char>, b: Seq<char>| #[trigger] leq(a, b) && #[trigger] leq(
                b,
                a,
            ) implies a == b by {
                lemma_text_le_antisymmetric(a, b);
            }
            assert forall|a: Seq<char>, b: Seq<char>, c: Seq<char>| #[trigger] leq(a, b)
                && #[trigger] leq(b, c) implies leq(a, c) by {
                lemma_text_le_transitive(a, b, c);
            }
            assert forall|a: Seq<char>, b: Seq<char>| #[trigger] leq(a, b) || #[trigger] leq(
                b,
                a,
            ) by {
                lemma_text_le_total(a, b);
            }
            let x = r1->Ok_0;
            let y = r2->Ok_0;
            assert(vstd::relations::sorted_by(x, leq));
            assert(vstd::relations::sorted_by(y, leq));
            vstd::seq_lib::lemma_sorted_unique(x, y, leq);
        }
    }
}

} // verus!
