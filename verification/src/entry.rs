//! The record model: one credential entry and the view of an entry
//! collection as a mathematical sequence.

use vstd::prelude::*;

verus! {

/// One credential record. All fields are free-form text; the store layer
/// never truncates or escapes them.
pub struct Entry {
    /// Name of the site/service; the lookup key (case-insensitive).
    pub name: String,
    /// Login username.
    pub username: String,
    /// Login password.
    pub password: String,
    /// Any user comments; may be empty.
    pub comments: String,
}

/// The mathematical value of an `Entry`: its four fields as character
/// sequences.
pub ghost struct EntryView {
    pub name: Seq<char>,
    pub username: Seq<char>,
    pub password: Seq<char>,
    pub comments: Seq<char>,
}

impl View for Entry {
    type V = EntryView;

    open spec fn view(&self) -> EntryView {
        EntryView {
            name: self.name@,
            username: self.username@,
            password: self.password@,
            comments: self.comments@,
        }
    }
}

impl Entry {
    pub fn new(name: String, username: String, password: String, comments: String) -> (r: Entry)
        ensures
            r@ == (EntryView { name: name@, username: username@, password: password@, comments: comments@ }),
    {
        Entry { name, username, password, comments }
    }
}

impl Clone for Entry {
    fn clone(&self) -> (r: Self)
        ensures
            r@ == self@,
    {
        Entry {
            name: self.name.clone(),
            username: self.username.clone(),
            password: self.password.clone(),
            comments: self.comments.clone(),
        }
    }
}

/// The views of a sequence of entries, element for element.
pub open spec fn views_of(s: Seq<Entry>) -> Seq<EntryView> {
    Seq::new(s.len(), |i: int| s[i]@)
}

/// The lowercase form of a text, as Unicode case mapping defines it.
pub uninterp spec fn lower_of(s: Seq<char>) -> Seq<char>;

/// Two names are the same up to letter case.
pub open spec fn name_matches(a: Seq<char>, b: Seq<char>) -> bool {
    lower_of(a) == lower_of(b)
}

/// Relies on str::to_lowercase: the lowercase form depends on the
/// characters alone.
#[verifier::external_body]
fn to_lowercase(s: &str) -> (r: String)
    ensures
        r@ == lower_of(s@),
{
    s.to_lowercase()
}

/// The index of the first entry whose name equals `name` up to letter case,
/// if any entry's does.
pub fn find_entry(entries: &Vec<Entry>, name: &str) -> (r: Option<usize>)
    ensures
        match r {
            Some(i) => i < entries@.len() && name_matches(entries@[i as int]@.name, name@)
                && (forall|j: int| 0 <= j < i ==> !name_matches(entries@[j]@.name, name@)),
            None => forall|j: int|
                0 <= j < entries@.len() ==> !name_matches(entries@[j]@.name, name@),
        },
{
    let target = to_lowercase(name);
    let n = entries.len();
    let mut i: usize = 0;
    while i < n
        invariant
            n == entries@.len(),
            i <= n,
            target@ == lower_of(name@),
            forall|j: int| 0 <= j < i ==> !name_matches(entries@[j]@.name, name@),
        decreases n - i,
    {
        let lowered = to_lowercase(entries[i].name.as_str());
        if lowered == target {
            return Some(i);
        }
        i = i + 1;
    }
    None
}

/// The entries whose names do not equal `name` up to letter case, in their
/// original order: removal by name removes every match.
pub fn remove_entries(entries: &Vec<Entry>, name: &str) -> (r: Vec<Entry>)
    ensures
        views_of(r@) == views_of(entries@).filter(
            |e: EntryView| !name_matches(e.name, name@),
        ),
{
    let ghost pred = |e: EntryView| !name_matches(e.name, name@);
    let target = to_lowercase(name);
    let mut out: Vec<Entry> = Vec::new();
    let n = entries.len();
    let mut i: usize = 0;
    proof {
        assert(views_of(entries@.subrange(0, 0)) =~= Seq::<EntryView>::empty());
        assert(views_of(out@) =~= Seq::<EntryView>::empty());
        assert(Seq::<EntryView>::empty().filter(pred) =~= Seq::<EntryView>::empty());
    }
    while i < n
        invariant
            n == entries@.len(),
            i <= n,
            target@ == lower_of(name@),
            pred == (|e: EntryView| !name_matches(e.name, name@)),
            views_of(out@) == views_of(entries@.subrange(0, i as int)).filter(pred),
        decreases n - i,
    {
        let ghost prev = views_of(entries@.subrange(0, i as int));
        let ghost prev_out = views_of(out@);
        let lowered = to_lowercase(entries[i].name.as_str());
        if !(lowered == target) {
            out.push(entries[i].clone());
            proof {
                assert(views_of(out@) =~= prev_out.push(entries@[i as int]@));
            }
        }
        proof {
            assert(views_of(entries@.subrange(0, i + 1 as int)) =~= prev.push(
                entries@[i as int]@,
            ));
            lemma_filter_push(prev, entries@[i as int]@, pred);
        }
        i = i + 1;
    }
    proof {
        assert(entries@.subrange(0, n as int) =~= entries@);
    }
    out
}

proof fn lemma_filter_push(s: Seq<EntryView>, x: EntryView, pred: spec_fn(EntryView) -> bool)
    ensures
        s.push(x).filter(pred) == if pred(x) {
            s.filter(pred).push(x)
        } else {
            s.filter(pred)
        },
{
    reveal_with_fuel(Seq::<EntryView>::filter, 2);
    assert(s.push(x).drop_last() =~= s);
    assert(s.push(x).last() == x);
    if pred(x) {
        assert(s.push(x).filter(pred) == s.filter(pred) + seq![x]);
        assert(s.filter(pred) + seq![x] =~= s.filter(pred).push(x));
    } else {
        assert(s.push(x).filter(pred) == s.filter(pred) + Seq::<EntryView>::empty());
        assert(s.filter(pred) + Seq::<EntryView>::empty() =~= s.filter(pred));
    }
}

} // verus!
