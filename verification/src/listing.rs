//! The directory-listing core: which names one read of a directory yields.
//!
//! A read of a directory is what the operating system hands back: either an
//! open failure with its message, or one raw entry per immediate child, where
//! each entry is the child's name bytes, or nothing when reading that one
//! entry failed. The listing keeps the successfully read entries, in the
//! order they came, and decodes each name lossily; entries that failed to
//! read are skipped, and an open failure is passed through as the error.

use vstd::prelude::*;
use crate::lossy::lossy_decode;
use crate::lossy::lossy_string;

verus! {

/// Whether one raw entry was read successfully (a skipped entry carries no
/// name and contributes nothing to the listing).
pub open spec fn entry_read(e: Option<Seq<u8>>) -> bool {
    e is Some
}

/// The names that one read of a directory yields: every successfully read
/// entry contributes its lossily decoded name, in the order the entries
/// came; entries that failed to read are skipped.
pub open spec fn listed_names(entries: Seq<Option<Seq<u8>>>) -> Seq<Seq<char>> {
    entries.filter(|e: Option<Seq<u8>>| entry_read(e)).map_values(
        |e: Option<Seq<u8>>| lossy_decode(e->0),
    )
}

/// Appending one raw entry appends its decoded name when it was read, and
/// changes nothing when it was skipped.
proof fn lemma_listed_names_push(entries: Seq<Option<Seq<u8>>>, e: Option<Seq<u8>>)
    ensures
        entry_read(e) ==> listed_names(entries.push(e)) == listed_names(entries).push(
            lossy_decode(e->0),
        ),
        !entry_read(e) ==> listed_names(entries.push(e)) == listed_names(entries),
{
    reveal(Seq::filter);
    let p = |x: Option<Seq<u8>>| entry_read(x);
    let f = |x: Option<Seq<u8>>| lossy_decode(x->0);
    assert(entries.push(e).drop_last() =~= entries);
    assert(entries.push(e).last() == e);
    if entry_read(e) {
        assert(entries.push(e).filter(p) == entries.filter(p).push(e));
        assert(entries.push(e).filter(p).map_values(f) =~= entries.filter(p).map_values(f).push(
            f(e),
        ));
    } else {
        assert(entries.push(e).filter(p) == entries.filter(p));
    }
}

/// Collects the names of the successfully read entries, in order, decoding
/// each name lossily.
pub fn collect_names(entries: &Vec<Option<Vec<u8>>>) -> (names: Vec<String>)
    ensures
        names.deep_view() == listed_names(entries.deep_view()),
{
    let mut names: Vec<String> = Vec::new();
    let mut idx: usize = 0;
    proof {
        assert(entries.deep_view().take(0) =~= Seq::<Option<Seq<u8>>>::empty());
        reveal(Seq::filter);
        assert(names.deep_view() =~= listed_names(entries.deep_view().take(0)));
    }
    while idx < entries.len()
        invariant
            idx <= entries@.len(),
            entries.deep_view().len() == entries@.len(),
            names.deep_view() == listed_names(entries.deep_view().take(idx as int)),
        decreases entries@.len() - idx,
    {
        let ghost ev = entries.deep_view();
        let ghost prefix = ev.take(idx as int);
        let ghost old_names = names.deep_view();
        match &entries[idx] {
            Some(name_bytes) => {
                let s = lossy_string(name_bytes);
                names.push(s);
                proof {
                    assert(name_bytes.deep_view() =~= name_bytes@);
                    assert(ev[idx as int] == Some(name_bytes.deep_view()));
                    assert(names.deep_view() =~= old_names.push(s@));
                }
            },
            None => {
                proof {
                    assert(ev[idx as int] is None);
                }
            },
        }
        proof {
            lemma_listed_names_push(prefix, ev[idx as int]);
            assert(ev.take(idx + 1) =~= prefix.push(ev[idx as int]));
        }
        idx += 1;
    }
    proof {
        assert(entries.deep_view().take(idx as int) =~= entries.deep_view());
    }
    names
}

/// The listing that one read of a directory yields. An open failure yields
/// no listing and is passed through as the error, its text exactly the
/// message the read came with; a successful read always yields the names of
/// its successfully read entries, whatever bytes they hold.
pub fn list_files(read: Result<Vec<Option<Vec<u8>>>, String>) -> (r: Result<Vec<String>, String>)
    ensures
        read is Ok ==> r is Ok && r->Ok_0.deep_view() == listed_names(read->Ok_0.deep_view()),
        read is Err ==> r is Err && r->Err_0 == read->Err_0,
{
    match read {
        Ok(entries) => Ok(collect_names(&entries)),
        Err(message) => Err(message),
    }
}

/// A name is listed exactly when some successfully read entry's bytes decode
/// to it.
pub proof fn lemma_listed_names_membership(entries: Seq<Option<Seq<u8>>>, name: Seq<char>)
    ensures
        listed_names(entries).contains(name) <==> (exists|b: Seq<u8>|
            entries.contains(Some(b)) && name == lossy_decode(b)),
{
    let p = |x: Option<Seq<u8>>| entry_read(x);
    let f = |x: Option<Seq<u8>>| lossy_decode(x->0);
    let kept = entries.filter(p);
    if listed_names(entries).contains(name) {
        let i = choose|i: int| 0 <= i < listed_names(entries).len() && listed_names(entries)[i]
            == name;
        assert(f(kept[i]) == #[trigger] kept.map_values(f)[i]);
        entries.lemma_filter_pred(p, i);
        lemma_filter_subset(entries, p, kept[i]);
        let b = kept[i]->0;
        assert(entries.contains(Some(b)) && name == lossy_decode(b));
    }
    if exists|b: Seq<u8>| entries.contains(Some(b)) && name == lossy_decode(b) {
        let b = choose|b: Seq<u8>| entries.contains(Some(b)) && name == lossy_decode(b);
        let i = choose|i: int| 0 <= i < entries.len() && entries[i] == Some(b);
        entries.lemma_filter_contains(p, i);
        let j = choose|j: int| 0 <= j < kept.len() && kept[j] == Some(b);
        assert(kept.map_values(f)[j] == lossy_decode(b));
        assert(listed_names(entries)[j] == name);
        assert(listed_names(entries).contains(name));
    }
}

/// Everything the filter keeps was in the original sequence.
proof fn lemma_filter_subset(
    entries: Seq<Option<Seq<u8>>>,
    p: spec_fn(Option<Seq<u8>>) -> bool,
    x: Option<Seq<u8>>,
)
    requires
        entries.filter(p).contains(x),
    ensures
        entries.contains(x),
    decreases entries.len(),
{
    reveal(Seq::filter);
    if entries.len() > 0 {
        let prefix = entries.drop_last();
        if entries.last() == x {
            assert(entries[entries.len() - 1] == x);
        } else {
            assert(prefix.filter(p).contains(x));
            lemma_filter_subset(prefix, p, x);
            let i = choose|i: int| 0 <= i < prefix.len() && prefix[i] == x;
            assert(entries[i] == x);
        }
    }
}

/// Listing an unchanged directory twice: when two reads of it yield the same
/// set of raw entries, in whatever order, the two listings hold identical
/// sets of names.
pub proof fn lemma_same_entries_same_names(e1: Seq<Option<Seq<u8>>>, e2: Seq<Option<Seq<u8>>>)
    requires
        e1.to_set() == e2.to_set(),
    ensures
        listed_names(e1).to_set() == listed_names(e2).to_set(),
{
    assert forall|n: Seq<char>| #[trigger] listed_names(e1).to_set().contains(n)
        <==> listed_names(e2).to_set().contains(n) by {
        lemma_listed_names_membership(e1, n);
        lemma_listed_names_membership(e2, n);
        assert(forall|b: Seq<u8>| e1.contains(Some(b)) <==> e1.to_set().contains(Some(b)));
        assert(forall|b: Seq<u8>| e2.contains(Some(b)) <==> e2.to_set().contains(Some(b)));
    }
    assert(listed_names(e1).to_set() =~= listed_names(e2).to_set());
}

/// One name per successfully read entry: the listing is exactly as long as
/// the number of entries that were read, whatever bytes their names hold.
pub proof fn lemma_one_name_per_read_entry(entries: Seq<Option<Seq<u8>>>)
    ensures
        listed_names(entries).len() == entries.filter(|e: Option<Seq<u8>>| entry_read(e)).len(),
{
}

} // verus!
