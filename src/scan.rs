//! Depth-first traversal of a directory tree with an explicit stack.
//!
//! The caller lists directories; a `Scan` decides what each listed entry
//! becomes. A regular file is classified and its size added to the tally;
//! any other entry is queued to be listed as a directory in turn.

use crate::label::{ext_of, get_file_ext};
use crate::tally::{
    amount, bump, has_label, law_tally_order_free, law_tally_sums, sizes_sum, sizes_under,
    tally_of, ExtTally, Slots,
};
use vstd::prelude::*;

verus! {

/// Each file, a path and a size, with its path replaced by its label.
pub open spec fn labelled(files: Slots) -> Slots {
    files.map_values(|f: (Seq<char>, nat)| (ext_of(f.0), f.1))
}

proof fn lemma_labelled_sizes(files: Slots)
    ensures
        sizes_sum(labelled(files)) == sizes_sum(files),
    decreases files.len(),
{
    if files.len() > 0 {
        lemma_labelled_sizes(files.drop_last());
        assert(labelled(files).drop_last() =~= labelled(files.drop_last()));
    }
}

proof fn lemma_labelled_permuted(a: Slots, b: Slots)
    requires
        a.to_multiset() == b.to_multiset(),
    ensures
        labelled(a).to_multiset() == labelled(b).to_multiset(),
    decreases a.len(),
{
    broadcast use vstd::seq_lib::group_to_multiset_ensures;

    if a.len() == 0 {
        assert(b.to_multiset().len() == 0);
        assert(labelled(a) =~= labelled(b));
    } else {
        let e = a.last();
        let rest = a.drop_last();
        assert(a =~= rest.push(e));
        assert(a.to_multiset().count(e) > 0);
        assert(b.to_multiset().count(e) > 0);
        assert(b.contains(e));
        let j = choose|j: int| 0 <= j < b.len() && b[j] == e;
        let b2 = b.remove(j);
        assert(rest.to_multiset() =~= b2.to_multiset());
        lemma_labelled_permuted(rest, b2);
        let le = (ext_of(e.0), e.1);
        assert(labelled(a) =~= labelled(rest).push(le));
        assert(labelled(b2) =~= labelled(b).remove(j));
        assert(labelled(b)[j] == le);
        assert(labelled(b).to_multiset() =~= labelled(b2).to_multiset().insert(le));
    }
}

/// The label and the size of one file.
pub fn process_file(path: &str, size: u64) -> (r: (String, u64))
    ensures
        r.0@ == ext_of(path@),
        r.1 == size,
{
    (get_file_ext(path), size)
}

/// The state of a traversal: directories still to list, the tally so far,
/// and (as ghost state) every file recorded, with its size, in order.
pub struct Scan {
    pending: Vec<String>,
    counts: ExtTally,
    files: Ghost<Slots>,
}

impl Scan {
    /// Directories still to list; the last is listed next.
    pub closed spec fn pending(&self) -> Seq<Seq<char>> {
        self.pending@.map_values(|p: String| p@)
    }

    /// The tally so far.
    pub closed spec fn counts(&self) -> ExtTally {
        self.counts
    }

    /// Every file recorded so far, as a path and a size, in order.
    pub closed spec fn files(&self) -> Slots {
        self.files@
    }

    /// The tally is well formed and is what recording the files seen so
    /// far, each under its label, leads to.
    pub closed spec fn wf(&self) -> bool {
        self.counts.wf() && self.counts@ == tally_of(labelled(self.files@))
    }

    /// A traversal that will list `root` first, with an empty tally.
    pub fn new(root: &str) -> (r: Scan)
        ensures
            r.wf(),
            r.pending() == seq![root@],
            r.files() == Seq::<(Seq<char>, nat)>::empty(),
            r.counts()@ == Seq::<(Seq<char>, nat)>::empty(),
    {
        let mut pending = Vec::new();
        pending.push(root.to_owned());
        let r = Scan { pending, counts: ExtTally::new(), files: Ghost(Seq::empty()) };
        assert(r.pending() =~= seq![root@]);
        assert(labelled(Seq::<(Seq<char>, nat)>::empty()) =~= Seq::<(Seq<char>, nat)>::empty());
        r
    }

    /// The directory to list next, taken off the stack; `None` when the
    /// traversal is over.
    pub fn next_directory(&mut self) -> (r: Option<String>)
        ensures
            r is None <==> old(self).pending().len() == 0,
            r is Some ==> r->0@ == old(self).pending().last(),
            r is Some ==> final(self).pending() == old(self).pending().drop_last(),
            r is None ==> final(self).pending() == old(self).pending(),
            final(self).counts() == old(self).counts(),
            final(self).files() == old(self).files(),
            final(self).wf() == old(self).wf(),
    {
        let r = self.pending.pop();
        proof {
            if r is Some {
                assert(self.pending() =~= old(self).pending().drop_last());
            }
        }
        r
    }

    /// Whether a file of `size` bytes can be recorded without the total
    /// passing `u64::MAX`.
    pub fn has_room_for(&self, size: u64) -> (r: bool)
        requires
            self.wf(),
        ensures
            r == (self.counts().spec_total() + size <= u64::MAX),
    {
        size <= u64::MAX - self.counts.total()
    }

    /// Take one entry of a directory listing. A regular file of `size`
    /// bytes is recorded under its label; any other entry is pushed onto
    /// the stack, to be listed as a directory.
    pub fn visit_entry(&mut self, path: &str, is_file: bool, size: u64)
        requires
            old(self).wf(),
            is_file ==> old(self).counts().spec_total() + size <= u64::MAX,
        ensures
            final(self).wf(),
            is_file ==> final(self).files() == old(self).files().push((path@, size as nat)),
            is_file ==> final(self).counts()@ == bump(old(self).counts()@, ext_of(path@), size as nat),
            is_file ==> final(self).counts().spec_total() == old(self).counts().spec_total() + size,
            is_file ==> final(self).pending() == old(self).pending(),
            !is_file ==> final(self).pending() == old(self).pending().push(path@),
            !is_file ==> final(self).counts() == old(self).counts(),
            !is_file ==> final(self).files() == old(self).files(),
    {
        if is_file {
            let (ext, n) = process_file(path, size);
            self.counts.insert(ext.as_str(), n);
            let ghost old_files = self.files@;
            self.files = Ghost(old_files.push((path@, size as nat)));
            proof {
                assert(labelled(self.files@).drop_last() =~= labelled(old_files));
            }
        } else {
            self.pending.push(path.to_owned());
            proof {
                assert(self.pending() =~= old(self).pending().push(path@));
            }
        }
    }

    /// The tally so far.
    pub fn tally(&self) -> (r: &ExtTally)
        ensures
            *r == self.counts(),
    {
        &self.counts
    }

    /// The tally, ending the traversal.
    pub fn into_tally(self) -> (r: ExtTally)
        ensures
            r == self.counts(),
    {
        self.counts
    }
}

/// At every step of a traversal the tally's total is the sum of the sizes
/// of the files recorded, and each label holds exactly the sizes of the
/// recorded files that carry it.
pub proof fn law_scan_sums(s: &Scan)
    requires
        s.wf(),
    ensures
        s.counts().spec_total() == sizes_sum(s.files()),
        forall|k: Seq<char>|
            #[trigger] amount(s.counts()@, k) == sizes_under(labelled(s.files()), k),
{
    law_tally_sums(labelled(s.files()));
    lemma_labelled_sizes(s.files());
}

/// Two traversals that recorded the same files, in whatever order, hold
/// the same amount under every label and the same total: scanning an
/// unchanged tree twice gives identical tallies.
pub proof fn law_rescan_same(s1: &Scan, s2: &Scan)
    requires
        s1.wf(),
        s2.wf(),
        s1.files().to_multiset() == s2.files().to_multiset(),
    ensures
        s1.counts().spec_total() == s2.counts().spec_total(),
        forall|k: Seq<char>| #[trigger] amount(s1.counts()@, k) == amount(s2.counts()@, k),
        forall|k: Seq<char>| #[trigger] has_label(s1.counts()@, k) == has_label(s2.counts()@, k),
{
    lemma_labelled_permuted(s1.files(), s2.files());
    law_tally_order_free(labelled(s1.files()), labelled(s2.files()));
}

} // verus!
