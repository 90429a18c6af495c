//! Running byte totals, one slot per extension label.

use vstd::prelude::*;

verus! {

/// One slot per label: the label and its byte total.
pub type Slots = Seq<(Seq<char>, nat)>;

/// No label occupies two slots.
pub open spec fn labels_unique(s: Slots) -> bool {
    forall|i: int, j: int| 0 <= i < s.len() && 0 <= j < s.len() && s[i].0 == s[j].0 ==> i == j
}

/// Whether some slot holds `label`.
pub open spec fn has_label(s: Slots, label: Seq<char>) -> bool {
    exists|i: int| 0 <= i < s.len() && s[i].0 == label
}

/// The bytes recorded under `label`; 0 where it has no slot.
pub open spec fn amount(s: Slots, label: Seq<char>) -> nat {
    if has_label(s, label) {
        s[choose|i: int| 0 <= i < s.len() && s[i].0 == label].1
    } else {
        0
    }
}

/// Sum of the byte totals of all slots.
pub open spec fn slots_sum(s: Slots) -> nat
    decreases s.len(),
{
    if s.len() == 0 {
        0
    } else {
        slots_sum(s.drop_last()) + s.last().1
    }
}

/// `s` with `size` bytes added under `label`: to its slot where it has one,
/// else in a new slot at the end.
pub open spec fn bump(s: Slots, label: Seq<char>, size: nat) -> Slots {
    if has_label(s, label) {
        let i = choose|i: int| 0 <= i < s.len() && s[i].0 == label;
        s.update(i, (label, s[i].1 + size))
    } else {
        s.push((label, size))
    }
}

/// The slots that recording `files`, each a label and a size, in order
/// from no slots at all leads to.
pub open spec fn tally_of(files: Slots) -> Slots
    decreases files.len(),
{
    if files.len() == 0 {
        Seq::empty()
    } else {
        bump(tally_of(files.drop_last()), files.last().0, files.last().1)
    }
}

/// Sum of the sizes of `files`.
pub open spec fn sizes_sum(files: Slots) -> nat
    decreases files.len(),
{
    if files.len() == 0 {
        0
    } else {
        sizes_sum(files.drop_last()) + files.last().1
    }
}

/// The bytes among `files` whose label is `label`.
pub open spec fn sizes_under(files: Slots, label: Seq<char>) -> nat
    decreases files.len(),
{
    if files.len() == 0 {
        0
    } else {
        sizes_under(files.drop_last(), label) + if files.last().0 == label {
            files.last().1
        } else {
            0
        }
    }
}

proof fn lemma_sum_update(s: Slots, i: int, v: nat)
    requires
        0 <= i < s.len(),
    ensures
        slots_sum(s.update(i, (s[i].0, s[i].1 + v))) == slots_sum(s) + v,
    decreases s.len(),
{
    let t = s.update(i, (s[i].0, s[i].1 + v));
    if i == s.len() - 1 {
        assert(t.drop_last() =~= s.drop_last());
    } else {
        lemma_sum_update(s.drop_last(), i, v);
        assert(t.drop_last() =~= s.drop_last().update(i, (s[i].0, s[i].1 + v)));
    }
}

/// Adding bytes under a label adds them to the sum, keeps labels unique,
/// adds them to that label's amount and leaves every other amount as it was.
pub proof fn lemma_bump(s: Slots, label: Seq<char>, size: nat)
    requires
        labels_unique(s),
    ensures
        labels_unique(bump(s, label, size)),
        slots_sum(bump(s, label, size)) == slots_sum(s) + size,
        has_label(bump(s, label, size), label),
        amount(bump(s, label, size), label) == amount(s, label) + size,
        forall|k: Seq<char>|
            k != label ==> #[trigger] amount(bump(s, label, size), k) == amount(s, k),
        forall|k: Seq<char>|
            k != label ==> #[trigger] has_label(bump(s, label, size), k) == has_label(s, k),
{
    let t = bump(s, label, size);
    if has_label(s, label) {
        let i = choose|i: int| 0 <= i < s.len() && s[i].0 == label;
        lemma_sum_update(s, i, size);
        assert(t[i].0 == label);
    } else {
        assert(t.drop_last() =~= s);
        assert(t[s.len() as int].0 == label);
    }
    assert forall|k: Seq<char>| k != label implies #[trigger] has_label(t, k) == has_label(s, k) by {
        if has_label(s, k) {
            let j = choose|j: int| 0 <= j < s.len() && s[j].0 == k;
            assert(t[j].0 == k);
        }
        if has_label(t, k) {
            let j = choose|j: int| 0 <= j < t.len() && t[j].0 == k;
            assert(s[j].0 == k);
        }
    }
    assert forall|k: Seq<char>| k != label implies #[trigger] amount(t, k) == amount(s, k) by {
        if has_label(s, k) {
            let j = choose|j: int| 0 <= j < s.len() && s[j].0 == k;
            assert(t[j].0 == k);
        }
        if has_label(t, k) {
            let j = choose|j: int| 0 <= j < t.len() && t[j].0 == k;
            assert(s[j].0 == k);
        }
    }
}

/// Recording a sequence of files, each a label and a size, keeps labels
/// unique, gives each label exactly the sizes of the files that carry it,
/// and makes the slots sum to the sizes of all the files.
pub proof fn law_tally_sums(files: Slots)
    ensures
        labels_unique(tally_of(files)),
        slots_sum(tally_of(files)) == sizes_sum(files),
        forall|k: Seq<char>| #[trigger] amount(tally_of(files), k) == sizes_under(files, k),
    decreases files.len(),
{
    if files.len() > 0 {
        let rest = files.drop_last();
        law_tally_sums(rest);
        lemma_bump(tally_of(rest), files.last().0, files.last().1);
    }
}

/// The bytes that `f` contributes under `label`.
pub open spec fn share_under(f: (Seq<char>, nat), label: Seq<char>) -> nat {
    if f.0 == label {
        f.1
    } else {
        0
    }
}

proof fn lemma_sizes_remove(files: Slots, j: int, label: Seq<char>)
    requires
        0 <= j < files.len(),
    ensures
        sizes_under(files, label) == sizes_under(files.remove(j), label) + share_under(
            files[j],
            label,
        ),
        sizes_sum(files) == sizes_sum(files.remove(j)) + files[j].1,
    decreases files.len(),
{
    if j == files.len() - 1 {
        assert(files.remove(j) =~= files.drop_last());
    } else {
        lemma_sizes_remove(files.drop_last(), j, label);
        assert(files.remove(j).drop_last() =~= files.drop_last().remove(j));
        assert(files.remove(j).last() == files.last());
    }
}

proof fn lemma_sizes_permuted(a: Slots, b: Slots, label: Seq<char>)
    requires
        a.to_multiset() == b.to_multiset(),
    ensures
        sizes_under(a, label) == sizes_under(b, label),
        sizes_sum(a) == sizes_sum(b),
    decreases a.len(),
{
    broadcast use vstd::seq_lib::group_to_multiset_ensures;

    if a.len() == 0 {
        assert(b.to_multiset().len() == 0);
    } else {
        let e = a.last();
        let rest = a.drop_last();
        assert(a =~= rest.push(e));
        assert(a.to_multiset().count(e) > 0);
        assert(b.contains(e));
        let j = choose|j: int| 0 <= j < b.len() && b[j] == e;
        let b2 = b.remove(j);
        assert(b2.to_multiset() == b.to_multiset().remove(e));
        assert(rest.to_multiset() =~= b2.to_multiset());
        lemma_sizes_permuted(rest, b2, label);
        lemma_sizes_remove(b, j, label);
    }
}

/// Whether some file of `files` carries `label`.
pub open spec fn carries(files: Slots, label: Seq<char>) -> bool {
    exists|i: int| 0 <= i < files.len() && files[i].0 == label
}

proof fn lemma_has_label_tally(files: Slots, k: Seq<char>)
    ensures
        has_label(tally_of(files), k) == carries(files, k),
    decreases files.len(),
{
    if files.len() > 0 {
        let rest = files.drop_last();
        lemma_has_label_tally(rest, k);
        law_tally_sums(rest);
        lemma_bump(tally_of(rest), files.last().0, files.last().1);
        if k == files.last().0 {
            assert(files[files.len() - 1].0 == k);
        } else {
            if carries(files, k) {
                let i = choose|i: int| 0 <= i < files.len() && files[i].0 == k;
                assert(rest[i].0 == k);
            }
            if carries(rest, k) {
                let i = choose|i: int| 0 <= i < rest.len() && rest[i].0 == k;
                assert(files[i].0 == k);
            }
        }
    }
}

proof fn lemma_carries_permuted(a: Slots, b: Slots, k: Seq<char>)
    requires
        a.to_multiset() == b.to_multiset(),
        carries(a, k),
    ensures
        carries(b, k),
{
    broadcast use vstd::seq_lib::group_to_multiset_ensures;

    let i = choose|i: int| 0 <= i < a.len() && a[i].0 == k;
    assert(a.contains(a[i]));
    assert(a.to_multiset().count(a[i]) > 0);
    assert(b.to_multiset().count(a[i]) > 0);
    assert(b.contains(a[i]));
    let j = choose|j: int| 0 <= j < b.len() && b[j] == a[i];
    assert(b[j].0 == k);
}

/// Recording the same files in another order leaves every label's amount,
/// and the sum of all amounts, as they were: a traversal of an unchanged
/// tree gives the same tally whatever order directories list their entries in.
pub proof fn law_tally_order_free(a: Slots, b: Slots)
    requires
        a.to_multiset() == b.to_multiset(),
    ensures
        slots_sum(tally_of(a)) == slots_sum(tally_of(b)),
        forall|k: Seq<char>| #[trigger] amount(tally_of(a), k) == amount(tally_of(b), k),
        forall|k: Seq<char>|
            #[trigger] has_label(tally_of(a), k) == has_label(tally_of(b), k),
{
    law_tally_sums(a);
    law_tally_sums(b);
    lemma_sizes_permuted(a, b, Seq::empty());
    assert forall|k: Seq<char>| #[trigger] amount(tally_of(a), k) == amount(tally_of(b), k) by {
        lemma_sizes_permuted(a, b, k);
    }
    assert forall|k: Seq<char>|
        #[trigger] has_label(tally_of(a), k) == has_label(tally_of(b), k) by {
        lemma_has_label_tally(a, k);
        lemma_has_label_tally(b, k);
        if carries(a, k) {
            lemma_carries_permuted(a, b, k);
        }
        if carries(b, k) {
            lemma_carries_permuted(b, a, k);
        }
    }
}

/// Byte totals per extension label.
pub struct ExtTally {
    slots: Vec<(String, u64)>,
    total: u64,
}

impl View for ExtTally {
    type V = Slots;

    closed spec fn view(&self) -> Slots {
        self.slots@.map_values(|e: (String, u64)| (e.0@, e.1 as nat))
    }
}

impl ExtTally {
    /// Labels are unique, and the stored total is the sum of the slots' byte
    /// totals, so that sum fits in a `u64`.
    pub closed spec fn wf(&self) -> bool {
        labels_unique(self@) && self.total == slots_sum(self@)
    }

    /// Sum of all byte totals.
    pub open spec fn spec_total(&self) -> nat {
        slots_sum(self@)
    }

    /// A tally with no slots.
    pub fn new() -> (r: ExtTally)
        ensures
            r.wf(),
            r@ == Seq::<(Seq<char>, nat)>::empty(),
    {
        let r = ExtTally { slots: Vec::new(), total: 0 };
        assert(r@ =~= Seq::<(Seq<char>, nat)>::empty());
        r
    }

    /// Sum of all byte totals.
    pub fn total(&self) -> (r: u64)
        requires
            self.wf(),
        ensures
            r == self.spec_total(),
    {
        self.total
    }

    /// Number of slots.
    pub fn len(&self) -> (r: usize)
        ensures
            r == self@.len(),
    {
        self.slots.len()
    }

    /// The label and byte total of slot `i`.
    pub fn slot(&self, i: usize) -> (r: (&str, u64))
        requires
            i < self@.len(),
        ensures
            r.0@ == self@[i as int].0,
            r.1 == self@[i as int].1,
    {
        let e = &self.slots[i];
        (e.0.as_str(), e.1)
    }

    /// Index of the slot of `key`, or the number of slots where it has none.
    fn find(&self, key: &String) -> (r: usize)
        ensures
            r <= self@.len(),
            r < self@.len() ==> self@[r as int].0 == key@,
            r == self@.len() ==> !has_label(self@, key@),
    {
        let mut i: usize = 0;
        while i < self.slots.len()
            invariant
                i <= self.slots@.len(),
                forall|j: int| 0 <= j < i ==> self@[j].0 != key@,
            decreases self.slots@.len() - i,
        {
            if self.slots[i].0 == *key {
                return i;
            }
            i = i + 1;
        }
        i
    }

    /// The bytes recorded under `label`, if it has a slot.
    pub fn get(&self, label: &str) -> (r: Option<u64>)
        requires
            self.wf(),
        ensures
            r is Some <==> has_label(self@, label@),
            r is Some ==> r->0 == amount(self@, label@),
    {
        let i = self.find(&label.to_owned());
        if i < self.slots.len() {
            proof {
                let k = choose|k: int| 0 <= k < self@.len() && self@[k].0 == label@;
                assert(k == i);
            }
            Some(self.slots[i].1)
        } else {
            None
        }
    }

    /// Add `file_size` bytes under `ext_name`, opening its slot at zero
    /// where it has none.
    pub fn insert(&mut self, ext_name: &str, file_size: u64)
        requires
            old(self).wf(),
            old(self).spec_total() + file_size <= u64::MAX,
        ensures
            final(self).wf(),
            final(self)@ == bump(old(self)@, ext_name@, file_size as nat),
            final(self).spec_total() == old(self).spec_total() + file_size,
    {
        proof {
            lemma_bump(self@, ext_name@, file_size as nat);
        }
        let key = ext_name.to_owned();
        let i = self.find(&key);
        let ghost s = self@;
        if i < self.slots.len() {
            proof {
                assert(s[i as int].0 == ext_name@);
                assert(has_label(s, ext_name@));
                lemma_slot_sum_bound(s, i as int);
            }
            let v = self.slots[i].1 + file_size;
            self.slots.set(i, (key, v));
            self.total = self.total + file_size;
            proof {
                let k = choose|k: int| 0 <= k < s.len() && s[k].0 == ext_name@;
                assert(k == i);
                assert(self@ =~= bump(s, ext_name@, file_size as nat));
            }
        } else {
            self.slots.push((key, file_size));
            self.total = self.total + file_size;
            proof {
                assert(!has_label(s, ext_name@));
                assert(self@ =~= bump(s, ext_name@, file_size as nat));
            }
        }
    }
}

proof fn lemma_slot_sum_bound(s: Slots, i: int)
    requires
        0 <= i < s.len(),
    ensures
        s[i].1 <= slots_sum(s),
    decreases s.len(),
{
    if i < s.len() - 1 {
        lemma_slot_sum_bound(s.drop_last(), i);
    }
}

} // verus!
