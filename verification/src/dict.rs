//! String interning: a table of distinct strings, where each distinct value
//! gets a stable index in first-seen order. Index 0 is reserved for the
//! empty string, which stands for "unknown/unmapped".

use vstd::prelude::*;

verus! {

/// The mathematical view of a dictionary: the views of its entries, in order.
pub open spec fn entries_view(entries: Seq<String>) -> Seq<Seq<char>> {
    entries.map_values(|e: String| e@)
}

/// Well-formedness of the table of entry views: non-empty, the empty string
/// sits at index 0, and no value occurs twice.
pub open spec fn wf_entries(es: Seq<Seq<char>>) -> bool {
    &&& es.len() >= 1
    &&& es[0] == Seq::<char>::empty()
    &&& forall|i: int, j: int| 0 <= i < j < es.len() ==> es[i] != es[j]
}

/// The index of `s` in `es`; meaningful only when `s` occurs in `es`
/// (under `wf_entries` the occurrence is unique).
pub open spec fn index_of(es: Seq<Seq<char>>, s: Seq<char>) -> int {
    choose|i: int| 0 <= i < es.len() && es[i] == s
}

/// What interning does: an already-present value maps to its existing index
/// and leaves the table unchanged; a new value is appended and maps to the
/// previous length.
pub open spec fn spec_intern(es: Seq<Seq<char>>, s: Seq<char>) -> (Seq<Seq<char>>, int) {
    if es.contains(s) {
        (es, index_of(es, s))
    } else {
        (es.push(s), es.len() as int)
    }
}

/// A deduplicating string table with stable first-seen indices.
pub struct Dictionary {
    pub entries: Vec<String>,
}

impl Dictionary {
    pub open spec fn view_entries(self) -> Seq<Seq<char>> {
        entries_view(self.entries@)
    }

    pub open spec fn wf(self) -> bool {
        wf_entries(self.view_entries())
    }

    /// A fresh dictionary holding only the reserved empty string at index 0.
    pub fn new() -> (d: Dictionary)
        ensures
            d.wf(),
            d.view_entries() =~= seq![Seq::<char>::empty()],
    {
        let mut entries: Vec<String> = Vec::new();
        entries.push(String::new());
        let d = Dictionary { entries };
        proof {
            assert(d.view_entries() =~= seq![Seq::<char>::empty()]);
        }
        d
    }

    /// Returns the index of `value`, appending it first if it is new.
    pub fn intern(&mut self, value: &String) -> (idx: usize)
        requires
            old(self).wf(),
        ensures
            final(self).wf(),
            idx < final(self).view_entries().len(),
            final(self).view_entries()[idx as int] == value@,
            (final(self).view_entries(), idx as int) == spec_intern(
                old(self).view_entries(),
                value@,
            ),
            value@ == Seq::<char>::empty() ==> idx == 0,
    {
        let ghost es = self.view_entries();
        let mut i: usize = 0;
        while i < self.entries.len()
            invariant
                *self == *old(self),
                es == self.view_entries(),
                old(self).wf(),
                i <= self.entries@.len(),
                forall|j: int| 0 <= j < i ==> es[j] != value@,
            decreases self.entries@.len() - i,
        {
            if self.entries[i] == *value {
                proof {
                    assert(es.contains(value@)) by {
                        assert(es[i as int] == value@);
                    }
                    let w = index_of(es, value@);
                    assert(es[w] == value@);
                    if w != i as int {
                        assert(es[w] != es[i as int]);
                    }
                }
                return i;
            }
            i += 1;
        }
        proof {
            assert(forall|j: int| 0 <= j < es.len() ==> es[j] != value@);
            assert(!es.contains(value@));
        }
        let idx: usize = self.entries.len();
        self.entries.push(value.clone());
        proof {
            assert(final(self).view_entries() =~= es.push(value@));
            assert(wf_entries(es.push(value@))) by {
                assert(forall|k: int| 0 <= k < es.len() ==> es.push(value@)[k] == es[k]);
            }
        }
        idx
    }

    /// Resolves an index to its string; an out-of-range index resolves to
    /// the empty string rather than failing.
    pub fn get(&self, index: usize) -> (r: String)
        ensures
            index < self.view_entries().len() ==> r@ == self.view_entries()[index as int],
            index >= self.view_entries().len() ==> r@ == Seq::<char>::empty(),
    {
        if index < self.entries.len() {
            self.entries[index].clone()
        } else {
            String::new()
        }
    }
}

/// Interning is idempotent: interning the same value twice yields the same
/// index both times and leaves the table as the first call left it; and
/// interning the empty string always yields index 0.
pub proof fn lemma_intern_idempotent(es: Seq<Seq<char>>, s: Seq<char>)
    requires
        wf_entries(es),
    ensures
        ({
            let (es1, i1) = spec_intern(es, s);
            let (es2, i2) = spec_intern(es1, s);
            &&& i1 == i2
            &&& es2 == es1
            &&& wf_entries(es1)
        }),
        spec_intern(es, Seq::<char>::empty()).1 == 0,
{
    let (es1, i1) = spec_intern(es, s);
    if es.contains(s) {
        let w = index_of(es, s);
        assert(es[w] == s);
    } else {
        assert(es1 =~= es.push(s));
        assert(wf_entries(es1)) by {
            assert(forall|k: int| 0 <= k < es.len() ==> es1[k] == es[k]);
        }
        assert(es1[es.len() as int] == s);
        assert(es1.contains(s));
        let w = index_of(es1, s);
        assert(es1[w] == s);
        if w != es.len() as int {
            assert(es1[w] != es1[es.len() as int]);
        }
    }
    let (es2, i2) = spec_intern(es1, s);
    assert(es1.contains(s)) by {
        if es.contains(s) {
            let w = index_of(es, s);
            assert(es1[w] == s);
        } else {
            assert(es1[es.len() as int] == s);
        }
    }
    // the empty string sits at index 0
    assert(es.contains(Seq::<char>::empty())) by {
        assert(es[0] == Seq::<char>::empty());
    }
    let w0 = index_of(es, Seq::<char>::empty());
    assert(es[w0] == Seq::<char>::empty());
    if w0 != 0 {
        assert(es[0] != es[w0]);
    }
}

} // verus!
