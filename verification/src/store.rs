//! The store: an ordered vocabulary of term/definition pairs.
//!
//! A [`Vocabulary`] is modelled as a sequence of `(term, definition)`
//! character-sequence pairs in insertion order. Well-formedness means no two
//! entries share a term; the mutating operations preserve it.

use vstd::prelude::*;
use vstd::pervasive::VecAdditionalExecFns;
use crate::text::trim_ws;

verus! {

/// One term/definition pair.
pub struct Entry {
    pub term: String,
    pub definition: String,
}

/// The ordered vocabulary. Insertion order is kept; terms are unique in any
/// well-formed value.
pub struct Vocabulary {
    pub words: Vec<Entry>,
}

/// A `(term, definition)` pair at the specification level.
pub type TermDef = (Seq<char>, Seq<char>);

/// Whether some pair in `m` has term `t`.
pub open spec fn seq_has_term(m: Seq<TermDef>, t: Seq<char>) -> bool {
    exists|i: int| 0 <= i < m.len() && m[i].0 == t
}

/// The index of the first pair in `m` whose term is `t` (meaningful only
/// when such a pair exists).
pub open spec fn first_index(m: Seq<TermDef>, t: Seq<char>) -> int
    decreases m.len(),
{
    if m.len() == 0 {
        0
    } else if m[0].0 == t {
        0
    } else {
        1 + first_index(m.drop_first(), t)
    }
}

/// No two pairs of `m` share a term.
pub open spec fn distinct_terms(m: Seq<TermDef>) -> bool {
    forall|i: int, j: int| 0 <= i < j < m.len() ==> m[i].0 != m[j].0
}

/// The vocabulary value after adding each pair of `ops` in turn to `m`.
pub open spec fn add_all(m: Seq<TermDef>, ops: Seq<TermDef>) -> Seq<TermDef>
    decreases ops.len(),
{
    if ops.len() == 0 {
        m
    } else {
        add_all(m.push(ops[0]), ops.drop_first())
    }
}

/// Adding pairs one by one appends them in the order given.
pub proof fn lemma_add_all_appends(m: Seq<TermDef>, ops: Seq<TermDef>)
    ensures
        add_all(m, ops) == m + ops,
    decreases ops.len(),
{
    if ops.len() == 0 {
        assert(m + ops =~= m);
    } else {
        lemma_add_all_appends(m.push(ops[0]), ops.drop_first());
        assert(m.push(ops[0]) + ops.drop_first() =~= m + ops);
    }
}

/// If `t` first occurs at `i` (no earlier match), `first_index` returns `i`.
proof fn lemma_first_index_at(m: Seq<TermDef>, t: Seq<char>, i: int)
    requires
        0 <= i < m.len(),
        m[i].0 == t,
        forall|k: int| 0 <= k < i ==> m[k].0 != t,
    ensures
        first_index(m, t) == i,
    decreases i,
{
    if i > 0 {
        lemma_first_index_at(m.drop_first(), t, i - 1);
    }
}

impl Vocabulary {
    /// The mathematical value of this vocabulary: its pairs in stored order.
    pub open spec fn model(&self) -> Seq<TermDef> {
        self.words@.map_values(|e: Entry| (e.term@, e.definition@))
    }

    /// Whether some entry has term `t`.
    pub open spec fn has_term(&self, t: Seq<char>) -> bool {
        seq_has_term(self.model(), t)
    }

    /// Terms are pairwise distinct.
    pub open spec fn wf(&self) -> bool {
        distinct_terms(self.model())
    }

    /// An empty vocabulary.
    pub fn new() -> (v: Vocabulary)
        ensures
            v.model() == Seq::<TermDef>::empty(),
            v.wf(),
    {
        let v = Vocabulary { words: Vec::new() };
        proof {
            assert(v.model() =~= Seq::<TermDef>::empty());
        }
        v
    }

    /// The number of entries.
    pub fn count(&self) -> (n: usize)
        ensures
            n == self.model().len(),
    {
        self.words.len()
    }

    /// Whether `term` is already present.
    pub fn contains_term(&self, term: &String) -> (r: bool)
        ensures
            r == self.has_term(term@),
    {
        let mut i: usize = 0;
        while i < self.words.len()
            invariant
                i <= self.words.len(),
                forall|k: int| 0 <= k < i ==> self.model()[k].0 != term@,
            decreases self.words.len() - i,
        {
            if self.words[i].term == *term {
                assert(self.model()[i as int].0 == term@);
                return true;
            }
            i += 1;
        }
        false
    }

    /// Append a new entry. The definition is stored exactly as given.
    pub fn add_new(&mut self, term: String, definition: String)
        requires
            !old(self).has_term(term@),
        ensures
            final(self).model() == old(self).model().push((term@, definition@)),
            old(self).wf() ==> final(self).wf(),
    {
        let ghost t = term@;
        let ghost d = definition@;
        self.words.push(Entry { term, definition });
        proof {
            let m0 = old(self).model();
            let m1 = self.model();
            assert(m1 =~= m0.push((t, d)));
            if old(self).wf() {
                assert forall|i: int, j: int| 0 <= i < j < m1.len() implies m1[i].0 != m1[j].0 by {
                    if j == m1.len() - 1 {
                        assert(!seq_has_term(m0, t));
                        assert(m0[i].0 != t);
                    }
                }
            }
        }
    }

    /// Remove the entry for `term`, if any. Returns whether it was present;
    /// when absent the vocabulary is left unchanged, when present exactly the
    /// first (in a well-formed vocabulary: the only) matching entry is
    /// deleted and the count drops by one.
    pub fn remove_term(&mut self, term: &String) -> (removed: bool)
        ensures
            removed == old(self).has_term(term@),
            !removed ==> final(self).model() == old(self).model(),
            removed ==> ({
                let k = first_index(old(self).model(), term@);
                &&& 0 <= k < old(self).model().len()
                &&& old(self).model()[k].0 == term@
                &&& final(self).model() == old(self).model().remove(k)
                &&& final(self).model().len() == old(self).model().len() - 1
            }),
            old(self).wf() ==> final(self).wf(),
    {
        let mut i: usize = 0;
        while i < self.words.len()
            invariant
                i <= self.words.len(),
                self.model() == old(self).model(),
                forall|k: int| 0 <= k < i ==> old(self).model()[k].0 != term@,
            decreases self.words.len() - i,
        {
            if self.words[i].term == *term {
                let ghost m0 = old(self).model();
                proof {
                    assert(m0[i as int].0 == term@);
                    lemma_first_index_at(m0, term@, i as int);
                }
                self.words.remove(i);
                proof {
                    let m1 = self.model();
                    assert(m1 =~= m0.remove(i as int));
                    m0.remove_ensures(i as int);
                    if distinct_terms(m0) {
                        assert forall|x: int, y: int| 0 <= x < y < m1.len() implies m1[x].0
                            != m1[y].0 by {
                            if y < i {
                                assert(m1[x] == m0[x] && m1[y] == m0[y]);
                            } else if x < i {
                                assert(m1[x] == m0[x] && m1[y] == m0[y + 1]);
                            } else {
                                assert(m1[x] == m0[x + 1] && m1[y] == m0[y + 1]);
                            }
                        }
                    }
                }
                return true;
            }
            i += 1;
        }
        proof {
            assert(!seq_has_term(old(self).model(), term@));
        }
        false
    }

    /// Replace the stored definition of `term` with `new_definition`, trimmed
    /// of surrounding whitespace. The entry keeps its place, every other
    /// entry is untouched, and no entry is added or removed; when `term` is
    /// absent nothing changes.
    pub fn redefine(&mut self, term: &String, new_definition: &String)
        ensures
            !old(self).has_term(term@) ==> final(self).model() == old(self).model(),
            old(self).has_term(term@) ==> ({
                let k = first_index(old(self).model(), term@);
                &&& 0 <= k < old(self).model().len()
                &&& old(self).model()[k].0 == term@
                &&& final(self).model() == old(self).model().update(
                    k,
                    (term@, trim_ws(new_definition@)),
                )
            }),
            final(self).model().len() == old(self).model().len(),
            old(self).wf() ==> final(self).wf(),
    {
        let mut i: usize = 0;
        while i < self.words.len()
            invariant
                i <= self.words.len(),
                self.model() == old(self).model(),
                forall|k: int| 0 <= k < i ==> old(self).model()[k].0 != term@,
            decreases self.words.len() - i,
        {
            if self.words[i].term == *term {
                let ghost m0 = old(self).model();
                proof {
                    assert(m0[i as int].0 == term@);
                    lemma_first_index_at(m0, term@, i as int);
                }
                let trimmed = crate::text::trim_string(new_definition);
                let new_term = term.clone();
                self.words.set(i, Entry { term: new_term, definition: trimmed });
                proof {
                    let m1 = self.model();
                    assert(m1 =~= m0.update(i as int, (term@, trim_ws(new_definition@))));
                    if distinct_terms(m0) {
                        assert forall|x: int, y: int| 0 <= x < y < m1.len() implies m1[x].0
                            != m1[y].0 by {
                            assert(m1[x].0 == m0[x].0);
                            assert(m1[y].0 == m0[y].0);
                        }
                    }
                }
                return;
            }
            i += 1;
        }
        proof {
            assert(!seq_has_term(old(self).model(), term@));
        }
    }
}

} // verus!
