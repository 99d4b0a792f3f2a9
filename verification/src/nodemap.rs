//! The node map: the label-to-position mapping that is the system's core
//! persisted artifact.
//!
//! Entries are kept strictly sorted by label, so keys are unique by
//! construction and the persisted form is canonical.

use vstd::prelude::*;
use crate::bytes::{lex_lt, lemma_lex_irrefl, lemma_lex_total, lemma_lex_trans, bytes_lt, bytes_eq};
use crate::Pos;

verus! {

/// One node: a unique label and its export-space position.
pub struct NodeEntry {
    pub label: Vec<u8>,
    pub pos: Pos,
}

/// The label-to-position mapping, held sorted by label.
pub struct NodeMap {
    pub entries: Vec<NodeEntry>,
}

/// The position of the first entry of `s` labeled `k`.
pub open spec fn get_from(s: Seq<NodeEntry>, k: Seq<u8>) -> Option<Pos>
    decreases s.len(),
{
    if s.len() == 0 {
        None
    } else if s[0].label@ == k {
        Some(s[0].pos)
    } else {
        get_from(s.drop_first(), k)
    }
}

/// Lookup distributes over concatenation: the left part is searched first.
pub proof fn lemma_get_concat(a: Seq<NodeEntry>, b: Seq<NodeEntry>, k: Seq<u8>)
    ensures
        get_from(a + b, k) == (match get_from(a, k) {
            Some(p) => Some(p),
            None => get_from(b, k),
        }),
    decreases a.len(),
{
    if a.len() == 0 {
        assert(a + b =~= b);
    } else {
        assert((a + b).drop_first() =~= a.drop_first() + b);
        lemma_get_concat(a.drop_first(), b, k);
    }
}

impl NodeMap {
    /// Entries are strictly ordered by label: sorted, with no duplicate.
    pub open spec fn wf(self) -> bool {
        forall|i: int, j: int|
            0 <= i < j < self.entries@.len() ==> lex_lt(
                (#[trigger] self.entries@[i]).label@,
                (#[trigger] self.entries@[j]).label@,
            )
    }

    /// The position stored under label `k`.
    pub open spec fn spec_get(self, k: Seq<u8>) -> Option<Pos> {
        get_from(self.entries@, k)
    }

    /// An empty node map.
    pub fn new() -> (r: NodeMap)
        ensures
            r.wf(),
            r.entries@.len() == 0,
            forall|k: Seq<u8>| r.spec_get(k) is None,
    {
        NodeMap { entries: Vec::new() }
    }

    /// How many nodes the map holds.
    pub fn len(&self) -> (r: usize)
        ensures
            r == self.entries@.len(),
    {
        self.entries.len()
    }

    /// Looks the label up; `None` when the map does not hold it.
    pub fn get(&self, k: &Vec<u8>) -> (r: Option<Pos>)
        ensures
            r == self.spec_get(k@),
    {
        let n = self.entries.len();
        let mut i: usize = 0;
        proof {
            assert(self.entries@.subrange(0, n as int) =~= self.entries@);
        }
        while i < n
            invariant
                0 <= i <= n,
                n == self.entries@.len(),
                get_from(self.entries@, k@) == get_from(
                    self.entries@.subrange(i as int, n as int),
                    k@,
                ),
            decreases n - i,
        {
            proof {
                assert(self.entries@.subrange(i as int, n as int).drop_first()
                    =~= self.entries@.subrange(i + 1, n as int));
            }
            if bytes_eq(&self.entries[i].label, k) {
                return Some(self.entries[i].pos);
            }
            i = i + 1;
        }
        None
    }

    /// Inserts the label with its position, keeping the order; an entry
    /// already labeled so is replaced.  Other labels are untouched, and a
    /// label greater than all present ones lands at the end.
    pub fn insert(&mut self, label: Vec<u8>, pos: Pos)
        requires
            old(self).wf(),
        ensures
            final(self).wf(),
            final(self).spec_get(label@) == Some(pos),
            forall|k: Seq<u8>| k != label@ ==> final(self).spec_get(k) == old(self).spec_get(k),
            old(self).spec_get(label@) is None ==> final(self).entries@.len() == old(
                self,
            ).entries@.len() + 1,
            old(self).spec_get(label@) is Some ==> final(self).entries@.len() == old(
                self,
            ).entries@.len(),
            (forall|i: int|
                0 <= i < old(self).entries@.len() ==> lex_lt(
                    (#[trigger] old(self).entries@[i]).label@,
                    label@,
                )) ==> final(self).entries@ =~= old(self).entries@ + seq![
                (NodeEntry { label: label, pos: pos }),
            ],
            forall|i: int|
                0 <= i < final(self).entries@.len()
                    ==> (((#[trigger] final(self).entries@[i]).label@ == label@
                    && final(self).entries@[i].pos == pos)
                    || old(self).entries@.contains(final(self).entries@[i])),
    {
        let ghost pre = self.entries@;
        let n = self.entries.len();
        let mut p: usize = 0;
        while p < n && bytes_lt(&self.entries[p].label, &label)
            invariant
                0 <= p <= n,
                n == self.entries@.len(),
                self.entries@ == pre,
                forall|i: int| 0 <= i < p ==> lex_lt((#[trigger] pre[i]).label@, label@),
            decreases n - p,
        {
            p = p + 1;
        }
        let ghost low = pre.subrange(0, p as int);
        proof {
            assert(forall|i: int| 0 <= i < low.len() ==> (#[trigger] low[i]) == pre[i]);
            lemma_lex_irrefl(label@);
        }
        let replace = p < n && bytes_eq(&self.entries[p].label, &label);
        if replace {
            self.entries.remove(p);
        }
        let ghost high = self.entries@.subrange(p as int, self.entries@.len() as int);
        proof {
            if replace {
                assert(self.entries@ =~= pre.remove(p as int));
                assert(forall|i: int|
                    p <= i < self.entries@.len() ==> (#[trigger] self.entries@[i]) == pre[i + 1]);
            }
            assert(self.entries@ =~= low + high);
        }
        let e = NodeEntry { label: label, pos: pos };
        self.entries.insert(p, e);
        proof {
            let post = self.entries@;
            let ev = post[p as int];
            assert(post =~= low + seq![ev] + high);
            // every label in `high` is strictly greater than the new label
            assert forall|i: int| 0 <= i < high.len() implies lex_lt(
                label@,
                (#[trigger] high[i]).label@,
            ) by {
                if replace {
                    assert(high[i] == pre[p + 1 + i]);
                    assert(lex_lt(pre[p as int].label@, pre[p + 1 + i].label@));
                    assert(pre[p as int].label@ == label@);
                } else {
                    assert(high[i] == pre[p + i]);
                    if i == 0 {
                        lemma_lex_total(label@, high[0].label@);
                        lemma_lex_irrefl(label@);
                    } else {
                        lemma_lex_total(label@, high[0].label@);
                        lemma_lex_trans(label@, pre[p as int].label@, pre[p + i].label@);
                    }
                }
            }
            // the result is strictly sorted
            assert forall|i: int, j: int| 0 <= i < j < post.len() implies lex_lt(
                (#[trigger] post[i]).label@,
                (#[trigger] post[j]).label@,
            ) by {
                let pp = p as int;
                if i < pp && j < pp {
                } else if i < pp && j == pp {
                } else if i < pp && j > pp {
                    assert(post[i] == low[i]);
                    assert(post[j] == high[j - pp - 1]);
                    lemma_lex_trans(post[i].label@, label@, post[j].label@);
                } else if i == pp && j > pp {
                    assert(post[j] == high[j - pp - 1]);
                } else if i > pp && j > pp {
                    assert(post[i] == high[i - pp - 1]);
                    assert(post[j] == high[j - pp - 1]);
                    if replace {
                        assert(lex_lt(pre[p + i - pp].label@, pre[p + j - pp].label@));
                    }
                }
            }
            // every entry of the result is the new one or one of the old ones
            assert forall|i: int| 0 <= i < post.len() implies ((#[trigger] post[i]).label@
                == label@ && post[i].pos == pos) || pre.contains(post[i]) by {
                let pp = p as int;
                if i < pp {
                    assert(post[i] == pre[i]);
                    assert(pre.contains(pre[i]));
                } else if i > pp {
                    assert(post[i] == high[i - pp - 1]);
                    if replace {
                        assert(post[i] == pre[i]);
                        assert(pre.contains(pre[i]));
                    } else {
                        assert(post[i] == pre[i - 1]);
                        assert(pre.contains(pre[i - 1]));
                    }
                }
            }
            // lookups: the new label finds the new position, others are kept
            lemma_get_concat(low, seq![ev] + high, label@);
            lemma_get_concat(seq![ev], high, label@);
            assert(get_from(low, label@) is None) by {
                lemma_get_none_when_absent(low, label@);
            }
            assert((seq![ev] + high).drop_first() =~= high);
            assert(get_from(post, label@) == Some(pos)) by {
                assert(post =~= low + (seq![ev] + high));
                lemma_get_concat(low, seq![ev] + high, label@);
            }
            assert forall|k: Seq<u8>| k != label@ implies get_from(post, k) == get_from(
                pre,
                k,
            ) by {
                assert(post =~= low + (seq![ev] + high));
                lemma_get_concat(low, seq![ev] + high, k);
                lemma_get_concat(seq![ev], high, k);
                assert((seq![ev] + high).drop_first() =~= high);
                if replace {
                    assert(pre =~= low + (seq![pre[p as int]] + high));
                    lemma_get_concat(low, seq![pre[p as int]] + high, k);
                    lemma_get_concat(seq![pre[p as int]], high, k);
                    assert((seq![pre[p as int]] + high).drop_first() =~= high);
                } else {
                    assert(pre =~= low + high);
                    lemma_get_concat(low, high, k);
                }
            }
            // length bookkeeping
            if replace {
                assert(get_from(pre, label@) == Some(pre[p as int].pos)) by {
                    assert(pre =~= low + (seq![pre[p as int]] + high));
                    lemma_get_concat(low, seq![pre[p as int]] + high, label@);
                }
            } else {
                assert(get_from(pre, label@) is None) by {
                    assert(pre =~= low + high);
                    lemma_get_concat(low, high, label@);
                    lemma_get_none_when_absent(low, label@);
                    lemma_get_none_when_absent(high, label@);
                }
            }
        }
    }
}

/// A sequence none of whose labels is `k` yields no lookup result.
proof fn lemma_get_none_when_absent(s: Seq<NodeEntry>, k: Seq<u8>)
    requires
        forall|i: int| 0 <= i < s.len() ==> (#[trigger] s[i]).label@ != k,
    ensures
        get_from(s, k) is None,
    decreases s.len(),
{
    if s.len() > 0 {
        lemma_get_none_when_absent(s.drop_first(), k);
    }
}

/// In a well-formed node map all labels are pairwise distinct.
pub proof fn lemma_labels_unique(m: NodeMap)
    requires
        m.wf(),
    ensures
        forall|i: int, j: int|
            0 <= i < m.entries@.len() && 0 <= j < m.entries@.len() && i != j ==> (
            #[trigger] m.entries@[i]).label@ != (#[trigger] m.entries@[j]).label@,
{
    assert forall|i: int, j: int|
        0 <= i < m.entries@.len() && 0 <= j < m.entries@.len() && i != j implies (
    #[trigger] m.entries@[i]).label@ != (#[trigger] m.entries@[j]).label@ by {
        lemma_lex_irrefl(m.entries@[i].label@);
    }
}

} // verus!
