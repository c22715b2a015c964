//! Sibling nodes that would both read the same input.
use vstd::prelude::*;

use crate::tree::{
    node_accepts, node_examples, strings_of, CommandNode, NodeId, NodeView, TreeGraph, TreeView,
};

verus! {

/// Under `parent`, the samples of `first` that `second` also reads.
pub struct Ambiguity {
    pub parent: NodeId,
    pub first: NodeId,
    pub second: NodeId,
    pub overlap: Vec<String>,
}

pub ghost struct AmbiguityView {
    pub parent: NodeId,
    pub first: NodeId,
    pub second: NodeId,
    pub overlap: Seq<Seq<char>>,
}

pub open spec fn ambiguity_view(a: Ambiguity) -> AmbiguityView {
    AmbiguityView {
        parent: a.parent,
        first: a.first,
        second: a.second,
        overlap: strings_of(a.overlap@),
    }
}

pub open spec fn ambiguity_views(v: Seq<Ambiguity>) -> Seq<AmbiguityView> {
    v.map_values(|a: Ambiguity| ambiguity_view(a))
}

/// The inputs among `es` that node `b` reads, in order.
pub open spec fn accepted_by(b: NodeView, es: Seq<Seq<char>>) -> Seq<Seq<char>>
    decreases es.len(),
{
    if es.len() == 0 {
        seq![]
    } else if node_accepts(b, es.last()) {
        accepted_by(b, es.drop_last()).push(es.last())
    } else {
        accepted_by(b, es.drop_last())
    }
}

/// The report for the ordered pair `(a, b)` of children of `p`: the
/// samples of `a` that `b` reads, if there are any.
pub open spec fn pair_report(t: TreeView, p: NodeId, a: NodeId, b: NodeId) -> Seq<AmbiguityView> {
    if t.nodes.contains_key(a) && t.nodes.contains_key(b) && accepted_by(
        t.nodes[b],
        node_examples(t.nodes[a]),
    ).len() > 0 {
        seq![
            AmbiguityView {
                parent: p,
                first: a,
                second: b,
                overlap: accepted_by(t.nodes[b], node_examples(t.nodes[a])),
            },
        ]
    } else {
        seq![]
    }
}

/// The reports for child `i` against the first `j` children.
pub open spec fn row(t: TreeView, p: NodeId, ids: Seq<NodeId>, i: int, j: int) -> Seq<AmbiguityView>
    decreases j,
{
    if j <= 0 {
        seq![]
    } else {
        row(t, p, ids, i, j - 1) + if i != j - 1 {
            pair_report(t, p, ids[i], ids[j - 1])
        } else {
            seq![]
        }
    }
}

/// The reports for the first `i` children against all of them.
pub open spec fn table(t: TreeView, p: NodeId, ids: Seq<NodeId>, i: int) -> Seq<AmbiguityView>
    decreases i,
{
    if i <= 0 {
        seq![]
    } else {
        table(t, p, ids, i - 1) + row(t, p, ids, i - 1, ids.len() as int)
    }
}

pub open spec fn child_ids(n: NodeView) -> Seq<NodeId> {
    n.children.map_values(|e: (Seq<char>, NodeId)| e.1)
}

/// The reports for every ordered pair of distinct children of `p`.
pub open spec fn node_ambiguities(t: TreeView, p: NodeId) -> Seq<AmbiguityView> {
    if t.nodes.contains_key(p) {
        table(t, p, child_ids(t.nodes[p]), child_ids(t.nodes[p]).len() as int)
    } else {
        seq![]
    }
}

/// The reports for the nodes `ks`, in that order.
pub open spec fn all_ambiguities(t: TreeView, ks: Seq<NodeId>) -> Seq<AmbiguityView>
    decreases ks.len(),
{
    if ks.len() == 0 {
        seq![]
    } else {
        all_ambiguities(t, ks.drop_last()) + node_ambiguities(t, ks.last())
    }
}

/// The samples of `a` that `b` reads.
fn overlap(a: &CommandNode, b: &CommandNode) -> (r: Vec<String>)
    ensures
        strings_of(r@) == accepted_by(b@, node_examples(a@)),
{
    let ex = a.examples();
    let ghost es = strings_of(ex@);
    let mut r: Vec<String> = Vec::new();
    let mut i: usize = 0;
    proof {
        assert(es.take(0) =~= Seq::<Seq<char>>::empty());
        assert(strings_of(r@) =~= Seq::<Seq<char>>::empty());
    }
    while i < ex.len()
        invariant
            i <= ex@.len(),
            es == strings_of(ex@),
            strings_of(r@) == accepted_by(b@, es.take(i as int)),
        decreases ex@.len() - i,
    {
        proof {
            assert(es.take(i + 1).drop_last() =~= es.take(i as int));
            assert(es.take(i + 1).last() == ex@[i as int]@);
        }
        if b.is_valid_input(ex[i].as_str()) {
            let ghost before = r@;
            r.push(ex[i].clone());
            proof {
                assert(strings_of(r@) =~= strings_of(before).push(ex@[i as int]@));
            }
        }
        i = i + 1;
    }
    proof {
        assert(es.take(i as int) =~= es);
    }
    r
}

impl TreeGraph {
    /// For every ordered pair of distinct children of `parent`, the samples
    /// of the first that the second also reads, where there are any.
    pub fn ambiguities_at(&self, parent: NodeId) -> (r: Vec<Ambiguity>)
        ensures
            ambiguity_views(r@) == node_ambiguities(self@, parent),
    {
        let mut out: Vec<Ambiguity> = Vec::new();
        proof {
            assert(ambiguity_views(out@) =~= Seq::<AmbiguityView>::empty());
        }
        let pnode = match self.get(parent) {
            Some(n) => n,
            None => return out,
        };
        let ids = pnode.children();
        let ghost t = self@;
        let mut i: usize = 0;
        while i < ids.len()
            invariant
                i <= ids@.len(),
                t == self@,
                ids@ == child_ids(t.nodes[parent]),
                t.nodes.contains_key(parent),
                ambiguity_views(out@) == table(t, parent, ids@, i as int),
            decreases ids@.len() - i,
        {
            let mut j: usize = 0;
            while j < ids.len()
                invariant
                    i < ids@.len(),
                    j <= ids@.len(),
                    t == self@,
                    ambiguity_views(out@) == table(t, parent, ids@, i as int) + row(
                        t,
                        parent,
                        ids@,
                        i as int,
                        j as int,
                    ),
                decreases ids@.len() - j,
            {
                let ghost before = ambiguity_views(out@);
                if i != j {
                    match (self.get(ids[i]), self.get(ids[j])) {
                        (Some(a), Some(b)) => {
                            let o = overlap(a, b);
                            if o.len() > 0 {
                                let amb = Ambiguity {
                                    parent,
                                    first: ids[i],
                                    second: ids[j],
                                    overlap: o,
                                };
                                let ghost av = ambiguity_view(amb);
                                out.push(amb);
                                proof {
                                    assert(ambiguity_views(out@) =~= before.push(av));
                                }
                            }
                        },
                        _ => {},
                    }
                }
                proof {
                    assert(table(t, parent, ids@, i as int) + row(t, parent, ids@, i as int, j + 1)
                        =~= before + if i != j {
                        pair_report(t, parent, ids@[i as int], ids@[j as int])
                    } else {
                        seq![]
                    });
                    assert(ambiguity_views(out@) =~= before + if i != j {
                        pair_report(t, parent, ids@[i as int], ids@[j as int])
                    } else {
                        seq![]
                    });
                }
                j = j + 1;
            }
            i = i + 1;
        }
        out
    }

    /// `ambiguities_at` for every node, one node after the other.
    pub fn find_ambiguities(&self) -> (r: Vec<Ambiguity>)
        ensures
            exists|ks: Seq<NodeId>|
                ks.no_duplicates() && ks.to_set() == self@.nodes.dom() && ambiguity_views(r@)
                    == all_ambiguities(self@, ks),
    {
        let ids = self.node_ids();
        let mut out: Vec<Ambiguity> = Vec::new();
        let mut k: usize = 0;
        proof {
            assert(ambiguity_views(out@) =~= Seq::<AmbiguityView>::empty());
            assert(ids@.take(0) =~= Seq::<NodeId>::empty());
        }
        while k < ids.len()
            invariant
                k <= ids@.len(),
                ambiguity_views(out@) == all_ambiguities(self@, ids@.take(k as int)),
            decreases ids@.len() - k,
        {
            let found = self.ambiguities_at(ids[k]);
            let ghost before = out@;
            let mut m: usize = 0;
            while m < found.len()
                invariant
                    m <= found@.len(),
                    ambiguity_views(out@) == ambiguity_views(before) + ambiguity_views(
                        found@.take(m as int),
                    ),
                decreases found@.len() - m,
            {
                let a = &found[m];
                let copy = Ambiguity {
                    parent: a.parent,
                    first: a.first,
                    second: a.second,
                    overlap: copy_strings(&a.overlap),
                };
                proof {
                    assert(ambiguity_view(copy) == ambiguity_view(found@[m as int]));
                }
                let ghost prior = out@;
                out.push(copy);
                proof {
                    assert(out@ == prior.push(copy));
                    assert(ambiguity_views(out@) =~= ambiguity_views(prior).push(ambiguity_view(copy)));
                    assert(ambiguity_views(found@.take(m + 1)) =~= ambiguity_views(
                        found@.take(m as int),
                    ).push(ambiguity_view(found@[m as int])));
                    assert(ambiguity_views(out@) =~= ambiguity_views(before) + ambiguity_views(
                        found@.take(m + 1),
                    ));
                }
                m = m + 1;
            }
            proof {
                assert(found@.take(m as int) =~= found@);
                assert(ids@.take(k + 1).drop_last() =~= ids@.take(k as int));
            }
            k = k + 1;
        }
        proof {
            assert(ids@.take(k as int) =~= ids@);
        }
        out
    }
}

/// A copy of a list of strings.
fn copy_strings(v: &Vec<String>) -> (r: Vec<String>)
    ensures
        strings_of(r@) == strings_of(v@),
{
    let mut r: Vec<String> = Vec::new();
    let mut i: usize = 0;
    while i < v.len()
        invariant
            i <= v@.len(),
            strings_of(r@) == strings_of(v@).take(i as int),
        decreases v@.len() - i,
    {
        let ghost before = r@;
        let item = v[i].clone();
        r.push(item);
        proof {
            assert(r@ == before.push(item));
            assert(strings_of(before).len() == i);
            assert forall|j: int| 0 <= j < i + 1 implies strings_of(r@)[j] == strings_of(v@).take(
                i + 1,
            )[j] by {
                if j < i {
                    assert(strings_of(before)[j] == strings_of(v@).take(i as int)[j]);
                }
            }
            assert(strings_of(r@) =~= strings_of(v@).take(i + 1));
        }
        i = i + 1;
    }
    proof {
        assert(strings_of(v@).take(i as int) =~= strings_of(v@));
    }
    r
}

} // verus!
