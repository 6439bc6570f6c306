use vstd::prelude::*;
use crate::marker::{Marker, MarkerTree};
use crate::apply::copy_vec;

verus! {

/// Decides, for the chain of the node being visited (root first, the node
/// last), whether a transform is to be registered for exactly that chain.
pub trait CreateVisitorFn<F> {
    /// Every chain offered so far, in order, with the answer given to it.
    spec fn answers(&self) -> Seq<(Seq<Marker>, Option<F>)>;

    fn create_visitor_fn(&mut self, ast_path: &[Marker]) -> (r: Option<F>)
        ensures
            final(self).answers() == old(self).answers().push((ast_path@, r)),
    ;
}

/// A creator that asks a function: it answers each chain with what `decide`
/// returns for it, and keeps the answers given so far in `log`.
#[verifier::reject_recursive_types(F)]
#[verifier::reject_recursive_types(C)]
pub struct FnCreator<F, C: Fn(&[Marker]) -> Option<F>> {
    decide: C,
    log: Ghost<Seq<(Seq<Marker>, Option<F>)>>,
}

impl<F, C: Fn(&[Marker]) -> Option<F>> FnCreator<F, C> {
    #[verifier::type_invariant]
    spec fn total(&self) -> bool {
        forall|p: &[Marker]| #[trigger] self.decide.requires((p,))
    }

    pub closed spec fn log(&self) -> Seq<(Seq<Marker>, Option<F>)> {
        self.log@
    }

    pub fn new(decide: C) -> (r: Self)
        requires
            forall|p: &[Marker]| #[trigger] decide.requires((p,)),
        ensures
            r.log().len() == 0,
    {
        FnCreator { decide, log: Ghost(Seq::empty()) }
    }
}

impl<F, C: Fn(&[Marker]) -> Option<F>> CreateVisitorFn<F> for FnCreator<F, C> {
    open spec fn answers(&self) -> Seq<(Seq<Marker>, Option<F>)> {
        self.log()
    }

    fn create_visitor_fn(&mut self, ast_path: &[Marker]) -> (r: Option<F>) {
        proof {
            use_type_invariant(&*self);
        }
        let r = (self.decide)(ast_path);
        self.log = Ghost(self.log@.push((ast_path@, r)));
        r
    }
}

/// The recording pass: `spans` is the chain of the node being visited and
/// `visitors` the registrations collected so far.
pub struct VisitWithPath<F, V: CreateVisitorFn<F>> {
    pub spans: Vec<Marker>,
    pub creator: V,
    pub visitors: Vec<(Vec<Marker>, F)>,
}

/// The chains of `t` and of all its descendants in pre-order, `prefix` being
/// the chain of `t`'s parent.
pub open spec fn preorder_node(t: MarkerTree, prefix: Seq<Marker>) -> Seq<Seq<Marker>>
    decreases t, 0int,
{
    seq![prefix.push(t.marker)]
        + preorder_forest(t.children@, t.children@.len() as int, prefix.push(t.marker))
}

/// The chains of the first `n` trees of a forest, in pre-order.
pub open spec fn preorder_forest(nodes: Seq<MarkerTree>, n: int, prefix: Seq<Marker>) -> Seq<Seq<Marker>>
    decreases nodes, n,
{
    if n <= 0 || n > nodes.len() {
        Seq::empty()
    } else {
        preorder_forest(nodes, n - 1, prefix) + preorder_node(nodes[n - 1], prefix)
    }
}

/// The chains offered in `answers`, in order.
pub open spec fn offered<F>(answers: Seq<(Seq<Marker>, Option<F>)>) -> Seq<Seq<Marker>> {
    answers.map_values(|a: (Seq<Marker>, Option<F>)| a.0)
}

/// The accepted answers, in order, each chain with the transform given for it.
pub open spec fn accepted<F>(answers: Seq<(Seq<Marker>, Option<F>)>) -> Seq<(Seq<Marker>, F)>
    decreases answers.len(),
{
    if answers.len() == 0 {
        Seq::empty()
    } else {
        let rest = accepted(answers.drop_last());
        match answers.last().1 {
            Some(f) => rest.push((answers.last().0, f)),
            None => rest,
        }
    }
}

pub open spec fn entries_view<F>(v: Seq<(Vec<Marker>, F)>) -> Seq<(Seq<Marker>, F)> {
    v.map_values(|e: (Vec<Marker>, F)| (e.0@, e.1))
}

/// From `before` to `after`, the creator answered exactly the chains `chains`,
/// in order, and the registrations grew by exactly the accepted answers.
pub open spec fn recorded<F, V: CreateVisitorFn<F>>(
    before: VisitWithPath<F, V>,
    after: VisitWithPath<F, V>,
    chains: Seq<Seq<Marker>>,
) -> bool {
    let a0 = before.creator.answers();
    let a1 = after.creator.answers();
    let fresh = a1.subrange(a0.len() as int, a1.len() as int);
    &&& a0.len() <= a1.len()
    &&& a1.subrange(0, a0.len() as int) == a0
    &&& offered(fresh) == chains
    &&& entries_view(after.visitors@) == entries_view(before.visitors@) + accepted(fresh)
}

proof fn lemma_accepted_append<F>(a: Seq<(Seq<Marker>, Option<F>)>, b: Seq<(Seq<Marker>, Option<F>)>)
    ensures
        accepted(a + b) == accepted(a) + accepted(b),
    decreases b.len(),
{
    if b.len() == 0 {
        assert(a + b =~= a);
        assert(accepted(a) + accepted(b) =~= accepted(a));
    } else {
        lemma_accepted_append(a, b.drop_last());
        assert((a + b).drop_last() =~= a + b.drop_last());
        assert((a + b).last() == b.last());
        match b.last().1 {
            Some(f) => {
                assert(accepted(a) + accepted(b.drop_last()).push((b.last().0, f))
                    =~= (accepted(a) + accepted(b.drop_last())).push((b.last().0, f)));
            },
            None => {},
        }
    }
}

/// Answers can be split where a run of calls ended.
proof fn lemma_recorded_trans<F, V: CreateVisitorFn<F>>(
    s0: VisitWithPath<F, V>,
    s1: VisitWithPath<F, V>,
    s2: VisitWithPath<F, V>,
    c1: Seq<Seq<Marker>>,
    c2: Seq<Seq<Marker>>,
)
    requires
        recorded(s0, s1, c1),
        recorded(s1, s2, c2),
    ensures
        recorded(s0, s2, c1 + c2),
{
    let a0 = s0.creator.answers();
    let a1 = s1.creator.answers();
    let a2 = s2.creator.answers();
    let f1 = a1.subrange(a0.len() as int, a1.len() as int);
    let f2 = a2.subrange(a1.len() as int, a2.len() as int);
    let f = a2.subrange(a0.len() as int, a2.len() as int);
    assert(a2.subrange(0, a1.len() as int).subrange(0, a0.len() as int) =~= a2.subrange(0, a0.len() as int));
    assert(a2.subrange(0, a1.len() as int).subrange(a0.len() as int, a1.len() as int) =~= f1);
    assert(f =~= f1 + f2);
    assert(offered(f) =~= offered(f1) + offered(f2));
    lemma_accepted_append(f1, f2);
    assert(entries_view(s2.visitors@) =~= entries_view(s0.visitors@) + accepted(f));
}

impl<F, V: CreateVisitorFn<F>> VisitWithPath<F, V> {
    pub fn new(creator: V) -> (r: Self)
        ensures
            r.spans@.len() == 0,
            r.creator == creator,
            r.visitors@.len() == 0,
    {
        VisitWithPath { spans: Vec::new(), creator, visitors: Vec::new() }
    }

    /// Registers `(spans, v)` for an accepted answer, nothing for a refusal.
    pub fn offer(&mut self, answer: Option<F>)
        ensures
            final(self).spans@ == old(self).spans@,
            final(self).creator == old(self).creator,
            entries_view(final(self).visitors@) == entries_view(old(self).visitors@)
                + accepted(seq![(old(self).spans@, answer)]),
    {
        let ghost a = seq![(self.spans@, answer)];
        assert(a.drop_last() =~= Seq::<(Seq<Marker>, Option<F>)>::empty());
        assert(accepted(a.drop_last()) == Seq::<(Seq<Marker>, F)>::empty());
        assert(a.last() == (self.spans@, answer));
        let ghost e0 = entries_view(self.visitors@);
        match answer {
            Some(v) => {
                let chain = copy_vec(&self.spans);
                self.visitors.push((chain, v));
                assert(entries_view(self.visitors@) =~= e0 + accepted(a));
            },
            None => {
                assert(entries_view(self.visitors@) =~= e0 + accepted(a));
            },
        }
    }

    /// Visits `t`: its chain is offered to the creator, then its children are
    /// visited, and the chain is restored.
    fn check(&mut self, t: &MarkerTree)
        ensures
            final(self).spans@ == old(self).spans@,
            recorded(*old(self), *final(self), preorder_node(*t, old(self).spans@)),
        decreases t, 0int,
    {
        let ghost s0 = *self;
        let ghost prefix = self.spans@;
        self.spans.push(t.marker);
        let v = self.creator.create_visitor_fn(self.spans.as_slice());
        let ghost answer = v;
        self.offer(v);
        let ghost s1 = *self;
        let ghost here = seq![prefix.push(t.marker)];
        proof {
            let a0 = s0.creator.answers();
            let a1 = s1.creator.answers();
            assert(a1.subrange(0, a0.len() as int) =~= a0);
            assert(a1.subrange(a0.len() as int, a1.len() as int) =~= seq![(prefix.push(t.marker), answer)]);
            assert(offered(seq![(prefix.push(t.marker), answer)]) =~= here);
        }
        self.check_nodes(&t.children);
        let ghost rest = preorder_forest(t.children@, t.children@.len() as int, prefix.push(t.marker));
        self.spans.pop();
        proof {
            assert(self.spans@ =~= prefix);
            assert(recorded(s1, *self, rest));
            lemma_recorded_trans(s0, s1, *self, here, rest);
        }
    }

    /// Visits the trees of a forest in order.
    fn check_nodes(&mut self, nodes: &Vec<MarkerTree>)
        ensures
            final(self).spans@ == old(self).spans@,
            recorded(*old(self), *final(self), preorder_forest(nodes@, nodes@.len() as int, old(self).spans@)),
        decreases nodes, nodes@.len(),
    {
        let ghost s0 = *self;
        let ghost prefix = self.spans@;
        let mut i: usize = 0;
        proof {
            let a0 = s0.creator.answers();
            assert(a0.subrange(0, a0.len() as int) =~= a0);
            assert(a0.subrange(a0.len() as int, a0.len() as int) =~= Seq::<(Seq<Marker>, Option<F>)>::empty());
            assert(offered(Seq::<(Seq<Marker>, Option<F>)>::empty()) =~= Seq::<Seq<Marker>>::empty());
            assert(entries_view(s0.visitors@) =~= entries_view(s0.visitors@) + accepted(Seq::<(Seq<Marker>, Option<F>)>::empty()));
        }
        while i < nodes.len()
            invariant
                i <= nodes@.len(),
                prefix == s0.spans@,
                self.spans@ == prefix,
                recorded(s0, *self, preorder_forest(nodes@, i as int, prefix)),
            decreases nodes@.len() - i,
        {
            let ghost sa = *self;
            self.check(&nodes[i]);
            proof {
                lemma_recorded_trans(s0, sa, *self, preorder_forest(nodes@, i as int, prefix), preorder_node(nodes@[i as int], prefix));
            }
            i = i + 1;
        }
    }

    /// Records over a forest: the chain of every node, in pre-order, is
    /// offered to the creator, and each accepted chain is appended with the
    /// transform given for it, in that order.
    pub fn visit_nodes(&mut self, nodes: &Vec<MarkerTree>)
        ensures
            final(self).spans@ == old(self).spans@,
            recorded(*old(self), *final(self), preorder_forest(nodes@, nodes@.len() as int, old(self).spans@)),
    {
        self.check_nodes(nodes);
    }

    /// The registrations collected.
    pub fn into_visitors(self) -> (r: Vec<(Vec<Marker>, F)>)
        ensures
            r@ == self.visitors@,
    {
        self.visitors
    }
}

} // verus!
