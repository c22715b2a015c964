//! Builders that assemble nodes and attach their pending children.
use vstd::prelude::*;

use crate::arguments::ArgumentKind;
use crate::tree::{
    ArgumentCommandNode, CommandId, CommandNode, LiteralCommandNode, ModifierId, NodeId, NodeKind,
    ProviderId, RequirementId, TaggedCommandNode, TreeGraph, kind_of, name_of, kept, lookup,
    lemma_kept_trans, lemma_lookup_prefix, lemma_lookup_pushed, can_attach, tree_wf, unreferenced,
    NodeView, TreeView, attach_spec, argument_of,
};

verus! {

/// The part of a node that a builder records before the node exists.
pub ghost struct BuilderView {
    pub arguments: Seq<NodeId>,
    pub command: Option<CommandId>,
    pub requirement: Option<RequirementId>,
    pub target: Option<NodeId>,
    pub modifier: Option<ModifierId>,
    pub forks: bool,
}

/// The shared state of the builders: pending children, command,
/// requirement and redirect.
pub struct ArgumentBuilder {
    arguments: Vec<NodeId>,
    command: Option<CommandId>,
    requirement: Option<RequirementId>,
    target: Option<NodeId>,
    modifier: Option<ModifierId>,
    forks: bool,
}

impl View for ArgumentBuilder {
    type V = BuilderView;

    closed spec fn view(&self) -> BuilderView {
        BuilderView {
            arguments: self.arguments@,
            command: self.command,
            requirement: self.requirement,
            target: self.target,
            modifier: self.modifier,
            forks: self.forks,
        }
    }
}

impl ArgumentBuilder {
    pub open spec fn new_view() -> BuilderView {
        BuilderView {
            arguments: seq![],
            command: None,
            requirement: None,
            target: None,
            modifier: None,
            forks: false,
        }
    }

    /// No children, no command, no requirement, no redirect.
    pub fn new() -> (r: Self)
        ensures
            r@ == Self::new_view(),
    {
        ArgumentBuilder {
            arguments: Vec::new(),
            command: None,
            requirement: None,
            target: None,
            modifier: None,
            forks: false,
        }
    }

    /// Adds a node of the tree as a pending child.
    pub fn then(&mut self, tree: &TreeGraph, next: NodeId)
        requires
            tree@.nodes.contains_key(next),
        ensures
            final(self)@ == (BuilderView { arguments: old(self)@.arguments.push(next), ..old(self)@ }),
    {
        self.arguments.push(next);
    }

    /// The command that the node will run.
    pub fn executes(&mut self, command: CommandId)
        ensures
            final(self)@ == (BuilderView { command: Some(command), ..old(self)@ }),
    {
        self.command = Some(command);
    }

    /// The requirement that the node will have.
    pub fn set_requirement(&mut self, requirement: RequirementId)
        ensures
            final(self)@ == (BuilderView { requirement: Some(requirement), ..old(self)@ }),
    {
        self.requirement = Some(requirement);
    }

    /// Redirects the node to `target`: parsing goes on with the target's
    /// children. A redirecting node has no children of its own.
    pub fn forward(&mut self, tree: &TreeGraph, target: NodeId, modifier: Option<ModifierId>, fork: bool)
        requires
            old(self)@.arguments.len() == 0,
            tree@.nodes.contains_key(target),
        ensures
            final(self)@ == (BuilderView {
                target: Some(target),
                modifier,
                forks: fork,
                ..old(self)@
            }),
    {
        self.target = Some(target);
        self.modifier = modifier;
        self.forks = fork;
    }

    #[inline]
    pub fn redirect(&mut self, tree: &TreeGraph, target: NodeId)
        requires
            old(self)@.arguments.len() == 0,
            tree@.nodes.contains_key(target),
        ensures
            final(self)@ == (BuilderView {
                target: Some(target),
                modifier: None,
                forks: false,
                ..old(self)@
            }),
    {
        self.forward(tree, target, None, false)
    }

    #[inline]
    pub fn redirect_modifier(&mut self, tree: &TreeGraph, target: NodeId, modifier: ModifierId)
        requires
            old(self)@.arguments.len() == 0,
            tree@.nodes.contains_key(target),
        ensures
            final(self)@ == (BuilderView {
                target: Some(target),
                modifier: Some(modifier),
                forks: false,
                ..old(self)@
            }),
    {
        self.forward(tree, target, Some(modifier), false)
    }

    #[inline]
    pub fn fork(&mut self, tree: &TreeGraph, target: NodeId, modifier: Option<ModifierId>)
        requires
            old(self)@.arguments.len() == 0,
            tree@.nodes.contains_key(target),
        ensures
            final(self)@ == (BuilderView { target: Some(target), modifier, forks: true, ..old(self)@ }),
    {
        self.forward(tree, target, modifier, true)
    }

    pub fn redirect_id(&self) -> (r: Option<NodeId>)
        ensures
            r == self@.target,
    {
        self.target
    }

    /// The node that the redirect points to.
    pub fn redirect_ref<'a>(&self, tree: &'a TreeGraph) -> (r: Option<&'a CommandNode>)
        ensures
            r matches Some(n) ==> self@.target matches Some(t) && tree@.nodes.contains_key(t)
                && n@ == tree@.nodes[t],
            r is None ==> self@.target is None || !tree@.nodes.contains_key(self@.target->Some_0),
    {
        match self.target {
            Some(t) => tree.get(t),
            None => None,
        }
    }

    pub fn forks(&self) -> (r: bool)
        ensures
            r == self@.forks,
    {
        self.forks
    }

    /// Makes the node, stores it and attaches the pending children under
    /// it, in order; returns its id.
    pub(crate) fn build(self, tree: &mut TreeGraph, tagged: TaggedCommandNode) -> (r: NodeId)
        requires
            old(tree).wf(),
            old(tree)@.nodes.len() < u32::MAX - 1,
            !(tagged is Root),
            pending_ok(old(tree)@, self@.arguments),
        ensures
            final(tree).wf(),
            built(old(tree)@, final(tree)@, r, self@, kind_of(tagged), name_of(tagged)),
            builds_as(
                old(tree)@,
                final(tree)@,
                r,
                self@,
                kind_of(tagged),
                name_of(tagged),
                argument_of(tagged),
            ),
    {
        let node = CommandNode::detached(
            tagged,
            self.requirement,
            self.target,
            self.modifier,
            self.forks,
            self.command,
        );
        let ghost nv = node@;
        let ghost o = tree@;
        let id = tree.insert(node);
        let ghost t1 = tree@;
        let ghost args = self.arguments@;
        let ghost fuel = (o.nodes.len() + 1) as nat;
        proof {
            assert(nv.children =~= Seq::<(Seq<char>, NodeId)>::empty());
            assert(nv.literals =~= Seq::<(Seq<char>, NodeId)>::empty());
            assert(nv.arguments =~= Seq::<(Seq<char>, NodeId)>::empty());
            assert(NodeView { id, ..nv } == new_node_view(
                id,
                self@,
                kind_of(tagged),
                name_of(tagged),
                argument_of(tagged),
            ));
            assert(t1 == TreeView {
                root: o.root,
                nodes: o.nodes.insert(
                    id,
                    new_node_view(id, self@, kind_of(tagged), name_of(tagged), argument_of(tagged)),
                ),
            });
            assert(t1.nodes.len() == fuel);
            assert(args.take(0) =~= Seq::<NodeId>::empty());
            assert forall|j: int| 0 <= j < args.len() implies unreferenced(t1, #[trigger] args[j])
                && t1.nodes.contains_key(args[j]) by {
                assert forall|k: NodeId, e: int|
                    t1.nodes.contains_key(k) && 0 <= e < t1.nodes[k].children.len() implies (
                    #[trigger] t1.nodes[k].children[e]).1 != args[j] by {
                    if k != id {
                        assert(t1.nodes[k] == o.nodes[k]);
                    }
                }
            }
        }
        let mut i: usize = 0;
        while i < self.arguments.len()
            invariant
                tree.wf(),
                i <= args.len(),
                args == self.arguments@,
                pending_ok(o, args),
                !o.nodes.contains_key(id),
                t1.nodes == o.nodes.insert(id, NodeView { id, ..nv }),
                t1.nodes.len() == fuel,
                t1.nodes.dom().finite(),
                t1.root == o.root,
                tree@.root == o.root,
                tree@.nodes.contains_key(id),
                unreferenced(tree@, id),
                tree@.nodes[id].kind == nv.kind,
                tree@.nodes[id].name == nv.name,
                tree@.nodes[id].command == nv.command,
                tree@.nodes[id].requirement == nv.requirement,
                tree@.nodes[id].redirect == nv.redirect,
                tree@.nodes[id].modifier == nv.modifier,
                tree@.nodes[id].forks == nv.forks,
                kept(t1, tree@),
                tree@ == attach_all(t1, id, args.take(i as int), fuel),
                forall|j: int|
                    i <= j < args.len() ==> tree@.nodes.contains_key(#[trigger] args[j])
                        && unreferenced(tree@, args[j]),
            decreases args.len() - i,
        {
            let a = self.arguments[i];
            let ghost cur = tree@;
            proof {
                assert(a == args[i as int]);
                assert(o.nodes.contains_key(a));
                vstd::set_lib::lemma_len_subset(cur.nodes.dom(), t1.nodes.dom());
            }
            tree.attach(id, a);
            proof {
                let n = tree@;
                lemma_kept_trans(t1, cur, n);
                assert(n == attach_spec(cur, id, a, fuel));
                assert(args.take(i + 1).drop_last() =~= args.take(i as int));
                assert(n == attach_all(t1, id, args.take(i + 1), fuel));
                assert(n.nodes.contains_key(id));
                assert forall|j: int| i + 1 <= j < args.len() implies n.nodes.contains_key(
                    #[trigger] args[j],
                ) && unreferenced(n, args[j]) by {
                    assert(args[j] != a);
                    assert(cur.nodes.contains_key(args[j]));
                }
            }
            i = i + 1;
        }
        proof {
            let f = tree@;
            assert(args.take(i as int) =~= args);
            assert forall|k: NodeId| f.nodes.contains_key(k) && k != id implies o.nodes.contains_key(
                k,
            ) by {
                assert(t1.nodes.contains_key(k));
            }
            let g = TreeView { root: f.root, nodes: f.nodes.remove(id) };
            assert forall|k: NodeId| #[trigger] g.nodes.contains_key(k) implies {
                let a = o.nodes[k];
                let b = g.nodes[k];
                &&& b.id == a.id
                &&& b.kind == a.kind
                &&& b.name == a.name
                &&& b.requirement == a.requirement
                &&& b.redirect == a.redirect
                &&& b.modifier == a.modifier
                &&& b.forks == a.forks
                &&& a.children.is_prefix_of(b.children)
                &&& a.literals.is_prefix_of(b.literals)
                &&& a.arguments.is_prefix_of(b.arguments)
            } by {
                assert(f.nodes.contains_key(k));
                assert(t1.nodes[k] == o.nodes[k]);
            }
            assert(g.nodes.dom().subset_of(o.nodes.dom()));
        }
        id
    }
}

/// The node that a builder makes, before any child is attached.
pub open spec fn new_node_view(
    r: NodeId,
    b: BuilderView,
    kind: NodeKind,
    name: Seq<char>,
    argument: Option<ArgumentKind>,
) -> NodeView {
    NodeView {
        id: r,
        kind,
        name,
        argument,
        children: seq![],
        literals: seq![],
        arguments: seq![],
        requirement: b.requirement,
        redirect: b.target,
        modifier: b.modifier,
        forks: b.forks,
        command: b.command,
    }
}

/// The nodes `ids` added under `r` one after the other, as `add_child` does.
pub open spec fn attach_all(t: TreeView, r: NodeId, ids: Seq<NodeId>, fuel: nat) -> TreeView
    decreases ids.len(),
{
    if ids.len() == 0 {
        t
    } else {
        attach_spec(attach_all(t, r, ids.drop_last(), fuel), r, ids.last(), fuel)
    }
}

/// Pending children that can be attached: distinct nodes of the tree, none
/// the root, none anybody's child yet.
pub open spec fn pending_ok(t: TreeView, ids: Seq<NodeId>) -> bool {
    &&& ids.no_duplicates()
    &&& forall|i: int|
        0 <= i < ids.len() ==> t.nodes.contains_key(#[trigger] ids[i]) && unreferenced(t, ids[i])
            && ids[i] != t.root
}

/// `f` is `o` with the node built from `b` stored under `r` and each
/// pending child added under it in order, exactly as `add_child` would.
pub open spec fn builds_as(
    o: TreeView,
    f: TreeView,
    r: NodeId,
    b: BuilderView,
    kind: NodeKind,
    name: Seq<char>,
    argument: Option<ArgumentKind>,
) -> bool {
    f == attach_all(
        TreeView { root: o.root, nodes: o.nodes.insert(r, new_node_view(r, b, kind, name, argument)) },
        r,
        b.arguments,
        (o.nodes.len() + 1) as nat,
    )
}

/// `f` is `o` with node `r` built from `b`: `r` is new, nobody's child,
/// carries what `b` recorded, and the other nodes are the old ones.
pub open spec fn built(
    o: crate::tree::TreeView,
    f: crate::tree::TreeView,
    r: NodeId,
    b: BuilderView,
    kind: NodeKind,
    name: Seq<char>,
) -> bool {
    &&& !o.nodes.contains_key(r)
    &&& f.nodes.contains_key(r)
    &&& f.root == o.root
    &&& unreferenced(f, r)
    &&& f.nodes[r].kind == kind
    &&& f.nodes[r].name == name
    &&& f.nodes[r].command == b.command
    &&& f.nodes[r].requirement == b.requirement
    &&& f.nodes[r].redirect == b.target
    &&& f.nodes[r].modifier == b.modifier
    &&& f.nodes[r].forks == b.forks
    &&& forall|k: NodeId| #[trigger] f.nodes.contains_key(k) && k != r ==> o.nodes.contains_key(k)
    &&& kept(o, TreeView { root: f.root, nodes: f.nodes.remove(r) })
}

/// Builders that make a node into a tree.
pub trait Build: Sized {
    /// The kind of node this builder makes.
    spec fn spec_kind(&self) -> NodeKind;

    /// The name of the node this builder makes.
    spec fn spec_name(&self) -> Seq<char>;

    /// The argument type of the node this builder makes, if any.
    spec fn spec_argument(&self) -> Option<ArgumentKind>;

    /// The shared builder state: pending children, command, redirect.
    spec fn spec_builder(&self) -> BuilderView;

    /// Makes the node, attaches its pending children and returns its id,
    /// which was not in the tree before and now is, as nobody's child.
    fn build(self, tree: &mut TreeGraph) -> (r: NodeId)
        requires
            old(tree).wf(),
            old(tree)@.nodes.len() < u32::MAX - 1,
            pending_ok(old(tree)@, self.spec_builder().arguments),
        ensures
            final(tree).wf(),
            built(old(tree)@, final(tree)@, r, self.spec_builder(), self.spec_kind(), self.spec_name()),
            builds_as(
                old(tree)@,
                final(tree)@,
                r,
                self.spec_builder(),
                self.spec_kind(),
                self.spec_name(),
                self.spec_argument(),
            ),
    ;
}

impl ArgumentBuilder {
    /// Builds `child` into the tree and adds it as a pending child.
    pub fn then_build<B: Build>(&mut self, tree: &mut TreeGraph, child: B)
        requires
            old(tree).wf(),
            old(tree)@.nodes.len() < u32::MAX - 1,
            pending_ok(old(tree)@, child.spec_builder().arguments),
        ensures
            final(tree).wf(),
            final(tree)@.root == old(tree)@.root,
            final(self)@.arguments.len() == old(self)@.arguments.len() + 1,
            final(self)@.arguments.drop_last() == old(self)@.arguments,
            !old(tree)@.nodes.contains_key(final(self)@.arguments.last()),
            final(tree)@.nodes.contains_key(final(self)@.arguments.last()),
            final(self)@ == (BuilderView { arguments: final(self)@.arguments, ..old(self)@ }),
    {
        let id = child.build(tree);
        self.arguments.push(id);
        proof {
            assert(self@.arguments.drop_last() =~= old(self)@.arguments);
        }
    }
}

/// Builds a literal node.
pub struct LiteralArgumentBuilder {
    inner: ArgumentBuilder,
    literal: String,
}

impl LiteralArgumentBuilder {
    pub closed spec fn spec_inner(&self) -> BuilderView {
        self.inner@
    }

    pub closed spec fn spec_literal(&self) -> Seq<char> {
        self.literal@
    }

    pub fn new(literal: &str) -> (r: Self)
        ensures
            r.spec_inner() == ArgumentBuilder::new_view(),
            r.spec_literal() == literal@,
    {
        LiteralArgumentBuilder { inner: ArgumentBuilder::new(), literal: literal.to_owned() }
    }

    pub fn literal(&self) -> (r: &str)
        ensures
            r@ == self.spec_literal(),
    {
        self.literal.as_str()
    }

    /// The shared builder state, to add children, a command or a redirect.
    pub fn inner(&mut self) -> (r: &mut ArgumentBuilder)
        ensures
            r@ == old(self).spec_inner(),
            final(self).spec_inner() == final(r)@,
            final(self).spec_literal() == old(self).spec_literal(),
    {
        &mut self.inner
    }
}

impl Build for LiteralArgumentBuilder {
    open spec fn spec_kind(&self) -> NodeKind {
        NodeKind::Literal
    }

    open spec fn spec_name(&self) -> Seq<char> {
        self.spec_literal()
    }

    open spec fn spec_argument(&self) -> Option<ArgumentKind> {
        None
    }

    open spec fn spec_builder(&self) -> BuilderView {
        self.spec_inner()
    }

    fn build(self, tree: &mut TreeGraph) -> (r: NodeId) {
        let tagged = TaggedCommandNode::Literal(LiteralCommandNode::new(self.literal));
        self.inner.build(tree, tagged)
    }
}

/// Builds an argument node.
pub struct RequiredArgumentBuilder {
    inner: ArgumentBuilder,
    name: String,
    argument_type: ArgumentKind,
    suggestions_provider: Option<ProviderId>,
}

impl RequiredArgumentBuilder {
    pub closed spec fn spec_inner(&self) -> BuilderView {
        self.inner@
    }

    pub closed spec fn spec_name(&self) -> Seq<char> {
        self.name@
    }

    pub fn new(name: &str, argument_type: ArgumentKind) -> (r: Self)
        ensures
            r.spec_inner() == ArgumentBuilder::new_view(),
            r.spec_name() == name@,
            r.spec_argument_type() == argument_type,
            r.spec_provider() is None,
    {
        RequiredArgumentBuilder {
            inner: ArgumentBuilder::new(),
            name: name.to_owned(),
            argument_type,
            suggestions_provider: None,
        }
    }

    /// Gives the argument a custom source of suggestions.
    pub fn suggests(self, provider: ProviderId) -> (r: Self)
        ensures
            r.spec_inner() == self.spec_inner(),
            r.spec_name() == self.spec_name(),
            r.spec_argument_type() == self.spec_argument_type(),
            r.spec_provider() == Some(provider),
    {
        RequiredArgumentBuilder { suggestions_provider: Some(provider), ..self }
    }

    pub closed spec fn spec_provider(&self) -> Option<ProviderId> {
        self.suggestions_provider
    }

    pub closed spec fn spec_argument_type(&self) -> ArgumentKind {
        self.argument_type
    }

    pub fn suggestions_provider(&self) -> (r: Option<ProviderId>)
        ensures
            r == self.spec_provider(),
    {
        self.suggestions_provider
    }

    pub fn argument_type(&self) -> (r: ArgumentKind)
        ensures
            r == self.spec_argument_type(),
    {
        self.argument_type
    }

    pub fn name(&self) -> (r: &str)
        ensures
            r@ == self.spec_name(),
    {
        self.name.as_str()
    }

    /// The shared builder state, to add children, a command or a redirect.
    pub fn inner(&mut self) -> (r: &mut ArgumentBuilder)
        ensures
            r@ == old(self).spec_inner(),
            final(self).spec_inner() == final(r)@,
            final(self).spec_name() == old(self).spec_name(),
    {
        &mut self.inner
    }
}

impl Build for RequiredArgumentBuilder {
    open spec fn spec_kind(&self) -> NodeKind {
        NodeKind::Argument
    }

    open spec fn spec_name(&self) -> Seq<char> {
        self.spec_name()
    }

    open spec fn spec_argument(&self) -> Option<ArgumentKind> {
        Some(self.spec_argument_type())
    }

    open spec fn spec_builder(&self) -> BuilderView {
        self.spec_inner()
    }

    fn build(self, tree: &mut TreeGraph) -> (r: NodeId) {
        let tagged = TaggedCommandNode::Argument(
            ArgumentCommandNode::new(self.name, self.argument_type, self.suggestions_provider),
        );
        self.inner.build(tree, tagged)
    }
}

/// A builder for the literal `literal`.
pub fn literal(text: &str) -> (r: LiteralArgumentBuilder)
    ensures
        r.spec_inner() == ArgumentBuilder::new_view(),
        r.spec_literal() == text@,
{
    LiteralArgumentBuilder::new(text)
}

/// A builder for the argument `name` of type `argument_type`.
pub fn argument(name: &str, argument_type: ArgumentKind) -> (r: RequiredArgumentBuilder)
    ensures
        r.spec_inner() == ArgumentBuilder::new_view(),
        r.spec_name() == name@,
        r.spec_argument_type() == argument_type,
{
    RequiredArgumentBuilder::new(name, argument_type)
}

} // verus!
