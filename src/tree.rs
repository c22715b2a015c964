//! The command tree: an arena of nodes, each with its children indexed by
//! name, merged on insertion of a name that is already there.
use vstd::prelude::*;

use indexmap::IndexMap;
use slotmap::{DefaultKey, SlotMap};

use crate::arguments::{
    kind_consumes, kind_examples, lemma_kind_read_consumes, starts_with, views_of, ArgumentKind,
};
use crate::string_reader::{split_first_char, StringReader};
use crate::text::{byte_length, lemma_prefix_bytes, str_slice};
use crate::CommandRequirement;

verus! {

broadcast use {vstd::utf8::group_utf8_lib, vstd::string::group_string_axioms};

/// The id of a node in a tree.
pub type NodeId = DefaultKey;

/// The nodes of a tree, by id: a slot map, which Verus sees only through
/// the functions below.
#[verifier::external_body]
pub struct Arena {
    slots: SlotMap<NodeId, CommandNode>,
}

/// Child ids by name, in insertion order.
pub type NameIndex = IndexMap<String, NodeId>;

#[verifier::external_type_specification]
#[verifier::external_body]
pub struct ExDefaultKey(DefaultKey);

/// Relies on the derived `PartialEq` of slotmap's `DefaultKey`: keys are
/// equal exactly when they are the same key.
pub assume_specification[ <DefaultKey as PartialEq>::eq ](a: &DefaultKey, b: &DefaultKey) -> (r: bool)
    ensures
        r == (*a == *b),
;


#[verifier::external_type_specification]
#[verifier::external_body]
#[verifier::reject_recursive_types(K)]
#[verifier::reject_recursive_types(V)]
#[verifier::reject_recursive_types(S)]
pub struct ExIndexMap<K, V, S>(IndexMap<K, V, S>);

/// The entries of a name index, in insertion order.
pub uninterp spec fn edge_entries(m: NameIndex) -> Seq<(Seq<char>, NodeId)>;

/// The nodes of an arena, by id.
pub uninterp spec fn arena_nodes(m: Arena) -> Map<NodeId, CommandNode>;

/// The node filed under `k`, if any.
pub open spec fn lookup(es: Seq<(Seq<char>, NodeId)>, k: Seq<char>) -> Option<NodeId>
    decreases es.len(),
{
    if es.len() == 0 {
        None
    } else if es[0].0 == k {
        Some(es[0].1)
    } else {
        lookup(es.drop_first(), k)
    }
}

pub open spec fn distinct_names(es: Seq<(Seq<char>, NodeId)>) -> bool {
    forall|i: int, j: int| 0 <= i < j < es.len() ==> es[i].0 != es[j].0
}

/// Relies on `IndexMap::new`: an empty map.
#[verifier::external_body]
fn edges_new() -> (r: NameIndex)
    ensures
        edge_entries(r) == Seq::<(Seq<char>, NodeId)>::empty(),
{
    IndexMap::new()
}

/// Relies on `IndexMap::get`: the value stored under an equal key.
#[verifier::external_body]
fn edges_get(m: &NameIndex, key: &str) -> (r: Option<NodeId>)
    ensures
        r == lookup(edge_entries(*m), key@),
{
    m.get(key).copied()
}

/// Relies on `IndexMap::insert`: a key not in the map goes last.
#[verifier::external_body]
fn edges_insert(m: &mut NameIndex, key: String, value: NodeId)
    requires
        lookup(edge_entries(*old(m)), key@) is None,
    ensures
        edge_entries(*final(m)) == edge_entries(*old(m)).push((key@, value)),
{
    m.insert(key, value);
}

/// Relies on `IndexMap::values`: the values in the order of the entries.
#[verifier::external_body]
fn edges_values(m: &NameIndex) -> (r: Vec<NodeId>)
    ensures
        r@ == edge_entries(*m).map_values(|e: (Seq<char>, NodeId)| e.1),
{
    m.values().copied().collect()
}

/// An arena without nodes.
pub open spec fn empty_arena() -> Map<NodeId, CommandNode> {
    Map::empty()
}

/// Relies on `SlotMap::with_key`: an empty arena.
#[verifier::external_body]
fn arena_new() -> (r: Arena)
    ensures
        arena_nodes(r) == empty_arena(),
{
    Arena { slots: SlotMap::with_key() }
}

/// Relies on `SlotMap::insert`: the value is stored under a key that the
/// map did not hold. It panics only once `u32::MAX - 1` values are stored.
#[verifier::external_body]
fn arena_insert(m: &mut Arena, value: CommandNode) -> (r: NodeId)
    requires
        arena_nodes(*old(m)).dom().finite(),
        arena_nodes(*old(m)).len() < u32::MAX - 1,
    ensures
        !arena_nodes(*old(m)).contains_key(r),
        arena_nodes(*final(m)) == arena_nodes(*old(m)).insert(r, value),
{
    m.slots.insert(value)
}

/// Relies on `SlotMap::contains_key`.
#[verifier::external_body]
fn arena_contains(m: &Arena, key: NodeId) -> (r: bool)
    ensures
        r == arena_nodes(*m).contains_key(key),
{
    m.slots.contains_key(key)
}

/// Relies on `SlotMap::keys`: every key of the map, each once.
#[verifier::external_body]
fn arena_keys(m: &Arena) -> (r: Vec<NodeId>)
    ensures
        r@.no_duplicates(),
        r@.to_set() == arena_nodes(*m).dom(),
{
    m.slots.keys().collect()
}

/// Relies on `SlotMap::len`: the number of values stored.
#[verifier::external_body]
fn arena_len(m: &Arena) -> (r: usize)
    ensures
        r == arena_nodes(*m).len(),
{
    m.slots.len()
}

/// Relies on `Index for SlotMap`: the value under a key that is present.
#[verifier::external_body]
fn arena_get(m: &Arena, key: NodeId) -> (r: &CommandNode)
    requires
        arena_nodes(*m).contains_key(key),
    ensures
        *r == arena_nodes(*m)[key],
{
    &m.slots[key]
}

/// Relies on `IndexMut for SlotMap`: the place of the value under a key
/// that is present.
#[verifier::external_body]
fn arena_get_mut(m: &mut Arena, key: NodeId) -> (r: &mut CommandNode)
    requires
        arena_nodes(*old(m)).contains_key(key),
    ensures
        *r == arena_nodes(*old(m))[key],
        arena_nodes(*final(m)) == arena_nodes(*old(m)).insert(key, *final(r)),
{
    &mut m.slots[key]
}

/// Relies on `SlotMap::remove`: takes out the value under the key, if any.
#[verifier::external_body]
fn arena_remove(m: &mut Arena, key: NodeId) -> (r: Option<CommandNode>)
    ensures
        arena_nodes(*old(m)).contains_key(key) ==> r == Some(arena_nodes(*old(m))[key])
            && arena_nodes(*final(m)) == arena_nodes(*old(m)).remove(key),
        !arena_nodes(*old(m)).contains_key(key) ==> r is None && arena_nodes(*final(m))
            == arena_nodes(*old(m)),
{
    m.slots.remove(key)
}

/// A command that the host runs; the host keeps the callables and resolves
/// these ids.
#[derive(Debug, Clone, Copy, PartialEq, Eq, Structural, Hash)]
pub struct CommandId(pub u64);

/// A predicate over the command source, kept by the host.
#[derive(Debug, Clone, Copy, PartialEq, Eq, Structural, Hash)]
pub struct RequirementId(pub u64);

/// A transformation of the command source on a redirect, kept by the host.
#[derive(Debug, Clone, Copy, PartialEq, Eq, Structural, Hash)]
pub struct ModifierId(pub u64);

/// A source of custom suggestions for an argument, kept by the host.
#[derive(Debug, Clone, Copy, PartialEq, Eq, Structural, Hash)]
pub struct ProviderId(pub u64);

/// The kind-specific part of the root node.
#[derive(Debug, Clone, Copy, PartialEq, Eq)]
pub struct RootCommandNode;

/// A node that matches a fixed keyword.
#[derive(Debug, Clone, PartialEq, Eq)]
pub struct LiteralCommandNode {
    literal: String,
    literal_lower_case: Option<String>,
}

pub open spec fn is_ascii_lower(c: char) -> bool {
    'a' <= c && c <= 'z'
}

/// ASCII lowercase: `A`-`Z` become `a`-`z`, other chars stay.
pub open spec fn ascii_lower(s: Seq<char>) -> Seq<char> {
    s.map_values(
        |c: char|
            if 'A' <= c && c <= 'Z' {
                ((c as u32) + 32) as char
            } else {
                c
            },
    )
}

/// Relies on `str::to_ascii_lowercase`: `A`-`Z` become `a`-`z`, other
/// chars stay as they are.
#[verifier::external_body]
fn to_ascii_lower(s: &str) -> (r: String)
    ensures
        r@ == ascii_lower(s@),
{
    s.to_ascii_lowercase()
}

/// Whether every char of `s` is an ASCII lowercase letter.
fn all_ascii_lower(s: &str) -> (r: bool)
    ensures
        r == (forall|i: int| 0 <= i < s@.len() ==> is_ascii_lower(#[trigger] s@[i])),
{
    let mut rest = s;
    while !rest.is_empty()
        invariant
            rest@.len() <= s@.len(),
            s@.skip(s@.len() - rest@.len()) == rest@,
            forall|i: int| 0 <= i < s@.len() - rest@.len() ==> is_ascii_lower(#[trigger] s@[i]),
        decreases rest@.len(),
    {
        let (_, c, next) = split_first_char(rest);
        let k = Ghost(s@.len() - rest@.len());
        proof {
            assert(s@[k@] == rest@[0]);
        }
        if !('a' <= c && c <= 'z') {
            return false;
        }
        proof {
            assert(s@.skip(s@.len() - next@.len()) =~= next@);
        }
        rest = next;
    }
    true
}

impl LiteralCommandNode {
    pub closed spec fn spec_literal(&self) -> Seq<char> {
        self.literal@
    }

    pub closed spec fn spec_lower_case(&self) -> Option<Seq<char>> {
        match self.literal_lower_case {
            Some(l) => Some(l@),
            None => None,
        }
    }

    /// A literal node; it keeps a lowercased copy unless the literal is all
    /// lowercase ASCII letters.
    pub fn new(literal: String) -> (r: Self)
        ensures
            r.spec_literal() == literal@,
            r.spec_lower_case() == if forall|i: int|
                0 <= i < literal@.len() ==> is_ascii_lower(#[trigger] literal@[i]) {
                None
            } else {
                Some(ascii_lower(literal@))
            },
    {
        let is_lower = all_ascii_lower(literal.as_str());
        let lower = if is_lower {
            None
        } else {
            Some(to_ascii_lower(literal.as_str()))
        };
        LiteralCommandNode { literal, literal_lower_case: lower }
    }

    pub fn literal(&self) -> (r: &str)
        ensures
            r@ == self.spec_literal(),
    {
        self.literal.as_str()
    }

    pub fn literal_lower_case(&self) -> (r: Option<&str>)
        ensures
            r matches Some(l) ==> self.spec_lower_case() == Some(l@),
            r is None ==> self.spec_lower_case() is None,
    {
        match &self.literal_lower_case {
            Some(l) => Some(l.as_str()),
            None => None,
        }
    }
}

/// A node that reads a typed value under a name.
#[derive(Debug, Clone, PartialEq, Eq)]
pub struct ArgumentCommandNode {
    name: String,
    argument_type: ArgumentKind,
    custom_suggestions: Option<ProviderId>,
}

impl ArgumentCommandNode {
    pub closed spec fn spec_name(&self) -> Seq<char> {
        self.name@
    }

    pub closed spec fn spec_argument_type(&self) -> ArgumentKind {
        self.argument_type
    }

    pub closed spec fn spec_custom_suggestions(&self) -> Option<ProviderId> {
        self.custom_suggestions
    }

    pub fn new(name: String, argument_type: ArgumentKind, custom_suggestions: Option<ProviderId>) -> (r: Self)
        ensures
            r.spec_name() == name@,
            r.spec_argument_type() == argument_type,
            r.spec_custom_suggestions() == custom_suggestions,
    {
        ArgumentCommandNode { name, argument_type, custom_suggestions }
    }

    pub fn name(&self) -> (r: &str)
        ensures
            r@ == self.spec_name(),
    {
        self.name.as_str()
    }

    pub fn argument_type(&self) -> (r: ArgumentKind)
        ensures
            r == self.spec_argument_type(),
    {
        self.argument_type
    }

    pub fn custom_suggestions(&self) -> (r: Option<ProviderId>)
        ensures
            r == self.spec_custom_suggestions(),
    {
        self.custom_suggestions
    }
}

/// Relies on the derived `Default` of slotmap's `DefaultKey`: the null key.
pub assume_specification[ <DefaultKey as Default>::default ]() -> DefaultKey;

/// The kind-specific part of a node.
#[derive(Debug, Clone, PartialEq, Eq)]
pub enum TaggedCommandNode {
    Root(RootCommandNode),
    Literal(LiteralCommandNode),
    Argument(ArgumentCommandNode),
}

/// The three indices of a node's children: all of them, the literals and
/// the arguments, each by name.
pub struct NodeChildren {
    children: NameIndex,
    literal: NameIndex,
    argument: NameIndex,
}

/// A node of the tree.
pub struct CommandNode {
    id: NodeId,
    edges: NodeChildren,
    tagged: TaggedCommandNode,
    requirement: Option<RequirementId>,
    redirect: Option<NodeId>,
    modifier: Option<ModifierId>,
    forks: bool,
    command: Option<CommandId>,
}

pub ghost enum NodeKind {
    Root,
    Literal,
    Argument,
}

pub open spec fn kind_of(t: TaggedCommandNode) -> NodeKind {
    match t {
        TaggedCommandNode::Root(_) => NodeKind::Root,
        TaggedCommandNode::Literal(_) => NodeKind::Literal,
        TaggedCommandNode::Argument(_) => NodeKind::Argument,
    }
}

pub open spec fn argument_of(t: TaggedCommandNode) -> Option<ArgumentKind> {
    match t {
        TaggedCommandNode::Argument(a) => Some(a.spec_argument_type()),
        _ => None,
    }
}

pub open spec fn name_of(t: TaggedCommandNode) -> Seq<char> {
    match t {
        TaggedCommandNode::Root(_) => Seq::empty(),
        TaggedCommandNode::Literal(l) => l.spec_literal(),
        TaggedCommandNode::Argument(a) => a.spec_name(),
    }
}

/// The value of a node.
pub ghost struct NodeView {
    pub id: NodeId,
    pub kind: NodeKind,
    /// Empty for the root, the literal, or the argument's name.
    pub name: Seq<char>,
    /// The argument type of an argument node.
    pub argument: Option<ArgumentKind>,
    pub children: Seq<(Seq<char>, NodeId)>,
    pub literals: Seq<(Seq<char>, NodeId)>,
    pub arguments: Seq<(Seq<char>, NodeId)>,
    pub requirement: Option<RequirementId>,
    pub redirect: Option<NodeId>,
    pub modifier: Option<ModifierId>,
    pub forks: bool,
    pub command: Option<CommandId>,
}

impl View for CommandNode {
    type V = NodeView;

    closed spec fn view(&self) -> NodeView {
        NodeView {
            id: self.id,
            kind: kind_of(self.tagged),
            name: name_of(self.tagged),
            argument: argument_of(self.tagged),
            children: edge_entries(self.edges.children),
            literals: edge_entries(self.edges.literal),
            arguments: edge_entries(self.edges.argument),
            requirement: self.requirement,
            redirect: self.redirect,
            modifier: self.modifier,
            forks: self.forks,
            command: self.command,
        }
    }
}


/// The texts of a list of strings.
pub open spec fn strings_of(v: Seq<String>) -> Seq<Seq<char>> {
    v.map_values(|s: String| s@)
}

/// What a node offers as sample input: its literal, or its argument
/// type's examples; nothing for the root.
pub open spec fn node_examples(n: NodeView) -> Seq<Seq<char>> {
    match n.kind {
        NodeKind::Literal => seq![n.name],
        NodeKind::Argument => match n.argument {
            Some(k) => kind_examples(k),
            None => seq![],
        },
        NodeKind::Root => seq![],
    }
}

/// Whether `input` is something node `n` reads on its own: a literal that
/// starts the input, or a value of the argument's type, followed by the
/// end or a space. The root reads nothing.
pub open spec fn node_accepts(n: NodeView, input: Seq<char>) -> bool {
    match n.kind {
        NodeKind::Literal => n.name.is_prefix_of(input) && (input.len() == n.name.len()
            || input[n.name.len() as int] == ' '),
        NodeKind::Argument => match n.argument {
            Some(k) => match kind_consumes(k, input) {
                Some(u) => input.skip(u as int).len() == 0 || input.skip(u as int)[0] == ' ',
                None => false,
            },
            None => false,
        },
        NodeKind::Root => false,
    }
}

/// Name `k` is filed once: under the children and under exactly one of
/// the literals and the arguments, with the same node; or nowhere.
pub open spec fn indexed_once(n: NodeView, k: Seq<char>) -> bool {
    match lookup(n.children, k) {
        Some(c) => (lookup(n.literals, k) == Some(c) && lookup(n.arguments, k) is None) || (lookup(
            n.arguments,
            k,
        ) == Some(c) && lookup(n.literals, k) is None),
        None => lookup(n.literals, k) is None && lookup(n.arguments, k) is None,
    }
}

pub open spec fn node_wf(n: NodeView) -> bool {
    &&& distinct_names(n.children)
    &&& distinct_names(n.literals)
    &&& distinct_names(n.arguments)
    &&& forall|k: Seq<char>| #[trigger] indexed_once(n, k)
}

/// `p` with child `c`, of the given name and kind, added last.
pub open spec fn with_child(p: NodeView, name: Seq<char>, kind: NodeKind, c: NodeId) -> NodeView {
    NodeView {
        children: p.children.push((name, c)),
        literals: if kind == NodeKind::Literal {
            p.literals.push((name, c))
        } else {
            p.literals
        },
        arguments: if kind == NodeKind::Argument {
            p.arguments.push((name, c))
        } else {
            p.arguments
        },
        ..p
    }
}

pub proof fn lemma_lookup_push(es: Seq<(Seq<char>, NodeId)>, k: Seq<char>, v: NodeId, q: Seq<char>)
    ensures
        lookup(es.push((k, v)), q) == if lookup(es, q) is Some {
            lookup(es, q)
        } else if q == k {
            Some(v)
        } else {
            None::<NodeId>
        },
    decreases es.len(),
{
    let p = es.push((k, v));
    if es.len() > 0 {
        assert(p[0] == es[0]);
        assert(p.drop_first() =~= es.drop_first().push((k, v)));
        lemma_lookup_push(es.drop_first(), k, v, q);
        if es[0].0 == q {
            assert(lookup(p, q) == Some(es[0].1));
        } else {
            assert(lookup(p, q) == lookup(p.drop_first(), q));
            assert(lookup(es, q) == lookup(es.drop_first(), q));
        }
    } else {
        assert(es.push((k, v))[0] == (k, v));
        assert(es.push((k, v)).drop_first() =~= Seq::<(Seq<char>, NodeId)>::empty());
    }
}

pub proof fn lemma_lookup_none(es: Seq<(Seq<char>, NodeId)>, k: Seq<char>)
    ensures
        lookup(es, k) is None <==> forall|i: int| 0 <= i < es.len() ==> (#[trigger] es[i]).0 != k,
    decreases es.len(),
{
    if es.len() > 0 {
        lemma_lookup_none(es.drop_first(), k);
        if lookup(es, k) is None {
            assert forall|i: int| 0 <= i < es.len() implies (#[trigger] es[i]).0 != k by {
                if i > 0 {
                    assert(es[i] == es.drop_first()[i - 1]);
                }
            }
        } else if es[0].0 != k {
            let j = choose|j: int| 0 <= j < es.drop_first().len() && (#[trigger] es.drop_first()[j]).0 == k;
            assert(es[j + 1] == es.drop_first()[j]);
        }
    }
}

pub proof fn lemma_lookup_prefix(es: Seq<(Seq<char>, NodeId)>, fs: Seq<(Seq<char>, NodeId)>, k: Seq<char>)
    requires
        es.is_prefix_of(fs),
        lookup(es, k) is Some,
    ensures
        lookup(fs, k) == lookup(es, k),
    decreases es.len(),
{
    assert(fs[0] == es[0]);
    if es[0].0 != k {
        assert(es.drop_first().is_prefix_of(fs.drop_first()));
        lemma_lookup_prefix(es.drop_first(), fs.drop_first(), k);
    }
}

/// The entry `(name, c)` is the one filed under `name`.
pub proof fn lemma_lookup_pushed(es: Seq<(Seq<char>, NodeId)>, k: Seq<char>, v: NodeId)
    requires
        lookup(es, k) is None,
    ensures
        lookup(es.push((k, v)), k) == Some(v),
        distinct_names(es) ==> distinct_names(es.push((k, v))),
{
    lemma_lookup_push(es, k, v, k);
    lemma_lookup_none(es, k);
}

/// The entry found under `k` is one of the entries.
pub proof fn lemma_lookup_entry(es: Seq<(Seq<char>, NodeId)>, k: Seq<char>)
    ensures
        lookup(es, k) matches Some(v) ==> es.contains((k, v)),
    decreases es.len(),
{
    if es.len() > 0 {
        lemma_lookup_entry(es.drop_first(), k);
        if es[0].0 != k && lookup(es, k) is Some {
            let j = choose|j: int| 0 <= j < es.drop_first().len() && es.drop_first()[j] == (k, lookup(es, k)->Some_0);
            assert(es[j + 1] == es.drop_first()[j]);
        }
        if es[0].0 == k {
            assert(es[0] == (k, es[0].1));
        }
    }
}

/// A child added under a new name keeps a node well formed.
proof fn lemma_with_child_wf(p: NodeView, name: Seq<char>, kind: NodeKind, c: NodeId)
    requires
        node_wf(p),
        lookup(p.children, name) is None,
        kind != NodeKind::Root,
    ensures
        node_wf(with_child(p, name, kind, c)),
        lookup(with_child(p, name, kind, c).children, name) == Some(c),
{
    let q = with_child(p, name, kind, c);
    assert(indexed_once(p, name));
    lemma_lookup_pushed(p.children, name, c);
    lemma_lookup_pushed(p.literals, name, c);
    lemma_lookup_pushed(p.arguments, name, c);
    assert forall|k: Seq<char>| #[trigger] indexed_once(q, k) by {
        assert(indexed_once(p, k));
        lemma_lookup_push(p.children, name, c, k);
        lemma_lookup_push(p.literals, name, c, k);
        lemma_lookup_push(p.arguments, name, c, k);
    }
}

proof fn lemma_wf_with_id(n: NodeView, id: NodeId)
    requires
        node_wf(n),
    ensures
        node_wf(NodeView { id, ..n }),
{
    assert forall|k: Seq<char>| #[trigger] indexed_once(NodeView { id, ..n }, k) by {
        assert(indexed_once(n, k));
    }
}

/// The value of a tree.
pub ghost struct TreeView {
    pub root: NodeId,
    pub nodes: Map<NodeId, NodeView>,
}

/// `f` is `o` with some nodes gone and, on the others, children added after
/// the old ones or commands set; nothing else changes.
pub open spec fn kept(o: TreeView, f: TreeView) -> bool {
    &&& f.root == o.root
    &&& f.nodes.dom().subset_of(o.nodes.dom())
    &&& forall|k: NodeId| #[trigger] f.nodes.contains_key(k) ==> {
        let a = o.nodes[k];
        let b = f.nodes[k];
        &&& b.id == a.id
        &&& b.kind == a.kind
        &&& b.name == a.name
        &&& b.requirement == a.requirement
        &&& b.redirect == a.redirect
        &&& b.modifier == a.modifier
        &&& b.forks == a.forks
        &&& a.children.is_prefix_of(b.children)
        &&& a.literals.is_prefix_of(b.literals)
        &&& a.arguments.is_prefix_of(b.arguments)
    }
}

pub(crate) proof fn lemma_kept_trans(a: TreeView, b: TreeView, c: TreeView)
    requires
        kept(a, b),
        kept(b, c),
    ensures
        kept(a, c),
{
    assert forall|k: NodeId| #[trigger] c.nodes.contains_key(k) implies {
        &&& a.nodes[k].children.is_prefix_of(c.nodes[k].children)
        &&& a.nodes[k].literals.is_prefix_of(c.nodes[k].literals)
        &&& a.nodes[k].arguments.is_prefix_of(c.nodes[k].arguments)
    } by {
        assert(b.nodes.contains_key(k));
    }
}

/// Whether attaching `child` under `parent` is meaningful in `t`: both are
/// in the tree, they differ and the child is not the root.
pub open spec fn can_attach(t: TreeView, parent: NodeId, child: NodeId) -> bool {
    &&& t.nodes.contains_key(parent)
    &&& t.nodes.contains_key(child)
    &&& parent != child
    &&& t.nodes[child].kind != NodeKind::Root
}


/// No node of `t` lists `x` as a child.
pub open spec fn unreferenced(t: TreeView, x: NodeId) -> bool {
    forall|k: NodeId, i: int|
        t.nodes.contains_key(k) && 0 <= i < t.nodes[k].children.len() ==> (
        #[trigger] t.nodes[k].children[i]).1 != x
}

/// Entry `i` of node `k` names a node of the tree, not the root, under that
/// node's own name, and the node sits in the index of its kind.
pub open spec fn entry_ok(t: TreeView, k: NodeId, i: int) -> bool {
    let e = t.nodes[k].children[i];
    &&& t.nodes.contains_key(e.1)
    &&& e.1 != t.root
    &&& t.nodes[e.1].name == e.0
    &&& (t.nodes[e.1].kind == NodeKind::Literal ==> lookup(t.nodes[k].literals, e.0) == Some(e.1))
    &&& (t.nodes[e.1].kind == NodeKind::Argument ==> lookup(t.nodes[k].arguments, e.0) == Some(
        e.1,
    ))
}

/// Every node is listed as a child at most once in the whole tree.
pub open spec fn single_parent(t: TreeView) -> bool {
    forall|k1: NodeId, i1: int, k2: NodeId, i2: int|
        #![trigger t.nodes[k1].children[i1], t.nodes[k2].children[i2]]
        t.nodes.contains_key(k1) && t.nodes.contains_key(k2) && 0 <= i1
            < t.nodes[k1].children.len() && 0 <= i2 < t.nodes[k2].children.len()
            && t.nodes[k1].children[i1].1 == t.nodes[k2].children[i2].1 ==> k1 == k2 && i1 == i2
}

/// One root, of root kind and never a child; every node well formed and
/// filed under its own id; every child a node of the tree, filed under its
/// name in the index of its kind, with one parent.
pub open spec fn tree_wf(v: TreeView) -> bool {
    &&& v.nodes.dom().finite()
    &&& v.nodes.contains_key(v.root)
    &&& v.nodes[v.root].kind == NodeKind::Root
    &&& forall|k: NodeId| #[trigger]
        v.nodes.contains_key(k) ==> {
            &&& v.nodes[k].id == k
            &&& node_wf(v.nodes[k])
            &&& (k != v.root ==> v.nodes[k].kind != NodeKind::Root)
        }
    &&& forall|k: NodeId, i: int|
        #![trigger v.nodes[k].children[i]]
        v.nodes.contains_key(k) && 0 <= i < v.nodes[k].children.len() ==> entry_ok(v, k, i)
    &&& single_parent(v)
}

/// Nodes that nothing lists, other than `child`, stay in the tree unlisted,
/// and but for `parent` unchanged.
pub open spec fn frame_unreferenced(o: TreeView, f: TreeView, parent: NodeId, child: NodeId) -> bool {
    forall|x: NodeId|
        #[trigger] o.nodes.contains_key(x) && unreferenced(o, x) && x != child ==> {
            &&& f.nodes.contains_key(x)
            &&& unreferenced(f, x)
            &&& (x != parent ==> f.nodes[x] == o.nodes[x])
        }
}

/// A node listed by a node that stays in the tree stays too, unless it is
/// `child`: only `child` and nodes merged below it leave.
pub open spec fn survivors_keep_children(o: TreeView, f: TreeView, child: NodeId) -> bool {
    forall|y: NodeId, i: int|
        #![trigger o.nodes[y].children[i]]
        o.nodes.contains_key(y) && 0 <= i < o.nodes[y].children.len() && o.nodes[y].children[i].1
            != child && f.nodes.contains_key(y) ==> f.nodes.contains_key(o.nodes[y].children[i].1)
}

/// `t` with the command of `x` set to `command`, if `x` is in `t`.
pub open spec fn set_command_spec(t: TreeView, x: NodeId, command: Option<CommandId>) -> TreeView {
    if t.nodes.contains_key(x) {
        TreeView { root: t.root, nodes: t.nodes.insert(x, NodeView { command, ..t.nodes[x] }) }
    } else {
        t
    }
}

/// Adding `child` under `parent` in `t`, as spec'd for `add_child`: a child
/// whose name is new is filed last; otherwise, with `ex` the child that has
/// the name, `child` leaves the tree, each of its children is added under
/// `ex` in turn by this same rule, and `ex` takes `child`'s command if it
/// has one, keeping its own otherwise. `fuel` bounds the depth; any fuel of
/// at least the number of nodes gives the full result.
pub open spec fn attach_spec(t: TreeView, parent: NodeId, child: NodeId, fuel: nat) -> TreeView
    decreases fuel, 1nat, 0nat,
{
    if !can_attach(t, parent, child) || fuel == 0 {
        t
    } else {
        let c = t.nodes[child];
        match lookup(t.nodes[parent].children, c.name) {
            None => TreeView {
                root: t.root,
                nodes: t.nodes.insert(parent, with_child(t.nodes[parent], c.name, c.kind, child)),
            },
            Some(ex) => set_command_spec(
                merge_all(
                    TreeView { root: t.root, nodes: t.nodes.remove(child) },
                    ex,
                    c.children,
                    (fuel - 1) as nat,
                ),
                ex,
                if c.command is Some {
                    c.command
                } else {
                    t.nodes[ex].command
                },
            ),
        }
    }
}

/// The entries `gs` added under `ex` one after the other by `attach_spec`.
pub open spec fn merge_all(t: TreeView, ex: NodeId, gs: Seq<(Seq<char>, NodeId)>, fuel: nat) -> TreeView
    decreases fuel, 2nat, gs.len(),
{
    if gs.len() == 0 {
        t
    } else {
        attach_spec(merge_all(t, ex, gs.drop_last(), fuel), ex, gs.last().1, fuel)
    }
}

/// `f` is what `attach_spec` makes of `o`, with any sufficient fuel.
pub open spec fn attaches_as(o: TreeView, f: TreeView, parent: NodeId, child: NodeId) -> bool {
    forall|fuel: nat| fuel >= o.nodes.len() ==> f == #[trigger] attach_spec(o, parent, child, fuel)
}

proof fn lemma_merge_all_step(t: TreeView, ex: NodeId, gs: Seq<(Seq<char>, NodeId)>, i: int, fuel: nat)
    requires
        0 <= i < gs.len(),
    ensures
        merge_all(t, ex, gs.take(i + 1), fuel) == attach_spec(
            merge_all(t, ex, gs.take(i), fuel),
            ex,
            gs[i].1,
            fuel,
        ),
{
    assert(gs.take(i + 1).drop_last() =~= gs.take(i));
}

/// What attaching `child` under `parent` does to tree `o`, giving `f`.
/// A child whose name is new is filed last, under the children and under
/// the literals or the arguments. A child whose name is taken by a node
/// `ex` is merged into it: the child leaves the tree, `ex` takes its
/// command if it has one, and each of its children is attached under `ex`
/// in turn, so that `ex` then has a child of each of their names.
pub open spec fn attach_post(o: TreeView, f: TreeView, parent: NodeId, child: NodeId) -> bool {
    if !can_attach(o, parent, child) {
        f == o
    } else {
        let c = o.nodes[child];
        match lookup(o.nodes[parent].children, c.name) {
            None => f.nodes == o.nodes.insert(
                parent,
                with_child(o.nodes[parent], c.name, c.kind, child),
            ),
            Some(ex) => {
                &&& !f.nodes.contains_key(child)
                &&& (unreferenced(o, parent) ==> f.nodes.contains_key(parent) && f.nodes[parent]
                    == o.nodes[parent])
                &&& (f.nodes.contains_key(parent) ==> f.nodes.contains_key(ex))
                &&& (f.nodes.contains_key(ex) ==> f.nodes[ex].command == (if c.command is Some {
                    c.command
                } else {
                    o.nodes[ex].command
                }))
                &&& (f.nodes.contains_key(ex) ==> forall|i: int|
                    0 <= i < c.children.len() ==> lookup(
                        f.nodes[ex].children,
                        (#[trigger] c.children[i]).0,
                    ) is Some)
            },
        }
    }
}

/// Filing `child` under a new name keeps the tree well formed.
proof fn lemma_add_entry(o: TreeView, p: NodeId, c: NodeId)
    requires
        tree_wf(o),
        can_attach(o, p, c),
        unreferenced(o, c),
        lookup(o.nodes[p].children, o.nodes[c].name) is None,
    ensures
        ({
            let v = TreeView {
                root: o.root,
                nodes: o.nodes.insert(
                    p,
                    with_child(o.nodes[p], o.nodes[c].name, o.nodes[c].kind, c),
                ),
            };
            &&& tree_wf(v)
            &&& kept(o, v)
            &&& frame_unreferenced(o, v, p, c)
            &&& survivors_keep_children(o, v, c)
        }),
{
    let pv = o.nodes[p];
    let cv = o.nodes[c];
    let np = with_child(pv, cv.name, cv.kind, c);
    let v = TreeView { root: o.root, nodes: o.nodes.insert(p, np) };
    assert(indexed_once(pv, cv.name));
    lemma_with_child_wf(pv, cv.name, cv.kind, c);
    lemma_lookup_pushed(pv.literals, cv.name, c);
    lemma_lookup_pushed(pv.arguments, cv.name, c);
    assert(c != o.root);
    assert forall|k: NodeId| #[trigger] v.nodes.contains_key(k) implies {
        &&& v.nodes[k].id == k
        &&& node_wf(v.nodes[k])
        &&& (k != v.root ==> v.nodes[k].kind != NodeKind::Root)
    } by {
        assert(o.nodes.contains_key(k));
    }
    assert forall|k: NodeId, i: int|
        #![trigger v.nodes[k].children[i]]
        v.nodes.contains_key(k) && 0 <= i < v.nodes[k].children.len() implies entry_ok(v, k, i) by {
        if k == p {
            if i < pv.children.len() {
                assert(v.nodes[k].children[i] == pv.children[i]);
                assert(entry_ok(o, k, i));
                let e = pv.children[i];
                lemma_lookup_push(pv.literals, cv.name, c, e.0);
                lemma_lookup_push(pv.arguments, cv.name, c, e.0);
            } else {
                assert(v.nodes[k].children[i] == (cv.name, c));
            }
        } else {
            assert(entry_ok(o, k, i));
        }
    }
    assert forall|k1: NodeId, i1: int, k2: NodeId, i2: int|
        #![trigger v.nodes[k1].children[i1], v.nodes[k2].children[i2]]
        v.nodes.contains_key(k1) && v.nodes.contains_key(k2) && 0 <= i1
            < v.nodes[k1].children.len() && 0 <= i2 < v.nodes[k2].children.len()
            && v.nodes[k1].children[i1].1 == v.nodes[k2].children[i2].1 implies k1 == k2 && i1
        == i2 by {
        let new1 = k1 == p && i1 == pv.children.len();
        let new2 = k2 == p && i2 == pv.children.len();
        if !new1 {
            assert(v.nodes[k1].children[i1] == o.nodes[k1].children[i1]);
        }
        if !new2 {
            assert(v.nodes[k2].children[i2] == o.nodes[k2].children[i2]);
        }
    }
    assert forall|x: NodeId|
        #[trigger] o.nodes.contains_key(x) && unreferenced(o, x) && x != c implies {
        &&& v.nodes.contains_key(x)
        &&& unreferenced(v, x)
        &&& (x != p ==> v.nodes[x] == o.nodes[x])
    } by {
        assert forall|k: NodeId, i: int|
            v.nodes.contains_key(k) && 0 <= i < v.nodes[k].children.len() implies (
            #[trigger] v.nodes[k].children[i]).1 != x by {
            if k == p && i < pv.children.len() {
                assert(v.nodes[k].children[i] == pv.children[i]);
            }
        }
    }
    assert(kept(o, v)) by {
        assert forall|k: NodeId| #[trigger] v.nodes.contains_key(k) implies {
            &&& o.nodes[k].children.is_prefix_of(v.nodes[k].children)
            &&& o.nodes[k].literals.is_prefix_of(v.nodes[k].literals)
            &&& o.nodes[k].arguments.is_prefix_of(v.nodes[k].arguments)
        } by {
            if k == p {
                assert(pv.children.is_prefix_of(np.children));
                assert(pv.literals.is_prefix_of(np.literals));
                assert(pv.arguments.is_prefix_of(np.arguments));
            }
        }
    }
}

/// Removing a node that nothing lists keeps the tree well formed and leaves
/// its children unlisted.
proof fn lemma_remove_node(o: TreeView, c: NodeId)
    requires
        tree_wf(o),
        o.nodes.contains_key(c),
        c != o.root,
        unreferenced(o, c),
    ensures
        ({
            let v = TreeView { root: o.root, nodes: o.nodes.remove(c) };
            &&& tree_wf(v)
            &&& kept(o, v)
            &&& forall|x: NodeId|
                #[trigger] o.nodes.contains_key(x) && x != c ==> v.nodes.contains_key(x)
                    && v.nodes[x] == o.nodes[x]
            &&& forall|x: NodeId|
                #[trigger] o.nodes.contains_key(x) && unreferenced(o, x) ==> unreferenced(v, x)
            &&& forall|j: int|
                0 <= j < o.nodes[c].children.len() ==> v.nodes.contains_key(
                    (#[trigger] o.nodes[c].children[j]).1,
                ) && unreferenced(v, o.nodes[c].children[j].1)
        }),
{
    let v = TreeView { root: o.root, nodes: o.nodes.remove(c) };
    assert forall|k: NodeId, i: int|
        #![trigger v.nodes[k].children[i]]
        v.nodes.contains_key(k) && 0 <= i < v.nodes[k].children.len() implies entry_ok(v, k, i) by {
        assert(entry_ok(o, k, i));
    }
    assert forall|j: int| 0 <= j < o.nodes[c].children.len() implies v.nodes.contains_key(
        (#[trigger] o.nodes[c].children[j]).1,
    ) && unreferenced(v, o.nodes[c].children[j].1) by {
        assert(entry_ok(o, c, j));
        assert forall|k: NodeId, i: int|
            v.nodes.contains_key(k) && 0 <= i < v.nodes[k].children.len() implies (
            #[trigger] v.nodes[k].children[i]).1 != o.nodes[c].children[j].1 by {
            assert(o.nodes[k].children[i] == v.nodes[k].children[i]);
        }
    }
}

/// Setting the command of a node keeps the tree well formed.
proof fn lemma_set_command(o: TreeView, ex: NodeId, command: Option<CommandId>)
    requires
        tree_wf(o),
        o.nodes.contains_key(ex),
    ensures
        ({
            let v = TreeView {
                root: o.root,
                nodes: o.nodes.insert(ex, NodeView { command, ..o.nodes[ex] }),
            };
            &&& tree_wf(v)
            &&& kept(o, v)
            &&& v.nodes.dom() == o.nodes.dom()
            &&& forall|k: NodeId| #[trigger] v.nodes.contains_key(k) ==> v.nodes[k].children == o.nodes[k].children
        }),
{
    let n = NodeView { command, ..o.nodes[ex] };
    let v = TreeView { root: o.root, nodes: o.nodes.insert(ex, n) };
    assert(v.nodes.dom() =~= o.nodes.dom());
    assert forall|q: Seq<char>| #[trigger] indexed_once(n, q) by {
        assert(indexed_once(o.nodes[ex], q));
    }
    assert forall|k: NodeId, i: int|
        #![trigger v.nodes[k].children[i]]
        v.nodes.contains_key(k) && 0 <= i < v.nodes[k].children.len() implies entry_ok(v, k, i) by {
        assert(entry_ok(o, k, i));
    }
    assert forall|k1: NodeId, i1: int, k2: NodeId, i2: int|
        #![trigger v.nodes[k1].children[i1], v.nodes[k2].children[i2]]
        v.nodes.contains_key(k1) && v.nodes.contains_key(k2) && 0 <= i1
            < v.nodes[k1].children.len() && 0 <= i2 < v.nodes[k2].children.len()
            && v.nodes[k1].children[i1].1 == v.nodes[k2].children[i2].1 implies k1 == k2 && i1
        == i2 by {
        assert(v.nodes[k1].children[i1] == o.nodes[k1].children[i1]);
        assert(v.nodes[k2].children[i2] == o.nodes[k2].children[i2]);
    }
}

impl CommandNode {
    pub closed spec fn spec_tagged(&self) -> TaggedCommandNode {
        self.tagged
    }

    /// A node with no children yet.
    pub(crate) fn detached(
        tagged: TaggedCommandNode,
        requirement: Option<RequirementId>,
        redirect: Option<NodeId>,
        modifier: Option<ModifierId>,
        forks: bool,
        command: Option<CommandId>,
    ) -> (r: Self)
        ensures
            node_wf(r@),
            r@.children.len() == 0,
            r@.literals.len() == 0,
            r@.arguments.len() == 0,
            r.spec_tagged() == tagged,
            r@.kind == kind_of(tagged),
            r@.name == name_of(tagged),
            r@.argument == argument_of(tagged),
            r@.requirement == requirement,
            r@.redirect == redirect,
            r@.modifier == modifier,
            r@.forks == forks,
            r@.command == command,
    {
        let r = CommandNode {
            id: NodeId::default(),
            edges: NodeChildren { children: edges_new(), literal: edges_new(), argument: edges_new() },
            tagged,
            requirement,
            redirect,
            modifier,
            forks,
            command,
        };
        proof {
            assert forall|k: Seq<char>| #[trigger] indexed_once(r@, k) by {}
        }
        r
    }

    pub fn id(&self) -> (r: NodeId)
        ensures
            r == self@.id,
    {
        self.id
    }

    pub fn tagged(&self) -> (r: &TaggedCommandNode)
        ensures
            *r == self.spec_tagged(),
    {
        &self.tagged
    }

    /// Empty for the root, the literal, or the argument's name.
    pub fn name(&self) -> (r: &str)
        ensures
            r@ == self@.name,
    {
        proof {
            reveal_strlit("");
        }
        match &self.tagged {
            TaggedCommandNode::Root(_) => "",
            TaggedCommandNode::Literal(l) => l.literal(),
            TaggedCommandNode::Argument(a) => a.name(),
        }
    }

    /// How the node reads in a usage line: nothing for the root, the
    /// literal, or `<name>` for an argument.
    pub fn usage_text(&self) -> (r: String)
        ensures
            r@ == match self@.kind {
                NodeKind::Root => Seq::empty(),
                NodeKind::Literal => self@.name,
                NodeKind::Argument => "<"@ + self@.name + ">"@,
            },
    {
        match &self.tagged {
            TaggedCommandNode::Root(_) => String::new(),
            TaggedCommandNode::Literal(l) => l.literal().to_owned(),
            TaggedCommandNode::Argument(a) => {
                let mut text = "<".to_owned();
                text.append(a.name());
                text.append(">");
                text
            },
        }
    }

    pub fn command(&self) -> (r: Option<CommandId>)
        ensures
            r == self@.command,
    {
        self.command
    }

    pub fn redirect(&self) -> (r: Option<NodeId>)
        ensures
            r == self@.redirect,
    {
        self.redirect
    }

    pub fn modifier(&self) -> (r: Option<ModifierId>)
        ensures
            r == self@.modifier,
    {
        self.modifier
    }

    pub fn forks(&self) -> (r: bool)
        ensures
            r == self@.forks,
    {
        self.forks
    }

    pub fn requirement(&self) -> (r: Option<RequirementId>)
        ensures
            r == self@.requirement,
    {
        self.requirement
    }

    /// Whether `source` may use this node: always without a requirement,
    /// else as `requirements` decides.
    pub fn can_use<CS, R: CommandRequirement<CS>>(&self, requirements: &R, source: &CS) -> (r: bool)
        ensures
            self@.requirement is None ==> r,
            self@.requirement matches Some(id) ==> r == requirements.spec_test(id, *source),
    {
        match self.requirement {
            None => true,
            Some(id) => requirements.test(id, source),
        }
    }


    /// Sample inputs of this node (see `node_examples`).
    pub fn examples(&self) -> (r: Vec<String>)
        ensures
            strings_of(r@) == node_examples(self@),
    {
        match &self.tagged {
            TaggedCommandNode::Root(_) => {
                let r: Vec<String> = Vec::new();
                proof {
                    assert(strings_of(r@) =~= Seq::<Seq<char>>::empty());
                }
                r
            },
            TaggedCommandNode::Literal(l) => {
                let mut r: Vec<String> = Vec::new();
                r.push(l.literal().to_owned());
                proof {
                    assert(strings_of(r@) =~= seq![self@.name]);
                }
                r
            },
            TaggedCommandNode::Argument(a) => {
                let ex = a.argument_type().examples();
                let mut r: Vec<String> = Vec::new();
                let mut i: usize = 0;
                while i < ex.len()
                    invariant
                        i <= ex@.len(),
                        strings_of(r@) == views_of(ex@).take(i as int),
                    decreases ex@.len() - i,
                {
                    let text: &str = ex[i];
                    let item: String = text.to_owned();
                    let ghost before = r@;
                    r.push(item);
                    proof {
                        assert(item@ == ex@[i as int]@);
                        assert(r@ == before.push(item));
                        assert(views_of(ex@)[i as int] == ex@[i as int]@);
                        assert(strings_of(before).len() == i);
                        assert(strings_of(r@).len() == i + 1);
                        assert(views_of(ex@).take(i + 1).len() == i + 1);
                        assert(strings_of(r@) =~= views_of(ex@).take(i + 1));
                    }
                    i = i + 1;
                }
                proof {
                    assert(views_of(ex@).take(i as int) =~= views_of(ex@));
                }
                r
            },
        }
    }

    /// Whether this node reads `input` on its own (see `node_accepts`).
    pub fn is_valid_input(&self, input: &str) -> (r: bool)
        ensures
            r == node_accepts(self@, input@),
    {
        match &self.tagged {
            TaggedCommandNode::Root(_) => false,
            TaggedCommandNode::Literal(l) => {
                let lit = l.literal();
                if !starts_with(input, lit) {
                    return false;
                }
                let ghost rest = input@.skip(lit@.len() as int);
                proof {
                    assert(input@ =~= lit@ + rest);
                    lemma_prefix_bytes(lit@, rest);
                    vstd::utf8::is_char_boundary_start_end_of_seq(vstd::utf8::encode_utf8(input@));
                }
                let after = str_slice(input, byte_length(lit), byte_length(input));
                if after.is_empty() {
                    return true;
                }
                proof {
                    assert(after@[0] == input@[lit@.len() as int]);
                }
                after.get_char(0) == ' '
            },
            TaggedCommandNode::Argument(a) => {
                let mut reader = StringReader::new(input);
                let ghost start = reader;
                let kind = a.argument_type();
                match kind.parse(&mut reader) {
                    Ok(v) => {
                        proof {
                            lemma_kind_read_consumes(kind, start, reader, Ok(v));
                        }
                        let rest = reader.remaining();
                        if rest.is_empty() {
                            true
                        } else {
                            rest.get_char(0) == ' '
                        }
                    },
                    Err(e) => {
                        proof {
                            lemma_kind_read_consumes(kind, start, reader, Err(e));
                        }
                        false
                    },
                }
            },
        }
    }

    /// The children, in the order they were added.
    pub fn children(&self) -> (r: Vec<NodeId>)
        ensures
            r@ == self@.children.map_values(|e: (Seq<char>, NodeId)| e.1),
    {
        edges_values(&self.edges.children)
    }

    /// The literal children, in the order they were added.
    pub fn literals(&self) -> (r: Vec<NodeId>)
        ensures
            r@ == self@.literals.map_values(|e: (Seq<char>, NodeId)| e.1),
    {
        edges_values(&self.edges.literal)
    }

    /// The argument children, in the order they were added.
    pub fn arguments(&self) -> (r: Vec<NodeId>)
        ensures
            r@ == self@.arguments.map_values(|e: (Seq<char>, NodeId)| e.1),
    {
        edges_values(&self.edges.argument)
    }

    /// The child filed under `name`.
    pub fn child(&self, name: &str) -> (r: Option<NodeId>)
        ensures
            r == lookup(self@.children, name@),
    {
        edges_get(&self.edges.children, name)
    }

    fn name_owned(&self) -> (r: String)
        ensures
            r@ == self@.name,
    {
        self.name().to_owned()
    }

    fn is_literal(&self) -> (r: bool)
        ensures
            r == (self@.kind == NodeKind::Literal),
    {
        match &self.tagged {
            TaggedCommandNode::Literal(_) => true,
            _ => false,
        }
    }

    fn is_root(&self) -> (r: bool)
        ensures
            r == (self@.kind == NodeKind::Root),
    {
        match &self.tagged {
            TaggedCommandNode::Root(_) => true,
            _ => false,
        }
    }
}

/// A command tree: the nodes in an arena, one of them the root.
pub struct TreeGraph {
    root: NodeId,
    nodes: Arena,
}

impl View for TreeGraph {
    type V = TreeView;

    closed spec fn view(&self) -> TreeView {
        TreeView { root: self.root, nodes: arena_nodes(self.nodes).map_values(|n: CommandNode| n@) }
    }
}

/// In a well-formed tree no two children of a node share a name.
pub proof fn lemma_child_names_unique(tree: &TreeGraph, parent: NodeId)
    requires
        tree.wf(),
        tree@.nodes.contains_key(parent),
    ensures
        distinct_names(tree@.nodes[parent].children),
{
}

/// A child under a new name comes after all the children already there,
/// which keep their order.
pub proof fn lemma_children_in_insertion_order(o: TreeView, f: TreeView, parent: NodeId, child: NodeId)
    requires
        attach_post(o, f, parent, child),
        can_attach(o, parent, child),
        lookup(o.nodes[parent].children, o.nodes[child].name) is None,
    ensures
        f.nodes[parent].children == o.nodes[parent].children.push((o.nodes[child].name, child)),
{
}

/// Merging a child into the existing child `ex` of the same name, under a
/// parent that nothing lists: the merged node leaves; the parent and `ex`
/// stay, the parent as it was; `ex` takes the merged node's command if it
/// had one and keeps its own otherwise; and `ex` has a child of every name
/// that the merged node had a child of.
pub proof fn lemma_merge_keeps_grandchildren(o: TreeView, f: TreeView, parent: NodeId, child: NodeId, ex: NodeId)
    requires
        attach_post(o, f, parent, child),
        can_attach(o, parent, child),
        unreferenced(o, parent),
        lookup(o.nodes[parent].children, o.nodes[child].name) == Some(ex),
    ensures
        !f.nodes.contains_key(child),
        f.nodes.contains_key(parent),
        f.nodes[parent] == o.nodes[parent],
        f.nodes.contains_key(ex),
        f.nodes[ex].command == (if o.nodes[child].command is Some {
            o.nodes[child].command
        } else {
            o.nodes[ex].command
        }),
        forall|i: int|
            0 <= i < o.nodes[child].children.len() ==> lookup(
                f.nodes[ex].children,
                (#[trigger] o.nodes[child].children[i]).0,
            ) is Some,
{
}

/// Every child name of a node in a well-formed tree is filed under the
/// children and under exactly one of the literals and the arguments, with
/// the same node.
pub proof fn lemma_child_filed_once(tree: &TreeGraph, parent: NodeId, name: Seq<char>)
    requires
        tree.wf(),
        tree@.nodes.contains_key(parent),
    ensures
        indexed_once(tree@.nodes[parent], name),
{
    assert(node_wf(tree@.nodes[parent]));
}

impl TreeGraph {
    pub closed spec fn arena_finite(&self) -> bool {
        arena_nodes(self.nodes).dom().finite()
    }

    /// One root, with nothing above it; every node well formed and filed
    /// under its own id.
    pub open spec fn wf(&self) -> bool {
        &&& self.arena_finite()
        &&& tree_wf(self@)
    }

    proof fn lemma_view(&self)
        ensures
            self@.nodes.dom() == arena_nodes(self.nodes).dom(),
            forall|k: NodeId| #[trigger]
                self@.nodes.contains_key(k) ==> self@.nodes[k] == arena_nodes(self.nodes)[k]@,
    {
        assert(self@.nodes.dom() =~= arena_nodes(self.nodes).dom());
    }

    /// A tree that holds only its root, which anyone may use.
    pub fn new() -> (r: Self)
        ensures
            r.wf(),
            r@.nodes.dom() == set![r@.root],
            r@.nodes[r@.root].kind == NodeKind::Root,
            r@.nodes[r@.root].name == Seq::<char>::empty(),
            r@.nodes[r@.root].children.len() == 0,
            r@.nodes[r@.root].requirement is None,
            r@.nodes[r@.root].command is None,
            r@.nodes[r@.root].redirect is None,
            r@.nodes[r@.root].modifier is None,
            !r@.nodes[r@.root].forks,
    {
        let mut nodes = arena_new();
        let node = CommandNode::detached(
            TaggedCommandNode::Root(RootCommandNode),
            None,
            None,
            None,
            false,
            None,
        );
        let root = arena_insert(&mut nodes, node);
        let n = arena_get_mut(&mut nodes, root);
        n.id = root;
        let r = TreeGraph { root, nodes };
        proof {
            r.lemma_view();
            assert(arena_nodes(r.nodes).dom() =~= set![root]);
            let v = r@.nodes[root];
            assert(v == NodeView { id: root, ..node@ });
            lemma_wf_with_id(node@, root);
        }
        r
    }

    pub fn root_id(&self) -> (r: NodeId)
        ensures
            r == self@.root,
    {
        self.root
    }

    pub fn contains_node(&self, node: NodeId) -> (r: bool)
        ensures
            r == self@.nodes.contains_key(node),
    {
        proof {
            self.lemma_view();
        }
        arena_contains(&self.nodes, node)
    }

    /// The ids of all nodes, each once.
    pub fn node_ids(&self) -> (r: Vec<NodeId>)
        ensures
            r@.no_duplicates(),
            r@.to_set() == self@.nodes.dom(),
    {
        proof {
            self.lemma_view();
        }
        arena_keys(&self.nodes)
    }

    /// The number of nodes.
    pub fn len(&self) -> (r: usize)
        requires
            self.wf(),
        ensures
            r == self@.nodes.len(),
    {
        proof {
            self.lemma_view();
        }
        arena_len(&self.nodes)
    }

    pub fn get(&self, node: NodeId) -> (r: Option<&CommandNode>)
        ensures
            r matches Some(n) ==> self@.nodes.contains_key(node) && n@ == self@.nodes[node],
            r is None ==> !self@.nodes.contains_key(node),
    {
        proof {
            self.lemma_view();
        }
        if arena_contains(&self.nodes, node) {
            Some(arena_get(&self.nodes, node))
        } else {
            None
        }
    }


    /// Files `child`, which nothing lists, under `parent`, or merges it into
    /// the child that has its name (see `attach_post`).
    #[verifier::rlimit(80)]
    pub(crate) fn attach(&mut self, parent: NodeId, child: NodeId)
        requires
            old(self).wf(),
            unreferenced(old(self)@, child),
        ensures
            final(self).wf(),
            kept(old(self)@, final(self)@),
            attach_post(old(self)@, final(self)@, parent, child),
            frame_unreferenced(old(self)@, final(self)@, parent, child),
            survivors_keep_children(old(self)@, final(self)@, child),
            attaches_as(old(self)@, final(self)@, parent, child),
        decreases old(self)@.nodes.len(),
    {
        proof {
            self.lemma_view();
        }
        let ghost o = self@;
        assert(o == old(self)@);
        if !arena_contains(&self.nodes, parent) || !arena_contains(&self.nodes, child) || parent
            == child {
            return;
        }
        let cnode = arena_get(&self.nodes, child);
        if cnode.is_root() {
            return;
        }
        let name = cnode.name_owned();
        let is_literal = cnode.is_literal();
        let existing = arena_get(&self.nodes, parent).child(name.as_str());
        match existing {
            None => {
                let ghost pv = o.nodes[parent];
                let p = arena_get_mut(&mut self.nodes, parent);
                edges_insert(&mut p.edges.children, name.clone(), child);
                if is_literal {
                    proof {
                        assert(indexed_once(pv, name@));
                    }
                    edges_insert(&mut p.edges.literal, name, child);
                } else {
                    proof {
                        assert(indexed_once(pv, name@));
                    }
                    edges_insert(&mut p.edges.argument, name, child);
                }
                proof {
                    self.lemma_view();
                    let c = o.nodes[child];
                    let np = with_child(pv, c.name, c.kind, child);
                    assert(self@.nodes =~= o.nodes.insert(parent, np));
                    lemma_add_entry(o, parent, child);
                    assert(self@ == TreeView { root: o.root, nodes: o.nodes.insert(parent, np) });
                }
            },
            Some(ex) => {
                let ghost cv = o.nodes[child];
                let ghost gs = cv.children;
                proof {
                    lemma_lookup_entry(o.nodes[parent].children, name@);
                    let j0 = choose|j: int|
                        0 <= j < o.nodes[parent].children.len() && o.nodes[parent].children[j]
                            == (name@, ex);
                    assert(entry_ok(o, parent, j0));
                    assert(o.nodes[parent].children[j0].1 == ex);
                    assert forall|j: int| 0 <= j < gs.len() implies (#[trigger] gs[j]).1 != ex by {
                        assert(o.nodes[child].children[j] == gs[j]);
                    }
                }
                let saved = arena_get(&self.nodes, ex).command;
                let removed = arena_remove(&mut self.nodes, child);
                let node = match removed {
                    Some(n) => n,
                    None => return ,
                };
                let grandchildren = node.children();
                let ghost s2 = self@;
                proof {
                    self.lemma_view();
                    assert(s2.nodes =~= o.nodes.remove(child));
                    assert(s2 == TreeView { root: o.root, nodes: o.nodes.remove(child) });
                    assert(gs.take(0) =~= Seq::<(Seq<char>, NodeId)>::empty());
                    lemma_remove_node(o, child);
                    assert(kept(o, s2));
                    assert(o.nodes.dom().contains(child));
                    assert(s2.nodes.len() < o.nodes.len());
                }
                let mut i: usize = 0;
                while i < grandchildren.len()
                    invariant
                        o == old(self)@,
                        self.wf(),
                        tree_wf(o),
                        o.nodes.contains_key(child),
                        o.nodes.contains_key(ex),
                        cv == o.nodes[child],
                        gs == cv.children,
                        unreferenced(o, child),
                        ex != child,
                        exists|j0: int|
                            0 <= j0 < o.nodes[parent].children.len() && o.nodes[parent].children[j0]
                                == (name@, ex),
                        parent != child,
                        o.nodes.contains_key(parent),
                        forall|j: int| 0 <= j < gs.len() ==> (#[trigger] gs[j]).1 != ex,
                        s2.nodes.dom().finite(),
                        s2.nodes.len() < o.nodes.len(),
                        s2.nodes.dom() == o.nodes.dom().remove(child),
                        kept(o, self@),
                        !self@.nodes.contains_key(child),
                        i <= grandchildren@.len(),
                        grandchildren@ == gs.map_values(|e: (Seq<char>, NodeId)| e.1),
                        forall|x: NodeId|
                            #[trigger] o.nodes.contains_key(x) && unreferenced(o, x) && x != child
                                ==> {
                                &&& self@.nodes.contains_key(x)
                                &&& unreferenced(self@, x)
                                &&& self@.nodes[x] == o.nodes[x]
                            },
                        survivors_keep_children(o, self@, child),
                        s2 == (TreeView { root: o.root, nodes: o.nodes.remove(child) }),
                        forall|fuel: nat|
                            fuel >= o.nodes.len() ==> self@ == #[trigger] merge_all(
                                s2,
                                ex,
                                gs.take(i as int),
                                (fuel - 1) as nat,
                            ),
                        forall|j: int|
                            i <= j < gs.len() ==> self@.nodes.contains_key((#[trigger] gs[j]).1)
                                && unreferenced(self@, gs[j].1),
                        self@.nodes.contains_key(ex) ==> forall|j: int|
                            0 <= j < i ==> lookup(self@.nodes[ex].children, (#[trigger] gs[j]).0)
                                is Some,
                    decreases grandchildren@.len() - i,
                {
                    let g = grandchildren[i];
                    let ghost cur = self@;
                    proof {
                        vstd::set_lib::lemma_len_subset(cur.nodes.dom(), s2.nodes.dom());
                        assert(cur.nodes.len() <= s2.nodes.len());
                        assert(self@.nodes.len() < old(self)@.nodes.len());
                        assert(g == gs[i as int].1);
                        assert(o.nodes[child].children[i as int] == gs[i as int]);
                    }
                    self.attach(ex, g);
                    proof {
                        let n = self@;
                        let gi = gs[i as int];
                        assert forall|fuel: nat| fuel >= o.nodes.len() implies n
                            == #[trigger] merge_all(s2, ex, gs.take(i + 1), (fuel - 1) as nat) by {
                            lemma_merge_all_step(s2, ex, gs, i as int, (fuel - 1) as nat);
                            assert(cur == merge_all(s2, ex, gs.take(i as int), (fuel - 1) as nat));
                            assert(n == attach_spec(cur, ex, g, (fuel - 1) as nat));
                        }
                        lemma_kept_trans(o, cur, n);
                        assert(entry_ok(o, child, i as int));
                        // nodes that nothing lists stay as they were
                        assert forall|x: NodeId|
                            #[trigger] o.nodes.contains_key(x) && unreferenced(o, x) && x != child
                                implies {
                            &&& n.nodes.contains_key(x)
                            &&& unreferenced(n, x)
                            &&& n.nodes[x] == o.nodes[x]
                        } by {
                            assert(o.nodes[child].children[i as int].1 != x);
                            let j0 = choose|j0: int|
                                0 <= j0 < o.nodes[parent].children.len()
                                    && o.nodes[parent].children[j0] == (name@, ex);
                            assert(o.nodes[parent].children[j0].1 != x);
                            assert(cur.nodes.contains_key(x));
                        }
                        // listed nodes of surviving nodes survive
                        assert forall|y: NodeId, k: int|
                            #![trigger o.nodes[y].children[k]]
                            o.nodes.contains_key(y) && 0 <= k < o.nodes[y].children.len()
                                && o.nodes[y].children[k].1 != child && n.nodes.contains_key(
                                y,
                            ) implies n.nodes.contains_key(o.nodes[y].children[k].1) by {
                            assert(cur.nodes.contains_key(y));
                            assert(cur.nodes[y].children[k] == o.nodes[y].children[k]);
                            assert(cur.nodes[y].children[k].1 != g);
                        }
                        // later grandchildren are still there, unlisted
                        assert forall|j: int|
                            i + 1 <= j < gs.len() implies n.nodes.contains_key(
                                (#[trigger] gs[j]).1,
                            ) && unreferenced(n, gs[j].1) by {
                            assert(o.nodes[child].children[j] == gs[j]);
                            assert(gs[j].1 != g);
                            assert(gs[j].1 != ex);
                            assert(cur.nodes.contains_key(gs[j].1));
                        }
                        // the names filed under `ex` so far, and this one
                        if n.nodes.contains_key(ex) {
                            assert(cur.nodes.contains_key(ex));
                            assert forall|j: int| 0 <= j < i + 1 implies lookup(
                                n.nodes[ex].children,
                                (#[trigger] gs[j]).0,
                            ) is Some by {
                                if j < i {
                                    lemma_lookup_prefix(
                                        cur.nodes[ex].children,
                                        n.nodes[ex].children,
                                        gs[j].0,
                                    );
                                } else {
                                    assert(o.nodes[gi.1].name == gi.0);
                                    assert(cur.nodes[g].name == gi.0);
                                    assert(g != cur.root);
                                    assert(cur.nodes[g].kind != NodeKind::Root);
                                    assert(can_attach(cur, ex, g));
                                    match lookup(cur.nodes[ex].children, gi.0) {
                                        None => {
                                            lemma_lookup_pushed(cur.nodes[ex].children, gi.0, g);
                                        },
                                        Some(_) => {
                                            lemma_lookup_prefix(
                                                cur.nodes[ex].children,
                                                n.nodes[ex].children,
                                                gi.0,
                                            );
                                        },
                                    }
                                }
                            }
                        }
                    }
                    i = i + 1;
                }
                let ghost pre = self@;
                let ghost cmd = if cv.command is Some {
                    cv.command
                } else {
                    o.nodes[ex].command
                };
                proof {
                    assert(node@ == cv);
                }
                if arena_contains(&self.nodes, ex) {
                    let ghost cur = self@;
                    proof {
                        self.lemma_view();
                        assert(o.nodes.contains_key(parent));
                    }
                    let command = match node.command {
                        Some(c) => Some(c),
                        None => saved,
                    };
                    let e = arena_get_mut(&mut self.nodes, ex);
                    e.command = command;
                    proof {
                        self.lemma_view();
                        assert(self@.nodes =~= cur.nodes.insert(
                            ex,
                            NodeView { command, ..cur.nodes[ex] },
                        ));
                        lemma_set_command(cur, ex, command);
                        assert(command == cmd);
                        assert(self@ == set_command_spec(cur, ex, command));
                        lemma_kept_trans(o, cur, self@);
                        let f = self@;
                        assert forall|x: NodeId|
                            #[trigger] o.nodes.contains_key(x) && unreferenced(o, x) && x != child
                                implies {
                            &&& f.nodes.contains_key(x)
                            &&& unreferenced(f, x)
                            &&& f.nodes[x] == o.nodes[x]
                        } by {
                            let j0 = choose|j0: int|
                                0 <= j0 < o.nodes[parent].children.len()
                                    && o.nodes[parent].children[j0] == (name@, ex);
                            assert(o.nodes[parent].children[j0].1 != x);
                            assert forall|k: NodeId, q: int|
                                f.nodes.contains_key(k) && 0 <= q < f.nodes[k].children.len()
                                    implies (#[trigger] f.nodes[k].children[q]).1 != x by {
                                assert(f.nodes[k].children == cur.nodes[k].children);
                                assert(cur.nodes[k].children[q] == f.nodes[k].children[q]);
                            }
                        }
                    }
                }
                proof {
                    let f = self@;
                    assert(gs.take(gs.len() as int) =~= gs);
                    assert(f == set_command_spec(pre, ex, cmd));
                    assert forall|fuel: nat| fuel >= o.nodes.len() implies f
                        == #[trigger] attach_spec(o, parent, child, fuel) by {
                        let m = merge_all(s2, ex, gs, (fuel - 1) as nat);
                        assert(pre == merge_all(s2, ex, gs.take(gs.len() as int), (fuel - 1) as nat));
                        assert(f == set_command_spec(m, ex, cmd));
                    }
                    let j0 = choose|j0: int|
                        0 <= j0 < o.nodes[parent].children.len() && o.nodes[parent].children[j0]
                            == (name@, ex);
                    assert(o.nodes[parent].children[j0].1 == ex);
                    if f.nodes.contains_key(parent) {
                        assert(o.nodes[parent].children[j0].1 != child);
                    }
                    if unreferenced(o, parent) {
                        assert(o.nodes.contains_key(parent));
                    }
                    if f.nodes.contains_key(ex) {
                        assert forall|j: int| 0 <= j < cv.children.len() implies lookup(
                            f.nodes[ex].children,
                            (#[trigger] cv.children[j]).0,
                        ) is Some by {
                            assert(gs[j] == cv.children[j]);
                        }
                    }
                }
            },
        }
    }

    /// Adds `child`, a node that is nobody's child yet, under `parent`: the
    /// result is exactly `attach_spec` (a new name is filed last; a taken one
    /// merges `child` into the existing node, recursively). `child` must be a
    /// node that was built and not yet attached: a merge destroys it, so a
    /// node that some other parent still listed would leave that parent
    /// listing a node that no longer exists.
    pub fn add_child(&mut self, parent: NodeId, child: NodeId)
        requires
            old(self).wf(),
            old(self)@.nodes.contains_key(parent),
            old(self)@.nodes.contains_key(child),
            parent != child,
            old(self)@.nodes[child].kind != NodeKind::Root,
            unreferenced(old(self)@, child),
        ensures
            final(self).wf(),
            kept(old(self)@, final(self)@),
            attach_post(old(self)@, final(self)@, parent, child),
            frame_unreferenced(old(self)@, final(self)@, parent, child),
            survivors_keep_children(old(self)@, final(self)@, child),
            attaches_as(old(self)@, final(self)@, parent, child),
    {
        self.attach(parent, child);
    }

    /// Gives `node` the command `command`, or none; nothing else changes.
    pub fn set_command(&mut self, node: NodeId, command: Option<CommandId>)
        requires
            old(self).wf(),
            old(self)@.nodes.contains_key(node),
        ensures
            final(self).wf(),
            final(self)@ == (TreeView {
                root: old(self)@.root,
                nodes: old(self)@.nodes.insert(node, NodeView { command, ..old(self)@.nodes[node] }),
            }),
    {
        proof {
            self.lemma_view();
        }
        let ghost o = self@;
        let n = arena_get_mut(&mut self.nodes, node);
        n.command = command;
        proof {
            self.lemma_view();
            assert(self@.nodes =~= o.nodes.insert(node, NodeView { command, ..o.nodes[node] }));
            lemma_set_command(o, node, command);
        }
    }

    /// Whether some node lists `x` as a child.
    pub fn has_parent(&self, x: NodeId) -> (r: bool)
        requires
            self.wf(),
        ensures
            r == !unreferenced(self@, x),
    {
        let ids = self.node_ids();
        let mut i: usize = 0;
        while i < ids.len()
            invariant
                i <= ids@.len(),
                ids@.to_set() == self@.nodes.dom(),
                forall|j: int, e: int|
                    0 <= j < i && 0 <= e < self@.nodes[ids@[j]].children.len() ==> (
                    #[trigger] self@.nodes[ids@[j]].children[e]).1 != x,
            decreases ids@.len() - i,
        {
            let k = ids[i];
            proof {
                assert(ids@.to_set().contains(k));
                self.lemma_view();
                assert(self@.nodes.contains_key(k));
            }
            let kids = arena_get(&self.nodes, k).children();
            let mut e: usize = 0;
            while e < kids.len()
                invariant
                    e <= kids@.len(),
                    kids@ == self@.nodes[k].children.map_values(|q: (Seq<char>, NodeId)| q.1),
                    self@.nodes.contains_key(k),
                    forall|q: int| 0 <= q < e ==> kids@[q] != x,
                decreases kids@.len() - e,
            {
                if kids[e] == x {
                    proof {
                        assert(self@.nodes.contains_key(k));
                        assert(self@.nodes[k].children[e as int].1 == x);
                    }
                    return true;
                }
                e = e + 1;
            }
            proof {
                assert forall|j: int, q: int|
                    0 <= j < i + 1 && 0 <= q < self@.nodes[ids@[j]].children.len() implies (
                    #[trigger] self@.nodes[ids@[j]].children[q]).1 != x by {
                    if j == i {
                        assert(kids@[q] == self@.nodes[k].children[q].1);
                    }
                }
            }
            i = i + 1;
        }
        proof {
            assert forall|k: NodeId, q: int|
                self@.nodes.contains_key(k) && 0 <= q < self@.nodes[k].children.len() implies (
                #[trigger] self@.nodes[k].children[q]).1 != x by {
                assert(ids@.to_set().contains(k));
                assert(ids@.contains(k));
                let j = choose|j: int| 0 <= j < ids@.len() && ids@[j] == k;
            }
        }
        false
    }

    /// Stores a new node without children and returns its id.
    pub(crate) fn insert(&mut self, node: CommandNode) -> (r: NodeId)
        requires
            old(self).wf(),
            old(self)@.nodes.len() < u32::MAX - 1,
            node@.kind != NodeKind::Root,
            node@.children.len() == 0,
            node_wf(node@),
        ensures
            final(self).wf(),
            !old(self)@.nodes.contains_key(r),
            final(self)@.root == old(self)@.root,
            final(self)@.nodes == old(self)@.nodes.insert(r, NodeView { id: r, ..node@ }),
            unreferenced(final(self)@, r),
    {
        proof {
            self.lemma_view();
        }
        let id = arena_insert(&mut self.nodes, node);
        let n = arena_get_mut(&mut self.nodes, id);
        n.id = id;
        proof {
            self.lemma_view();
            assert(self@.nodes =~= old(self)@.nodes.insert(id, NodeView { id, ..node@ }));
            let v = self@;
            let o = old(self)@;
            lemma_wf_with_id(node@, id);
            assert forall|k: NodeId| #[trigger] v.nodes.contains_key(k) implies {
                &&& v.nodes[k].id == k
                &&& node_wf(v.nodes[k])
                &&& (k != v.root ==> v.nodes[k].kind != NodeKind::Root)
                &&& forall|i: int|
                    0 <= i < v.nodes[k].children.len() ==> (#[trigger] v.nodes[k].children[i]).1
                        != v.root
            } by {
                if k != id {
                    assert(o.nodes.contains_key(k));
                }
            }
        }
        id
    }
}


} // verus!
