use vstd::prelude::*;

use crate::attribute::AttributeKind;
use crate::registry::spec_find_mutator;
use crate::registry::ComponentBuilder;
use crate::registry::DioxusBuilders;
use crate::scene::SceneGraph;

verus! {

/// One attribute declared on a template node: either a value fixed by the
/// template, or a dynamic slot whose value arrives later through attribute
/// mutations.
#[derive(Debug, PartialEq, Eq)]
pub enum TemplateAttribute {
    Static { name: String, value: String },
    Dynamic,
}

/// One node of a static template subtree computed by the UI engine.
#[derive(Debug, PartialEq, Eq)]
pub enum TemplateNode {
    /// An element of some kind, with attributes and an ordered child list.
    Element { tag: String, attrs: Vec<TemplateAttribute>, children: Vec<TemplateNode> },
    /// A text node.
    Text { text: String },
    /// A placeholder for content the UI engine fills in dynamically.
    Dynamic,
}

/// A template: the static subtrees the UI engine may ask to have realized.
#[derive(Debug, PartialEq, Eq)]
pub struct Template {
    pub roots: Vec<TemplateNode>,
}

/// Whether the subtree under entity `e` realizes the template node exactly:
/// same shape, same child order, same text content, and the element-kind
/// tag recorded exactly on elements whose kind is registered.
pub open spec fn realizes(s: SceneGraph, b: DioxusBuilders, e: usize, node: TemplateNode) -> bool
    decreases node,
{
    match node {
        TemplateNode::Element { tag, attrs, children } => {
            &&& s.live(e)
            &&& s.text_of(e) is None
            &&& s.tag_of(e) == if b.lookup_index(tag@) is Some {
                Some(tag@)
            } else {
                None::<Seq<char>>
            }
            &&& s.children_of(e).len() == children@.len()
            &&& forall|i: int|
                0 <= i < children@.len() ==> realizes(
                    s,
                    b,
                    s.children_of(e)[i],
                    #[trigger] children@[i],
                )
        },
        TemplateNode::Text { text } => {
            &&& s.live(e)
            &&& s.text_of(e) == Some(text@)
            &&& s.tag_of(e) is None
            &&& s.children_of(e).len() == 0
        },
        TemplateNode::Dynamic => {
            &&& s.live(e)
            &&& s.text_of(e) is None
            &&& s.tag_of(e) is None
            &&& s.children_of(e).len() == 0
        },
    }
}

/// Whether one template attribute can be applied when its node's kind is
/// the given registry entry: a fixed value either reaches no mutator (an
/// unknown attribute name is ignored) or reaches one that expects text.
pub open spec fn attr_ok(entry: ComponentBuilder, attr: TemplateAttribute) -> bool {
    match attr {
        TemplateAttribute::Static { name, value } => match spec_find_mutator(
            entry.attribute_mutators@,
            name@,
        ) {
            Some(j) => entry.attribute_mutators@[j].kind == AttributeKind::Text,
            None => true,
        },
        TemplateAttribute::Dynamic => true,
    }
}

/// Whether every fixed attribute value in the subtree converts cleanly:
/// realizing the subtree succeeds exactly under this condition.  A node
/// whose kind is not registered applies no attributes at all.
pub open spec fn static_attrs_ok(b: DioxusBuilders, node: TemplateNode) -> bool
    decreases node,
{
    match node {
        TemplateNode::Element { tag, attrs, children } => {
            &&& match b.lookup_index(tag@) {
                Some(k) => forall|i: int|
                    0 <= i < attrs@.len() ==> attr_ok(b.entries()[k as int], #[trigger] attrs@[i]),
                None => true,
            }
            &&& forall|i: int|
                0 <= i < children@.len() ==> static_attrs_ok(b, #[trigger] children@[i])
        },
        TemplateNode::Text { .. } => true,
        TemplateNode::Dynamic => true,
    }
}

/// Whether every entity of the realized subtree under `e` has a handle of
/// at least `lo`: realization spawns only fresh entities, so the subtree
/// sits entirely above the handles that existed before.
pub open spec fn subtree_above(s: SceneGraph, e: usize, node: TemplateNode, lo: nat) -> bool
    decreases node,
{
    &&& e >= lo
    &&& match node {
        TemplateNode::Element { tag, attrs, children } => forall|i: int|
            0 <= i < children@.len() ==> subtree_above(
                s,
                s.children_of(e)[i],
                #[trigger] children@[i],
                lo,
            ),
        TemplateNode::Text { .. } => true,
        TemplateNode::Dynamic => true,
    }
}

/// How many entities realizing the subtree spawns: one per template node.
pub open spec fn subtree_size(node: TemplateNode) -> nat
    decreases node,
{
    match node {
        TemplateNode::Element { tag, attrs, children } => 1 + subtree_seq_size(children@),
        TemplateNode::Text { .. } => 1,
        TemplateNode::Dynamic => 1,
    }
}

/// How many entities realizing a run of subtrees spawns.
pub open spec fn subtree_seq_size(nodes: Seq<TemplateNode>) -> nat
    decreases nodes,
{
    if nodes.len() == 0 {
        0
    } else {
        subtree_size(nodes[0]) + subtree_seq_size(nodes.drop_first())
    }
}

/// Sizes of a run of subtrees add up node by node.
pub proof fn lemma_subtree_seq_size_snoc(nodes: Seq<TemplateNode>, node: TemplateNode)
    ensures
        subtree_seq_size(nodes.push(node)) == subtree_seq_size(nodes) + subtree_size(node),
    decreases nodes.len(),
{
    let whole = nodes.push(node);
    if nodes.len() == 0 {
        assert(whole[0] == node);
        assert(whole.drop_first() =~= Seq::<TemplateNode>::empty());
        assert(subtree_seq_size(Seq::<TemplateNode>::empty()) == 0);
        assert(subtree_seq_size(nodes) == 0);
        assert(subtree_seq_size(whole) == subtree_size(node) + subtree_seq_size(
            whole.drop_first(),
        ));
    } else {
        assert(whole[0] == nodes[0]);
        assert(whole.drop_first() =~= nodes.drop_first().push(node));
        lemma_subtree_seq_size_snoc(nodes.drop_first(), node);
        assert(subtree_seq_size(whole) == subtree_size(nodes[0]) + subtree_seq_size(
            whole.drop_first(),
        ));
        assert(subtree_seq_size(nodes) == subtree_size(nodes[0]) + subtree_seq_size(
            nodes.drop_first(),
        ));
    }
}

/// The host-side work applying one template attribute calls for on entity
/// `e` of the element kind at registry position `k`: one mutator run for a
/// fixed value whose name reaches a mutator, nothing otherwise.
pub open spec fn attr_effect(
    entry: ComponentBuilder,
    k: usize,
    e: usize,
    attr: TemplateAttribute,
) -> Seq<crate::commands::Effect> {
    match attr {
        TemplateAttribute::Static { name, value } => match spec_find_mutator(
            entry.attribute_mutators@,
            name@,
        ) {
            Some(j) => seq![
                (crate::commands::Effect::ApplyAttribute {
                    kind: k,
                    mutator: j as usize,
                    entity: e,
                    value: crate::attribute::AttributeValue::Text(value),
                }),
            ],
            None => Seq::empty(),
        },
        TemplateAttribute::Dynamic => Seq::empty(),
    }
}

/// The host-side work applying a run of template attributes calls for.
pub open spec fn attr_effects(
    entry: ComponentBuilder,
    k: usize,
    e: usize,
    attrs: Seq<TemplateAttribute>,
) -> Seq<crate::commands::Effect>
    decreases attrs.len(),
{
    if attrs.len() == 0 {
        Seq::empty()
    } else {
        attr_effect(entry, k, e, attrs[0]) + attr_effects(entry, k, e, attrs.drop_first())
    }
}

/// Attribute effects accumulate attribute by attribute.
pub proof fn lemma_attr_effects_snoc(
    entry: ComponentBuilder,
    k: usize,
    e: usize,
    attrs: Seq<TemplateAttribute>,
    attr: TemplateAttribute,
)
    ensures
        attr_effects(entry, k, e, attrs.push(attr)) == attr_effects(entry, k, e, attrs)
            + attr_effect(entry, k, e, attr),
    decreases attrs.len(),
{
    let whole = attrs.push(attr);
    if attrs.len() == 0 {
        assert(whole[0] == attr);
        assert(whole.drop_first() =~= Seq::<TemplateAttribute>::empty());
        assert(attr_effects(entry, k, e, whole) == attr_effect(entry, k, e, attr) + attr_effects(
            entry,
            k,
            e,
            whole.drop_first(),
        ));
        assert(attr_effects(entry, k, e, whole.drop_first()) == Seq::<
            crate::commands::Effect,
        >::empty());
        assert(attr_effects(entry, k, e, attrs) == Seq::<crate::commands::Effect>::empty());
        assert(attr_effects(entry, k, e, whole) =~= attr_effects(entry, k, e, attrs)
            + attr_effect(entry, k, e, attr));
    } else {
        assert(whole[0] == attrs[0]);
        assert(whole.drop_first() =~= attrs.drop_first().push(attr));
        lemma_attr_effects_snoc(entry, k, e, attrs.drop_first(), attr);
        assert(attr_effects(entry, k, e, whole) == attr_effect(entry, k, e, attrs[0])
            + attr_effects(entry, k, e, whole.drop_first()));
        assert(attr_effects(entry, k, e, attrs) == attr_effect(entry, k, e, attrs[0])
            + attr_effects(entry, k, e, attrs.drop_first()));
        assert(attr_effects(entry, k, e, whole) =~= attr_effects(entry, k, e, attrs)
            + attr_effect(entry, k, e, attr));
    }
}

/// The host-side work realizing the subtree calls for, when its entities
/// are numbered from `base` in spawn order: for an element of a registered
/// kind, its initializer first, then its fixed attributes in declaration
/// order, then its children's work; nothing at all for other nodes.
pub open spec fn template_effects(b: DioxusBuilders, node: TemplateNode, base: nat) -> Seq<
    crate::commands::Effect,
>
    decreases node,
{
    match node {
        TemplateNode::Element { tag, attrs, children } => match b.lookup_index(tag@) {
            Some(k) => seq![
                (crate::commands::Effect::Initialize { kind: k, entity: base as usize }),
            ] + attr_effects(b.entries()[k as int], k, base as usize, attrs@)
                + template_seq_effects(b, children@, base + 1),
            None => template_seq_effects(b, children@, base + 1),
        },
        TemplateNode::Text { .. } => Seq::empty(),
        TemplateNode::Dynamic => Seq::empty(),
    }
}

/// The host-side work realizing a run of subtrees calls for, numbering
/// each subtree's entities after the previous subtree's.
pub open spec fn template_seq_effects(b: DioxusBuilders, nodes: Seq<TemplateNode>, base: nat) -> Seq<
    crate::commands::Effect,
>
    decreases nodes,
{
    if nodes.len() == 0 {
        Seq::empty()
    } else {
        template_effects(b, nodes[0], base) + template_seq_effects(
            b,
            nodes.drop_first(),
            base + subtree_size(nodes[0]),
        )
    }
}

/// Subtree effects accumulate subtree by subtree.
pub proof fn lemma_template_seq_effects_snoc(
    b: DioxusBuilders,
    nodes: Seq<TemplateNode>,
    node: TemplateNode,
    base: nat,
)
    ensures
        template_seq_effects(b, nodes.push(node), base) == template_seq_effects(b, nodes, base)
            + template_effects(b, node, base + subtree_seq_size(nodes)),
    decreases nodes.len(),
{
    let whole = nodes.push(node);
    if nodes.len() == 0 {
        assert(whole[0] == node);
        assert(whole.drop_first() =~= Seq::<TemplateNode>::empty());
        assert(template_seq_effects(b, whole, base) == template_effects(b, node, base)
            + template_seq_effects(b, whole.drop_first(), base + subtree_size(node)));
        assert(template_seq_effects(b, whole.drop_first(), base + subtree_size(node)) == Seq::<
            crate::commands::Effect,
        >::empty());
        assert(template_seq_effects(b, nodes, base) == Seq::<crate::commands::Effect>::empty());
        assert(subtree_seq_size(nodes) == 0);
        assert(template_seq_effects(b, whole, base) =~= template_seq_effects(b, nodes, base)
            + template_effects(b, node, base + subtree_seq_size(nodes)));
    } else {
        assert(whole[0] == nodes[0]);
        assert(whole.drop_first() =~= nodes.drop_first().push(node));
        lemma_template_seq_effects_snoc(b, nodes.drop_first(), node, base + subtree_size(nodes[0]));
        assert(template_seq_effects(b, whole, base) == template_effects(b, nodes[0], base)
            + template_seq_effects(b, whole.drop_first(), base + subtree_size(nodes[0])));
        assert(template_seq_effects(b, nodes, base) == template_effects(b, nodes[0], base)
            + template_seq_effects(b, nodes.drop_first(), base + subtree_size(nodes[0])));
        assert(subtree_seq_size(nodes) == subtree_size(nodes[0]) + subtree_seq_size(
            nodes.drop_first(),
        ));
        assert(template_seq_effects(b, whole, base) =~= template_seq_effects(b, nodes, base)
            + template_effects(b, node, base + subtree_seq_size(nodes)));
    }
}

/// The template node reached from `node` by following child indices, when
/// the whole path stays inside the tree.
pub open spec fn template_node_at(node: TemplateNode, path: Seq<u8>) -> Option<TemplateNode>
    decreases path.len(),
{
    if path.len() == 0 {
        Some(node)
    } else {
        match node {
            TemplateNode::Element { tag, attrs, children } => {
                let i = path[0] as int;
                if i < children@.len() {
                    template_node_at(children@[i], path.skip(1))
                } else {
                    None
                }
            },
            TemplateNode::Text { .. } => None,
            TemplateNode::Dynamic => None,
        }
    }
}

/// Law: in a realized subtree, every child-index path that is valid in the
/// template resolves, and it reaches exactly the entity that realizes the
/// template node at that path.  In particular the id a path-based binding
/// assigns after a template was realized designates the right descendant.
pub proof fn lemma_realized_path_resolves(
    s: SceneGraph,
    b: DioxusBuilders,
    e: usize,
    node: TemplateNode,
    path: Seq<u8>,
)
    requires
        realizes(s, b, e, node),
        template_node_at(node, path) is Some,
    ensures
        s.descend(e, path) is Some,
        realizes(s, b, s.descend(e, path)->0, template_node_at(node, path)->0),
    decreases path.len(),
{
    if path.len() > 0 {
        match node {
            TemplateNode::Element { tag, attrs, children } => {
                let i = path[0] as int;
                assert(0 <= i < children@.len());
                assert(realizes(s, b, s.children_of(e)[i], children@[i]));
                lemma_realized_path_resolves(s, b, s.children_of(e)[i], children@[i], path.skip(1));
            },
            TemplateNode::Text { .. } => {},
            TemplateNode::Dynamic => {},
        }
    }
}

/// A subtree above some bound is also above any smaller bound.
pub proof fn lemma_subtree_above_mono(
    s: SceneGraph,
    e: usize,
    node: TemplateNode,
    lo: nat,
    hi: nat,
)
    requires
        subtree_above(s, e, node, hi),
        lo <= hi,
    ensures
        subtree_above(s, e, node, lo),
    decreases node,
{
    match node {
        TemplateNode::Element { tag, attrs, children } => {
            assert forall|i: int| 0 <= i < children@.len() implies subtree_above(
                s,
                s.children_of(e)[i],
                #[trigger] children@[i],
                lo,
            ) by {
                lemma_subtree_above_mono(s, s.children_of(e)[i], children@[i], lo, hi);
            }
        },
        _ => {},
    }
}

/// A realized subtree whose entities all sit at or above `lo` stays
/// realized in any later graph that keeps the liveness, child list, text
/// and tag of every live entity at or above `lo` (parents may change, and
/// entities below `lo` may change arbitrarily).
pub proof fn lemma_realizes_frame_above(
    s1: SceneGraph,
    s2: SceneGraph,
    b: DioxusBuilders,
    e: usize,
    node: TemplateNode,
    lo: nat,
)
    requires
        realizes(s1, b, e, node),
        subtree_above(s1, e, node, lo),
        forall|n: usize|
            #![trigger s1.live(n)]
            n >= lo && s1.live(n) ==> s1.same_node_except_parent(s2, n),
    ensures
        realizes(s2, b, e, node),
        subtree_above(s2, e, node, lo),
    decreases node,
{
    match node {
        TemplateNode::Element { tag, attrs, children } => {
            assert(s1.live(e));
            assert forall|i: int| 0 <= i < children@.len() implies realizes(
                s2,
                b,
                s2.children_of(e)[i],
                #[trigger] children@[i],
            ) && subtree_above(s2, s2.children_of(e)[i], children@[i], lo) by {
                assert(realizes(s1, b, s1.children_of(e)[i], children@[i]));
                assert(subtree_above(s1, s1.children_of(e)[i], children@[i], lo));
                lemma_realizes_frame_above(s1, s2, b, s1.children_of(e)[i], children@[i], lo);
                assert(s2.children_of(e) == s1.children_of(e));
            }
        },
        TemplateNode::Text { .. } => {},
        TemplateNode::Dynamic => {},
    }
}

} // verus!
