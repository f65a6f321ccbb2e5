use vstd::prelude::*;

use crate::attribute::convert_attribute;
use crate::attribute::kind_matches;
use crate::attribute::AttributeValue;
use crate::commands::stack_delta;
use crate::commands::Command;
use crate::commands::Effect;
use crate::commands::EventChannels;
use crate::error::CoreError;
use crate::registry::find_mutator;
use crate::registry::spec_find_installer;
use crate::registry::spec_find_mutator;
use crate::registry::DioxusBuilders;
use crate::registry::EventInstallers;
use crate::root::DioxusRoot;
use crate::scene::SceneGraph;
use crate::template::lemma_realizes_frame_above;
use crate::template::lemma_subtree_above_mono;
use crate::template::realizes;
use crate::template::static_attrs_ok;
use crate::template::subtree_above;
use crate::template::Template;
use crate::template::TemplateAttribute;
use crate::template::TemplateNode;

verus! {

broadcast use crate::scene::scene_live_bound;

/// The mutation interpreter for one UI root.
///
/// During a render pass the UI engine calls one interpretation method per
/// mutation operation; each queues exactly one deferred command.  Executing
/// the drained commands later (see `apply_command`) maintains the
/// construction stack that the stream's pop-style operations work against:
/// the stack lives here so that it persists across the commands of one
/// pass and is empty between passes.
pub struct WorldRenderer {
    root_entity: usize,
    stack: Vec<usize>,
    commands: Vec<Command>,
}

impl WorldRenderer {
    /// The construction stack, bottom first.
    pub closed spec fn stack(self) -> Seq<usize> {
        self.stack@
    }

    /// The commands queued by this renderer, oldest first.
    pub closed spec fn commands(self) -> Seq<Command> {
        self.commands@
    }

    /// The scene entity of the UI root this renderer works for.
    pub closed spec fn spec_root_entity(self) -> usize {
        self.root_entity
    }

    /// A fresh renderer for the root living on `root_entity`, with an empty
    /// stack and an empty command queue.
    pub fn new(root_entity: usize) -> (r: WorldRenderer)
        ensures
            r.spec_root_entity() == root_entity,
            r.stack() == Seq::<usize>::empty(),
            r.commands() == Seq::<Command>::empty(),
    {
        WorldRenderer { root_entity, stack: Vec::new(), commands: Vec::new() }
    }

    /// Queues one deferred command.
    pub fn command(&mut self, command: Command)
        ensures
            final(self).commands() == old(self).commands().push(command),
            final(self).stack() == old(self).stack(),
            final(self).spec_root_entity() == old(self).spec_root_entity(),
    {
        self.commands.push(command);
    }

    /// Takes the queued commands out, in queue order.
    pub fn drain_commands(&mut self) -> (r: Vec<Command>)
        ensures
            r@ == old(self).commands(),
            final(self).commands() == Seq::<Command>::empty(),
            final(self).stack() == old(self).stack(),
            final(self).spec_root_entity() == old(self).spec_root_entity(),
    {
        let r = self.commands.split_off(0);
        proof {
            assert(r@ =~= old(self).commands());
            assert(self.commands@ =~= Seq::<Command>::empty());
        }
        r
    }

    /// Interprets "append the last `m` entities on the stack under `id`";
    /// an already-parented entity is moved.
    pub fn append_children(&mut self, id: usize, m: usize)
        ensures
            final(self).commands() == old(self).commands().push(Command::AppendChildren { id, m }),
            final(self).stack() == old(self).stack(),
            final(self).spec_root_entity() == old(self).spec_root_entity(),
    {
        self.command(Command::AppendChildren { id, m });
    }

    /// Interprets "bind `id` to the descendant at `path` from the stack
    /// top".
    pub fn assign_node_id(&mut self, path: Vec<u8>, id: usize)
        ensures
            final(self).commands() == old(self).commands().push(
                Command::AssignNodeId { path, id },
            ),
            final(self).stack() == old(self).stack(),
            final(self).spec_root_entity() == old(self).spec_root_entity(),
    {
        self.command(Command::AssignNodeId { path, id });
    }

    /// Interprets "attach the event kind's observer to `id`".
    pub fn create_event_listener(&mut self, name: String, id: usize)
        ensures
            final(self).commands() == old(self).commands().push(
                Command::CreateEventListener { name, id },
            ),
            final(self).stack() == old(self).stack(),
            final(self).spec_root_entity() == old(self).spec_root_entity(),
    {
        self.command(Command::CreateEventListener { name, id });
    }

    /// Interprets "create a bare placeholder entity as `id`".
    pub fn create_placeholder(&mut self, id: usize)
        ensures
            final(self).commands() == old(self).commands().push(Command::CreatePlaceholder { id }),
            final(self).stack() == old(self).stack(),
            final(self).spec_root_entity() == old(self).spec_root_entity(),
    {
        self.command(Command::CreatePlaceholder { id });
    }

    /// Interprets "create a text entity as `id`".
    pub fn create_text_node(&mut self, value: String, id: usize)
        ensures
            final(self).commands() == old(self).commands().push(
                Command::CreateTextNode { value, id },
            ),
            final(self).stack() == old(self).stack(),
            final(self).spec_root_entity() == old(self).spec_root_entity(),
    {
        self.command(Command::CreateTextNode { value, id });
    }

    /// Interprets "place the last `m` entities on the stack immediately
    /// after `id` among its siblings"; an already-parented entity is
    /// moved.
    pub fn insert_nodes_after(&mut self, id: usize, m: usize)
        ensures
            final(self).commands() == old(self).commands().push(
                Command::InsertNodesAfter { id, m },
            ),
            final(self).stack() == old(self).stack(),
            final(self).spec_root_entity() == old(self).spec_root_entity(),
    {
        self.command(Command::InsertNodesAfter { id, m });
    }

    /// Interprets "place the last `m` entities on the stack immediately
    /// before `id` among its siblings"; an already-parented entity is
    /// moved.
    pub fn insert_nodes_before(&mut self, id: usize, m: usize)
        ensures
            final(self).commands() == old(self).commands().push(
                Command::InsertNodesBefore { id, m },
            ),
            final(self).stack() == old(self).stack(),
            final(self).spec_root_entity() == old(self).spec_root_entity(),
    {
        self.command(Command::InsertNodesBefore { id, m });
    }

    /// Interprets "realize subtree `index` of the template as `id`".
    pub fn load_template(&mut self, template: Template, index: usize, id: usize)
        ensures
            final(self).commands() == old(self).commands().push(
                Command::LoadTemplate { template, index, id },
            ),
            final(self).stack() == old(self).stack(),
            final(self).spec_root_entity() == old(self).spec_root_entity(),
    {
        self.command(Command::LoadTemplate { template, index, id });
    }

    /// Interprets "push the entity bound to `id` onto the stack".
    pub fn push_root(&mut self, id: usize)
        ensures
            final(self).commands() == old(self).commands().push(Command::PushRoot { id }),
            final(self).stack() == old(self).stack(),
            final(self).spec_root_entity() == old(self).spec_root_entity(),
    {
        self.command(Command::PushRoot { id });
    }

    /// Interprets "detach the event kind's observer": deliberately a no-op.
    /// Scene-graph-native observers cannot be detached once attached, so an
    /// installed observer stays for the life of its entity.
    pub fn remove_event_listener(&mut self, name: &String, id: usize)
        ensures
            *final(self) == *old(self),
    {
    }

    /// Interprets "despawn the entity bound to `id`".
    pub fn remove_node(&mut self, id: usize)
        ensures
            final(self).commands() == old(self).commands().push(Command::RemoveNode { id }),
            final(self).stack() == old(self).stack(),
            final(self).spec_root_entity() == old(self).spec_root_entity(),
    {
        self.command(Command::RemoveNode { id });
    }

    /// Interprets "splice the last `m` entities on the stack into `id`'s
    /// place and despawn it".
    pub fn replace_node_with(&mut self, id: usize, m: usize)
        ensures
            final(self).commands() == old(self).commands().push(
                Command::ReplaceNodeWith { id, m },
            ),
            final(self).stack() == old(self).stack(),
            final(self).spec_root_entity() == old(self).spec_root_entity(),
    {
        self.command(Command::ReplaceNodeWith { id, m });
    }

    /// Interprets "splice the last `m` entities on the stack into the place
    /// of the descendant at `path` from the stack top and despawn it".
    pub fn replace_placeholder_with_nodes(&mut self, path: Vec<u8>, m: usize)
        ensures
            final(self).commands() == old(self).commands().push(
                Command::ReplacePlaceholderWithNodes { path, m },
            ),
            final(self).stack() == old(self).stack(),
            final(self).spec_root_entity() == old(self).spec_root_entity(),
    {
        self.command(Command::ReplacePlaceholderWithNodes { path, m });
    }

    /// Interprets "set attribute `name` on `id`".  The attribute namespace
    /// is accepted but never inspected.
    pub fn set_attribute(
        &mut self,
        name: String,
        ns: Option<String>,
        value: AttributeValue,
        id: usize,
    )
        ensures
            final(self).commands() == old(self).commands().push(
                Command::SetAttribute { name, value, id },
            ),
            final(self).stack() == old(self).stack(),
            final(self).spec_root_entity() == old(self).spec_root_entity(),
    {
        self.command(Command::SetAttribute { name, value, id });
    }

    /// Interprets "overwrite the text content of `id`".
    pub fn set_node_text(&mut self, value: String, id: usize)
        ensures
            final(self).commands() == old(self).commands().push(
                Command::SetNodeText { value, id },
            ),
            final(self).stack() == old(self).stack(),
            final(self).spec_root_entity() == old(self).spec_root_entity(),
    {
        self.command(Command::SetNodeText { value, id });
    }
}

/// The last `m` entities of the construction stack, in stack order: the
/// block that a pop-style operation takes.
pub open spec fn popped_block(stack: Seq<usize>, m: usize) -> Seq<usize> {
    stack.skip(stack.len() - m as int)
}

/// The construction stack after the last `m` entities were popped.
pub open spec fn remaining_stack(stack: Seq<usize>, m: usize) -> Seq<usize> {
    stack.take(stack.len() - m as int)
}

/// Where an attribute mutation for `name` on entity `e` is routed: the
/// registry position of `e`'s element kind and the position of the first
/// mutator with that attribute name, when both exist.
pub open spec fn set_attr_route(
    b: DioxusBuilders,
    scene: SceneGraph,
    e: usize,
    name: Seq<char>,
) -> Option<(int, int)> {
    match scene.tag_of(e) {
        Some(tag) => match b.lookup_index(tag) {
            Some(k) => match spec_find_mutator(b.entries()[k as int].attribute_mutators@, name) {
                Some(j) => Some((k as int, j)),
                None => None,
            },
            None => None,
        },
        None => None,
    }
}

/// The UI node id a command resolves before doing anything else, if any.
pub open spec fn command_id(cmd: Command) -> Option<usize> {
    match cmd {
        Command::PushRoot { id } => Some(id),
        Command::AppendChildren { id, .. } => Some(id),
        Command::InsertNodesBefore { id, .. } => Some(id),
        Command::InsertNodesAfter { id, .. } => Some(id),
        Command::ReplaceNodeWith { id, .. } => Some(id),
        Command::RemoveNode { id } => Some(id),
        Command::SetAttribute { id, .. } => Some(id),
        Command::SetNodeText { id, .. } => Some(id),
        Command::CreateEventListener { id, .. } => Some(id),
        _ => None,
    }
}

/// Exactly when executing a command succeeds: referenced ids are bound,
/// the stack is deep enough, reference entities sit where the operation
/// needs them, popped entities are live and pairwise distinct (one that
/// already has a parent is moved: detached from that parent first), and
/// attribute values match their mutators.  Anything outside this
/// condition is a contract violation between the UI engine and the
/// reconciliation engine: executing the command then fails, fatally for
/// the render pass.
pub open spec fn command_ok(
    scene: SceneGraph,
    root_map: Map<usize, usize>,
    b: DioxusBuilders,
    installers: Seq<crate::registry::EventHandlerInstaller>,
    stack: Seq<usize>,
    cmd: Command,
) -> bool {
    match cmd {
        Command::CreatePlaceholder { .. } => true,
        Command::CreateTextNode { .. } => true,
        Command::LoadTemplate { template, index, id } => index < template.roots@.len()
            && crate::template::static_attrs_ok(b, template.roots@[index as int]),
        Command::AssignNodeId { path, id } => stack.len() > 0 && scene.descend(
            stack.last(),
            path@,
        ) is Some,
        Command::PushRoot { id } => root_map.contains_key(id),
        Command::AppendChildren { id, m } => {
            &&& root_map.contains_key(id)
            &&& m <= stack.len()
            &&& scene.live(root_map[id])
            &&& scene.block_movable(root_map[id], popped_block(stack, m))
        },
        Command::InsertNodesBefore { id, m } => {
            &&& root_map.contains_key(id)
            &&& m <= stack.len()
            &&& scene.parent_of(root_map[id]) is Some
            &&& !popped_block(stack, m).contains(root_map[id])
            &&& scene.block_movable(scene.parent_of(root_map[id])->0, popped_block(stack, m))
        },
        Command::InsertNodesAfter { id, m } => {
            &&& root_map.contains_key(id)
            &&& m <= stack.len()
            &&& scene.parent_of(root_map[id]) is Some
            &&& !popped_block(stack, m).contains(root_map[id])
            &&& scene.block_movable(scene.parent_of(root_map[id])->0, popped_block(stack, m))
        },
        Command::ReplaceNodeWith { id, m } => {
            &&& root_map.contains_key(id)
            &&& m <= stack.len()
            &&& scene.parent_of(root_map[id]) is Some
            &&& !popped_block(stack, m).contains(root_map[id])
            &&& scene.block_movable(scene.parent_of(root_map[id])->0, popped_block(stack, m))
        },
        Command::ReplacePlaceholderWithNodes { path, m } => {
            &&& stack.len() > 0
            &&& m <= stack.len()
            &&& scene.descend(stack.last(), path@) is Some
            &&& scene.parent_of(scene.descend(stack.last(), path@)->0) is Some
            &&& !popped_block(stack, m).contains(scene.descend(stack.last(), path@)->0)
            &&& scene.block_movable(
                scene.parent_of(scene.descend(stack.last(), path@)->0)->0,
                popped_block(stack, m),
            )
        },
        Command::RemoveNode { id } => root_map.contains_key(id) && scene.live(root_map[id]),
        Command::SetAttribute { name, value, id } => {
            &&& root_map.contains_key(id)
            &&& (value is Listener || (scene.tag_of(root_map[id]) is Some && (match set_attr_route(
                b,
                scene,
                root_map[id],
                name@,
            ) {
                Some(route) => kind_matches(
                    value,
                    b.entries()[route.0].attribute_mutators@[route.1].kind,
                ),
                None => true,
            })))
        },
        Command::SetNodeText { value, id } => root_map.contains_key(id) && scene.live(
            root_map[id],
        ) && scene.text_of(root_map[id]) is Some,
        Command::CreateEventListener { name, id } => root_map.contains_key(id),
    }
}

/// Whether a command despawns an entity (and, with it, the despawned
/// entity's subtree, by the host's cascade rule).  Every other command
/// leaves all pre-existing entities alive.
pub open spec fn despawns(cmd: Command) -> bool {
    match cmd {
        Command::RemoveNode { .. } => true,
        Command::ReplaceNodeWith { .. } => true,
        Command::ReplacePlaceholderWithNodes { .. } => true,
        _ => false,
    }
}

/// How many entities a command pops off the construction stack.
pub open spec fn popped_count(cmd: Command) -> usize {
    match cmd {
        Command::AppendChildren { m, .. } => m,
        Command::InsertNodesBefore { m, .. } => m,
        Command::InsertNodesAfter { m, .. } => m,
        Command::ReplaceNodeWith { m, .. } => m,
        Command::ReplacePlaceholderWithNodes { m, .. } => m,
        _ => 0,
    }
}

/// The one pre-existing entity whose own state (child list or text) a
/// command rewrites, if any: the parent that gains or loses children, or
/// the text entity being overwritten.
pub open spec fn touched_entity(
    scene: SceneGraph,
    root_map: Map<usize, usize>,
    stack: Seq<usize>,
    cmd: Command,
) -> Option<usize> {
    match cmd {
        Command::AppendChildren { id, .. } => if root_map.contains_key(id) {
            Some(root_map[id])
        } else {
            None
        },
        Command::InsertNodesBefore { id, .. } => if root_map.contains_key(id) {
            scene.parent_of(root_map[id])
        } else {
            None
        },
        Command::InsertNodesAfter { id, .. } => if root_map.contains_key(id) {
            scene.parent_of(root_map[id])
        } else {
            None
        },
        Command::ReplaceNodeWith { id, .. } => if root_map.contains_key(id) {
            scene.parent_of(root_map[id])
        } else {
            None
        },
        Command::ReplacePlaceholderWithNodes { path, .. } => if stack.len() > 0 && scene.descend(
            stack.last(),
            path@,
        ) is Some {
            scene.parent_of(scene.descend(stack.last(), path@)->0)
        } else {
            None
        },
        Command::RemoveNode { id } => if root_map.contains_key(id) {
            scene.parent_of(root_map[id])
        } else {
            None
        },
        Command::SetNodeText { id, .. } => if root_map.contains_key(id) {
            Some(root_map[id])
        } else {
            None
        },
        _ => None,
    }
}

/// Whether `n` is the current parent of some entity of the block: moving
/// the block takes an entity out of `n`'s child list.
pub open spec fn is_former_parent(scene: SceneGraph, block: Seq<usize>, n: usize) -> bool {
    exists|i: int| 0 <= i < block.len() && scene.parent_of(#[trigger] block[i]) == Some(n)
}

/// What holds of the state after a command executed successfully, per
/// operation: how the scene, the id registry, the construction stack and
/// the reported host-side effects relate to what they were before.
pub open spec fn apply_ok_post(
    s1: SceneGraph,
    s2: SceneGraph,
    map1: Map<usize, usize>,
    map2: Map<usize, usize>,
    b: DioxusBuilders,
    installers: Seq<crate::registry::EventHandlerInstaller>,
    stack1: Seq<usize>,
    stack2: Seq<usize>,
    eff1: Seq<Effect>,
    eff2: Seq<Effect>,
    root_entity: usize,
    cmd: Command,
) -> bool {
    match cmd {
        Command::CreatePlaceholder { id } => {
            let e = s1.n_nodes() as usize;
            &&& s2.n_nodes() == s1.n_nodes() + 1
            &&& s2.live(e) && s2.parent_of(e) is None
            &&& s2.children_of(e) == Seq::<usize>::empty()
            &&& s2.text_of(e) is None && s2.tag_of(e) is None
            &&& map2 == map1.insert(id, e)
            &&& stack2 == stack1.push(e)
            &&& eff2 == eff1
        },
        Command::CreateTextNode { value, id } => {
            let e = s1.n_nodes() as usize;
            &&& s2.n_nodes() == s1.n_nodes() + 1
            &&& s2.live(e) && s2.parent_of(e) is None
            &&& s2.children_of(e) == Seq::<usize>::empty()
            &&& s2.text_of(e) == Some(value@) && s2.tag_of(e) is None
            &&& map2 == map1.insert(id, e)
            &&& stack2 == stack1.push(e)
            &&& eff2 == eff1
        },
        Command::LoadTemplate { template, index, id } => {
            let e = stack2.last();
            &&& stack2 == stack1.push(e)
            &&& e == s1.n_nodes()
            &&& s2.n_nodes() == s1.n_nodes() + crate::template::subtree_size(
                template.roots@[index as int],
            )
            &&& s2.live(e) && s2.parent_of(e) is None
            &&& crate::template::realizes(s2, b, e, template.roots@[index as int])
            &&& map2 == map1.insert(id, e)
            &&& eff2 == eff1 + crate::template::template_effects(
                b,
                template.roots@[index as int],
                s1.n_nodes(),
            )
        },
        Command::AssignNodeId { path, id } => {
            &&& s2 == s1
            &&& stack2 == stack1
            &&& map2 == map1.insert(id, s1.descend(stack1.last(), path@)->0)
            &&& eff2 == eff1
        },
        Command::PushRoot { id } => {
            &&& s2 == s1
            &&& map2 == map1
            &&& eff2 == eff1
            &&& stack2 == stack1.push(map1[id])
        },
        Command::AppendChildren { id, m } => {
            let p = map1[id];
            let block = popped_block(stack1, m);
            &&& s2.children_of(p) == crate::scene::seq_without(s1.children_of(p), block) + block
            &&& forall|i: int| 0 <= i < block.len() ==> s2.parent_of(block[i]) == Some(p)
            &&& forall|q: usize|
                #![trigger s2.children_of(q)]
                q != p ==> s2.children_of(q) == crate::scene::seq_without(
                    s1.children_of(q),
                    block,
                )
            &&& forall|n: usize|
                #![trigger s2.parent_of(n)]
                !block.contains(n) ==> s2.parent_of(n) == s1.parent_of(n)
            &&& forall|n: usize| #![trigger s2.live(n)] s2.live(n) == s1.live(n)
            &&& forall|n: usize| #![trigger s2.text_of(n)] s2.text_of(n) == s1.text_of(n)
            &&& forall|n: usize| #![trigger s2.tag_of(n)] s2.tag_of(n) == s1.tag_of(n)
            &&& stack2 == remaining_stack(stack1, m)
            &&& map2 == map1
            &&& eff2 == eff1
            &&& s2.n_nodes() == s1.n_nodes()
        },
        Command::InsertNodesBefore { id, m } => {
            let ref_e = map1[id];
            let p = s1.parent_of(ref_e)->0;
            let block = popped_block(stack1, m);
            let f = crate::scene::seq_without(s1.children_of(p), block);
            let k = f.index_of(ref_e);
            &&& 0 <= k < f.len() && f[k] == ref_e
            &&& s2.children_of(p) == f.subrange(0, k) + block + f.subrange(k, f.len() as int)
            &&& forall|i: int| 0 <= i < block.len() ==> s2.parent_of(block[i]) == Some(p)
            &&& forall|q: usize|
                #![trigger s2.children_of(q)]
                q != p ==> s2.children_of(q) == crate::scene::seq_without(
                    s1.children_of(q),
                    block,
                )
            &&& forall|n: usize|
                #![trigger s2.parent_of(n)]
                !block.contains(n) ==> s2.parent_of(n) == s1.parent_of(n)
            &&& forall|n: usize| #![trigger s2.live(n)] s2.live(n) == s1.live(n)
            &&& forall|n: usize| #![trigger s2.text_of(n)] s2.text_of(n) == s1.text_of(n)
            &&& forall|n: usize| #![trigger s2.tag_of(n)] s2.tag_of(n) == s1.tag_of(n)
            &&& stack2 == remaining_stack(stack1, m)
            &&& map2 == map1
            &&& eff2 == eff1
            &&& s2.n_nodes() == s1.n_nodes()
        },
        Command::InsertNodesAfter { id, m } => {
            let ref_e = map1[id];
            let p = s1.parent_of(ref_e)->0;
            let block = popped_block(stack1, m);
            let f = crate::scene::seq_without(s1.children_of(p), block);
            let k = f.index_of(ref_e);
            &&& 0 <= k < f.len() && f[k] == ref_e
            &&& s2.children_of(p) == f.subrange(0, k + 1) + block + f.subrange(
                k + 1,
                f.len() as int,
            )
            &&& forall|i: int| 0 <= i < block.len() ==> s2.parent_of(block[i]) == Some(p)
            &&& forall|q: usize|
                #![trigger s2.children_of(q)]
                q != p ==> s2.children_of(q) == crate::scene::seq_without(
                    s1.children_of(q),
                    block,
                )
            &&& forall|n: usize|
                #![trigger s2.parent_of(n)]
                !block.contains(n) ==> s2.parent_of(n) == s1.parent_of(n)
            &&& forall|n: usize| #![trigger s2.live(n)] s2.live(n) == s1.live(n)
            &&& forall|n: usize| #![trigger s2.text_of(n)] s2.text_of(n) == s1.text_of(n)
            &&& forall|n: usize| #![trigger s2.tag_of(n)] s2.tag_of(n) == s1.tag_of(n)
            &&& stack2 == remaining_stack(stack1, m)
            &&& map2 == map1
            &&& eff2 == eff1
            &&& s2.n_nodes() == s1.n_nodes()
        },
        Command::ReplaceNodeWith { id, m } => {
            let e = map1[id];
            let p = s1.parent_of(e)->0;
            let block = popped_block(stack1, m);
            let f = crate::scene::seq_without(s1.children_of(p), block);
            let k = f.index_of(e);
            &&& 0 <= k < f.len() && f[k] == e
            &&& !s2.live(e)
            &&& (s2.live(p) ==> s2.children_of(p) == f.subrange(0, k) + block + f.subrange(
                k + 1,
                f.len() as int,
            ))
            &&& forall|q: usize|
                #![trigger s2.children_of(q)]
                q != p && s2.live(q) ==> s2.children_of(q) == crate::scene::seq_without(
                    s1.children_of(q),
                    block,
                )
            &&& forall|n: usize|
                #![trigger s2.parent_of(n)]
                s2.live(n) && !block.contains(n) ==> s2.parent_of(n) == s1.parent_of(n)
            &&& forall|n: usize| #![trigger s2.live(n)] s2.live(n) ==> s1.live(n)
            &&& forall|n: usize|
                #![trigger s1.live(n)]
                s1.live(n) && s1.parent_of(n) is None && !block.contains(n) ==> s2.live(n)
            &&& stack2 == remaining_stack(stack1, m)
            &&& map2 == map1
            &&& eff2 == eff1
            &&& s2.n_nodes() == s1.n_nodes()
        },
        Command::ReplacePlaceholderWithNodes { path, m } => {
            let e = s1.descend(stack1.last(), path@)->0;
            let p = s1.parent_of(e)->0;
            let block = popped_block(stack1, m);
            let f = crate::scene::seq_without(s1.children_of(p), block);
            let k = f.index_of(e);
            &&& 0 <= k < f.len() && f[k] == e
            &&& !s2.live(e)
            &&& (s2.live(p) ==> s2.children_of(p) == f.subrange(0, k) + block + f.subrange(
                k + 1,
                f.len() as int,
            ))
            &&& forall|q: usize|
                #![trigger s2.children_of(q)]
                q != p && s2.live(q) ==> s2.children_of(q) == crate::scene::seq_without(
                    s1.children_of(q),
                    block,
                )
            &&& forall|n: usize|
                #![trigger s2.parent_of(n)]
                s2.live(n) && !block.contains(n) ==> s2.parent_of(n) == s1.parent_of(n)
            &&& forall|n: usize| #![trigger s2.live(n)] s2.live(n) ==> s1.live(n)
            &&& forall|n: usize|
                #![trigger s1.live(n)]
                s1.live(n) && s1.parent_of(n) is None && !block.contains(n) ==> s2.live(n)
            &&& stack2 == remaining_stack(stack1, m)
            &&& map2 == map1
            &&& eff2 == eff1
            &&& s2.n_nodes() == s1.n_nodes()
        },
        Command::RemoveNode { id } => {
            let e = map1[id];
            &&& !s2.live(e)
            &&& forall|n: usize| #![trigger s2.live(n)] s2.live(n) ==> s1.live(n)
            &&& forall|n: usize|
                #![trigger s1.live(n)]
                s1.live(n) && s1.parent_of(n) is None && n != e ==> s2.live(n)
            &&& match s1.parent_of(e) {
                Some(p) => {
                    let c = s1.children_of(p);
                    let k = c.index_of(e);
                    &&& 0 <= k < c.len() && c[k] == e
                    &&& (s2.live(p) ==> s2.children_of(p) == c.remove(k))
                },
                None => true,
            }
            &&& stack2 == stack1
            &&& map2 == map1
            &&& eff2 == eff1
            &&& s2.n_nodes() == s1.n_nodes()
        },
        Command::SetAttribute { name, value, id } => {
            let e = map1[id];
            &&& s2 == s1
            &&& stack2 == stack1
            &&& map2 == map1
            &&& if value is Listener {
                eff2 == eff1
            } else {
                match set_attr_route(b, s1, e, name@) {
                    Some(route) => eff2 == eff1.push(
                        Effect::ApplyAttribute {
                            kind: route.0 as usize,
                            mutator: route.1 as usize,
                            entity: e,
                            value,
                        },
                    ),
                    None => eff2 == eff1,
                }
            }
        },
        Command::SetNodeText { value, id } => {
            let e = map1[id];
            &&& s2.live(e)
            &&& s2.text_of(e) == Some(value@)
            &&& s2.children_of(e) == s1.children_of(e)
            &&& s2.parent_of(e) == s1.parent_of(e)
            &&& s2.tag_of(e) == s1.tag_of(e)
            &&& stack2 == stack1
            &&& map2 == map1
            &&& eff2 == eff1
            &&& s2.n_nodes() == s1.n_nodes()
        },
        Command::CreateEventListener { name, id } => {
            let e = map1[id];
            &&& s2 == s1
            &&& stack2 == stack1
            &&& map2 == map1
            &&& match spec_find_installer(installers, name@) {
                Some(i) => eff2 == eff1.push(
                    Effect::InstallListener {
                        installer: i as usize,
                        root: root_entity,
                        target: e,
                        id,
                    },
                ),
                None => eff2 == eff1,
            }
        },
    }
}

/// Realizes one template node as a fresh, detached subtree of the scene.
///
/// Elements of a registered kind are constructed with their tag recorded;
/// the initializer effect is reported first, then one attribute effect per
/// fixed attribute that reaches a mutator, then the children are realized
/// and parented in template order.  Elements of an unregistered kind fall
/// back to a bare structural entity with no kind-specific behaviour.
/// Fails exactly when some fixed attribute value does not convert to what
/// its mutator expects.
#[verifier::loop_isolation(false)]
#[verifier::rlimit(100)]
#[verifier::spinoff_prover]
fn realize_node(
    scene: &mut SceneGraph,
    builders: &DioxusBuilders,
    node: &TemplateNode,
    effects: &mut Vec<Effect>,
) -> (r: Result<usize, CoreError>)
    requires
        old(scene).wf(),
        builders.wf(),
    ensures
        final(scene).wf(),
        final(scene).n_nodes() >= old(scene).n_nodes(),
        forall|n: usize|
            #![trigger old(scene).live(n)]
            old(scene).live(n) ==> old(scene).same_node(*final(scene), n),
        final(effects)@.len() >= old(effects)@.len(),
        forall|i: int| 0 <= i < old(effects)@.len() ==> final(effects)@[i] == old(effects)@[i],
        r is Ok <==> static_attrs_ok(*builders, *node),
        r is Err ==> r == Err::<usize, CoreError>(CoreError::AttributeTypeMismatch),
        r matches Ok(e) ==> {
            &&& e == old(scene).n_nodes()
            &&& final(scene).n_nodes() == old(scene).n_nodes() + crate::template::subtree_size(
                *node,
            )
            &&& final(scene).live(e)
            &&& final(scene).parent_of(e) is None
            &&& realizes(*final(scene), *builders, e, *node)
            &&& subtree_above(*final(scene), e, *node, old(scene).n_nodes())
            &&& final(effects)@ == old(effects)@ + crate::template::template_effects(
                *builders,
                *node,
                old(scene).n_nodes(),
            )
        },
    decreases *node,
{
    match node {
        TemplateNode::Text { text } => {
            let e = scene.spawn(Some(text.clone()), None);
            proof {
                assert(effects@ =~= effects@ + crate::template::template_effects(
                    *builders,
                    *node,
                    old(scene).n_nodes(),
                ));
            }
            Ok(e)
        },
        TemplateNode::Dynamic => {
            let e = scene.spawn(None, None);
            proof {
                assert(effects@ =~= effects@ + crate::template::template_effects(
                    *builders,
                    *node,
                    old(scene).n_nodes(),
                ));
            }
            Ok(e)
        },
        TemplateNode::Element { tag, attrs, children } => {
            let reg = builders.get(tag);
            let e = if reg.is_some() {
                scene.spawn(None, Some(tag.clone()))
            } else {
                scene.spawn(None, None)
            };
            let ghost s_e = *scene;
            let ghost eff0 = effects@;
            match reg {
                None => {},
                Some(k) => {
                    effects.push(Effect::Initialize { kind: k, entity: e });
                    let entry = builders.entry_at(k);
                    let na = attrs.len();
                    proof {
                        assert(attrs@.take(0) =~= Seq::<TemplateAttribute>::empty());
                        assert(effects@ =~= eff0 + seq![
                            (Effect::Initialize { kind: k, entity: e }),
                        ] + crate::template::attr_effects(
                            builders.entries()[k as int],
                            k,
                            e,
                            attrs@.take(0),
                        ));
                    }
                    for i in 0..na
                        invariant
                            *scene == s_e,
                            effects@ == eff0 + seq![
                                (Effect::Initialize { kind: k, entity: e }),
                            ] + crate::template::attr_effects(
                                builders.entries()[k as int],
                                k,
                                e,
                                attrs@.take(i as int),
                            ),
                            forall|a: int|
                                0 <= a < i ==> crate::template::attr_ok(
                                    builders.entries()[k as int],
                                    #[trigger] attrs@[a],
                                ),
                    {
                        let ghost eff_at = effects@;
                        match &attrs[i] {
                            TemplateAttribute::Static { name, value } => {
                                match find_mutator(entry, name) {
                                    Some(j) => {
                                        let kind = entry.attribute_mutators[j].kind;
                                        match convert_attribute(
                                            &AttributeValue::Text(value.clone()),
                                            &kind,
                                        ) {
                                            Ok(v) => {
                                                effects.push(
                                                    Effect::ApplyAttribute {
                                                        kind: k,
                                                        mutator: j,
                                                        entity: e,
                                                        value: v,
                                                    },
                                                );
                                                proof {
                                                    assert(effects@ =~= eff_at
                                                        + crate::template::attr_effect(
                                                        builders.entries()[k as int],
                                                        k,
                                                        e,
                                                        attrs@[i as int],
                                                    ));
                                                }
                                            },
                                            Err(err) => {
                                                proof {
                                                    assert(!crate::template::attr_ok(
                                                        builders.entries()[k as int],
                                                        attrs@[i as int],
                                                    ));
                                                    assert(!static_attrs_ok(*builders, *node));
                                                    assert forall|n: usize|
                                                        #![trigger old(scene).live(n)]
                                                        old(scene).live(n) implies old(
                                                        scene,
                                                    ).same_node(*scene, n) by {
                                                        assert(n != e);
                                                    }
                                                }
                                                return Err(err);
                                            },
                                        }
                                    },
                                    None => {
                                        proof {
                                            assert(effects@ =~= eff_at
                                                + crate::template::attr_effect(
                                                builders.entries()[k as int],
                                                k,
                                                e,
                                                attrs@[i as int],
                                            ));
                                        }
                                    },
                                }
                            },
                            TemplateAttribute::Dynamic => {
                                proof {
                                    assert(effects@ =~= eff_at + crate::template::attr_effect(
                                        builders.entries()[k as int],
                                        k,
                                        e,
                                        attrs@[i as int],
                                    ));
                                }
                            },
                        }
                        proof {
                            crate::template::lemma_attr_effects_snoc(
                                builders.entries()[k as int],
                                k,
                                e,
                                attrs@.take(i as int),
                                attrs@[i as int],
                            );
                            assert(attrs@.take(i as int).push(attrs@[i as int]) =~= attrs@.take(
                                i + 1,
                            ));
                            assert(effects@ =~= eff0 + seq![
                                (Effect::Initialize { kind: k, entity: e }),
                            ] + crate::template::attr_effects(
                                builders.entries()[k as int],
                                k,
                                e,
                                attrs@.take(i + 1),
                            ));
                        }
                    }
                    proof {
                        assert(attrs@.take(na as int) =~= attrs@);
                    }
                },
            }
            let mut child_entities: Vec<usize> = Vec::new();
            let nc = children.len();
            let ghost s_c0 = *scene;
            let ghost eff_c0 = effects@;
            proof {
                assert(children@.take(0) =~= Seq::<TemplateNode>::empty());
                assert(effects@ =~= eff_c0 + crate::template::template_seq_effects(
                    *builders,
                    children@.take(0),
                    s_c0.n_nodes(),
                ));
            }
            for i in 0..nc
                invariant
                    scene.wf(),
                    forall|n: usize|
                        #![trigger s_c0.live(n)]
                        s_c0.live(n) ==> s_c0.same_node(*scene, n),
                    effects@ == eff_c0 + crate::template::template_seq_effects(
                        *builders,
                        children@.take(i as int),
                        s_c0.n_nodes(),
                    ),
                    effects@.len() >= eff_c0.len(),
                    forall|q: int| 0 <= q < eff_c0.len() ==> effects@[q] == eff_c0[q],
                    scene.n_nodes() == s_c0.n_nodes() + crate::template::subtree_seq_size(
                        children@.take(i as int),
                    ),
                    child_entities@.len() == i as int,
                    forall|a: int|
                        #![trigger child_entities@[a]]
                        0 <= a < i ==> {
                            &&& s_c0.n_nodes() <= child_entities@[a] < scene.n_nodes()
                            &&& scene.live(child_entities@[a])
                            &&& scene.parent_of(child_entities@[a]) is None
                            &&& realizes(*scene, *builders, child_entities@[a], children@[a])
                            &&& subtree_above(
                                *scene,
                                child_entities@[a],
                                children@[a],
                                s_c0.n_nodes(),
                            )
                            &&& static_attrs_ok(*builders, children@[a])
                        },
                    forall|a: int, b: int|
                        0 <= a < b < i ==> child_entities@[a] != child_entities@[b],
            {
                let ghost mid = *scene;
                let ghost eff_mid = effects@;
                let c = match realize_node(scene, builders, &children[i], effects) {
                    Ok(c) => c,
                    Err(err) => {
                        proof {
                            assert(!static_attrs_ok(*builders, children@[i as int]));
                            assert(!static_attrs_ok(*builders, *node));
                            assert forall|n: usize|
                                #![trigger old(scene).live(n)]
                                old(scene).live(n) implies old(scene).same_node(*scene, n) by {
                                assert(n != e);
                                assert(old(scene).same_node(s_c0, n));
                                assert(s_c0.live(n));
                                assert(mid.same_node(*scene, n));
                            }
                        }
                        return Err(err);
                    },
                };
                child_entities.push(c);
                proof {
                    let now = *scene;
                    assert forall|n: usize| #![trigger s_c0.live(n)] s_c0.live(n) implies
                        s_c0.same_node(now, n) by {
                        assert(s_c0.same_node(mid, n));
                        assert(mid.live(n));
                        assert(mid.same_node(now, n));
                    }
                    assert forall|a: int| #![trigger child_entities@[a]] 0 <= a < i + 1 implies {
                        &&& s_c0.n_nodes() <= child_entities@[a] < now.n_nodes()
                        &&& now.live(child_entities@[a])
                        &&& now.parent_of(child_entities@[a]) is None
                        &&& realizes(now, *builders, child_entities@[a], children@[a])
                        &&& subtree_above(now, child_entities@[a], children@[a], s_c0.n_nodes())
                        &&& static_attrs_ok(*builders, children@[a])
                    } by {
                        if a < i {
                            let ca = child_entities@[a];
                            assert(mid.live(ca) && mid.parent_of(ca) is None);
                            assert(mid.same_node(now, ca));
                            assert forall|n: usize|
                                #![trigger mid.live(n)]
                                n >= s_c0.n_nodes() && mid.live(n) implies
                                mid.same_node_except_parent(now, n) by {
                                assert(mid.same_node(now, n));
                            }
                            lemma_realizes_frame_above(
                                mid,
                                now,
                                *builders,
                                ca,
                                children@[a],
                                s_c0.n_nodes(),
                            );
                        } else {
                            assert(child_entities@[a] == c);
                            lemma_subtree_above_mono(
                                now,
                                c,
                                children@[i as int],
                                s_c0.n_nodes(),
                                mid.n_nodes(),
                            );
                        }
                    }
                    assert forall|a: int, b: int| 0 <= a < b < i + 1 implies child_entities@[a]
                        != child_entities@[b] by {
                        if b == i {
                            assert(child_entities@[a] < mid.n_nodes());
                            assert(c >= mid.n_nodes());
                        }
                    }
                    crate::template::lemma_template_seq_effects_snoc(
                        *builders,
                        children@.take(i as int),
                        children@[i as int],
                        s_c0.n_nodes(),
                    );
                    crate::template::lemma_subtree_seq_size_snoc(
                        children@.take(i as int),
                        children@[i as int],
                    );
                    assert(children@.take(i as int).push(children@[i as int]) =~= children@.take(
                        i + 1,
                    ));
                    assert(effects@ =~= eff_c0 + crate::template::template_seq_effects(
                        *builders,
                        children@.take(i + 1),
                        s_c0.n_nodes(),
                    ));
                }
            }
            proof {
                assert(children@.take(nc as int) =~= children@);
            }
            let ghost pre_ins = *scene;
            let r_ins = scene.insert_block_at(e, 0, &child_entities);
            proof {
                assert(s_c0.live(e));
                assert(s_c0.same_node(pre_ins, e));
                assert(pre_ins.children_of(e) == Seq::<usize>::empty());
                assert forall|a: int| #![trigger child_entities@[a]] 0 <= a
                    < child_entities@.len() implies pre_ins.live(child_entities@[a])
                    && child_entities@[a] != e && pre_ins.parent_of(
                    child_entities@[a],
                ) is None by {
                    assert(e < s_c0.n_nodes());
                }
                assert(pre_ins.block_ok(e, child_entities@));
                assert(r_ins is Ok);
            }
            match r_ins {
                Err(_) => {
                    proof {
                        assert(false);
                    }
                    Err(CoreError::AttributeTypeMismatch)
                },
                Ok(()) => {
                    proof {
                        let sins = *scene;
                        // the spliced list is exactly the realized children
                        assert(sins.children_of(e) =~= child_entities@);
                        // the splice leaves everything at or above the
                        // fresh range intact apart from parents
                        assert forall|n: usize|
                            #![trigger pre_ins.live(n)]
                            n >= s_c0.n_nodes() && pre_ins.live(n) implies
                            pre_ins.same_node_except_parent(sins, n) by {
                            if child_entities@.contains(n) {
                                let w = choose|w: int|
                                    0 <= w < child_entities@.len() && child_entities@[w] == n;
                                assert(pre_ins.same_node_except_parent(
                                    sins,
                                    child_entities@[w],
                                ));
                            } else {
                                assert(n != e);
                                assert(pre_ins.same_node(sins, n));
                            }
                        }
                        // every realized child subtree survives the splice
                        assert forall|a: int| #![trigger child_entities@[a]] 0 <= a < nc implies
                            realizes(sins, *builders, child_entities@[a], children@[a])
                            && subtree_above(
                            sins,
                            child_entities@[a],
                            children@[a],
                            s_c0.n_nodes(),
                        ) by {
                            lemma_realizes_frame_above(
                                pre_ins,
                                sins,
                                *builders,
                                child_entities@[a],
                                children@[a],
                                s_c0.n_nodes(),
                            );
                        }
                        // the element itself keeps its text and tag
                        assert(s_c0.same_node(pre_ins, e));
                        assert(pre_ins.same_node_except_children(sins, e));
                        assert(realizes(sins, *builders, e, *node));
                        // the whole subtree sits in the fresh range
                        assert forall|a: int| 0 <= a < nc implies subtree_above(
                            sins,
                            sins.children_of(e)[a],
                            #[trigger] children@[a],
                            old(scene).n_nodes(),
                        ) by {
                            assert(sins.children_of(e)[a] == child_entities@[a]);
                            lemma_subtree_above_mono(
                                sins,
                                child_entities@[a],
                                children@[a],
                                old(scene).n_nodes(),
                                s_c0.n_nodes(),
                            );
                        }
                        assert(subtree_above(sins, e, *node, old(scene).n_nodes()));
                        // nothing that existed before is disturbed
                        assert forall|n: usize|
                            #![trigger old(scene).live(n)]
                            old(scene).live(n) implies old(scene).same_node(sins, n) by {
                            assert(n != e);
                            assert(old(scene).same_node(s_c0, n));
                            assert(s_c0.live(n));
                            assert(s_c0.same_node(pre_ins, n));
                            assert(!child_entities@.contains(n)) by {
                                if child_entities@.contains(n) {
                                    let w = choose|w: int|
                                        0 <= w < child_entities@.len() && child_entities@[w]
                                            == n;
                                    assert(child_entities@[w] >= s_c0.n_nodes());
                                }
                            }
                            assert(pre_ins.same_node(sins, n));
                        }
                        // the emitted effects are exactly the template's
                        assert(s_c0.n_nodes() == old(scene).n_nodes() + 1);
                        match reg {
                            Some(k) => {
                                assert(effects@ =~= old(effects)@
                                    + crate::template::template_effects(
                                    *builders,
                                    *node,
                                    old(scene).n_nodes(),
                                ));
                            },
                            None => {
                                assert(effects@ =~= old(effects)@
                                    + crate::template::template_effects(
                                    *builders,
                                    *node,
                                    old(scene).n_nodes(),
                                ));
                            },
                        }
                        assert(scene.n_nodes() == old(scene).n_nodes()
                            + crate::template::subtree_size(*node));
                    }
                    Ok(e)
                },
            }
        },
    }
}

impl WorldRenderer {
    /// Copies the last `m` stack entries, in stack order.
    fn peek_block(&self, m: usize) -> (r: Vec<usize>)
        requires
            m <= self.stack().len(),
        ensures
            r@ == popped_block(self.stack(), m),
    {
        let len = self.stack.len();
        let mut block: Vec<usize> = Vec::new();
        for i in 0..m
            invariant
                m <= len,
                len == self.stack().len(),
                block@ == self.stack().subrange(len - m as int, len - m + i),
        {
            block.push(self.stack[len - m + i]);
            proof {
                assert(block@ =~= self.stack().subrange(len - m as int, len - m + i + 1));
            }
        }
        proof {
            assert(block@ =~= popped_block(self.stack(), m));
        }
        block
    }

    /// Moves the last `m` stack entries into `e`'s position among its
    /// siblings and despawns `e`; shared by both replacement operations.
    fn replace_entity(&mut self, scene: &mut SceneGraph, e: usize, m: usize) -> (r: Result<
        (),
        CoreError,
    >)
        requires
            old(scene).wf(),
        ensures
            final(scene).wf(),
            final(scene).n_nodes() == old(scene).n_nodes(),
            final(self).commands() == old(self).commands(),
            final(self).spec_root_entity() == old(self).spec_root_entity(),
            r is Ok <==> (m <= old(self).stack().len() && old(scene).parent_of(e) is Some
                && !popped_block(old(self).stack(), m).contains(e) && old(scene).block_movable(
                old(scene).parent_of(e)->0,
                popped_block(old(self).stack(), m),
            )),
            r is Err ==> *final(scene) == *old(scene) && final(self).stack() == old(self).stack(),
            r is Ok ==> {
                let p = old(scene).parent_of(e)->0;
                let block = popped_block(old(self).stack(), m);
                let f = crate::scene::seq_without(old(scene).children_of(p), block);
                let k = f.index_of(e);
                &&& 0 <= k < f.len() && f[k] == e
                &&& !final(scene).live(e)
                &&& (final(scene).live(p) ==> final(scene).children_of(p) == f.subrange(0, k)
                    + block + f.subrange(k + 1, f.len() as int))
                &&& forall|q: usize|
                    #![trigger final(scene).children_of(q)]
                    q != p && final(scene).live(q) ==> final(scene).children_of(q)
                        == crate::scene::seq_without(old(scene).children_of(q), block)
                &&& forall|n: usize|
                    #![trigger final(scene).parent_of(n)]
                    final(scene).live(n) && !block.contains(n) ==> final(scene).parent_of(n)
                        == old(scene).parent_of(n)
                &&& forall|n: usize|
                    #![trigger final(scene).live(n)]
                    final(scene).live(n) ==> old(scene).live(n)
                &&& forall|n: usize|
                    #![trigger final(scene).text_of(n)]
                    final(scene).live(n) ==> final(scene).text_of(n) == old(scene).text_of(n)
                &&& forall|n: usize|
                    #![trigger final(scene).tag_of(n)]
                    final(scene).live(n) ==> final(scene).tag_of(n) == old(scene).tag_of(n)
                &&& forall|n: usize|
                    old(scene).live(n) && old(scene).parent_of(n) is None && !block.contains(n)
                        ==> final(scene).live(n)
                &&& final(self).stack() == remaining_stack(old(self).stack(), m)
            },
    {
        let len = self.stack.len();
        if m > len {
            return Err(CoreError::StackUnderflow);
        }
        let p = match scene.get_parent(e) {
            Some(p) => p,
            None => {
                return Err(CoreError::NoParent { entity: e });
            },
        };
        let block = self.peek_block(m);
        if block_contains(&block, e) {
            return Err(CoreError::NoParent { entity: e });
        }
        if block_contains(&block, p) {
            return Err(CoreError::SelfParent { entity: p });
        }
        match scene.detach_block(&block) {
            Err(err) => {
                proof {
                    lemma_unmovable_block(*old(scene), p, block@);
                }
                return Err(err);
            },
            Ok(()) => {},
        }
        proof {
            assert forall|i: int| #![trigger block@[i]] 0 <= i < block@.len() implies block@[i]
                != p by {
                if block@[i] == p {
                    assert(block@.contains(p));
                }
            }
            assert(old(scene).block_movable(p, block@));
            assert(scene.parent_of(e) == Some(p));
            assert(scene.children_of(p).contains(e));
        }
        let k = scene.index_of_child(p, e);
        proof {
            lemma_unique_child_index(*scene, p, e, k as int);
        }
        let ghost s_d = *scene;
        let ghost f = s_d.children_of(p);
        let r_ins = scene.insert_block_at(p, k, &block);
        proof {
            assert(s_d.block_ok(p, block@));
            assert(r_ins is Ok);
        }
        match r_ins {
            Err(err) => {
                proof {
                    assert(false);
                }
                return Err(err);
            },
            Ok(()) => {},
        }
        let ghost s1 = *scene;
        proof {
            lemma_move_frames(*old(scene), s_d, s1, p, block@);
            // e moved to position k + m of the spliced list
            assert(s1.children_of(p) == f.subrange(0, k as int) + block@ + f.subrange(
                k as int,
                f.len() as int,
            ));
            assert(s1.children_of(p)[k + m] == f[k as int]);
            assert(s1.live(e)) by {
                assert(s1.live(e) == old(scene).live(e));
            }
        }
        let _detached = scene.detach(e);
        let ghost s2 = *scene;
        proof {
            let cs = s1.children_of(p);
            assert forall|j: int| 0 <= j < cs.len() && cs[j] == e implies j == k + m by {
                if j < k + m {
                    assert(cs[j] != cs[k + m]);
                } else if j > k + m {
                    assert(cs[k + m] != cs[j]);
                }
            }
            assert(cs.index_of(e) == k + m);
            assert(s2.children_of(p) == cs.remove(k + m));
            assert(s2.children_of(p) =~= f.subrange(0, k as int) + block@ + f.subrange(
                k + 1,
                f.len() as int,
            ));
            assert(s2.live(e));
            assert(s2.parent_of(e) is None);
        }
        self.stack.truncate(len - m);
        let _despawned = scene.despawn(e);
        proof {
            let sf = *scene;
            assert(sf.live(p) ==> sf.children_of(p) == s2.children_of(p)) by {
                if sf.live(p) {
                    assert(s2.same_node(sf, p));
                }
            }
            // every survivor was live before and looked the same right
            // after the splice
            assert forall|n: usize| #![trigger sf.live(n)] sf.live(n) implies old(scene).live(n)
                && s2.live(n) && s2.same_node(sf, n) by {
                assert(s2.live(n));
                assert(s1.live(n) == s2.live(n)) by {
                    if n == e {
                    } else if n == p {
                        assert(s1.same_node_except_children(s2, p));
                    } else {
                        assert(s1.same_node(s2, n));
                    }
                }
                assert(s1.live(n) == old(scene).live(n));
            }
            assert forall|q: usize| #![trigger sf.children_of(q)] q != p && sf.live(q) implies
                sf.children_of(q) == crate::scene::seq_without(
                old(scene).children_of(q),
                block@,
            ) by {
                assert(q != e) by {
                    assert(!sf.live(e));
                }
                assert(s1.same_node(s2, q));
                assert(s2.same_node(sf, q));
                assert(s1.children_of(q) == crate::scene::seq_without(
                    old(scene).children_of(q),
                    block@,
                ));
            }
            assert forall|n: usize| #![trigger sf.parent_of(n)] sf.live(n) && !block@.contains(
                n,
            ) implies sf.parent_of(n) == old(scene).parent_of(n) by {
                assert(n != e) by {
                    assert(!sf.live(e));
                }
                assert(s2.same_node(sf, n));
                if n == p {
                    assert(s1.same_node_except_children(s2, p));
                } else {
                    assert(s1.same_node(s2, n));
                }
                assert(s1.parent_of(n) == old(scene).parent_of(n));
            }
            assert forall|n: usize| #![trigger sf.text_of(n)] sf.live(n) implies sf.text_of(n)
                == old(scene).text_of(n) by {
                assert(n != e) by {
                    assert(!sf.live(e));
                }
                assert(s2.same_node(sf, n));
                if n == p {
                    assert(s1.same_node_except_children(s2, p));
                } else {
                    assert(s1.same_node(s2, n));
                }
                assert(s1.text_of(n) == old(scene).text_of(n));
            }
            assert forall|n: usize| #![trigger sf.tag_of(n)] sf.live(n) implies sf.tag_of(n)
                == old(scene).tag_of(n) by {
                assert(n != e) by {
                    assert(!sf.live(e));
                }
                assert(s2.same_node(sf, n));
                if n == p {
                    assert(s1.same_node_except_children(s2, p));
                } else {
                    assert(s1.same_node(s2, n));
                }
                assert(s1.tag_of(n) == old(scene).tag_of(n));
            }
            assert forall|n: usize|
                old(scene).live(n) && old(scene).parent_of(n) is None && !block@.contains(
                    n,
                ) implies sf.live(n) by {
                assert(n != e);
                assert(s1.live(n) && s1.parent_of(n) == old(scene).parent_of(n)) by {
                    assert(s1.live(n) == old(scene).live(n));
                }
                assert(s2.live(n) && s2.parent_of(n) is None) by {
                    if n == p {
                        assert(s1.same_node_except_children(s2, p));
                    } else {
                        assert(s1.same_node(s2, n));
                    }
                }
            }
            assert(self.stack@ =~= remaining_stack(old(self).stack(), m));
        }
        Ok(())
    }

    /// Executes one deferred command against the scene-graph model.
    ///
    /// Succeeds exactly under `command_ok`; any failure is a contract
    /// violation, fatal for the render pass, and leaves the construction
    /// stack, the id registry and every entity that existed before
    /// untouched.  Host-side work the command calls for is appended to
    /// `effects`, in invocation order.
    #[verifier::rlimit(100)]
    #[verifier::spinoff_prover]
    pub fn apply_command(
        &mut self,
        scene: &mut SceneGraph,
        root: &mut DioxusRoot,
        builders: &DioxusBuilders,
        installers: &EventInstallers,
        channels: &mut EventChannels,
        effects: &mut Vec<Effect>,
        cmd: &Command,
    ) -> (r: Result<(), CoreError>)
        requires
            old(scene).wf(),
            builders.wf(),
        ensures
            final(scene).wf(),
            final(scene).n_nodes() >= old(scene).n_nodes(),
            final(self).spec_root_entity() == old(self).spec_root_entity(),
            final(self).commands() == old(self).commands(),
            final(root).spec_root_entity() == old(root).spec_root_entity(),
            r is Ok <==> command_ok(
                *old(scene),
                old(root).id_map(),
                *builders,
                installers.entries(),
                old(self).stack(),
                *cmd,
            ),
            r is Ok ==> final(self).stack().len() as int == old(self).stack().len() + stack_delta(
                *cmd,
            ),
            r is Err ==> final(self).stack() == old(self).stack() && final(root).id_map() == old(
                root,
            ).id_map(),
            final(effects)@.len() >= old(effects)@.len(),
            forall|q: int| 0 <= q < old(effects)@.len() ==> final(effects)@[q] == old(effects)@[q],
            command_id(*cmd) matches Some(i) ==> (!old(root).id_map().contains_key(i) ==> r
                == Err::<(), CoreError>(CoreError::UnknownId { id: i })),
            forall|n: usize|
                #![trigger old(scene).live(n)]
                old(scene).live(n) && final(scene).live(n) && Some(n) != touched_entity(
                    *old(scene),
                    old(root).id_map(),
                    old(self).stack(),
                    *cmd,
                ) && !popped_block(old(self).stack(), popped_count(*cmd)).contains(n)
                    && !is_former_parent(
                    *old(scene),
                    popped_block(old(self).stack(), popped_count(*cmd)),
                    n,
                ) ==> old(scene).same_node(*final(scene), n),
            !despawns(*cmd) ==> forall|n: usize|
                #![trigger old(scene).live(n)]
                old(scene).live(n) && Some(n) != touched_entity(
                    *old(scene),
                    old(root).id_map(),
                    old(self).stack(),
                    *cmd,
                ) && !popped_block(old(self).stack(), popped_count(*cmd)).contains(n)
                    && !is_former_parent(
                    *old(scene),
                    popped_block(old(self).stack(), popped_count(*cmd)),
                    n,
                ) ==> final(scene).live(n) && old(scene).same_node(*final(scene), n),
            match *cmd {
                Command::SetAttribute { name, value, id } => {
                    if old(root).id_map().contains_key(id) && value is Listener {
                        let e = old(root).id_map()[id];
                        let h = value->Listener_0;
                        &&& final(channels).spec_lookup(e, name@) == Some(h)
                        &&& forall|e2: usize, n2: Seq<char>|
                            !(e2 == e && n2 == name@) ==> final(channels).spec_lookup(e2, n2)
                                == old(channels).spec_lookup(e2, n2)
                    } else {
                        *final(channels) == *old(channels)
                    }
                },
                _ => *final(channels) == *old(channels),
            },
            r is Ok ==> apply_ok_post(
                *old(scene),
                *final(scene),
                old(root).id_map(),
                final(root).id_map(),
                *builders,
                installers.entries(),
                old(self).stack(),
                final(self).stack(),
                old(effects)@,
                final(effects)@,
                old(self).spec_root_entity(),
                *cmd,
            ),
    {
        match cmd {
            Command::CreatePlaceholder { id } => {
                let e = scene.spawn(None, None);
                root.assign_entity_to_id(*id, e);
                self.stack.push(e);
                proof {
                    assert forall|n: usize|
                        #![trigger old(scene).live(n)]
                        old(scene).live(n) implies old(scene).same_node(*scene, n) by {
                        assert(n != e);
                    }
                }
                Ok(())
            },
            Command::CreateTextNode { value, id } => {
                let e = scene.spawn(Some(value.clone()), None);
                root.assign_entity_to_id(*id, e);
                self.stack.push(e);
                proof {
                    assert forall|n: usize|
                        #![trigger old(scene).live(n)]
                        old(scene).live(n) implies old(scene).same_node(*scene, n) by {
                        assert(n != e);
                    }
                }
                Ok(())
            },
            Command::LoadTemplate { template, index, id } => {
                if *index >= template.roots.len() {
                    return Err(CoreError::TemplateIndexOutOfRange { index: *index });
                }
                let e = match realize_node(scene, builders, &template.roots[*index], effects) {
                    Ok(e) => e,
                    Err(err) => {
                        return Err(err);
                    },
                };
                root.assign_entity_to_id(*id, e);
                self.stack.push(e);
                Ok(())
            },
            Command::AssignNodeId { path, id } => {
                if self.stack.len() == 0 {
                    return Err(CoreError::StackUnderflow);
                }
                let top = self.stack[self.stack.len() - 1];
                let e = match scene.descend_path(top, path) {
                    Ok(e) => e,
                    Err(err) => {
                        return Err(err);
                    },
                };
                root.assign_entity_to_id(*id, e);
                Ok(())
            },
            Command::PushRoot { id } => {
                let e = match root.id_to_entity(*id) {
                    Ok(e) => e,
                    Err(err) => {
                        return Err(err);
                    },
                };
                self.stack.push(e);
                Ok(())
            },
            Command::AppendChildren { id, m } => {
                let parent = match root.id_to_entity(*id) {
                    Ok(e) => e,
                    Err(err) => {
                        return Err(err);
                    },
                };
                let len = self.stack.len();
                if *m > len {
                    return Err(CoreError::StackUnderflow);
                }
                if !scene.is_live(parent) {
                    return Err(CoreError::NotAlive { entity: parent });
                }
                let block = self.peek_block(*m);
                if block_contains(&block, parent) {
                    return Err(CoreError::SelfParent { entity: parent });
                }
                match scene.detach_block(&block) {
                    Err(err) => {
                        proof {
                            lemma_unmovable_block(*old(scene), parent, block@);
                        }
                        return Err(err);
                    },
                    Ok(()) => {},
                }
                proof {
                    assert forall|i: int| #![trigger block@[i]] 0 <= i < block@.len() implies
                        block@[i] != parent by {
                        if block@[i] == parent {
                            assert(block@.contains(parent));
                        }
                    }
                    assert(old(scene).block_movable(parent, block@));
                    assert(scene.block_ok(parent, block@));
                }
                let at = scene.child_count(parent);
                let ghost s_d = *scene;
                let r_ins = scene.insert_block_at(parent, at, &block);
                proof {
                    assert(r_ins is Ok);
                }
                match r_ins {
                    Err(err) => {
                        proof {
                            assert(false);
                        }
                        return Err(err);
                    },
                    Ok(()) => {},
                }
                self.stack.truncate(len - *m);
                proof {
                    lemma_move_frames(*old(scene), s_d, *scene, parent, block@);
                    assert(scene.children_of(parent) =~= crate::scene::seq_without(
                        old(scene).children_of(parent),
                        block@,
                    ) + block@);
                    assert(self.stack@ =~= remaining_stack(old(self).stack(), *m));
                }
                Ok(())
            },
            Command::InsertNodesBefore { id, m } => {
                let ref_e = match root.id_to_entity(*id) {
                    Ok(e) => e,
                    Err(err) => {
                        return Err(err);
                    },
                };
                let len = self.stack.len();
                if *m > len {
                    return Err(CoreError::StackUnderflow);
                }
                let p = match scene.get_parent(ref_e) {
                    Some(p) => p,
                    None => {
                        return Err(CoreError::NoParent { entity: ref_e });
                    },
                };
                let block = self.peek_block(*m);
                if block_contains(&block, ref_e) {
                    return Err(CoreError::NoParent { entity: ref_e });
                }
                if block_contains(&block, p) {
                    return Err(CoreError::SelfParent { entity: p });
                }
                match scene.detach_block(&block) {
                    Err(err) => {
                        proof {
                            lemma_unmovable_block(*old(scene), p, block@);
                        }
                        return Err(err);
                    },
                    Ok(()) => {},
                }
                proof {
                    assert forall|i: int| #![trigger block@[i]] 0 <= i < block@.len() implies
                        block@[i] != p by {
                        if block@[i] == p {
                            assert(block@.contains(p));
                        }
                    }
                    assert(old(scene).block_movable(p, block@));
                    assert(scene.parent_of(ref_e) == Some(p));
                    assert(scene.children_of(p).contains(ref_e));
                }
                let k = scene.index_of_child(p, ref_e);
                proof {
                    lemma_unique_child_index(*scene, p, ref_e, k as int);
                }
                let ghost s_d = *scene;
                let r_ins = scene.insert_block_at(p, k, &block);
                proof {
                    assert(s_d.block_ok(p, block@));
                    assert(r_ins is Ok);
                }
                match r_ins {
                    Err(err) => {
                        proof {
                            assert(false);
                        }
                        return Err(err);
                    },
                    Ok(()) => {},
                }
                self.stack.truncate(len - *m);
                proof {
                    lemma_move_frames(*old(scene), s_d, *scene, p, block@);
                    assert(self.stack@ =~= remaining_stack(old(self).stack(), *m));
                }
                Ok(())
            },
            Command::InsertNodesAfter { id, m } => {
                let ref_e = match root.id_to_entity(*id) {
                    Ok(e) => e,
                    Err(err) => {
                        return Err(err);
                    },
                };
                let len = self.stack.len();
                if *m > len {
                    return Err(CoreError::StackUnderflow);
                }
                let p = match scene.get_parent(ref_e) {
                    Some(p) => p,
                    None => {
                        return Err(CoreError::NoParent { entity: ref_e });
                    },
                };
                let block = self.peek_block(*m);
                if block_contains(&block, ref_e) {
                    return Err(CoreError::NoParent { entity: ref_e });
                }
                if block_contains(&block, p) {
                    return Err(CoreError::SelfParent { entity: p });
                }
                match scene.detach_block(&block) {
                    Err(err) => {
                        proof {
                            lemma_unmovable_block(*old(scene), p, block@);
                        }
                        return Err(err);
                    },
                    Ok(()) => {},
                }
                proof {
                    assert forall|i: int| #![trigger block@[i]] 0 <= i < block@.len() implies
                        block@[i] != p by {
                        if block@[i] == p {
                            assert(block@.contains(p));
                        }
                    }
                    assert(old(scene).block_movable(p, block@));
                    assert(scene.parent_of(ref_e) == Some(p));
                    assert(scene.children_of(p).contains(ref_e));
                }
                let cc = scene.child_count(p);
                let k = scene.index_of_child(p, ref_e);
                proof {
                    lemma_unique_child_index(*scene, p, ref_e, k as int);
                    assert(k < cc);
                }
                let ghost s_d = *scene;
                let r_ins = scene.insert_block_at(p, k + 1, &block);
                proof {
                    assert(s_d.block_ok(p, block@));
                    assert(r_ins is Ok);
                }
                match r_ins {
                    Err(err) => {
                        proof {
                            assert(false);
                        }
                        return Err(err);
                    },
                    Ok(()) => {},
                }
                self.stack.truncate(len - *m);
                proof {
                    lemma_move_frames(*old(scene), s_d, *scene, p, block@);
                    assert(self.stack@ =~= remaining_stack(old(self).stack(), *m));
                }
                Ok(())
            },
            Command::ReplaceNodeWith { id, m } => {
                let e = match root.id_to_entity(*id) {
                    Ok(e) => e,
                    Err(err) => {
                        return Err(err);
                    },
                };
                let r = self.replace_entity(scene, e, *m);
                proof {
                    if r is Ok {
                        let block = popped_block(old(self).stack(), *m);
                        assert forall|n: usize|
                            #![trigger old(scene).live(n)]
                            old(scene).live(n) && scene.live(n) && Some(n) != old(
                                scene,
                            ).parent_of(e) && !block.contains(n) && !is_former_parent(
                                *old(scene),
                                block,
                                n,
                            ) implies old(scene).same_node(*scene, n) by {
                            assert forall|j: int|
                                0 <= j < old(scene).children_of(n).len() implies !block.contains(
                                #[trigger] old(scene).children_of(n)[j],
                            ) by {
                                if block.contains(old(scene).children_of(n)[j]) {
                                    let w = choose|w: int|
                                        0 <= w < block.len() && block[w] == old(
                                            scene,
                                        ).children_of(n)[j];
                                    assert(old(scene).parent_of(old(scene).children_of(n)[j])
                                        == Some(n));
                                    assert(old(scene).parent_of(block[w]) == Some(n));
                                }
                            }
                            crate::scene::lemma_seq_without_all_absent(
                                old(scene).children_of(n),
                                block,
                            );
                            assert(scene.children_of(n) == crate::scene::seq_without(
                                old(scene).children_of(n),
                                block,
                            ));
                        }
                    }
                }
                r
            },
            Command::ReplacePlaceholderWithNodes { path, m } => {
                if self.stack.len() == 0 {
                    return Err(CoreError::StackUnderflow);
                }
                let top = self.stack[self.stack.len() - 1];
                let e = match scene.descend_path(top, path) {
                    Ok(e) => e,
                    Err(err) => {
                        return Err(err);
                    },
                };
                let r = self.replace_entity(scene, e, *m);
                proof {
                    if r is Ok {
                        let block = popped_block(old(self).stack(), *m);
                        assert forall|n: usize|
                            #![trigger old(scene).live(n)]
                            old(scene).live(n) && scene.live(n) && Some(n) != old(
                                scene,
                            ).parent_of(e) && !block.contains(n) && !is_former_parent(
                                *old(scene),
                                block,
                                n,
                            ) implies old(scene).same_node(*scene, n) by {
                            assert forall|j: int|
                                0 <= j < old(scene).children_of(n).len() implies !block.contains(
                                #[trigger] old(scene).children_of(n)[j],
                            ) by {
                                if block.contains(old(scene).children_of(n)[j]) {
                                    let w = choose|w: int|
                                        0 <= w < block.len() && block[w] == old(
                                            scene,
                                        ).children_of(n)[j];
                                    assert(old(scene).parent_of(old(scene).children_of(n)[j])
                                        == Some(n));
                                    assert(old(scene).parent_of(block[w]) == Some(n));
                                }
                            }
                            crate::scene::lemma_seq_without_all_absent(
                                old(scene).children_of(n),
                                block,
                            );
                            assert(scene.children_of(n) == crate::scene::seq_without(
                                old(scene).children_of(n),
                                block,
                            ));
                        }
                    }
                }
                r
            },
            Command::RemoveNode { id } => {
                let e = match root.id_to_entity(*id) {
                    Ok(e) => e,
                    Err(err) => {
                        return Err(err);
                    },
                };
                match scene.despawn(e) {
                    Ok(()) => Ok(()),
                    Err(err) => Err(err),
                }
            },
            Command::SetAttribute { name, value, id } => {
                let e = match root.id_to_entity(*id) {
                    Ok(e) => e,
                    Err(err) => {
                        return Err(err);
                    },
                };
                if let AttributeValue::Listener(h) = value {
                    // an event-listener value is recorded in the event
                    // channels rather than routed to a mutator
                    channels.set(e, name.clone(), *h);
                    return Ok(());
                }
                let tag = match scene.get_tag(e) {
                    Some(t) => t,
                    None => {
                        return Err(CoreError::MissingElementTag { entity: e });
                    },
                };
                match builders.get(&tag) {
                    None => Ok(()),
                    Some(k) => {
                        let entry = builders.entry_at(k);
                        match find_mutator(entry, name) {
                            None => Ok(()),
                            Some(j) => {
                                let kind = entry.attribute_mutators[j].kind;
                                match convert_attribute(value, &kind) {
                                    Ok(v) => {
                                        effects.push(
                                            Effect::ApplyAttribute {
                                                kind: k,
                                                mutator: j,
                                                entity: e,
                                                value: v,
                                            },
                                        );
                                        Ok(())
                                    },
                                    Err(err) => Err(err),
                                }
                            },
                        }
                    },
                }
            },
            Command::SetNodeText { value, id } => {
                let e = match root.id_to_entity(*id) {
                    Ok(e) => e,
                    Err(err) => {
                        return Err(err);
                    },
                };
                match scene.set_text(e, value.clone()) {
                    Ok(()) => {
                        proof {
                            assert forall|n: usize|
                                #![trigger old(scene).live(n)]
                                old(scene).live(n) && n != e implies old(scene).same_node(
                                *scene,
                                n,
                            ) by {}
                        }
                        Ok(())
                    },
                    Err(err) => Err(err),
                }
            },
            Command::CreateEventListener { name, id } => {
                let e = match root.id_to_entity(*id) {
                    Ok(e) => e,
                    Err(err) => {
                        return Err(err);
                    },
                };
                match installers.find(name) {
                    Some(i) => {
                        effects.push(
                            Effect::InstallListener {
                                installer: i,
                                root: self.root_entity,
                                target: e,
                                id: *id,
                            },
                        );
                    },
                    None => {},
                }
                Ok(())
            },
        }
    }
}

/// The per-root state one deferred command acts on, gathered for
/// specification purposes: the scene model, the id registry's map, the
/// construction stack and the host-side effects reported so far.
pub ghost struct EngineState {
    pub scene: SceneGraph,
    pub id_map: Map<usize, usize>,
    pub stack: Seq<usize>,
    pub effects: Seq<Effect>,
}

/// One command executed successfully between the two states: it was
/// allowed to succeed there, and the states relate as executing it
/// dictates.
pub open spec fn step_applies(
    b: DioxusBuilders,
    installers: Seq<crate::registry::EventHandlerInstaller>,
    root_entity: usize,
    pre: EngineState,
    post: EngineState,
    cmd: Command,
) -> bool {
    &&& command_ok(pre.scene, pre.id_map, b, installers, pre.stack, cmd)
    &&& apply_ok_post(
        pre.scene,
        post.scene,
        pre.id_map,
        post.id_map,
        b,
        installers,
        pre.stack,
        post.stack,
        pre.effects,
        post.effects,
        root_entity,
        cmd,
    )
}

/// A whole batch executed successfully between the two states: some chain
/// of intermediate states steps through the commands in order.
pub open spec fn batch_applies(
    b: DioxusBuilders,
    installers: Seq<crate::registry::EventHandlerInstaller>,
    root_entity: usize,
    pre: EngineState,
    post: EngineState,
    cmds: Seq<Command>,
) -> bool
    decreases cmds.len(),
{
    if cmds.len() == 0 {
        post == pre
    } else {
        exists|mid: EngineState|
            #[trigger] step_applies(b, installers, root_entity, pre, mid, cmds.first())
                && batch_applies(b, installers, root_entity, mid, post, cmds.drop_first())
    }
}

/// Executing a batch genuinely gets stuck: some prefix of it executes, and
/// the command right after that prefix is not executable in the state the
/// prefix reaches.  Draining and executing a queue fails exactly on such
/// batches; in particular a batch that stays executable all the way
/// through is owed success.
pub open spec fn batch_blocked(
    b: DioxusBuilders,
    installers: Seq<crate::registry::EventHandlerInstaller>,
    root_entity: usize,
    pre: EngineState,
    cmds: Seq<Command>,
) -> bool {
    exists|i: int, mid: EngineState|
        0 <= i < cmds.len() && #[trigger] batch_applies(
            b,
            installers,
            root_entity,
            pre,
            mid,
            cmds.take(i),
        ) && !command_ok(mid.scene, mid.id_map, b, installers, mid.stack, cmds[i])
}

/// A batch extended by one successfully executed command is still a
/// successfully executed batch.
proof fn lemma_batch_applies_snoc(
    b: DioxusBuilders,
    installers: Seq<crate::registry::EventHandlerInstaller>,
    root_entity: usize,
    pre: EngineState,
    mid: EngineState,
    post: EngineState,
    cmds: Seq<Command>,
    cmd: Command,
)
    requires
        batch_applies(b, installers, root_entity, pre, mid, cmds),
        step_applies(b, installers, root_entity, mid, post, cmd),
    ensures
        batch_applies(b, installers, root_entity, pre, post, cmds.push(cmd)),
    decreases cmds.len(),
{
    let whole = cmds.push(cmd);
    if cmds.len() == 0 {
        assert(mid == pre);
        assert(whole.first() == cmd);
        assert(whole.drop_first() =~= Seq::<Command>::empty());
        assert(step_applies(b, installers, root_entity, pre, post, whole.first()));
        assert(batch_applies(b, installers, root_entity, post, post, whole.drop_first()));
    } else {
        let m1 = choose|m1: EngineState|
            #[trigger] step_applies(b, installers, root_entity, pre, m1, cmds.first())
                && batch_applies(b, installers, root_entity, m1, mid, cmds.drop_first());
        lemma_batch_applies_snoc(
            b,
            installers,
            root_entity,
            m1,
            mid,
            post,
            cmds.drop_first(),
            cmd,
        );
        assert(whole.first() == cmds.first());
        assert(whole.drop_first() =~= cmds.drop_first().push(cmd));
        assert(step_applies(b, installers, root_entity, pre, m1, whole.first()));
        assert(batch_applies(b, installers, root_entity, m1, post, whole.drop_first()));
    }
}

impl WorldRenderer {
    /// The construction stack's depth.
    pub fn stack_depth(&self) -> (r: usize)
        ensures
            r == self.stack().len(),
    {
        self.stack.len()
    }

    /// Drains the deferred command queue and executes every command, in
    /// queue order, stopping at the first failure.
    ///
    /// On success the construction stack's depth has moved by exactly the
    /// combined stack effect of the batch; in particular a balanced batch
    /// leaves it where it was.
    #[verifier::loop_isolation(false)]
    pub fn process_commands(
        &mut self,
        scene: &mut SceneGraph,
        root: &mut DioxusRoot,
        builders: &DioxusBuilders,
        installers: &EventInstallers,
        channels: &mut EventChannels,
        effects: &mut Vec<Effect>,
        commands: &mut crate::commands::DioxusCommands,
    ) -> (r: Result<(), CoreError>)
        requires
            old(scene).wf(),
            builders.wf(),
        ensures
            final(scene).wf(),
            final(commands).commands() == Seq::<Command>::empty(),
            final(self).spec_root_entity() == old(self).spec_root_entity(),
            final(self).commands() == old(self).commands(),
            final(root).spec_root_entity() == old(root).spec_root_entity(),
            r is Ok ==> final(self).stack().len() as int == old(self).stack().len()
                + crate::commands::sum_deltas(old(commands).commands()),
            r is Ok ==> batch_applies(
                *builders,
                installers.entries(),
                old(self).spec_root_entity(),
                (EngineState {
                    scene: *old(scene),
                    id_map: old(root).id_map(),
                    stack: old(self).stack(),
                    effects: old(effects)@,
                }),
                (EngineState {
                    scene: *final(scene),
                    id_map: final(root).id_map(),
                    stack: final(self).stack(),
                    effects: final(effects)@,
                }),
                old(commands).commands(),
            ),
            r is Err ==> batch_blocked(
                *builders,
                installers.entries(),
                old(self).spec_root_entity(),
                (EngineState {
                    scene: *old(scene),
                    id_map: old(root).id_map(),
                    stack: old(self).stack(),
                    effects: old(effects)@,
                }),
                old(commands).commands(),
            ),
    {
        let batch = commands.drain();
        let n = batch.len();
        let ghost pre = EngineState {
            scene: *scene,
            id_map: root.id_map(),
            stack: self.stack(),
            effects: effects@,
        };
        proof {
            assert(batch@.take(0) =~= Seq::<Command>::empty());
        }
        for i in 0..n
            invariant
                scene.wf(),
                self.spec_root_entity() == old(self).spec_root_entity(),
                self.commands() == old(self).commands(),
                root.spec_root_entity() == old(root).spec_root_entity(),
                self.stack().len() as int == old(self).stack().len() + crate::commands::sum_deltas(
                    batch@.take(i as int),
                ),
                batch_applies(
                    *builders,
                    installers.entries(),
                    old(self).spec_root_entity(),
                    pre,
                    (EngineState {
                        scene: *scene,
                        id_map: root.id_map(),
                        stack: self.stack(),
                        effects: effects@,
                    }),
                    batch@.take(i as int),
                ),
        {
            let cmd = &batch[i];
            let ghost mid = EngineState {
                scene: *scene,
                id_map: root.id_map(),
                stack: self.stack(),
                effects: effects@,
            };
            match self.apply_command(scene, root, builders, installers, channels, effects, cmd) {
                Ok(()) => {},
                Err(err) => {
                    proof {
                        assert(!command_ok(
                            mid.scene,
                            mid.id_map,
                            *builders,
                            installers.entries(),
                            mid.stack,
                            batch@[i as int],
                        ));
                        assert(batch_applies(
                            *builders,
                            installers.entries(),
                            old(self).spec_root_entity(),
                            pre,
                            mid,
                            batch@.take(i as int),
                        ));
                    }
                    return Err(err);
                },
            }
            proof {
                assert(batch@.take(i + 1).drop_last() =~= batch@.take(i as int));
                assert(batch@.take(i + 1).last() == batch@[i as int]);
                let cur = EngineState {
                    scene: *scene,
                    id_map: root.id_map(),
                    stack: self.stack(),
                    effects: effects@,
                };
                assert(step_applies(
                    *builders,
                    installers.entries(),
                    old(self).spec_root_entity(),
                    mid,
                    cur,
                    batch@[i as int],
                ));
                lemma_batch_applies_snoc(
                    *builders,
                    installers.entries(),
                    old(self).spec_root_entity(),
                    pre,
                    mid,
                    cur,
                    batch@.take(i as int),
                    batch@[i as int],
                );
                assert(batch@.take(i as int).push(batch@[i as int]) =~= batch@.take(i + 1));
            }
        }
        proof {
            assert(batch@.take(n as int) =~= batch@);
        }
        Ok(())
    }
}

/// Law (sibling order after removal): appending a block of entities under
/// a root entity and then removing one of the appended entities leaves the
/// remaining children — the old children followed by the rest of the block
/// — in their original relative order, and the parent itself survives.
pub proof fn lemma_append_then_remove_commands(
    b: DioxusBuilders,
    installers: Seq<crate::registry::EventHandlerInstaller>,
    root_entity: usize,
    s0: EngineState,
    s1: EngineState,
    s2: EngineState,
    id_parent: usize,
    m: usize,
    id_removed: usize,
    j: int,
)
    requires
        s0.scene.wf(),
        step_applies(
            b,
            installers,
            root_entity,
            s0,
            s1,
            Command::AppendChildren { id: id_parent, m },
        ),
        step_applies(b, installers, root_entity, s1, s2, Command::RemoveNode { id: id_removed }),
        s0.scene.parent_of(s0.id_map[id_parent]) is None,
        forall|i: int|
            0 <= i < m ==> s0.scene.parent_of(#[trigger] popped_block(s0.stack, m)[i]) is None,
        0 <= j < m,
        s1.id_map[id_removed] == popped_block(s0.stack, m)[j],
    ensures
        ({
            let p = s0.id_map[id_parent];
            let c = s0.scene.children_of(p);
            let block = popped_block(s0.stack, m);
            &&& s2.scene.live(p)
            &&& !s2.scene.live(block[j])
            &&& s2.scene.children_of(p) == c + block.remove(j)
        }),
{
    let p = s0.id_map[id_parent];
    let c = s0.scene.children_of(p);
    let block = popped_block(s0.stack, m);
    let e = block[j];
    // the block is parentless, so nothing of it sits under the parent yet
    assert forall|i: int| 0 <= i < c.len() implies !block.contains(#[trigger] c[i]) by {
        if block.contains(c[i]) {
            let w = choose|w: int| 0 <= w < block.len() && block[w] == c[i];
            assert(s0.scene.parent_of(c[i]) == Some(p));
            assert(s0.scene.parent_of(block[w]) is None);
        }
    }
    crate::scene::lemma_seq_without_all_absent(c, block);
    // after the append: old children then the block, the parent still a root
    assert(s1.scene.children_of(p) == c + block);
    assert(s0.scene.same_node_except_children(s1.scene, p));
    assert(s1.scene.live(p) && s1.scene.parent_of(p) is None) by {
        assert(!block.contains(p)) by {
            if block.contains(p) {
                let w = choose|w: int| 0 <= w < block.len() && block[w] == p;
                assert(block[w] != p);
            }
        }
    }
    assert(s1.scene.parent_of(e) == Some(p));
    // the removed entity occurs in the list exactly once, at position
    // c.len() + j
    assert forall|i: int| 0 <= i < c.len() implies #[trigger] c[i] != e by {
        assert(s0.scene.parent_of(c[i]) == Some(p));
        assert(s0.scene.parent_of(e) is None);
    }
    assert forall|i: int| 0 <= i < block.len() && i != j implies #[trigger] block[i] != e by {}
    crate::scene::lemma_append_then_remove_preserves_order(c, block, j);
    // the removal: the parent is a root distinct from the removed entity,
    // so it survives, and its child list loses exactly that position
    assert(p != e);
    assert(s2.scene.live(p));
    assert(s2.scene.children_of(p) == s1.scene.children_of(p).remove(
        s1.scene.children_of(p).index_of(e),
    ));
    assert(s1.scene.children_of(p).index_of(e) == c.len() + j);
    assert(!s2.scene.live(e));
}

/// Law (insertion splice, before): placing a popped block before a
/// reference entity yields the parent's old children with the block
/// contiguous immediately before the reference, the block's internal
/// order and every untouched sibling's position preserved; the parent
/// survives with everything but its child list unchanged.
pub proof fn lemma_insert_before_splice(
    b: DioxusBuilders,
    installers: Seq<crate::registry::EventHandlerInstaller>,
    root_entity: usize,
    pre: EngineState,
    post: EngineState,
    id: usize,
    m: usize,
)
    requires
        pre.scene.wf(),
        step_applies(b, installers, root_entity, pre, post, Command::InsertNodesBefore { id, m }),
        forall|i: int|
            0 <= i < m ==> pre.scene.parent_of(#[trigger] popped_block(pre.stack, m)[i]) is None,
    ensures
        ({
            let ref_e = pre.id_map[id];
            let p = pre.scene.parent_of(ref_e)->0;
            let c = pre.scene.children_of(p);
            let k = c.index_of(ref_e);
            &&& post.scene.live(p)
            &&& 0 <= k < c.len() && c[k] == ref_e
            &&& post.scene.children_of(p) == c.subrange(0, k) + popped_block(pre.stack, m)
                + c.subrange(k, c.len() as int)
        }),
{
    let ref_e = pre.id_map[id];
    let p = pre.scene.parent_of(ref_e)->0;
    let block = popped_block(pre.stack, m);
    let c = pre.scene.children_of(p);
    assert forall|i: int| 0 <= i < c.len() implies !block.contains(#[trigger] c[i]) by {
        if block.contains(c[i]) {
            let w = choose|w: int| 0 <= w < block.len() && block[w] == c[i];
            assert(pre.scene.parent_of(c[i]) == Some(p));
            assert(pre.scene.parent_of(block[w]) is None);
        }
    }
    crate::scene::lemma_seq_without_all_absent(c, block);
    assert(pre.scene.live(p));
    assert(post.scene.live(p));
}

/// Law (insertion splice, after): as before, with the block contiguous
/// immediately after the reference entity.
pub proof fn lemma_insert_after_splice(
    b: DioxusBuilders,
    installers: Seq<crate::registry::EventHandlerInstaller>,
    root_entity: usize,
    pre: EngineState,
    post: EngineState,
    id: usize,
    m: usize,
)
    requires
        pre.scene.wf(),
        step_applies(b, installers, root_entity, pre, post, Command::InsertNodesAfter { id, m }),
        forall|i: int|
            0 <= i < m ==> pre.scene.parent_of(#[trigger] popped_block(pre.stack, m)[i]) is None,
    ensures
        ({
            let ref_e = pre.id_map[id];
            let p = pre.scene.parent_of(ref_e)->0;
            let c = pre.scene.children_of(p);
            let k = c.index_of(ref_e);
            &&& post.scene.live(p)
            &&& 0 <= k < c.len() && c[k] == ref_e
            &&& post.scene.children_of(p) == c.subrange(0, k + 1) + popped_block(pre.stack, m)
                + c.subrange(k + 1, c.len() as int)
        }),
{
    let ref_e = pre.id_map[id];
    let p = pre.scene.parent_of(ref_e)->0;
    let block = popped_block(pre.stack, m);
    let c = pre.scene.children_of(p);
    assert forall|i: int| 0 <= i < c.len() implies !block.contains(#[trigger] c[i]) by {
        if block.contains(c[i]) {
            let w = choose|w: int| 0 <= w < block.len() && block[w] == c[i];
            assert(pre.scene.parent_of(c[i]) == Some(p));
            assert(pre.scene.parent_of(block[w]) is None);
        }
    }
    crate::scene::lemma_seq_without_all_absent(c, block);
    assert(pre.scene.live(p));
    assert(post.scene.live(p));
}

/// Law (replacement splice): replacing an entity whose parent is a root
/// splices the popped block into the replaced entity's positions among its
/// siblings, keeps every other sibling in order, and despawns the replaced
/// entity; the parent itself survives.
pub proof fn lemma_replace_under_root(
    b: DioxusBuilders,
    installers: Seq<crate::registry::EventHandlerInstaller>,
    root_entity: usize,
    pre: EngineState,
    post: EngineState,
    id: usize,
    m: usize,
)
    requires
        pre.scene.wf(),
        step_applies(b, installers, root_entity, pre, post, Command::ReplaceNodeWith { id, m }),
        pre.scene.parent_of(pre.scene.parent_of(pre.id_map[id])->0) is None,
        forall|i: int|
            0 <= i < m ==> pre.scene.parent_of(#[trigger] popped_block(pre.stack, m)[i]) is None,
    ensures
        ({
            let e = pre.id_map[id];
            let p = pre.scene.parent_of(e)->0;
            let c = pre.scene.children_of(p);
            let k = c.index_of(e);
            &&& post.scene.live(p)
            &&& !post.scene.live(e)
            &&& post.scene.children_of(p) == c.subrange(0, k) + popped_block(pre.stack, m)
                + c.subrange(k + 1, c.len() as int)
        }),
{
    let e = pre.id_map[id];
    let p = pre.scene.parent_of(e)->0;
    let block = popped_block(pre.stack, m);
    let c = pre.scene.children_of(p);
    assert forall|i: int| 0 <= i < c.len() implies !block.contains(#[trigger] c[i]) by {
        if block.contains(c[i]) {
            let w = choose|w: int| 0 <= w < block.len() && block[w] == c[i];
            assert(pre.scene.parent_of(c[i]) == Some(p));
            assert(pre.scene.parent_of(block[w]) is None);
        }
    }
    crate::scene::lemma_seq_without_all_absent(c, block);
    assert(!block.contains(p)) by {
        if block.contains(p) {
            let w = choose|w: int| 0 <= w < block.len() && block[w] == p;
            assert(block[w] != p);
        }
    }
    assert(pre.scene.live(p));
    assert(post.scene.live(p));
}

/// Law (placeholder replacement splice): replacing the path-resolved
/// placeholder, when its parent is a root, splices the popped block into
/// the placeholder's positions among its siblings, keeps every other
/// sibling in order, and despawns the placeholder; the parent survives.
pub proof fn lemma_replace_placeholder_under_root(
    b: DioxusBuilders,
    installers: Seq<crate::registry::EventHandlerInstaller>,
    root_entity: usize,
    pre: EngineState,
    post: EngineState,
    path: Vec<u8>,
    m: usize,
)
    requires
        pre.scene.wf(),
        step_applies(
            b,
            installers,
            root_entity,
            pre,
            post,
            Command::ReplacePlaceholderWithNodes { path, m },
        ),
        pre.scene.parent_of(
            pre.scene.parent_of(pre.scene.descend(pre.stack.last(), path@)->0)->0,
        ) is None,
        forall|i: int|
            0 <= i < m ==> pre.scene.parent_of(#[trigger] popped_block(pre.stack, m)[i]) is None,
    ensures
        ({
            let e = pre.scene.descend(pre.stack.last(), path@)->0;
            let p = pre.scene.parent_of(e)->0;
            let c = pre.scene.children_of(p);
            let k = c.index_of(e);
            &&& post.scene.live(p)
            &&& !post.scene.live(e)
            &&& post.scene.children_of(p) == c.subrange(0, k) + popped_block(pre.stack, m)
                + c.subrange(k + 1, c.len() as int)
        }),
{
    let e = pre.scene.descend(pre.stack.last(), path@)->0;
    let p = pre.scene.parent_of(e)->0;
    let block = popped_block(pre.stack, m);
    let c = pre.scene.children_of(p);
    assert forall|i: int| 0 <= i < c.len() implies !block.contains(#[trigger] c[i]) by {
        if block.contains(c[i]) {
            let w = choose|w: int| 0 <= w < block.len() && block[w] == c[i];
            assert(pre.scene.parent_of(c[i]) == Some(p));
            assert(pre.scene.parent_of(block[w]) is None);
        }
    }
    crate::scene::lemma_seq_without_all_absent(c, block);
    assert(!block.contains(p)) by {
        if block.contains(p) {
            let w = choose|w: int| 0 <= w < block.len() && block[w] == p;
            assert(block[w] != p);
        }
    }
    assert(pre.scene.live(p));
    assert(post.scene.live(p));
}

/// A block that cannot be detached (a member dead or popped twice) is not
/// movable either, under any target.
proof fn lemma_unmovable_block(s: SceneGraph, p: usize, block: Seq<usize>)
    requires
        !((forall|i: int| #![trigger block[i]] 0 <= i < block.len() ==> s.live(block[i])) && (
        forall|i: int, j: int|
            #![trigger block[i], block[j]]
            0 <= i < j < block.len() ==> block[i] != block[j])),
    ensures
        !s.block_movable(p, block),
{
    if s.block_movable(p, block) {
        assert forall|i: int| #![trigger block[i]] 0 <= i < block.len() implies s.live(
            block[i],
        ) by {}
        assert forall|i: int, j: int|
            #![trigger block[i], block[j]]
            0 <= i < j < block.len() implies block[i] != block[j] by {}
    }
}

/// Composing a block detachment with the splice that re-parents the block
/// under `p`: every other child list is its old one with the block taken
/// out, nothing else about any entity changes, and entities that were
/// neither popped nor a parent involved keep their state exactly.
proof fn lemma_move_frames(
    s0: SceneGraph,
    sd: SceneGraph,
    s2: SceneGraph,
    p: usize,
    block: Seq<usize>,
)
    requires
        s0.wf(),
        forall|q: usize|
            #![trigger sd.children_of(q)]
            sd.children_of(q) == crate::scene::seq_without(s0.children_of(q), block),
        forall|n: usize|
            #![trigger sd.parent_of(n)]
            !block.contains(n) ==> sd.parent_of(n) == s0.parent_of(n),
        forall|n: usize| #![trigger sd.live(n)] sd.live(n) == s0.live(n),
        forall|n: usize| #![trigger sd.text_of(n)] sd.text_of(n) == s0.text_of(n),
        forall|n: usize| #![trigger sd.tag_of(n)] sd.tag_of(n) == s0.tag_of(n),
        forall|i: int| 0 <= i < block.len() ==> sd.same_node_except_parent(s2, #[trigger] block[i]),
        sd.same_node_except_children(s2, p),
        forall|n: usize| n != p && !block.contains(n) ==> sd.same_node(s2, n),
    ensures
        forall|q: usize|
            #![trigger s2.children_of(q)]
            q != p ==> s2.children_of(q) == crate::scene::seq_without(s0.children_of(q), block),
        forall|n: usize|
            #![trigger s2.parent_of(n)]
            !block.contains(n) ==> s2.parent_of(n) == s0.parent_of(n),
        forall|n: usize| #![trigger s2.live(n)] s2.live(n) == s0.live(n),
        forall|n: usize| #![trigger s2.text_of(n)] s2.text_of(n) == s0.text_of(n),
        forall|n: usize| #![trigger s2.tag_of(n)] s2.tag_of(n) == s0.tag_of(n),
        forall|n: usize|
            #![trigger s0.live(n)]
            s0.live(n) && n != p && !block.contains(n) && !is_former_parent(s0, block, n)
                ==> s0.same_node(s2, n),
{
    assert forall|q: usize| #![trigger s2.children_of(q)] q != p implies s2.children_of(q)
        == crate::scene::seq_without(s0.children_of(q), block) by {
        if block.contains(q) {
            let w = choose|w: int| 0 <= w < block.len() && block[w] == q;
            assert(sd.same_node_except_parent(s2, block[w]));
        } else {
            assert(sd.same_node(s2, q));
        }
        assert(sd.children_of(q) == crate::scene::seq_without(s0.children_of(q), block));
    }
    assert forall|n: usize| #![trigger s2.parent_of(n)] !block.contains(n) implies s2.parent_of(n)
        == s0.parent_of(n) by {
        if n == p {
            assert(sd.same_node_except_children(s2, p));
        } else {
            assert(sd.same_node(s2, n));
        }
        assert(sd.parent_of(n) == s0.parent_of(n));
    }
    assert forall|n: usize| #![trigger s2.live(n)] s2.live(n) == s0.live(n) by {
        if block.contains(n) {
            let w = choose|w: int| 0 <= w < block.len() && block[w] == n;
            assert(sd.same_node_except_parent(s2, block[w]));
        } else if n == p {
            assert(sd.same_node_except_children(s2, p));
        } else {
            assert(sd.same_node(s2, n));
        }
        assert(sd.live(n) == s0.live(n));
    }
    assert forall|n: usize| #![trigger s2.text_of(n)] s2.text_of(n) == s0.text_of(n) by {
        if block.contains(n) {
            let w = choose|w: int| 0 <= w < block.len() && block[w] == n;
            assert(sd.same_node_except_parent(s2, block[w]));
        } else if n == p {
            assert(sd.same_node_except_children(s2, p));
        } else {
            assert(sd.same_node(s2, n));
        }
        assert(sd.text_of(n) == s0.text_of(n));
    }
    assert forall|n: usize| #![trigger s2.tag_of(n)] s2.tag_of(n) == s0.tag_of(n) by {
        if block.contains(n) {
            let w = choose|w: int| 0 <= w < block.len() && block[w] == n;
            assert(sd.same_node_except_parent(s2, block[w]));
        } else if n == p {
            assert(sd.same_node_except_children(s2, p));
        } else {
            assert(sd.same_node(s2, n));
        }
        assert(sd.tag_of(n) == s0.tag_of(n));
    }
    assert forall|n: usize|
        #![trigger s0.live(n)]
        s0.live(n) && n != p && !block.contains(n) && !is_former_parent(s0, block, n) implies
        s0.same_node(s2, n) by {
        assert forall|j: int|
            0 <= j < s0.children_of(n).len() implies !block.contains(
            #[trigger] s0.children_of(n)[j],
        ) by {
            if block.contains(s0.children_of(n)[j]) {
                let w = choose|w: int|
                    0 <= w < block.len() && block[w] == s0.children_of(n)[j];
                assert(s0.parent_of(s0.children_of(n)[j]) == Some(n));
                assert(s0.parent_of(block[w]) == Some(n));
            }
        }
        crate::scene::lemma_seq_without_all_absent(s0.children_of(n), block);
        assert(s2.children_of(n) == crate::scene::seq_without(s0.children_of(n), block));
        assert(s2.parent_of(n) == s0.parent_of(n));
        assert(s2.live(n) == s0.live(n));
        assert(s2.text_of(n) == s0.text_of(n));
        assert(s2.tag_of(n) == s0.tag_of(n));
    }
}

/// Whether the block holds the given entity.
fn block_contains(block: &Vec<usize>, x: usize) -> (r: bool)
    ensures
        r == block@.contains(x),
{
    let n = block.len();
    for i in 0..n
        invariant
            n == block@.len(),
            forall|j: int| 0 <= j < i ==> block@[j] != x,
    {
        if block[i] == x {
            return true;
        }
    }
    proof {
        if block@.contains(x) {
            let w = choose|w: int| 0 <= w < block@.len() && block@[w] == x;
            assert(false);
        }
    }
    false
}

/// In a well-formed scene a child occurs in its parent's list exactly
/// once, so any found position is the position `index_of` reports.
proof fn lemma_unique_child_index(s: SceneGraph, p: usize, c: usize, k: int)
    requires
        s.wf(),
        0 <= k < s.children_of(p).len(),
        s.children_of(p)[k] == c,
    ensures
        s.children_of(p).index_of(c) == k,
{
    assert forall|j: int| 0 <= j < s.children_of(p).len() && s.children_of(p)[j] == c implies j
        == k by {
        if j < k {
            assert(s.children_of(p)[j] != s.children_of(p)[k]);
        } else if j > k {
            assert(s.children_of(p)[k] != s.children_of(p)[j]);
        }
    }
    assert(s.children_of(p).contains(c));
}

} // verus!
