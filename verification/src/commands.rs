use vstd::prelude::*;

use crate::attribute::AttributeValue;
use crate::template::Template;

verus! {

/// One deferred command: everything one mutation operation needs in order
/// to be executed later against the scene graph.
///
/// The UI engine's mutation stream is interpreted one operation at a time;
/// each operation becomes exactly one command, queued during interpretation
/// and executed at a safe point of the host's tick, in queue order.
///
/// Operations that pop entities accept entities that already sit under a
/// parent: a popped entity is moved, that is, detached from its current
/// parent (whose other children keep their order) before it is parented
/// again.  This is how the UI engine reorders keyed siblings: it pushes an
/// existing entity with `PushRoot` and inserts it at its new position.
pub enum Command {
    /// Spawn a bare structural entity, bind the id to it and push it.
    CreatePlaceholder { id: usize },
    /// Spawn a text entity, bind the id to it and push it.
    CreateTextNode { value: String, id: usize },
    /// Realize the static template subtree at `index`, bind the id to its
    /// root and push that root.
    LoadTemplate { template: Template, index: usize, id: usize },
    /// Walk from the stack top through the child-index path and bind the id
    /// to the descendant reached.
    AssignNodeId { path: Vec<u8>, id: usize },
    /// Resolve the id and push the entity.
    PushRoot { id: usize },
    /// Pop the last `m` entities and append them, in order, under the
    /// resolved entity.
    AppendChildren { id: usize, m: usize },
    /// Pop the last `m` entities and place them, in order, immediately
    /// before the resolved entity among its siblings.
    InsertNodesBefore { id: usize, m: usize },
    /// Pop the last `m` entities and place them, in order, immediately
    /// after the resolved entity among its siblings.
    InsertNodesAfter { id: usize, m: usize },
    /// Pop the last `m` entities, splice them into the resolved entity's
    /// position among its siblings, and despawn it.
    ReplaceNodeWith { id: usize, m: usize },
    /// Like `ReplaceNodeWith`, but the replaced entity is the descendant
    /// reached from the stack top through the child-index path.
    ReplacePlaceholderWithNodes { path: Vec<u8>, m: usize },
    /// Despawn the resolved entity (the host's cascade rule takes its
    /// descendants with it).
    RemoveNode { id: usize },
    /// Route an attribute value to the matching mutator of the resolved
    /// entity's element kind; an event-listener value is recorded in the
    /// event channels instead of reaching a mutator.
    SetAttribute { name: String, value: AttributeValue, id: usize },
    /// Overwrite the text content of the resolved entity.
    SetNodeText { value: String, id: usize },
    /// Attach the matching event installer's observer to the resolved
    /// entity.
    CreateEventListener { name: String, id: usize },
}

/// How executing a command changes the construction stack's depth.
pub open spec fn stack_delta(cmd: Command) -> int {
    match cmd {
        Command::CreatePlaceholder { .. } => 1,
        Command::CreateTextNode { .. } => 1,
        Command::LoadTemplate { .. } => 1,
        Command::AssignNodeId { .. } => 0,
        Command::PushRoot { .. } => 1,
        Command::AppendChildren { m, .. } => -(m as int),
        Command::InsertNodesBefore { m, .. } => -(m as int),
        Command::InsertNodesAfter { m, .. } => -(m as int),
        Command::ReplaceNodeWith { m, .. } => -(m as int),
        Command::ReplacePlaceholderWithNodes { m, .. } => -(m as int),
        Command::RemoveNode { .. } => 0,
        Command::SetAttribute { .. } => 0,
        Command::SetNodeText { .. } => 0,
        Command::CreateEventListener { .. } => 0,
    }
}

/// The combined stack-depth change of a batch of commands.
pub open spec fn sum_deltas(cmds: Seq<Command>) -> int
    decreases cmds.len(),
{
    if cmds.len() == 0 {
        0
    } else {
        sum_deltas(cmds.drop_last()) + stack_delta(cmds.last())
    }
}

/// Law: a batch whose operations push exactly as many entities onto the
/// construction stack as they pop returns the stack to its pre-batch
/// depth.  `process_commands` establishes the premise relating the two
/// depths to the batch's combined stack effect.
pub proof fn lemma_balanced_batch(depth_before: int, depth_after: int, batch: Seq<Command>)
    requires
        depth_after == depth_before + sum_deltas(batch),
        sum_deltas(batch) == 0,
    ensures
        depth_after == depth_before,
{
}

/// The process-wide deferred command queue: commands accumulate in
/// first-in-first-out order during interpretation and are drained, all at
/// once and in order, for execution.
pub struct DioxusCommands {
    commands: Vec<Command>,
}

impl DioxusCommands {
    /// The queued commands, oldest first.
    pub closed spec fn commands(self) -> Seq<Command> {
        self.commands@
    }

    /// An empty queue.
    pub fn new() -> (r: DioxusCommands)
        ensures
            r.commands() == Seq::<Command>::empty(),
    {
        DioxusCommands { commands: Vec::new() }
    }

    /// Appends one command at the back of the queue.
    pub fn push(&mut self, command: Command)
        ensures
            final(self).commands() == old(self).commands().push(command),
    {
        self.commands.push(command);
    }

    /// Appends a batch of commands at the back of the queue, keeping their
    /// order.
    pub fn extend(&mut self, mut batch: Vec<Command>)
        ensures
            final(self).commands() == old(self).commands() + batch@,
    {
        self.commands.append(&mut batch);
    }

    /// Takes every queued command out, in queue order; the queue is empty
    /// afterwards.
    pub fn drain(&mut self) -> (r: Vec<Command>)
        ensures
            r@ == old(self).commands(),
            final(self).commands() == Seq::<Command>::empty(),
    {
        let r = self.commands.split_off(0);
        proof {
            assert(r@ =~= old(self).commands());
            assert(self.commands@ =~= Seq::<Command>::empty());
        }
        r
    }

    /// How many commands are queued.
    pub fn command_count(&self) -> (r: usize)
        ensures
            r == self.commands().len(),
    {
        self.commands.len()
    }
}

/// One host-side action that executing a command calls for.
///
/// Element constructors, initializers, attribute mutators and event
/// installers are host-defined functions the model cannot run; executing a
/// command instead reports, in order, which of them the host must invoke,
/// each addressed by its registry position.
#[derive(Debug, PartialEq, Eq)]
pub enum Effect {
    /// Give `entity` the base components of the element kind at registry
    /// position `kind` (the kind's constructor) and then run the kind's
    /// one-off initializer on it.  The entity was spawned bare by the
    /// engine; the constructor's shape must be applied before the
    /// initializer runs.
    Initialize { kind: usize, entity: usize },
    /// Run mutator `mutator` of the element kind at registry position
    /// `kind` on the entity, with the already converted value.
    ApplyAttribute { kind: usize, mutator: usize, entity: usize, value: AttributeValue },
    /// Run the event installer at position `installer`, attaching an
    /// observer to `target` that forwards events for UI node `id` on the
    /// root entity's UI runtime.
    InstallListener { installer: usize, root: usize, target: usize, id: usize },
}

/// One recorded event listener: the handler registered for one event name
/// on one entity.
#[derive(Debug, PartialEq, Eq)]
pub struct ListenerBinding {
    pub entity: usize,
    pub name: String,
    pub handler: u64,
}

/// Which handler is bound to `(entity, name)` in a run of bindings: the
/// most recently recorded one wins.
pub open spec fn lookup_binding(s: Seq<ListenerBinding>, entity: usize, name: Seq<char>) -> Option<
    u64,
>
    decreases s.len(),
{
    if s.len() == 0 {
        None
    } else if s.last().entity == entity && s.last().name@ == name {
        Some(s.last().handler)
    } else {
        lookup_binding(s.drop_last(), entity, name)
    }
}

/// The event channels: event-listener attribute values, keyed by entity and
/// event name.  Recording a handler for a key that already has one replaces
/// it.
pub struct EventChannels {
    channels: Vec<ListenerBinding>,
}

impl EventChannels {
    /// The recorded bindings, oldest first; for each key the latest entry
    /// is the one in force.
    pub closed spec fn bindings(self) -> Seq<ListenerBinding> {
        self.channels@
    }

    /// The handler in force for `(entity, name)`, if any.
    pub open spec fn spec_lookup(self, entity: usize, name: Seq<char>) -> Option<u64> {
        lookup_binding(self.bindings(), entity, name)
    }

    /// Empty channels.
    pub fn new() -> (r: EventChannels)
        ensures
            r.bindings() == Seq::<ListenerBinding>::empty(),
    {
        EventChannels { channels: Vec::new() }
    }

    /// Records `handler` for `(entity, name)`, replacing any handler
    /// previously in force for that key and leaving every other key
    /// untouched.
    pub fn set(&mut self, entity: usize, name: String, handler: u64)
        ensures
            final(self).spec_lookup(entity, name@) == Some(handler),
            forall|e2: usize, n2: Seq<char>|
                !(e2 == entity && n2 == name@) ==> final(self).spec_lookup(e2, n2) == old(
                    self,
                ).spec_lookup(e2, n2),
    {
        let ghost name_view = name@;
        self.channels.push(ListenerBinding { entity, name, handler });
        proof {
            let s2 = self.channels@;
            assert(s2.drop_last() =~= old(self).channels@);
            assert(s2.last().entity == entity && s2.last().name@ == name_view);
        }
    }

    /// The handler in force for `(entity, name)`, if any.
    pub fn get(&self, entity: usize, name: &String) -> (r: Option<u64>)
        ensures
            r == self.spec_lookup(entity, name@),
    {
        let n = self.channels.len();
        let mut i = n;
        proof {
            assert(self.channels@.subrange(0, n as int) =~= self.channels@);
        }
        while i > 0
            invariant
                i <= n,
                n == self.channels@.len(),
                lookup_binding(self.channels@, entity, name@) == lookup_binding(
                    self.channels@.subrange(0, i as int),
                    entity,
                    name@,
                ),
            decreases i,
        {
            i = i - 1;
            let b = &self.channels[i];
            proof {
                let s = self.channels@.subrange(0, i + 1);
                assert(s.last() == self.channels@[i as int]);
                assert(s.drop_last() =~= self.channels@.subrange(0, i as int));
            }
            if b.entity == entity && b.name == *name {
                return Some(b.handler);
            }
        }
        proof {
            assert(self.channels@.subrange(0, 0) =~= Seq::<ListenerBinding>::empty());
        }
        None
    }
}

} // verus!
