use dioxus_in_bevy::AttributeKind;
use dioxus_in_bevy::AttributeValue;
use dioxus_in_bevy::ComponentBuilder;
use dioxus_in_bevy::CoreError;
use dioxus_in_bevy::DioxusBuilders;
use dioxus_in_bevy::DioxusCommands;
use dioxus_in_bevy::DioxusRoot;
use dioxus_in_bevy::Effect;
use dioxus_in_bevy::EventChannels;
use dioxus_in_bevy::EventHandlerInstaller;
use dioxus_in_bevy::EventInstallers;
use dioxus_in_bevy::MutatorEntry;
use dioxus_in_bevy::SceneGraph;
use dioxus_in_bevy::Template;
use dioxus_in_bevy::TemplateAttribute;
use dioxus_in_bevy::TemplateNode;
use dioxus_in_bevy::WorldRenderer;

struct Host {
    scene: SceneGraph,
    root: DioxusRoot,
    builders: DioxusBuilders,
    installers: EventInstallers,
    channels: EventChannels,
    effects: Vec<Effect>,
    renderer: WorldRenderer,
    queue: DioxusCommands,
    root_entity: usize,
}

fn host() -> Host {
    let mut scene = SceneGraph::new();
    let root_entity = scene.spawn(None, None);
    let root = DioxusRoot::new(root_entity);
    let mut builders = DioxusBuilders::new();
    builders
        .register_element(ComponentBuilder {
            name: String::from("node"),
            attribute_mutators: vec![
                MutatorEntry { name: String::from("label"), kind: AttributeKind::Text },
                MutatorEntry { name: String::from("count"), kind: AttributeKind::Int },
            ],
        })
        .unwrap();
    builders.freeze();
    let mut installers = EventInstallers::new();
    installers.register_event(EventHandlerInstaller { name: String::from("onclick") }).unwrap();
    installers.freeze();
    Host {
        scene,
        root,
        builders,
        installers,
        channels: EventChannels::new(),
        effects: Vec::new(),
        renderer: WorldRenderer::new(root_entity),
        queue: DioxusCommands::new(),
        root_entity,
    }
}

impl Host {
    fn flush(&mut self) -> Result<(), CoreError> {
        self.queue.extend(self.renderer.drain_commands());
        self.renderer.process_commands(
            &mut self.scene,
            &mut self.root,
            &self.builders,
            &self.installers,
            &mut self.channels,
            &mut self.effects,
            &mut self.queue,
        )
    }

    fn resolve(&self, id: usize) -> usize {
        self.root.id_to_entity(id).unwrap()
    }

    fn children(&self, e: usize) -> Vec<usize> {
        self.scene.get_children(e)
    }
}

fn simple_template() -> Template {
    Template {
        roots: vec![TemplateNode::Element {
            tag: String::from("node"),
            attrs: vec![TemplateAttribute::Static {
                name: String::from("label"),
                value: String::from("hi"),
            }],
            children: vec![
                TemplateNode::Text { text: String::from("hello") },
                TemplateNode::Dynamic,
            ],
        }],
    }
}

#[test]
fn created_ids_resolve_to_their_entities() {
    let mut h = host();
    h.renderer.create_placeholder(1);
    h.flush().unwrap();
    let e = h.resolve(1);
    assert!(h.scene.is_live(e));
    assert_eq!(h.root.id_to_entity(0), Ok(h.root_entity));
    assert_eq!(h.root.id_to_entity(42), Err(CoreError::UnknownId { id: 42 }));
}

#[test]
fn append_then_remove_keeps_sibling_order() {
    let mut h = host();
    h.renderer.create_placeholder(1);
    h.renderer.create_placeholder(2);
    h.renderer.create_placeholder(3);
    h.renderer.append_children(0, 3);
    h.flush().unwrap();
    let (a, b, c) = (h.resolve(1), h.resolve(2), h.resolve(3));
    assert_eq!(h.children(h.root_entity), vec![a, b, c]);
    h.renderer.remove_node(2);
    h.flush().unwrap();
    assert_eq!(h.children(h.root_entity), vec![a, c]);
    assert!(!h.scene.is_live(b));
}

#[test]
fn insert_before_places_block_right_before_reference() {
    let mut h = host();
    h.renderer.create_placeholder(1);
    h.renderer.create_placeholder(2);
    h.renderer.append_children(0, 2);
    h.renderer.create_placeholder(3);
    h.renderer.create_placeholder(4);
    h.renderer.insert_nodes_before(2, 2);
    h.flush().unwrap();
    let (a, b, x, y) = (h.resolve(1), h.resolve(2), h.resolve(3), h.resolve(4));
    assert_eq!(h.children(h.root_entity), vec![a, x, y, b]);
}

#[test]
fn insert_after_places_block_right_after_reference() {
    let mut h = host();
    h.renderer.create_placeholder(1);
    h.renderer.create_placeholder(2);
    h.renderer.append_children(0, 2);
    h.renderer.create_placeholder(3);
    h.renderer.create_placeholder(4);
    h.renderer.insert_nodes_after(1, 2);
    h.flush().unwrap();
    let (a, b, x, y) = (h.resolve(1), h.resolve(2), h.resolve(3), h.resolve(4));
    assert_eq!(h.children(h.root_entity), vec![a, x, y, b]);
}

#[test]
fn replace_splices_block_into_place_and_despawns() {
    let mut h = host();
    h.renderer.create_placeholder(1);
    h.renderer.create_placeholder(2);
    h.renderer.create_placeholder(3);
    h.renderer.append_children(0, 3);
    h.renderer.create_placeholder(4);
    h.renderer.create_placeholder(5);
    h.renderer.replace_node_with(2, 2);
    h.flush().unwrap();
    let (a, b, c) = (h.resolve(1), h.resolve(2), h.resolve(3));
    let (x, y) = (h.resolve(4), h.resolve(5));
    assert_eq!(h.children(h.root_entity), vec![a, x, y, c]);
    assert!(!h.scene.is_live(b));
}

#[test]
fn template_round_trip_matches_shape_text_and_path() {
    let mut h = host();
    h.renderer.load_template(simple_template(), 0, 1);
    h.renderer.assign_node_id(vec![1], 2);
    h.renderer.append_children(0, 1);
    h.flush().unwrap();
    let e = h.resolve(1);
    assert_eq!(h.children(h.root_entity), vec![e]);
    assert_eq!(h.scene.get_tag(e), Some(String::from("node")));
    let kids = h.children(e);
    assert_eq!(kids.len(), 2);
    assert_eq!(h.scene.get_text(kids[0]), Some(String::from("hello")));
    assert_eq!(h.children(kids[0]).len(), 0);
    assert_eq!(h.scene.get_text(kids[1]), None);
    assert_eq!(h.children(kids[1]).len(), 0);
    assert_eq!(h.resolve(2), kids[1]);
    assert_eq!(
        h.effects,
        vec![
            Effect::Initialize { kind: 0, entity: e },
            Effect::ApplyAttribute {
                kind: 0,
                mutator: 0,
                entity: e,
                value: AttributeValue::Text(String::from("hi")),
            },
        ]
    );
}

#[test]
fn unknown_element_kind_falls_back_to_bare_container() {
    let mut h = host();
    let template = Template {
        roots: vec![TemplateNode::Element {
            tag: String::from("mystery"),
            attrs: vec![],
            children: vec![],
        }],
    };
    h.renderer.load_template(template, 0, 1);
    h.renderer.append_children(0, 1);
    h.flush().unwrap();
    let e = h.resolve(1);
    assert!(h.scene.is_live(e));
    assert_eq!(h.scene.get_tag(e), None);
    assert_eq!(h.effects, vec![]);
}

#[test]
fn balanced_batch_returns_stack_depth_to_zero() {
    let mut h = host();
    assert_eq!(h.renderer.stack_depth(), 0);
    h.renderer.load_template(simple_template(), 0, 1);
    h.renderer.append_children(0, 1);
    h.flush().unwrap();
    assert_eq!(h.renderer.stack_depth(), 0);
}

#[test]
fn set_attribute_reaches_the_matching_mutator() {
    let mut h = host();
    h.renderer.load_template(simple_template(), 0, 1);
    h.renderer.append_children(0, 1);
    h.flush().unwrap();
    let e = h.resolve(1);
    let before = h.effects.len();
    h.renderer.set_attribute(String::from("count"), None, AttributeValue::Int(5), 1);
    h.flush().unwrap();
    assert_eq!(h.effects.len(), before + 1);
    assert_eq!(
        h.effects[before],
        Effect::ApplyAttribute { kind: 0, mutator: 1, entity: e, value: AttributeValue::Int(5) }
    );
}

#[test]
fn set_attribute_with_wrong_category_is_fatal() {
    let mut h = host();
    h.renderer.load_template(simple_template(), 0, 1);
    h.renderer.append_children(0, 1);
    h.flush().unwrap();
    h.renderer.set_attribute(
        String::from("label"),
        None,
        AttributeValue::Float(1.5f64.to_bits()),
        1,
    );
    assert_eq!(h.flush(), Err(CoreError::AttributeTypeMismatch));
}

#[test]
fn unknown_attribute_name_is_ignored() {
    let mut h = host();
    h.renderer.load_template(simple_template(), 0, 1);
    h.renderer.append_children(0, 1);
    h.flush().unwrap();
    let before = h.effects.len();
    h.renderer.set_attribute(String::from("bogus"), None, AttributeValue::Int(1), 1);
    h.flush().unwrap();
    assert_eq!(h.effects.len(), before);
}

#[test]
fn set_attribute_on_untagged_entity_is_fatal() {
    let mut h = host();
    h.renderer.create_placeholder(1);
    h.renderer.append_children(0, 1);
    h.flush().unwrap();
    let e = h.resolve(1);
    h.renderer.set_attribute(String::from("label"), None, AttributeValue::Int(1), 1);
    assert_eq!(h.flush(), Err(CoreError::MissingElementTag { entity: e }));
}

#[test]
fn listener_values_are_recorded_in_the_event_channels() {
    let mut h = host();
    h.renderer.load_template(simple_template(), 0, 1);
    h.renderer.append_children(0, 1);
    h.flush().unwrap();
    let e = h.resolve(1);
    h.renderer.set_attribute(String::from("click"), None, AttributeValue::Listener(42), 1);
    h.flush().unwrap();
    assert_eq!(h.channels.get(e, &String::from("click")), Some(42));
    assert_eq!(h.channels.get(e, &String::from("hover")), None);
    h.renderer.set_attribute(String::from("click"), None, AttributeValue::Listener(43), 1);
    h.flush().unwrap();
    assert_eq!(h.channels.get(e, &String::from("click")), Some(43));
}

#[test]
fn listener_value_skips_the_mutator_route() {
    let mut h = host();
    h.renderer.load_template(simple_template(), 0, 1);
    h.renderer.append_children(0, 1);
    h.flush().unwrap();
    let e = h.resolve(1);
    let before = h.effects.len();
    // "label" names a text mutator, but a listener value must be recorded,
    // never handed to the mutator
    h.renderer.set_attribute(String::from("label"), None, AttributeValue::Listener(7), 1);
    h.flush().unwrap();
    assert_eq!(h.effects.len(), before);
    assert_eq!(h.channels.get(e, &String::from("label")), Some(7));
}

#[test]
fn listener_value_registers_even_on_untagged_entities() {
    let mut h = host();
    h.renderer.create_placeholder(1);
    h.renderer.append_children(0, 1);
    h.flush().unwrap();
    let e = h.resolve(1);
    h.renderer.set_attribute(String::from("click"), None, AttributeValue::Listener(9), 1);
    h.flush().unwrap();
    assert_eq!(h.channels.get(e, &String::from("click")), Some(9));
}

#[test]
fn event_listener_creation_uses_the_installer_table() {
    let mut h = host();
    h.renderer.load_template(simple_template(), 0, 1);
    h.renderer.append_children(0, 1);
    h.flush().unwrap();
    let e = h.resolve(1);
    let before = h.effects.len();
    h.renderer.create_event_listener(String::from("click"), 1);
    h.flush().unwrap();
    assert_eq!(
        h.effects[before],
        Effect::InstallListener { installer: 0, root: h.root_entity, target: e, id: 1 }
    );
    h.renderer.create_event_listener(String::from("hover"), 1);
    h.flush().unwrap();
    assert_eq!(h.effects.len(), before + 1);
}

#[test]
fn remove_event_listener_is_a_noop() {
    let mut h = host();
    h.renderer.remove_event_listener(&String::from("click"), 1);
    assert_eq!(h.renderer.drain_commands().len(), 0);
}

#[test]
fn set_node_text_overwrites_in_place() {
    let mut h = host();
    h.renderer.create_text_node(String::from("a"), 1);
    h.renderer.append_children(0, 1);
    h.flush().unwrap();
    let e = h.resolve(1);
    assert_eq!(h.scene.get_text(e), Some(String::from("a")));
    h.renderer.set_node_text(String::from("b"), 1);
    h.flush().unwrap();
    assert_eq!(h.scene.get_text(e), Some(String::from("b")));
}

#[test]
fn set_node_text_on_non_text_entity_is_fatal() {
    let mut h = host();
    h.renderer.create_placeholder(1);
    h.renderer.append_children(0, 1);
    h.flush().unwrap();
    let e = h.resolve(1);
    h.renderer.set_node_text(String::from("b"), 1);
    assert_eq!(h.flush(), Err(CoreError::NoText { entity: e }));
}

#[test]
fn popping_more_than_the_stack_holds_is_fatal() {
    let mut h = host();
    h.renderer.append_children(0, 1);
    assert_eq!(h.flush(), Err(CoreError::StackUnderflow));
}

#[test]
fn inserting_relative_to_a_root_is_fatal() {
    let mut h = host();
    h.renderer.create_placeholder(1);
    h.renderer.insert_nodes_before(0, 1);
    assert_eq!(h.flush(), Err(CoreError::NoParent { entity: h.root_entity }));
}

#[test]
fn path_walk_past_a_leaf_is_fatal() {
    let mut h = host();
    h.renderer.create_placeholder(1);
    h.renderer.assign_node_id(vec![0], 2);
    assert_eq!(h.flush(), Err(CoreError::PathWalkFailed));
}

#[test]
fn template_subtree_index_is_checked() {
    let mut h = host();
    h.renderer.load_template(simple_template(), 5, 1);
    assert_eq!(h.flush(), Err(CoreError::TemplateIndexOutOfRange { index: 5 }));
}

#[test]
fn removing_a_node_twice_is_fatal() {
    let mut h = host();
    h.renderer.create_placeholder(1);
    h.renderer.append_children(0, 1);
    h.renderer.remove_node(1);
    h.flush().unwrap();
    let e = h.resolve(1);
    h.renderer.remove_node(1);
    assert_eq!(h.flush(), Err(CoreError::NotAlive { entity: e }));
}

#[test]
fn appending_an_existing_entity_moves_it_to_the_end() {
    let mut h = host();
    h.renderer.create_placeholder(1);
    h.renderer.create_placeholder(2);
    h.renderer.append_children(0, 2);
    h.flush().unwrap();
    let (a, b) = (h.resolve(1), h.resolve(2));
    assert_eq!(h.children(h.root_entity), vec![a, b]);
    h.renderer.push_root(1);
    h.renderer.append_children(0, 1);
    h.flush().unwrap();
    assert_eq!(h.children(h.root_entity), vec![b, a]);
}

#[test]
fn inserting_an_existing_entity_reorders_keyed_siblings() {
    let mut h = host();
    h.renderer.create_placeholder(1);
    h.renderer.create_placeholder(2);
    h.renderer.create_placeholder(3);
    h.renderer.append_children(0, 3);
    h.flush().unwrap();
    let (a, b, c) = (h.resolve(1), h.resolve(2), h.resolve(3));
    assert_eq!(h.children(h.root_entity), vec![a, b, c]);
    h.renderer.push_root(3);
    h.renderer.insert_nodes_before(1, 1);
    h.flush().unwrap();
    assert_eq!(h.children(h.root_entity), vec![c, a, b]);
}

#[test]
fn moving_between_parents_updates_both_child_lists() {
    let mut h = host();
    h.renderer.create_placeholder(1);
    h.renderer.create_placeholder(2);
    h.renderer.append_children(0, 2);
    h.renderer.create_placeholder(3);
    h.renderer.append_children(1, 1);
    h.flush().unwrap();
    let (a, b, c) = (h.resolve(1), h.resolve(2), h.resolve(3));
    assert_eq!(h.children(a), vec![c]);
    h.renderer.push_root(3);
    h.renderer.append_children(0, 1);
    h.flush().unwrap();
    assert_eq!(h.children(a), vec![]);
    assert_eq!(h.children(h.root_entity), vec![a, b, c]);
}

#[test]
fn popping_the_same_entity_twice_is_fatal() {
    let mut h = host();
    h.renderer.create_placeholder(1);
    h.renderer.append_children(0, 1);
    h.flush().unwrap();
    let a = h.resolve(1);
    h.renderer.push_root(1);
    h.renderer.push_root(1);
    h.renderer.append_children(0, 2);
    assert_eq!(h.flush(), Err(CoreError::DuplicateEntity { entity: a }));
}

#[test]
fn inserting_relative_to_a_popped_entity_is_fatal() {
    let mut h = host();
    h.renderer.create_placeholder(1);
    h.renderer.append_children(0, 1);
    h.flush().unwrap();
    let a = h.resolve(1);
    h.renderer.push_root(1);
    h.renderer.insert_nodes_before(1, 1);
    assert_eq!(h.flush(), Err(CoreError::NoParent { entity: a }));
}

#[test]
fn templates_may_hold_several_subtrees() {
    let mut h = host();
    let template = Template {
        roots: vec![
            TemplateNode::Text { text: String::from("a") },
            TemplateNode::Text { text: String::from("b") },
        ],
    };
    h.renderer.load_template(template, 1, 1);
    h.renderer.append_children(0, 1);
    h.flush().unwrap();
    let e = h.resolve(1);
    assert_eq!(h.scene.get_text(e), Some(String::from("b")));
}

#[test]
fn replace_placeholder_prunes_the_placeholder() {
    let mut h = host();
    h.renderer.load_template(simple_template(), 0, 1);
    h.renderer.assign_node_id(vec![1], 2);
    h.renderer.replace_placeholder_with_nodes(vec![1], 0);
    h.renderer.append_children(0, 1);
    h.flush().unwrap();
    let e = h.resolve(1);
    let d = h.resolve(2);
    assert!(!h.scene.is_live(d));
    let kids = h.children(e);
    assert_eq!(kids.len(), 1);
    assert_eq!(h.scene.get_text(kids[0]), Some(String::from("hello")));
}
