use dioxus_in_bevy::find_mutator;
use dioxus_in_bevy::AttributeKind;
use dioxus_in_bevy::ComponentBuilder;
use dioxus_in_bevy::DioxusBuilders;
use dioxus_in_bevy::EventHandlerInstaller;
use dioxus_in_bevy::EventInstallers;
use dioxus_in_bevy::MutatorEntry;

fn node_kind(mutators: Vec<MutatorEntry>) -> ComponentBuilder {
    ComponentBuilder { name: String::from("node"), attribute_mutators: mutators }
}

#[test]
fn registered_kind_is_found_and_unknown_is_not() {
    let mut builders = DioxusBuilders::new();
    builders.register_element(node_kind(vec![])).unwrap();
    builders.freeze();
    assert_eq!(builders.get(&String::from("node")), Some(0));
    assert_eq!(builders.get(&String::from("mystery")), None);
}

#[test]
fn registration_after_freeze_is_rejected() {
    let mut builders = DioxusBuilders::new();
    builders.freeze();
    assert!(builders.register_element(node_kind(vec![])).is_err());

    let mut installers = EventInstallers::new();
    installers.freeze();
    assert!(installers.register_event(EventHandlerInstaller { name: String::from("onclick") })
        .is_err());
}

#[test]
fn later_declaration_of_same_kind_wins() {
    let mut builders = DioxusBuilders::new();
    builders.register_element(node_kind(vec![])).unwrap();
    builders
        .register_element(node_kind(vec![MutatorEntry {
            name: String::from("label"),
            kind: AttributeKind::Text,
        }]))
        .unwrap();
    builders.freeze();
    let index = builders.get(&String::from("node")).unwrap();
    assert_eq!(builders.entry_count(), 1);
    assert_eq!(builders.entry_at(index).attribute_mutators.len(), 1);
}

#[test]
fn mutators_are_found_by_attribute_name() {
    let entry = node_kind(vec![
        MutatorEntry { name: String::from("label"), kind: AttributeKind::Text },
        MutatorEntry { name: String::from("count"), kind: AttributeKind::Int },
    ]);
    assert_eq!(find_mutator(&entry, &String::from("label")), Some(0));
    assert_eq!(find_mutator(&entry, &String::from("count")), Some(1));
    assert_eq!(find_mutator(&entry, &String::from("bogus")), None);
}

#[test]
fn event_lookup_strips_the_on_prefix_of_registered_names() {
    let mut installers = EventInstallers::new();
    installers.register_event(EventHandlerInstaller { name: String::from("onclick") }).unwrap();
    installers.register_event(EventHandlerInstaller { name: String::from("special") }).unwrap();
    installers.freeze();
    assert_eq!(installers.find(&String::from("click")), Some(0));
    assert_eq!(installers.find(&String::from("onclick")), None);
    assert_eq!(installers.find(&String::from("special")), Some(1));
    assert_eq!(installers.find(&String::from("hover")), None);
}
