use vstd::prelude::*;
use vstd::string::StrSliceExecFns;
use vstd::string::StringExecFns;

use crate::attribute::AttributeKind;

verus! {

/// One attribute a declared element kind accepts: the attribute's name and
/// the value category its host-side mutator expects.
///
/// The mutator itself (the function that writes the converted value into the
/// host's components) stays host-side; it is addressed by its position in
/// the list.
pub struct MutatorEntry {
    pub name: String,
    pub kind: AttributeKind,
}

/// A declared element kind: its tag name and its ordered attribute mutator
/// list.
///
/// The kind's constructor (which gives a fresh entity the kind's base shape)
/// and its one-off initializer stay host-side; executing a command reports
/// when they must run, addressing the kind by its registry position.
pub struct ComponentBuilder {
    pub name: String,
    pub attribute_mutators: Vec<MutatorEntry>,
}

/// The element registry: the process-wide table of declared element kinds.
///
/// It is populated by explicit registration calls while the process starts
/// up and is meant to be read-only afterwards; `freeze` marks the end of
/// registration and later registrations are rejected.
pub struct DioxusBuilders {
    entries: Vec<ComponentBuilder>,
    frozen: bool,
}

impl DioxusBuilders {
    /// The registered element kinds, in registration order.
    pub closed spec fn entries(self) -> Seq<ComponentBuilder> {
        self.entries@
    }

    /// Whether registration has ended.
    pub closed spec fn is_frozen(self) -> bool {
        self.frozen
    }

    /// Tag names are unique keys.
    pub open spec fn wf(self) -> bool {
        forall|i: int, j: int|
            #![trigger self.entries()[i], self.entries()[j]]
            0 <= i < j < self.entries().len() ==> self.entries()[i].name@ != self.entries()[j].name@
    }

    /// An empty registry, open for registration.
    pub fn new() -> (r: DioxusBuilders)
        ensures
            r.wf(),
            r.entries() == Seq::<ComponentBuilder>::empty(),
            !r.is_frozen(),
    {
        DioxusBuilders { entries: Vec::new(), frozen: false }
    }

    /// Ends registration; the table is read-only from here on.
    pub fn freeze(&mut self)
        ensures
            final(self).entries() == old(self).entries(),
            final(self).is_frozen(),
    {
        self.frozen = true;
    }

    /// The position of the element kind named `tag`, if one is registered.
    #[verifier::loop_isolation(false)]
    pub fn get(&self, tag: &String) -> (r: Option<usize>)
        requires
            self.wf(),
        ensures
            r == self.lookup_index(tag@),
            match r {
                Some(i) => i < self.entries().len() && self.entries()[i as int].name@ == tag@,
                None => forall|i: int|
                    #![trigger self.entries()[i]]
                    0 <= i < self.entries().len() ==> self.entries()[i].name@ != tag@,
            },
    {
        let n = self.entries.len();
        for i in 0..n
            invariant
                n == self.entries().len(),
                forall|j: int|
                    #![trigger self.entries()[j]]
                    0 <= j < i ==> self.entries()[j].name@ != tag@,
        {
            if self.entries[i].name == *tag {
                proof {
                    lemma_lookup_index_unique(*self, tag@, i as int);
                }
                return Some(i);
            }
        }
        proof {
            lemma_lookup_index_none(*self, tag@);
        }
        None
    }

    /// Registers an element kind while the registry is still open.  A kind
    /// registered again under the same tag name replaces the earlier entry,
    /// as the last declaration wins.  Fails exactly when the registry is
    /// frozen.
    pub fn register_element(&mut self, builder: ComponentBuilder) -> (r: Result<(), ()>)
        requires
            old(self).wf(),
        ensures
            final(self).wf(),
            final(self).is_frozen() == old(self).is_frozen(),
            r is Ok <==> !old(self).is_frozen(),
            r is Err ==> *final(self) == *old(self),
            r is Ok ==> match old(self).lookup_index(builder.name@) {
                Some(i) => final(self).entries() == old(self).entries().update(i as int, builder),
                None => final(self).entries() == old(self).entries().push(builder),
            },
    {
        if self.frozen {
            return Err(());
        }
        match self.get(&builder.name) {
            Some(i) => {
                let entry = &mut self.entries[i];
                *entry = builder;
                proof {
                    let s1 = *old(self);
                    let s2 = *self;
                    assert forall|a: int, b: int|
                        #![trigger s2.entries()[a], s2.entries()[b]]
                        0 <= a < b < s2.entries().len() implies s2.entries()[a].name@
                        != s2.entries()[b].name@ by {
                        if a != i && b != i {
                            assert(s2.entries()[a] == s1.entries()[a]);
                            assert(s2.entries()[b] == s1.entries()[b]);
                        } else if a == i {
                            assert(s2.entries()[b] == s1.entries()[b]);
                            assert(s1.entries()[b].name@ != s1.entries()[i as int].name@);
                        } else {
                            assert(s2.entries()[a] == s1.entries()[a]);
                            assert(s1.entries()[a].name@ != s1.entries()[i as int].name@);
                        }
                    }
                }
                Ok(())
            },
            None => {
                self.entries.push(builder);
                proof {
                    let s1 = *old(self);
                    let s2 = *self;
                    assert forall|a: int, b: int|
                        #![trigger s2.entries()[a], s2.entries()[b]]
                        0 <= a < b < s2.entries().len() implies s2.entries()[a].name@
                        != s2.entries()[b].name@ by {
                        if b < s1.entries().len() {
                            assert(s2.entries()[a] == s1.entries()[a]);
                            assert(s2.entries()[b] == s1.entries()[b]);
                        } else {
                            assert(s2.entries()[a] == s1.entries()[a]);
                            assert(s1.entries()[a].name@ != builder.name@);
                        }
                    }
                }
                Ok(())
            },
        }
    }

    /// The position of the entry whose tag name reads `name`, if any.
    pub open spec fn lookup_index(self, name: Seq<char>) -> Option<usize> {
        if exists|i: int|
            0 <= i < self.entries().len() && #[trigger] self.entries()[i].name@ == name {
            let i = choose|i: int|
                0 <= i < self.entries().len() && #[trigger] self.entries()[i].name@ == name;
            Some(i as usize)
        } else {
            None
        }
    }

    /// A borrow of the entry at position `i`.
    pub fn entry_at(&self, i: usize) -> (r: &ComponentBuilder)
        requires
            i < self.entries().len(),
        ensures
            *r == self.entries()[i as int],
    {
        &self.entries[i]
    }

    /// How many element kinds are registered.
    pub fn entry_count(&self) -> (r: usize)
        ensures
            r == self.entries().len(),
    {
        self.entries.len()
    }
}

/// In a registry with unique names, any entry whose name reads `name` sits
/// at the position `lookup_index` reports.
proof fn lemma_lookup_index_unique(b: DioxusBuilders, name: Seq<char>, i: int)
    requires
        b.wf(),
        0 <= i < b.entries().len(),
        b.entries()[i].name@ == name,
    ensures
        b.lookup_index(name) == Some(i as usize),
{
    let j = choose|j: int|
        0 <= j < b.entries().len() && #[trigger] b.entries()[j].name@ == name;
    if j < i {
        assert(b.entries()[j].name@ != b.entries()[i].name@);
    } else if j > i {
        assert(b.entries()[i].name@ != b.entries()[j].name@);
    }
}

/// When no entry matches, `lookup_index` reports none.
proof fn lemma_lookup_index_none(b: DioxusBuilders, name: Seq<char>)
    requires
        forall|i: int|
            #![trigger b.entries()[i]]
            0 <= i < b.entries().len() ==> b.entries()[i].name@ != name,
    ensures
        b.lookup_index(name) is None,
{
    if b.lookup_index(name) is Some {
        let i = choose|i: int|
            0 <= i < b.entries().len() && #[trigger] b.entries()[i].name@ == name;
        assert(false);
    }
}

/// The position of the first mutator in `ms` whose attribute name reads
/// `name`, if any.
pub open spec fn spec_find_mutator(ms: Seq<MutatorEntry>, name: Seq<char>) -> Option<int>
    decreases ms.len(),
{
    if ms.len() == 0 {
        None
    } else if ms[0].name@ == name {
        Some(0)
    } else {
        match spec_find_mutator(ms.drop_first(), name) {
            Some(j) => Some(j + 1),
            None => None,
        }
    }
}

/// The position of the first mutator of `entry` whose attribute name reads
/// `name`, if any.
#[verifier::loop_isolation(false)]
pub fn find_mutator(entry: &ComponentBuilder, name: &String) -> (r: Option<usize>)
    ensures
        match r {
            Some(j) => spec_find_mutator(entry.attribute_mutators@, name@) == Some(j as int)
                && j < entry.attribute_mutators@.len() && entry.attribute_mutators@[j as int].name@
                == name@,
            None => spec_find_mutator(entry.attribute_mutators@, name@) is None,
        },
{
    let ms = &entry.attribute_mutators;
    let n = ms.len();
    proof {
        assert(ms@.skip(0) =~= ms@);
    }
    for j in 0..n
        invariant
            spec_find_mutator(ms@, name@) == match spec_find_mutator(ms@.skip(j as int), name@) {
                Some(a) => Some(a + j),
                None => None::<int>,
            },
    {
        proof {
            assert(ms@.skip(j as int)[0] == ms@[j as int]);
            assert(ms@.skip(j as int).drop_first() =~= ms@.skip(j + 1));
        }
        if ms[j].name == *name {
            return Some(j);
        }
    }
    proof {
        assert(ms@.skip(n as int) =~= Seq::<MutatorEntry>::empty());
    }
    None
}

/// One declared event kind: the event's registered name.
///
/// The installer itself (the function that attaches a scene-graph-native
/// observer forwarding to the UI engine's runtime) stays host-side; it is
/// addressed by its position in the installer table.
pub struct EventHandlerInstaller {
    pub name: String,
}

/// Whether a registered event name serves requests for `name`: a registered
/// name starting with the customary `on` prefix matches the request with
/// that prefix stripped; any other registered name must match exactly.
pub open spec fn installer_matches(registered: Seq<char>, name: Seq<char>) -> bool {
    if registered.len() >= 2 && registered[0] == 'o' && registered[1] == 'n' {
        registered.skip(2) == name
    } else {
        registered == name
    }
}

/// Whether `registered` serves requests for `name`.
pub fn matches_event_name(registered: &String, name: &String) -> (r: bool)
    ensures
        r == installer_matches(registered@, name@),
{
    let len = registered.as_str().unicode_len();
    if len >= 2 && registered.as_str().get_char(0) == 'o' && registered.as_str().get_char(1)
        == 'n' {
        let stripped = registered.as_str().substring_char(2, len);
        proof {
            assert(stripped@ =~= registered@.skip(2));
        }
        String::from_str(stripped) == *name
    } else {
        *registered == *name
    }
}

/// The event installer registry: the process-wide table of declared event
/// kinds, with the same registration lifecycle as the element registry.
pub struct EventInstallers {
    entries: Vec<EventHandlerInstaller>,
    frozen: bool,
}

impl EventInstallers {
    /// The registered event kinds, in registration order.
    pub closed spec fn entries(self) -> Seq<EventHandlerInstaller> {
        self.entries@
    }

    /// Whether registration has ended.
    pub closed spec fn is_frozen(self) -> bool {
        self.frozen
    }

    /// An empty registry, open for registration.
    pub fn new() -> (r: EventInstallers)
        ensures
            r.entries() == Seq::<EventHandlerInstaller>::empty(),
            !r.is_frozen(),
    {
        EventInstallers { entries: Vec::new(), frozen: false }
    }

    /// Ends registration; the table is read-only from here on.
    pub fn freeze(&mut self)
        ensures
            final(self).entries() == old(self).entries(),
            final(self).is_frozen(),
    {
        self.frozen = true;
    }

    /// Registers an event kind while the registry is still open.  Fails
    /// exactly when the registry is frozen.
    pub fn register_event(&mut self, installer: EventHandlerInstaller) -> (r: Result<(), ()>)
        ensures
            final(self).is_frozen() == old(self).is_frozen(),
            r is Ok <==> !old(self).is_frozen(),
            r is Err ==> *final(self) == *old(self),
            r is Ok ==> final(self).entries() == old(self).entries().push(installer),
    {
        if self.frozen {
            return Err(());
        }
        self.entries.push(installer);
        Ok(())
    }

    /// The position of the first installer whose registered name serves
    /// requests for `name`, if any.
    #[verifier::loop_isolation(false)]
    pub fn find(&self, name: &String) -> (r: Option<usize>)
        ensures
            match r {
                Some(i) => spec_find_installer(self.entries(), name@) == Some(i as int) && i
                    < self.entries().len() && installer_matches(
                    self.entries()[i as int].name@,
                    name@,
                ),
                None => spec_find_installer(self.entries(), name@) is None,
            },
    {
        let n = self.entries.len();
        proof {
            assert(self.entries().skip(0) =~= self.entries());
        }
        for i in 0..n
            invariant
                spec_find_installer(self.entries(), name@) == match spec_find_installer(
                    self.entries().skip(i as int),
                    name@,
                ) {
                    Some(a) => Some(a + i),
                    None => None::<int>,
                },
        {
            proof {
                assert(self.entries().skip(i as int)[0] == self.entries()[i as int]);
                assert(self.entries().skip(i as int).drop_first() =~= self.entries().skip(i + 1));
            }
            if matches_event_name(&self.entries[i].name, name) {
                return Some(i);
            }
        }
        proof {
            assert(self.entries().skip(n as int) =~= Seq::<EventHandlerInstaller>::empty());
        }
        None
    }
}

/// The position of the first installer in `entries` whose registered name
/// serves requests for `name`, if any.
pub open spec fn spec_find_installer(entries: Seq<EventHandlerInstaller>, name: Seq<char>) -> Option<
    int,
>
    decreases entries.len(),
{
    if entries.len() == 0 {
        None
    } else if installer_matches(entries[0].name@, name) {
        Some(0)
    } else {
        match spec_find_installer(entries.drop_first(), name) {
            Some(j) => Some(j + 1),
            None => None,
        }
    }
}

} // verus!
