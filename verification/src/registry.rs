//! The open instances of this process: one handle per directory, shared and counted.
use vstd::prelude::*;
use vstd::utf8::*;

use crate::location;
use crate::path;
use crate::path::PosixPath;

verus! {

/// What names a directory: its components, so that two spellings of one path are one name.
pub type DirName = Seq<Seq<u8>>;

/// An open instance.
#[verifier::ext_equal]
pub struct InstanceModel {
    /// The directory as it was spelled when the instance was opened.
    pub db_dir: Seq<u8>,
    /// The handle that the driver gave for it.
    pub handle: usize,
    /// How many hold the instance.
    pub holds: nat,
}

impl InstanceModel {
    /// The instance with another number of holds.
    pub open spec fn with_holds(self, holds: nat) -> InstanceModel {
        InstanceModel { db_dir: self.db_dir, handle: self.handle, holds }
    }
}

/// The open instances, by the names of their directories.
pub type Instances = Map<DirName, InstanceModel>;

/// What can happen to the open instances.
pub enum Event {
    /// Someone asks for a hold on the instance of a directory.
    Acquire(Seq<u8>),
    /// The driver has opened a directory and given this handle.
    Register(Seq<u8>, usize),
    /// Someone gives up a hold on the instance of a directory.
    Release(Seq<u8>),
}

impl Event {
    /// The name of the directory to which it happens.
    pub open spec fn name(self) -> DirName {
        match self {
            Event::Acquire(db_dir) => path::path_components(db_dir),
            Event::Register(db_dir, _) => path::path_components(db_dir),
            Event::Release(db_dir) => path::path_components(db_dir),
        }
    }
}

/// The open instances after an event.
pub open spec fn step(m: Instances, event: Event) -> Instances {
    let name = event.name();
    match event {
        Event::Acquire(_) => if m.contains_key(name) {
            m.insert(name, m[name].with_holds(m[name].holds + 1))
        } else {
            m
        },
        Event::Register(db_dir, handle) => if m.contains_key(name) {
            m.insert(name, m[name].with_holds(m[name].holds + 1))
        } else {
            m.insert(name, InstanceModel { db_dir, handle, holds: 1 })
        },
        Event::Release(_) => if !m.contains_key(name) {
            m
        } else if m[name].holds <= 1 {
            m.remove(name)
        } else {
            m.insert(name, m[name].with_holds((m[name].holds - 1) as nat))
        },
    }
}

/// Whether the holds on the instance with a name, where it is open, can be counted one further.
pub open spec fn has_room_for(m: Instances, name: DirName) -> bool {
    m.contains_key(name) ==> m[name].holds < usize::MAX
}

/// Whether the holds on each instance can be counted one further.
pub open spec fn has_room(m: Instances) -> bool {
    forall|name: DirName| #[trigger] has_room_for(m, name)
}

/// What always holds of the open instances: there are finitely many, each is found under the name
/// of its directory, that directory is UTF-8, and someone holds it.
pub open spec fn consistent(m: Instances) -> bool {
    &&& m.dom().finite()
    &&& forall|name: DirName|
        #![trigger m[name]]
        m.contains_key(name) ==> {
            &&& path::path_components(m[name].db_dir) == name
            &&& valid_utf8(m[name].db_dir)
            &&& m[name].holds > 0
        }
}

/// The handle on which an event gives a hold, where it gives one.
pub open spec fn leased(m: Instances, event: Event) -> Option<usize> {
    let name = event.name();
    match event {
        Event::Acquire(_) => if m.contains_key(name) {
            Some(m[name].handle)
        } else {
            None
        },
        Event::Register(_, handle) => if m.contains_key(name) {
            Some(m[name].handle)
        } else {
            Some(handle)
        },
        Event::Release(_) => None,
    }
}

/// The handle that has to be closed because of an event, where there is one: that of a directory
/// which was opened twice at once, or that of the instance which lost its last hold.
pub open spec fn closed(m: Instances, event: Event) -> Option<usize> {
    let name = event.name();
    match event {
        Event::Acquire(_) => None,
        Event::Register(_, handle) => if m.contains_key(name) {
            Some(handle)
        } else {
            None
        },
        Event::Release(_) => if m.contains_key(name) && m[name].holds <= 1 {
            Some(m[name].handle)
        } else {
            None
        },
    }
}

struct Instance {
    db_dir: PosixPath,
    handle: usize,
    holds: usize,
}

impl Instance {
    spec fn name(self) -> DirName {
        path::path_components(self.db_dir@)
    }

    spec fn model(self) -> InstanceModel {
        InstanceModel { db_dir: self.db_dir@, handle: self.handle, holds: self.holds as nat }
    }
}

/// Whether position `i` holds the instance with this name.
spec fn at(s: Seq<Instance>, i: int, name: DirName) -> bool {
    0 <= i < s.len() && s[i].name() == name
}

spec fn instances_of(s: Seq<Instance>) -> Instances {
    Map::new(
        |name: DirName| exists|i: int| at(s, i, name),
        |name: DirName| s[choose|i: int| at(s, i, name)].model(),
    )
}

spec fn distinct(s: Seq<Instance>) -> bool {
    forall|i: int, j: int|
        0 <= i < j < s.len() ==> (#[trigger] s[i]).name() != (#[trigger] s[j]).name()
}

proof fn lemma_at(s: Seq<Instance>, i: int)
    requires
        distinct(s),
        0 <= i < s.len(),
    ensures
        instances_of(s).contains_key(s[i].name()),
        instances_of(s)[s[i].name()] == s[i].model(),
{
    let name = s[i].name();
    assert(at(s, i, name));
    let j = choose|j: int| at(s, j, name);
    assert(at(s, j, name));
    assert(i == j) by {
        if i < j {
            assert(s[i].name() != s[j].name());
        }
        if j < i {
            assert(s[j].name() != s[i].name());
        }
    }
}

proof fn lemma_push(s: Seq<Instance>, x: Instance)
    requires
        distinct(s),
        !instances_of(s).contains_key(x.name()),
    ensures
        distinct(s.push(x)),
        instances_of(s.push(x)) == instances_of(s).insert(x.name(), x.model()),
{
    let t = s.push(x);
    assert forall|i: int, j: int| 0 <= i < j < t.len() implies (#[trigger] t[i]).name() != (
    #[trigger] t[j]).name() by {
        if j == s.len() {
            assert(at(s, i, s[i].name()));
        }
    }
    let m = instances_of(s).insert(x.name(), x.model());
    assert forall|name: DirName| instances_of(t).contains_key(name) <==> m.contains_key(name) by {
        if instances_of(t).contains_key(name) {
            let i = choose|i: int| at(t, i, name);
            if i < s.len() {
                assert(at(s, i, name));
            }
        }
        if instances_of(s).contains_key(name) {
            let i = choose|i: int| at(s, i, name);
            assert(at(t, i, name));
        }
        assert(at(t, s.len() as int, x.name()));
    }
    assert forall|name: DirName| instances_of(t).contains_key(name) implies instances_of(t)[name]
        == m[name] by {
        let i = choose|i: int| at(t, i, name);
        lemma_at(t, i);
        if i < s.len() {
            lemma_at(s, i);
            assert(s[i].name() != x.name());
        }
    }
    assert(instances_of(t) =~= m);
}

proof fn lemma_update(s: Seq<Instance>, i: int, x: Instance)
    requires
        distinct(s),
        0 <= i < s.len(),
        x.name() == s[i].name(),
    ensures
        distinct(s.update(i, x)),
        instances_of(s.update(i, x)) == instances_of(s).insert(x.name(), x.model()),
{
    let t = s.update(i, x);
    assert forall|a: int, b: int| 0 <= a < b < t.len() implies (#[trigger] t[a]).name() != (
    #[trigger] t[b]).name() by {
        assert(s[a].name() != s[b].name());
    }
    let m = instances_of(s).insert(x.name(), x.model());
    assert forall|name: DirName| instances_of(t).contains_key(name) <==> m.contains_key(name) by {
        if instances_of(t).contains_key(name) {
            let j = choose|j: int| at(t, j, name);
            assert(at(s, j, name));
        }
        if instances_of(s).contains_key(name) {
            let j = choose|j: int| at(s, j, name);
            assert(at(t, j, name));
        }
        assert(at(t, i, x.name()));
    }
    assert forall|name: DirName| instances_of(t).contains_key(name) implies instances_of(t)[name]
        == m[name] by {
        let j = choose|j: int| at(t, j, name);
        lemma_at(t, j);
        lemma_at(s, j);
        if j != i {
            lemma_at(s, i);
            if j < i {
                assert(s[j].name() != s[i].name());
            } else {
                assert(s[i].name() != s[j].name());
            }
        }
    }
    assert(instances_of(t) =~= m);
}

proof fn lemma_remove(s: Seq<Instance>, i: int)
    requires
        distinct(s),
        0 <= i < s.len(),
    ensures
        distinct(s.remove(i)),
        instances_of(s.remove(i)) == instances_of(s).remove(s[i].name()),
{
    let t = s.remove(i);
    assert forall|a: int, b: int| 0 <= a < b < t.len() implies (#[trigger] t[a]).name() != (
    #[trigger] t[b]).name() by {
        let a0 = if a < i { a } else { a + 1 };
        let b0 = if b < i { b } else { b + 1 };
        assert(t[a] == s[a0]);
        assert(t[b] == s[b0]);
        assert(s[a0].name() != s[b0].name());
    }
    let m = instances_of(s).remove(s[i].name());
    assert forall|name: DirName| instances_of(t).contains_key(name) <==> m.contains_key(name) by {
        if instances_of(t).contains_key(name) {
            let j = choose|j: int| at(t, j, name);
            let j0 = if j < i { j } else { j + 1 };
            assert(t[j] == s[j0]);
            assert(at(s, j0, name));
            if j0 < i {
                assert(s[j0].name() != s[i].name());
            } else {
                assert(s[i].name() != s[j0].name());
            }
        }
        if m.contains_key(name) {
            let j = choose|j: int| at(s, j, name);
            assert(j != i);
            let j1 = if j < i { j } else { j - 1 };
            assert(t[j1] == s[j]);
            assert(at(t, j1, name));
        }
    }
    assert forall|name: DirName| instances_of(t).contains_key(name) implies instances_of(t)[name]
        == m[name] by {
        let j = choose|j: int| at(t, j, name);
        let j0 = if j < i { j } else { j + 1 };
        assert(t[j] == s[j0]);
        lemma_at(t, j);
        lemma_at(s, j0);
    }
    assert(instances_of(t) =~= m);
}

/// The open instances of this process.
pub struct Registry {
    instances: Vec<Instance>,
}

impl View for Registry {
    type V = Instances;

    closed spec fn view(&self) -> Instances {
        instances_of(self.instances@)
    }
}

/// A hold on an instance.
#[derive(Debug)]
pub struct Lease {
    /// The directory as it was spelled when the instance was opened.
    pub db_dir: PosixPath,
    /// The path of the socket on which the server of the instance listens.
    pub sock_path: String,
    /// The handle that the driver gave for the instance.
    pub handle: usize,
}

impl Lease {
    /// Whether this is a hold on an instance.
    pub open spec fn is_on(self, instance: InstanceModel) -> bool {
        &&& self.db_dir@ == instance.db_dir
        &&& self.sock_path@ == location::socket_path_of(instance.db_dir)
        &&& self.handle == instance.handle
    }
}

impl Registry {
    /// What always holds of the list of instances: no two have the same directory, every
    /// directory is UTF-8, and someone holds each instance.
    pub closed spec fn wf(self) -> bool {
        &&& distinct(self.instances@)
        &&& forall|i: int|
            0 <= i < self.instances@.len() ==> valid_utf8(
                (#[trigger] self.instances@[i]).db_dir@,
            ) && self.instances@[i].holds > 0
    }

    /// No instances.
    pub fn new() -> (r: Registry)
        ensures
            r.wf(),
            r@ == Map::<DirName, InstanceModel>::empty(),
    {
        let r = Registry { instances: Vec::new() };
        proof {
            assert forall|name: DirName| !r@.contains_key(name) by {
                if exists|i: int| at(r.instances@, i, name) {
                    let i = choose|i: int| at(r.instances@, i, name);
                    assert(at(r.instances@, i, name));
                }
            }
            assert(r@ =~= Map::empty());
        }
        r
    }

    /// The position of the instance of a directory, or the number of instances.
    fn position(&self, db_dir: &PosixPath) -> (r: usize)
        requires
            self.wf(),
        ensures
            r <= self.instances@.len(),
            r < self.instances@.len() <==> self@.contains_key(path::path_components(db_dir@)),
            r < self.instances@.len() ==> self.instances@[r as int].name() == path::path_components(
                db_dir@,
            ),
    {
        let ghost name = path::path_components(db_dir@);
        let mut i: usize = 0;
        while i < self.instances.len()
            invariant
                i <= self.instances@.len(),
                self.wf(),
                name == path::path_components(db_dir@),
                forall|j: int| 0 <= j < i ==> (#[trigger] self.instances@[j]).name() != name,
            decreases self.instances@.len() - i,
        {
            if self.instances[i].db_dir == *db_dir {
                proof {
                    lemma_at(self.instances@, i as int);
                }
                return i;
            }
            i = i + 1;
        }
        proof {
            if self@.contains_key(name) {
                let j = choose|j: int| at(self.instances@, j, name);
                assert(at(self.instances@, j, name));
            }
        }
        i
    }

    /// Whether the holds on each instance can be counted one further.
    pub fn has_room(&self) -> (r: bool)
        requires
            self.wf(),
        ensures
            r == has_room(self@),
    {
        let mut i: usize = 0;
        while i < self.instances.len()
            invariant
                i <= self.instances@.len(),
                self.wf(),
                forall|j: int| 0 <= j < i ==> (#[trigger] self.instances@[j]).holds < usize::MAX,
            decreases self.instances@.len() - i,
        {
            if self.instances[i].holds == usize::MAX {
                proof {
                    lemma_at(self.instances@, i as int);
                    assert(!has_room_for(self@, self.instances@[i as int].name()));
                }
                return false;
            }
            i = i + 1;
        }
        proof {
            assert forall|name: DirName| #[trigger] has_room_for(self@, name) by {
                if self@.contains_key(name) {
                    let j = choose|j: int| at(self.instances@, j, name);
                    assert(at(self.instances@, j, name));
                    lemma_at(self.instances@, j);
                }
            }
        }
        true
    }

    /// A hold on the instance at a position.
    fn lease(&self, i: usize) -> (r: Lease)
        requires
            self.wf(),
            i < self.instances@.len(),
        ensures
            r.is_on(self.instances@[i as int].model()),
    {
        let db_dir: PosixPath = self.instances[i].db_dir.clone();
        let sock_path: String = location::socket_path(&db_dir);
        Lease { db_dir, sock_path, handle: self.instances[i].handle }
    }

    /// Takes one more hold on the instance at a position.
    fn hold(&mut self, i: usize) -> (r: Lease)
        requires
            old(self).wf(),
            i < old(self).instances@.len(),
            old(self).instances@[i as int].holds < usize::MAX,
        ensures
            final(self).wf(),
            ({
                let name = old(self).instances@[i as int].name();
                let m = old(self)@;
                &&& r.is_on(m[name])
                &&& final(self)@ == m.insert(name, m[name].with_holds(m[name].holds + 1))
            }),
    {
        let r: Lease = self.lease(i);
        let ghost before = self.instances@;
        let holds: usize = self.instances[i].holds;
        self.instances[i].holds = holds + 1;
        proof {
            let x = self.instances@[i as int];
            assert(self.instances@ =~= before.update(i as int, x));
            lemma_at(before, i as int);
            lemma_update(before, i as int, x);
        }
        r
    }

    /// Takes a hold on the instance of a directory, where it is open.
    pub fn acquire(&mut self, db_dir: &PosixPath) -> (r: Option<Lease>)
        requires
            old(self).wf(),
            has_room_for(old(self)@, path::path_components(db_dir@)),
        ensures
            final(self).wf(),
            final(self)@ == step(old(self)@, Event::Acquire(db_dir@)),
            match r {
                Some(lease) => {
                    &&& old(self)@.contains_key(path::path_components(db_dir@))
                    &&& lease.is_on(old(self)@[path::path_components(db_dir@)])
                    &&& leased(old(self)@, Event::Acquire(db_dir@)) == Some(lease.handle)
                },
                None => leased(old(self)@, Event::Acquire(db_dir@)) is None,
            },
    {
        let i: usize = self.position(db_dir);
        if i == self.instances.len() {
            return None;
        }
        proof {
            lemma_at(self.instances@, i as int);
            assert(self@[path::path_components(db_dir@)].holds < usize::MAX);
        }
        Some(self.hold(i))
    }

    /// Takes a hold on the instance of a directory that the driver has just opened: on the one
    /// that is open already, where there is one, and else on the new one. The second result is
    /// the handle that has to be closed because it is not needed.
    pub fn register(&mut self, db_dir: PosixPath, handle: usize) -> (r: (Lease, Option<usize>))
        requires
            old(self).wf(),
            has_room_for(old(self)@, path::path_components(db_dir@)),
            valid_utf8(db_dir@),
        ensures
            final(self).wf(),
            ({
                let event = Event::Register(db_dir@, handle);
                &&& final(self)@ == step(old(self)@, event)
                &&& r.0.is_on(final(self)@[event.name()])
                &&& leased(old(self)@, event) == Some(r.0.handle)
                &&& r.1 == closed(old(self)@, event)
            }),
    {
        let i: usize = self.position(&db_dir);
        if i < self.instances.len() {
            proof {
                lemma_at(self.instances@, i as int);
                assert(self@[path::path_components(db_dir@)].holds < usize::MAX);
            }
            let lease: Lease = self.hold(i);
            return (lease, Some(handle));
        }
        let ghost before = self.instances@;
        let sock_path: String = location::socket_path(&db_dir);
        let lease: Lease = Lease { db_dir: db_dir.clone(), sock_path, handle };
        let instance = Instance { db_dir, handle, holds: 1 };
        proof {
            lemma_push(before, instance);
        }
        self.instances.push(instance);
        (lease, None)
    }

    /// Gives up a hold on the instance of a directory. The result is the handle that has to be
    /// closed because it was the last hold.
    pub fn release(&mut self, db_dir: &PosixPath) -> (r: Option<usize>)
        requires
            old(self).wf(),
        ensures
            final(self).wf(),
            final(self)@ == step(old(self)@, Event::Release(db_dir@)),
            r == closed(old(self)@, Event::Release(db_dir@)),
    {
        let i: usize = self.position(db_dir);
        if i == self.instances.len() {
            return None;
        }
        let ghost before = self.instances@;
        proof {
            lemma_at(before, i as int);
        }
        let holds: usize = self.instances[i].holds;
        if holds == 1 {
            proof {
                lemma_remove(before, i as int);
            }
            let instance: Instance = self.instances.remove(i);
            Some(instance.handle)
        } else {
            self.instances[i].holds = holds - 1;
            proof {
                let x = self.instances@[i as int];
                assert(self.instances@ =~= before.update(i as int, x));
                lemma_update(before, i as int, x);
            }
            None
        }
    }
}

/// The open instances of a registry are consistent.
pub proof fn law_registry_is_consistent(registry: Registry)
    requires
        registry.wf(),
    ensures
        consistent(registry@),
{
    let s = registry.instances@;
    let names = s.map_values(|x: Instance| x.name());
    assert forall|name: DirName| #![trigger registry@[name]] registry@.contains_key(
        name,
    ) implies ({
        &&& path::path_components(registry@[name].db_dir) == name
        &&& valid_utf8(registry@[name].db_dir)
        &&& registry@[name].holds > 0
    }) by {
        let j = choose|j: int| at(s, j, name);
        assert(at(s, j, name));
        lemma_at(s, j);
    }
    assert forall|name: DirName| registry@.dom().contains(name) implies names.to_set().contains(
        name,
    ) by {
        let j = choose|j: int| at(s, j, name);
        assert(at(s, j, name));
        assert(names[j] == name);
    }
    vstd::seq_lib::seq_to_set_is_finite(names);
    vstd::set_lib::lemma_set_subset_finite(names.to_set(), registry@.dom());
}

/// Every event keeps the open instances consistent.
pub proof fn law_events_keep_consistency(m: Instances, event: Event)
    requires
        consistent(m),
        event matches Event::Register(db_dir, _) ==> valid_utf8(db_dir),
    ensures
        consistent(step(m, event)),
{
}

/// The open instances after some events, one after the other.
pub open spec fn run(m: Instances, events: Seq<Event>) -> Instances
    decreases events.len(),
{
    if events.len() == 0 {
        m
    } else {
        step(run(m, events.drop_last()), events.last())
    }
}

/// Whether the instance with a name stays open through some events.
pub open spec fn stays_open(m: Instances, events: Seq<Event>, name: DirName) -> bool
    decreases events.len(),
{
    &&& run(m, events).contains_key(name)
    &&& events.len() > 0 ==> stays_open(m, events.drop_last(), name)
}

/// One handle per directory: as long as an instance stays open, whatever happens, everyone who
/// asks for its directory or opens it once more gets a hold on the same handle.
pub proof fn law_one_handle_per_dir(m: Instances, events: Seq<Event>, next: Event)
    requires
        stays_open(m, events, next.name()),
        !(next is Release),
    ensures
        m.contains_key(next.name()),
        leased(run(m, events), next) == Some(m[next.name()].handle),
        run(m, events)[next.name()].db_dir == m[next.name()].db_dir,
    decreases events.len(),
{
    if events.len() > 0 {
        reveal_with_fuel(stays_open, 2);
        law_one_handle_per_dir(m, events.drop_last(), next);
    }
}

/// Different directories do not touch each other: an event changes nothing for another name.
pub proof fn law_events_are_local(m: Instances, event: Event, name: DirName)
    requires
        name != event.name(),
    ensures
        step(m, event).contains_key(name) == m.contains_key(name),
        m.contains_key(name) ==> step(m, event)[name] == m[name],
{
}

/// A hold keeps the instance open: only a release of its last hold takes it away, and only that
/// asks for its handle to be closed.
pub proof fn law_hold_keeps_instance_open(m: Instances, event: Event, name: DirName)
    requires
        consistent(m),
        m.contains_key(name),
        !(event is Release && event.name() == name && m[name].holds == 1),
    ensures
        step(m, event).contains_key(name),
        step(m, event)[name].handle == m[name].handle,
        event is Release && event.name() == name ==> closed(m, event) is None,
{
}

/// `n` releases of one directory.
pub open spec fn releases(db_dir: Seq<u8>, n: nat) -> Seq<Event> {
    Seq::new(n, |i: int| Event::Release(db_dir))
}

/// The last one closes: of as many releases as there are holds, only the last asks for a handle
/// to be closed, which is that of the instance. After it the directory is not open, and the next
/// open of it is kept under its own handle.
pub proof fn law_last_release_closes(m: Instances, db_dir: Seq<u8>, n: nat, handle: usize)
    requires
        consistent(m),
        m.contains_key(path::path_components(db_dir)),
        n < m[path::path_components(db_dir)].holds,
    ensures
        ({
            let name = path::path_components(db_dir);
            let release = Event::Release(db_dir);
            let left = run(m, releases(db_dir, n));
            let rest = step(left, release);
            &&& left.contains_key(name)
            &&& left[name] == m[name].with_holds((m[name].holds - n) as nat)
            &&& closed(left, release) == if n + 1 == m[name].holds {
                Some(m[name].handle)
            } else {
                None
            }
            &&& n + 1 == m[name].holds ==> {
                &&& leased(rest, Event::Acquire(db_dir)) is None
                &&& leased(rest, Event::Register(db_dir, handle)) == Some(handle)
                &&& closed(rest, Event::Register(db_dir, handle)) is None
            }
        }),
    decreases n,
{
    if n > 0 {
        let events = releases(db_dir, n);
        law_last_release_closes(m, db_dir, (n - 1) as nat, handle);
        assert(events.drop_last() =~= releases(db_dir, (n - 1) as nat));
        assert(events.last() == Event::Release(db_dir));
    }
}

/// How many hold the instance with a name.
pub open spec fn holds(m: Instances, name: DirName) -> nat {
    if m.contains_key(name) {
        m[name].holds
    } else {
        0
    }
}

/// How many holds some events give on the instance with a name.
pub open spec fn given(m: Instances, events: Seq<Event>, name: DirName) -> nat
    decreases events.len(),
{
    if events.len() == 0 {
        0
    } else {
        let before = run(m, events.drop_last());
        given(m, events.drop_last(), name) + if events.last().name() == name && leased(
            before,
            events.last(),
        ) is Some {
            1nat
        } else {
            0nat
        }
    }
}

/// How many holds some events give up on the instance with a name.
pub open spec fn given_up(m: Instances, events: Seq<Event>, name: DirName) -> nat
    decreases events.len(),
{
    if events.len() == 0 {
        0
    } else {
        let before = run(m, events.drop_last());
        given_up(m, events.drop_last(), name) + if events.last() is Release && events.last().name()
            == name && before.contains_key(name) {
            1nat
        } else {
            0nat
        }
    }
}

/// Holds are counted: what was held and what was given is what was given up and what is held.
/// So the instance is open if and only if not all holds on it have been given up.
pub proof fn law_holds_are_counted(m: Instances, events: Seq<Event>, name: DirName)
    requires
        consistent(m),
        forall|i: int|
            0 <= i < events.len() ==> ((#[trigger] events[i]) matches Event::Register(db_dir, _)
                ==> valid_utf8(db_dir)),
    ensures
        consistent(run(m, events)),
        holds(m, name) + given(m, events, name) == given_up(m, events, name) + holds(
            run(m, events),
            name,
        ),
        run(m, events).contains_key(name) <==> holds(m, name) + given(m, events, name) > given_up(
            m,
            events,
            name,
        ),
    decreases events.len(),
{
    if events.len() > 0 {
        let init = events.drop_last();
        assert forall|i: int| 0 <= i < init.len() implies ((#[trigger] init[i]) matches
            Event::Register(db_dir, _) ==> valid_utf8(db_dir)) by {
            assert(init[i] == events[i]);
        }
        law_holds_are_counted(m, init, name);
        assert(events[events.len() - 1] == events.last());
        law_events_keep_consistency(run(m, init), events.last());
    }
}

/// The names under which a handle is kept.
pub open spec fn kept_as(m: Instances, handle: usize) -> Set<DirName> {
    m.dom().filter(|name: DirName| m[name].handle == handle)
}

/// How often some events bring a handle.
pub open spec fn times_opened(events: Seq<Event>, handle: usize) -> nat
    decreases events.len(),
{
    if events.len() == 0 {
        0
    } else {
        times_opened(events.drop_last(), handle) + match events.last() {
            Event::Register(_, h) => if h == handle {
                1nat
            } else {
                0nat
            },
            _ => 0nat,
        }
    }
}

/// How often some events ask for a handle to be closed.
pub open spec fn times_closed(m: Instances, events: Seq<Event>, handle: usize) -> nat
    decreases events.len(),
{
    if events.len() == 0 {
        0
    } else {
        times_closed(m, events.drop_last(), handle) + if closed(
            run(m, events.drop_last()),
            events.last(),
        ) == Some(handle) {
            1nat
        } else {
            0nat
        }
    }
}

/// Every handle that the driver gives is closed once or is still kept: as often as a handle was
/// kept before and is brought by the events, it is closed by them or kept after them.
pub proof fn law_handles_are_closed_once(m: Instances, events: Seq<Event>, handle: usize)
    requires
        m.dom().finite(),
    ensures
        run(m, events).dom().finite(),
        kept_as(m, handle).len() + times_opened(events, handle) == times_closed(m, events, handle)
            + kept_as(run(m, events), handle).len(),
    decreases events.len(),
{
    if events.len() > 0 {
        law_handles_are_closed_once(m, events.drop_last(), handle);
        let before = run(m, events.drop_last());
        let event = events.last();
        let after = step(before, event);
        let name = event.name();
        before.dom().lemma_len_filter(|name: DirName| before[name].handle == handle);
        if !before.contains_key(name) {
            match event {
                Event::Register(_, h) => {
                    if h == handle {
                        assert(kept_as(after, handle) =~= kept_as(before, handle).insert(name));
                    } else {
                        assert(kept_as(after, handle) =~= kept_as(before, handle));
                    }
                },
                _ => {},
            }
        } else if event is Release && before[name].holds <= 1 {
            if before[name].handle == handle {
                assert(kept_as(after, handle) =~= kept_as(before, handle).remove(name));
            } else {
                assert(kept_as(after, handle) =~= kept_as(before, handle));
            }
        } else {
            assert(kept_as(after, handle) =~= kept_as(before, handle));
        }
    }
}

/// Asking for a hold on an open instance adds one to its holds, gives its handle and changes
/// nothing else; asking for one that is not open does nothing.
pub proof fn law_acquire_adds_one_hold(m: Instances, db_dir: Seq<u8>)
    ensures
        ({
            let name = path::path_components(db_dir);
            let event = Event::Acquire(db_dir);
            let after = step(m, event);
            &&& closed(m, event) is None
            &&& after.dom() == m.dom()
            &&& after.remove(name) == m.remove(name)
            &&& leased(m, event) is Some <==> m.contains_key(name)
            &&& m.contains_key(name) ==> {
                &&& leased(m, event) == Some(m[name].handle)
                &&& after[name].db_dir == m[name].db_dir
                &&& after[name].handle == m[name].handle
                &&& after[name].holds == m[name].holds + 1
            }
        }),
{
    let name = path::path_components(db_dir);
    let after = step(m, Event::Acquire(db_dir));
    assert(after.dom() =~= m.dom());
    assert(after.remove(name) =~= m.remove(name));
}

/// A directory that has just been opened is kept with its handle and one hold, as it was spelled.
/// Where it was open already, that instance gets one hold more and stays as it is, its handle is
/// given, and the new one is to be closed. No other instance is touched.
pub proof fn law_register_keeps_the_first_handle(m: Instances, db_dir: Seq<u8>, handle: usize)
    ensures
        ({
            let name = path::path_components(db_dir);
            let event = Event::Register(db_dir, handle);
            let after = step(m, event);
            &&& after.contains_key(name)
            &&& after.remove(name) == m.remove(name)
            &&& leased(m, event) == Some(after[name].handle)
            &&& m.contains_key(name) ==> {
                &&& after[name].db_dir == m[name].db_dir
                &&& after[name].handle == m[name].handle
                &&& after[name].holds == m[name].holds + 1
                &&& closed(m, event) == Some(handle)
            }
            &&& !m.contains_key(name) ==> {
                &&& after[name].db_dir == db_dir
                &&& after[name].handle == handle
                &&& after[name].holds == 1
                &&& closed(m, event) is None
            }
        }),
{
    let name = path::path_components(db_dir);
    let after = step(m, Event::Register(db_dir, handle));
    assert(after.remove(name) =~= m.remove(name));
}

/// Giving up a hold takes one from the holds of an instance; with the last one the instance is
/// gone, and its handle is to be closed. Nothing else is touched, and nothing at all where the
/// directory is not open.
pub proof fn law_release_takes_one_hold(m: Instances, db_dir: Seq<u8>)
    ensures
        ({
            let name = path::path_components(db_dir);
            let event = Event::Release(db_dir);
            let after = step(m, event);
            &&& leased(m, event) is None
            &&& after.remove(name) == m.remove(name)
            &&& after.contains_key(name) <==> m.contains_key(name) && m[name].holds > 1
            &&& m.contains_key(name) && m[name].holds > 1 ==> {
                &&& after[name].db_dir == m[name].db_dir
                &&& after[name].handle == m[name].handle
                &&& after[name].holds == m[name].holds - 1
                &&& closed(m, event) is None
            }
            &&& m.contains_key(name) && m[name].holds <= 1 ==> closed(m, event) == Some(
                m[name].handle,
            )
            &&& !m.contains_key(name) ==> after == m && closed(m, event) is None
        }),
{
    let name = path::path_components(db_dir);
    let after = step(m, Event::Release(db_dir));
    assert(after.remove(name) =~= m.remove(name));
}

/// Giving up a hold undoes taking it, however the directory is spelled: a hold on an open instance,
/// and that with which a directory was opened, whose handle is then to be closed.
pub proof fn law_release_undoes_a_hold(
    m: Instances,
    db_dir: Seq<u8>,
    spelling: Seq<u8>,
    handle: usize,
)
    requires
        consistent(m),
        path::path_components(spelling) == path::path_components(db_dir),
    ensures
        step(step(m, Event::Acquire(db_dir)), Event::Release(spelling)) == if m.contains_key(
            path::path_components(db_dir),
        ) {
            m
        } else {
            step(m, Event::Release(spelling))
        },
        step(step(m, Event::Register(db_dir, handle)), Event::Release(spelling)) == m,
        !m.contains_key(path::path_components(db_dir)) ==> closed(
            step(m, Event::Register(db_dir, handle)),
            Event::Release(spelling),
        ) == Some(handle),
{
    let name = path::path_components(db_dir);
    let held = step(m, Event::Acquire(db_dir));
    let kept = step(m, Event::Register(db_dir, handle));
    if m.contains_key(name) {
        assert(m[name].holds > 0);
        assert(step(held, Event::Release(spelling)) =~= m);
    }
    assert(step(kept, Event::Release(spelling)) =~= m);
}

/// One more hold can be counted wherever there are fewer than the largest number.
pub proof fn law_room_ends_at_the_largest_number(m: Instances, name: DirName)
    ensures
        !m.contains_key(name) ==> has_room_for(m, name),
        m.contains_key(name) ==> (has_room_for(m, name) <==> m[name].holds < usize::MAX),
        has_room(m) <==> forall|other: DirName| #[trigger]
            m.contains_key(other) ==> m[other].holds < usize::MAX,
{
    if has_room(m) {
        assert forall|other: DirName| #[trigger] m.contains_key(other) implies m[other].holds
            < usize::MAX by {
            assert(has_room_for(m, other));
        }
    }
}

/// A hold on an instance has its directory and its handle, and the socket path is that directory
/// followed by `/run/sql.sock`.
pub proof fn law_lease_is_of_its_instance(lease: Lease, instance: InstanceModel)
    requires
        lease.is_on(instance),
        valid_utf8(instance.db_dir),
    ensures
        lease.db_dir@ == instance.db_dir,
        lease.handle == instance.handle,
        encode_utf8(lease.sock_path@) == instance.db_dir + encode_utf8("/run/sql.sock"@),
{
    location::law_socket_path_is_in_the_directory(instance.db_dir, instance.db_dir);
}

} // verus!
