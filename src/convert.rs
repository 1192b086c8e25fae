//! Conversion of a forest of source tasks into a flat list of target tasks.
use vstd::prelude::*;
use vstd::map_lib::lemma_submap_of_trans;

use crate::asana;
use crate::mapping::{first_match, SectionPriorityMapping};
use crate::taskwarrior::{
    depends_text, get_depends_fields, texts, uuid_values, Priority, Status, Task, TaskView, UUID,
};
use crate::time::{end_of_day, end_of_day_spec, Timestamp};

verus! {

/// Relies on uuid::Uuid::new_v4 (with Uuid::as_u128): a random identity with
/// the version-4 and RFC 4122 variant bits set.
#[verifier::external_body]
fn new_v4() -> (r: UUID)
    ensures
        (r.uuid >> 76u128) & 15u128 == 4u128,
        (r.uuid >> 62u128) & 3u128 == 2u128,
{
    UUID { uuid: uuid::Uuid::new_v4().as_u128() }
}

/// Whether `v` carries the version-4 and RFC 4122 variant bits of a random
/// identity.
pub open spec fn is_v4(v: u128) -> bool {
    (v >> 76u128) & 15u128 == 4u128 && (v >> 62u128) & 3u128 == 2u128
}

/// Whether every identity that `after` gives and `before` does not is a
/// random version-4 one.
pub open spec fn fresh_v4(before: Map<Seq<char>, u128>, after: Map<Seq<char>, u128>) -> bool {
    forall|k: Seq<char>|
        #[trigger] after.contains_key(k) && !before.contains_key(k) ==> is_v4(after[k])
}

proof fn lemma_fresh_v4_trans(
    m1: Map<Seq<char>, u128>,
    m2: Map<Seq<char>, u128>,
    m3: Map<Seq<char>, u128>,
)
    requires
        m2.submap_of(m3),
        fresh_v4(m1, m2),
        fresh_v4(m2, m3),
    ensures
        fresh_v4(m1, m3),
{
    assert forall|k: Seq<char>| #[trigger] m3.contains_key(k) && !m1.contains_key(k) implies is_v4(
        m3[k],
    ) by {
        if m2.contains_key(k) {
            assert(m2[k] == m3[k]);
        }
    }
}

/// Identities given to source identifiers during one conversion; an entry is
/// never removed or changed.
pub struct UuidRegistry {
    entries: Vec<(String, UUID)>,
}

/// How a resolution of `gid` relates the registry's mapping before and after.
pub open spec fn resolved(
    before: Map<Seq<char>, u128>,
    gid: Seq<char>,
    v: u128,
    after: Map<Seq<char>, u128>,
) -> bool {
    if before.contains_key(gid) {
        v == before[gid] && after == before
    } else {
        after == before.insert(gid, v)
    }
}

proof fn lemma_first_match_push<V>(s: Seq<(Seq<char>, V)>, p: (Seq<char>, V), k: Seq<char>)
    ensures
        first_match(s.push(p), k) == match first_match(s, k) {
            Some(v) => Some(v),
            None => if p.0 == k {
                Some(p.1)
            } else {
                None
            },
        },
    decreases s.len(),
{
    if s.len() > 0 {
        assert(s.push(p).drop_first() =~= s.drop_first().push(p));
        lemma_first_match_push(s.drop_first(), p, k);
    } else {
        assert(s.push(p).drop_first() =~= s);
    }
}

impl UuidRegistry {
    pub closed spec fn pairs(&self) -> Seq<(Seq<char>, u128)> {
        self.entries@.map_values(|e: (String, UUID)| (e.0@, e.1.uuid))
    }

    /// The identity given to each source identifier so far.
    pub closed spec fn ids(&self) -> Map<Seq<char>, u128> {
        Map::new(
            |k: Seq<char>| first_match(self.pairs(), k) is Some,
            |k: Seq<char>| first_match(self.pairs(), k)->Some_0,
        )
    }

    /// A registry that has given no identity yet.
    pub fn new() -> (r: UuidRegistry)
        ensures
            r.ids() == Map::<Seq<char>, u128>::empty(),
    {
        let r = UuidRegistry { entries: Vec::new() };
        assert(r.ids() =~= Map::<Seq<char>, u128>::empty());
        r
    }

    /// The identity given to `gid`, if any.
    pub fn get(&self, gid: &String) -> (r: Option<UUID>)
        ensures
            match r {
                Some(u) => self.ids().contains_key(gid@) && u.uuid == self.ids()[gid@],
                None => !self.ids().contains_key(gid@),
            },
    {
        let mut i: usize = 0;
        assert(self.pairs().skip(0) =~= self.pairs());
        while i < self.entries.len()
            invariant
                0 <= i <= self.entries@.len(),
                first_match(self.pairs(), gid@) == first_match(self.pairs().skip(i as int), gid@),
            decreases self.entries@.len() - i,
        {
            let ghost rest = self.pairs().skip(i as int);
            assert(rest[0] == (self.entries@[i as int].0@, self.entries@[i as int].1.uuid));
            if self.entries[i].0 == *gid {
                return Some(self.entries[i].1);
            }
            assert(rest.drop_first() =~= self.pairs().skip(i + 1));
            i = i + 1;
        }
        None
    }

    /// The identity given to `gid`, which has one.
    fn known(&self, gid: &String) -> (r: UUID)
        requires
            self.ids().contains_key(gid@),
        ensures
            r.uuid == self.ids()[gid@],
    {
        match self.get(gid) {
            Some(u) => u,
            None => {
                proof {
                    assert(false);
                }
                UUID { uuid: 0 }
            },
        }
    }
}

/// The identity of source identifier `gid`: the one given to it before, else
/// a fresh random one, which is recorded.
pub fn get_uuid_by_gid(uuids: &mut UuidRegistry, gid: &str) -> (r: UUID)
    ensures
        resolved(old(uuids).ids(), gid@, r.uuid, final(uuids).ids()),
        old(uuids).ids().submap_of(final(uuids).ids()),
        final(uuids).ids().contains_key(gid@),
        final(uuids).ids()[gid@] == r.uuid,
        !old(uuids).ids().contains_key(gid@) ==> is_v4(r.uuid),
        fresh_v4(old(uuids).ids(), final(uuids).ids()),
{
    let key = String::from_str(gid);
    match uuids.get(&key) {
        Some(u) => u,
        None => {
            let u = new_v4();
            let ghost before = uuids.ids();
            let ghost pairs = uuids.pairs();
            uuids.entries.push((key, u));
            assert(uuids.pairs() =~= pairs.push((gid@, u.uuid)));
            assert forall|k: Seq<char>| #[trigger] first_match(uuids.pairs(), k) == match first_match(pairs, k) {
                Some(v) => Some(v),
                None => if gid@ == k {
                    Some(u.uuid)
                } else {
                    None
                },
            } by {
                lemma_first_match_push(pairs, (gid@, u.uuid), k);
            }
            assert(uuids.ids() =~= before.insert(gid@, u.uuid));
            u
        },
    }
}

} // verus!

verus! {

/// What a task hands down to its subtasks: its identity, priority,
/// completion time and project label.
pub type ParentTaskData = (UUID, Option<Priority>, Option<Timestamp>, Option<String>);

/// `ParentTaskData` with the identity as a number and the label as characters.
pub type ParentView = (u128, Option<Priority>, Option<Timestamp>, Option<Seq<char>>);

pub open spec fn parent_view(p: Option<ParentTaskData>) -> Option<ParentView> {
    match p {
        Some(d) => Some((d.0.uuid, d.1, d.2, match d.3 {
            Some(s) => Some(s@),
            None => None,
        })),
        None => None,
    }
}

/// Source identifiers of a task's dependencies.
pub open spec fn dependency_gids(t: asana::Task) -> Seq<Seq<char>> {
    match t.dependencies {
        Some(v) => v@.map_values(|r: asana::TaskReference| r.gid@),
        None => Seq::empty(),
    }
}

/// Source identifiers of a task's direct subtasks.
pub open spec fn subtask_gids(t: asana::Task) -> Seq<Seq<char>> {
    match t.subtasks {
        Some(v) => v@.map_values(|c: asana::Task| c.gid@),
        None => Seq::empty(),
    }
}

/// Every source identifier that a forest names: its tasks' own and those of
/// their dependencies, at every depth.
pub open spec fn gids_in(ts: Seq<asana::Task>) -> Set<Seq<char>>
    decreases ts,
{
    if ts.len() == 0 {
        Set::empty()
    } else {
        gids_in(ts.drop_last()) + task_gids(ts.last())
    }
}

/// Source identifiers that a task and its subtasks name.
pub open spec fn task_gids(t: asana::Task) -> Set<Seq<char>>
    decreases t,
{
    let own = set![t.gid@] + dependency_gids(t).to_set();
    match t.subtasks {
        Some(v) => own + gids_in(v@),
        None => own,
    }
}

/// Priority of a task: the one handed down, else that of the section of its
/// first membership.
pub open spec fn effective_priority(
    t: asana::Task,
    ctx: Option<ParentView>,
    mapping: SectionPriorityMapping,
) -> Option<Priority> {
    if ctx is Some && ctx->Some_0.1 is Some {
        ctx->Some_0.1
    } else if t.memberships@.len() > 0 {
        mapping.priority_of(t.memberships@[0].section.name@)
    } else {
        None
    }
}

/// Project label of a task: the one handed down, else the project of its
/// first membership, followed by ". " and the section if asked for.
pub open spec fn effective_project(
    t: asana::Task,
    ctx: Option<ParentView>,
    append_sections_to_project: bool,
) -> Option<Seq<char>> {
    if ctx is Some && ctx->Some_0.3 is Some {
        ctx->Some_0.3
    } else if t.memberships@.len() > 0 {
        let m = t.memberships@[0];
        if append_sections_to_project {
            Some(m.project.name@ + seq!['.', ' '] + m.section.name@)
        } else {
            Some(m.project.name@)
        }
    } else {
        None
    }
}

/// Completion time of a task: the one handed down, else its own if it is
/// marked completed.
pub open spec fn effective_completion(t: asana::Task, ctx: Option<ParentView>) -> Option<
    Timestamp,
> {
    if ctx is Some && ctx->Some_0.2 is Some {
        ctx->Some_0.2
    } else if t.completed {
        t.completed_at
    } else {
        None
    }
}

/// Identities a task depends on, in the order in which they are gathered.
pub open spec fn dependency_ids(
    t: asana::Task,
    ids: Map<Seq<char>, u128>,
    children_to_dependencies: bool,
) -> Seq<u128> {
    let deps = dependency_gids(t).map_values(|g: Seq<char>| ids[g]);
    if children_to_dependencies {
        deps + subtask_gids(t).map_values(|g: Seq<char>| ids[g])
    } else {
        deps
    }
}

/// The record emitted for a task with a non-empty name.
pub open spec fn record(
    t: asana::Task,
    ctx: Option<ParentView>,
    ids: Map<Seq<char>, u128>,
    mapping: SectionPriorityMapping,
    children_to_dependencies: bool,
    append_sections_to_project: bool,
) -> TaskView {
    let completion = effective_completion(t, ctx);
    let deps = dependency_ids(t, ids, children_to_dependencies);
    TaskView {
        status: if completion is Some {
            Status::Completed
        } else {
            Status::Pending
        },
        uuid: ids[t.gid@],
        entry: t.created_at,
        description: t.name@,
        start: t.start_on,
        end: completion,
        due: match t.due_on {
            Some(d) => Some(end_of_day_spec(d)),
            None => None,
        },
        until: None,
        wait: None,
        modified: None,
        scheduled: None,
        recur: None,
        mask: None,
        imask: None,
        parent: match ctx {
            Some(c) => Some(c.0),
            None => None,
        },
        project: effective_project(t, ctx, append_sections_to_project),
        priority: effective_priority(t, ctx, mapping),
        depends: if deps.len() == 0 {
            None
        } else {
            Some(depends_text(deps.to_set()))
        },
        tags: Some(t.tags@.map_values(|r: asana::Reference| r.name@)),
        annotation: None,
    }
}

/// What a task with a non-empty name hands down to its subtasks.
pub open spec fn child_context(
    t: asana::Task,
    ctx: Option<ParentView>,
    ids: Map<Seq<char>, u128>,
    mapping: SectionPriorityMapping,
    append_sections_to_project: bool,
) -> ParentView {
    (
        ids[t.gid@],
        effective_priority(t, ctx, mapping),
        effective_completion(t, ctx),
        effective_project(t, ctx, append_sections_to_project),
    )
}

/// Records of a forest, in pre-order.
pub open spec fn convert_list(
    ts: Seq<asana::Task>,
    ctx: Option<ParentView>,
    ids: Map<Seq<char>, u128>,
    mapping: SectionPriorityMapping,
    children_to_dependencies: bool,
    append_sections_to_project: bool,
) -> Seq<TaskView>
    decreases ts,
{
    if ts.len() == 0 {
        Seq::empty()
    } else {
        convert_list(
            ts.drop_last(),
            ctx,
            ids,
            mapping,
            children_to_dependencies,
            append_sections_to_project,
        ) + convert_one(
            ts.last(),
            ctx,
            ids,
            mapping,
            children_to_dependencies,
            append_sections_to_project,
        )
    }
}

/// Records of a task and its subtasks, in pre-order. A task with an empty
/// name gives no record; its subtasks get the context it was given.
pub open spec fn convert_one(
    t: asana::Task,
    ctx: Option<ParentView>,
    ids: Map<Seq<char>, u128>,
    mapping: SectionPriorityMapping,
    children_to_dependencies: bool,
    append_sections_to_project: bool,
) -> Seq<TaskView>
    decreases t,
{
    let skipped = t.name@.len() == 0;
    let own = if skipped {
        Seq::empty()
    } else {
        seq![
            record(
                t,
                ctx,
                ids,
                mapping,
                children_to_dependencies,
                append_sections_to_project,
            ),
        ]
    };
    let sub_ctx = if skipped {
        ctx
    } else {
        Some(child_context(t, ctx, ids, mapping, append_sections_to_project))
    };
    match t.subtasks {
        Some(v) => own + convert_list(
            v@,
            sub_ctx,
            ids,
            mapping,
            children_to_dependencies,
            append_sections_to_project,
        ),
        None => own,
    }
}

/// Views of a list of target tasks.
pub open spec fn views(s: Seq<Task>) -> Seq<TaskView> {
    s.map_values(|t: Task| t@)
}

/// Give an identity to every source identifier that the forest names.
fn register_all(asana_tasks: &Vec<asana::Task>, uuids: &mut UuidRegistry)
    ensures
        old(uuids).ids().submap_of(final(uuids).ids()),
        gids_in(asana_tasks@).subset_of(final(uuids).ids().dom()),
        fresh_v4(old(uuids).ids(), final(uuids).ids()),
    decreases asana_tasks@,
{
    let mut i: usize = 0;
    while i < asana_tasks.len()
        invariant
            0 <= i <= asana_tasks@.len(),
            old(uuids).ids().submap_of(uuids.ids()),
            fresh_v4(old(uuids).ids(), uuids.ids()),
            gids_in(asana_tasks@.take(i as int)).subset_of(uuids.ids().dom()),
        decreases asana_tasks@.len() - i,
    {
        let task = &asana_tasks[i];
        let ghost start = uuids.ids();
        get_uuid_by_gid(uuids, task.gid.as_str());
        let ghost after_gid = uuids.ids();
        match &task.dependencies {
            Some(deps) => {
                let mut j: usize = 0;
                while j < deps.len()
                    invariant
                        0 <= j <= deps@.len(),
                        task.dependencies == Some(*deps),
                        after_gid.submap_of(uuids.ids()),
                        fresh_v4(after_gid, uuids.ids()),
                        uuids.ids().contains_key(task.gid@),
                        forall|k: int| 0 <= k < j ==> uuids.ids().contains_key(#[trigger] deps@[k].gid@),
                    decreases deps@.len() - j,
                {
                    let ghost before_dep = uuids.ids();
                    get_uuid_by_gid(uuids, deps[j].gid.as_str());
                    proof {
                        lemma_submap_of_trans(after_gid, before_dep, uuids.ids());
                        lemma_fresh_v4_trans(after_gid, before_dep, uuids.ids());
                    }
                    j = j + 1;
                }
                assert(dependency_gids(*task).to_set().subset_of(uuids.ids().dom())) by {
                    assert forall|g: Seq<char>| dependency_gids(*task).to_set().contains(g) implies
                        uuids.ids().dom().contains(g) by {
                        let k = choose|k: int| 0 <= k < dependency_gids(*task).len() && dependency_gids(*task)[k] == g;
                        assert(deps@[k].gid@ == g);
                    }
                }
            },
            None => {},
        }
        let ghost after_deps = uuids.ids();
        assert(after_gid.submap_of(after_deps) && fresh_v4(after_gid, after_deps)) by {
            if task.dependencies is None {
                assert(after_gid == after_deps);
            }
        }
        assert(dependency_gids(*task).to_set().subset_of(after_deps.dom())) by {
            if task.dependencies is None {
                assert(dependency_gids(*task).to_set() =~= Set::empty());
            }
        }
        match &task.subtasks {
            Some(sub) => {
                assert(decreases_to!(asana_tasks@ => sub@)) by {
                    assert(decreases_to!(asana_tasks@ => asana_tasks@[i as int]));
                }
                register_all(sub, uuids);
            },
            None => {},
        }
        proof {
            let fin = uuids.ids();
            assert(after_deps.submap_of(fin));
            lemma_submap_of_trans(start, after_gid, after_deps);
            lemma_submap_of_trans(start, after_deps, fin);
            lemma_submap_of_trans(old(uuids).ids(), start, fin);
            assert(fresh_v4(after_deps, fin));
            lemma_fresh_v4_trans(after_gid, after_deps, fin);
            lemma_fresh_v4_trans(start, after_gid, fin);
            lemma_fresh_v4_trans(old(uuids).ids(), start, fin);
            assert(task_gids(*task).subset_of(fin.dom()));
            assert(asana_tasks@.take(i + 1).drop_last() =~= asana_tasks@.take(i as int));
            assert(asana_tasks@.take(i + 1).last() == *task);
        }
        i = i + 1;
    }
    assert(asana_tasks@.take(asana_tasks@.len() as int) =~= asana_tasks@);
}

} // verus!

verus! {

fn clone_text(s: &Option<String>) -> (r: Option<String>)
    ensures
        match s {
            Some(t) => r is Some && r->Some_0@ == t@,
            None => r is None,
        },
{
    match s {
        Some(t) => Some(t.clone()),
        None => None,
    }
}

/// A source record that names a task by its source identifier.
pub trait Identified {
    spec fn gid_view(&self) -> Seq<char>;

    fn gid(&self) -> (r: &String)
        ensures
            r@ == self.gid_view(),
    ;
}

impl Identified for asana::TaskReference {
    open spec fn gid_view(&self) -> Seq<char> {
        self.gid@
    }

    fn gid(&self) -> (r: &String) {
        &self.gid
    }
}

impl Identified for asana::Task {
    open spec fn gid_view(&self) -> Seq<char> {
        self.gid@
    }

    fn gid(&self) -> (r: &String) {
        &self.gid
    }
}

/// Identities of the tasks that the given records name, in order.
fn append_ids<T: Identified>(items: &Vec<T>, uuids: &UuidRegistry, out: &mut Vec<UUID>)
    requires
        forall|k: int| 0 <= k < items@.len() ==> uuids.ids().contains_key(#[trigger] items@[k].gid_view()),
    ensures
        uuid_values(final(out)@) == uuid_values(old(out)@) + items@.map_values(
            |x: T| x.gid_view(),
        ).map_values(|g: Seq<char>| uuids.ids()[g]),
{
    let ghost want = items@.map_values(|x: T| x.gid_view()).map_values(
        |g: Seq<char>| uuids.ids()[g],
    );
    let mut j: usize = 0;
    while j < items.len()
        invariant
            0 <= j <= items@.len(),
            want == items@.map_values(|x: T| x.gid_view()).map_values(
                |g: Seq<char>| uuids.ids()[g],
            ),
            forall|k: int| 0 <= k < items@.len() ==> uuids.ids().contains_key(#[trigger] items@[k].gid_view()),
            uuid_values(out@) == uuid_values(old(out)@) + want.take(j as int),
        decreases items@.len() - j,
    {
        let u = uuids.known(items[j].gid());
        let ghost prev = out@;
        out.push(u);
        assert(uuid_values(out@) =~= uuid_values(prev).push(u.uuid));
        assert(want.take(j + 1) =~= want.take(j as int).push(want[j as int]));
        assert(uuid_values(out@) =~= uuid_values(old(out)@) + want.take(j + 1));
        j = j + 1;
    }
    assert(want.take(items@.len() as int) =~= want);
}

proof fn lemma_task_gids_within(ts: Seq<asana::Task>, i: int)
    requires
        0 <= i < ts.len(),
    ensures
        task_gids(ts[i]).subset_of(gids_in(ts)),
    decreases ts.len(),
{
    if i < ts.len() - 1 {
        lemma_task_gids_within(ts.drop_last(), i);
    }
}

proof fn lemma_subtask_gids_within(t: asana::Task)
    requires
        t.subtasks is Some,
    ensures
        forall|k: int|
            0 <= k < t.subtasks->Some_0@.len() ==> gids_in(t.subtasks->Some_0@).contains(
                #[trigger] t.subtasks->Some_0@[k].gid@,
            ),
{
    assert forall|k: int| 0 <= k < t.subtasks->Some_0@.len() implies gids_in(
        t.subtasks->Some_0@,
    ).contains(#[trigger] t.subtasks->Some_0@[k].gid@) by {
        lemma_task_gids_within(t.subtasks->Some_0@, k);
    }
}

/// The record of one task with a non-empty name, and what it hands down to
/// its subtasks.
fn convert_task(
    task: &asana::Task,
    uuids: &UuidRegistry,
    parent: &Option<ParentTaskData>,
    section_priority_mapping: &SectionPriorityMapping,
    children_to_dependencies: bool,
    append_sections_to_project: bool,
) -> (r: (Task, ParentTaskData))
    requires
        task_gids(*task).subset_of(uuids.ids().dom()),
    ensures
        r.0@ == record(
            *task,
            parent_view(*parent),
            uuids.ids(),
            *section_priority_mapping,
            children_to_dependencies,
            append_sections_to_project,
        ),
        parent_view(Some(r.1)) == Some(
            child_context(
                *task,
                parent_view(*parent),
                uuids.ids(),
                *section_priority_mapping,
                append_sections_to_project,
            ),
        ),
{
    let ghost ctx = parent_view(*parent);
    let uuid = uuids.known(&task.gid);

    let inherited_priority: Option<Priority> = match parent {
        Some(p) => p.1,
        None => None,
    };
    let priority: Option<Priority> = match inherited_priority {
        Some(p) => Some(p),
        None => if task.memberships.len() > 0 {
            section_priority_mapping.get_mapping(task.memberships[0].section.name.as_str())
        } else {
            None
        },
    };

    let inherited_project: Option<String> = match parent {
        Some(p) => clone_text(&p.3),
        None => None,
    };
    assert(opt_text_eq(inherited_project, if ctx is Some { ctx->Some_0.3 } else { None }));
    let project: Option<String> = match inherited_project {
        Some(s) => Some(s),
        None => if task.memberships.len() > 0 {
            let m = &task.memberships[0];
            if append_sections_to_project {
                let mut s = m.project.name.clone();
                proof {
                    reveal_strlit(". ");
                }
                s.append(". ");
                s.append(m.section.name.as_str());
                assert(s@ =~= m.project.name@ + seq!['.', ' '] + m.section.name@);
                Some(s)
            } else {
                Some(m.project.name.clone())
            }
        } else {
            None
        },
    };
    assert(opt_text_eq(project, effective_project(*task, ctx, append_sections_to_project)));

    let inherited_completion: Option<Timestamp> = match parent {
        Some(p) => p.2,
        None => None,
    };
    let completed_at: Option<Timestamp> = match inherited_completion {
        Some(t) => Some(t),
        None => if task.completed {
            task.completed_at
        } else {
            None
        },
    };

    let due: Option<Timestamp> = match task.due_on {
        Some(d) => Some(end_of_day(d)),
        None => None,
    };

    let mut dependencies: Vec<UUID> = Vec::new();
    match &task.dependencies {
        Some(deps) => {
            assert forall|k: int| 0 <= k < deps@.len() implies uuids.ids().contains_key(
                #[trigger] deps@[k].gid@,
            ) by {
                assert(dependency_gids(*task)[k] == deps@[k].gid@);
            }
            append_ids(deps, uuids, &mut dependencies);
        },
        None => {},
    }
    if children_to_dependencies {
        match &task.subtasks {
            Some(sub) => {
                proof {
                    lemma_subtask_gids_within(*task);
                }
                append_ids(sub, uuids, &mut dependencies);
            },
            None => {},
        }
    }
    assert(uuid_values(dependencies@) =~= dependency_ids(
        *task,
        uuids.ids(),
        children_to_dependencies,
    ));
    let depends: Option<String> = if dependencies.len() == 0 {
        None
    } else {
        Some(get_depends_fields(dependencies))
    };

    let mut tags: Vec<String> = Vec::new();
    let mut j: usize = 0;
    while j < task.tags.len()
        invariant
            0 <= j <= task.tags@.len(),
            texts(tags@) == task.tags@.take(j as int).map_values(|r: asana::Reference| r.name@),
        decreases task.tags@.len() - j,
    {
        let name = task.tags[j].name.clone();
        let ghost prev = tags@;
        tags.push(name);
        assert(texts(tags@) =~= texts(prev).push(name@));
        assert(texts(tags@) =~= task.tags@.take(j + 1).map_values(|r: asana::Reference| r.name@));
        j = j + 1;
    }
    assert(task.tags@.take(task.tags@.len() as int) =~= task.tags@);

    let status = match completed_at {
        Some(_) => Status::Completed,
        None => Status::Pending,
    };
    let parent_uuid: Option<UUID> = match parent {
        Some(p) => Some(p.0),
        None => None,
    };
    let handed_down = clone_text(&project);
    let t = Task {
        status,
        uuid,
        entry: task.created_at,
        description: task.name.clone(),
        start: task.start_on,
        end: completed_at,
        due,
        until: None,
        wait: None,
        modified: None,
        scheduled: None,
        recur: None,
        mask: None,
        imask: None,
        parent: parent_uuid,
        project,
        priority,
        depends,
        tags: Some(tags),
        annotation: None,
    };
    assert(t@.tags =~= Some(task.tags@.map_values(|r: asana::Reference| r.name@)));
    assert(t@ =~= record(
        *task,
        ctx,
        uuids.ids(),
        *section_priority_mapping,
        children_to_dependencies,
        append_sections_to_project,
    ));
    (t, (uuid, priority, completed_at, handed_down))
}

/// Whether an optional text has the given characters.
pub open spec fn opt_text_eq(s: Option<String>, v: Option<Seq<char>>) -> bool {
    match s {
        Some(t) => v == Some(t@),
        None => v is None,
    }
}

} // verus!

verus! {

/// Convert a forest whose identifiers all have identities, appending the
/// records to `output_tasks` in pre-order.
fn convert_known(
    asana_tasks: &Vec<asana::Task>,
    uuids: &UuidRegistry,
    parent: &Option<ParentTaskData>,
    output_tasks: &mut Vec<Task>,
    section_priority_mapping: &SectionPriorityMapping,
    children_to_dependencies: bool,
    append_sections_to_project: bool,
)
    requires
        gids_in(asana_tasks@).subset_of(uuids.ids().dom()),
    ensures
        views(final(output_tasks)@) == views(old(output_tasks)@) + convert_list(
            asana_tasks@,
            parent_view(*parent),
            uuids.ids(),
            *section_priority_mapping,
            children_to_dependencies,
            append_sections_to_project,
        ),
    decreases asana_tasks@,
{
    let ghost ctx = parent_view(*parent);
    let ghost ids = uuids.ids();
    let ghost m = *section_priority_mapping;
    let mut i: usize = 0;
    assert(asana_tasks@.take(0) =~= Seq::<asana::Task>::empty());
    assert(views(old(output_tasks)@) + Seq::<TaskView>::empty() =~= views(old(output_tasks)@));
    while i < asana_tasks.len()
        invariant
            0 <= i <= asana_tasks@.len(),
            ctx == parent_view(*parent),
            ids == uuids.ids(),
            m == *section_priority_mapping,
            gids_in(asana_tasks@).subset_of(ids.dom()),
            views(output_tasks@) == views(old(output_tasks)@) + convert_list(
                asana_tasks@.take(i as int),
                ctx,
                ids,
                m,
                children_to_dependencies,
                append_sections_to_project,
            ),
        decreases asana_tasks@.len() - i,
    {
        let task = &asana_tasks[i];
        proof {
            lemma_task_gids_within(asana_tasks@, i as int);
        }
        let ghost before = views(output_tasks@);
        if task.name.as_str().is_empty() {
            match &task.subtasks {
                Some(sub) => {
                    assert(decreases_to!(asana_tasks@ => sub@)) by {
                        assert(decreases_to!(asana_tasks@ => asana_tasks@[i as int]));
                    }
                    convert_known(
                        sub,
                        uuids,
                        parent,
                        output_tasks,
                        section_priority_mapping,
                        children_to_dependencies,
                        append_sections_to_project,
                    );
                },
                None => {},
            }
            assert(views(output_tasks@) =~= before + convert_one(
                *task,
                ctx,
                ids,
                m,
                children_to_dependencies,
                append_sections_to_project,
            ));
        } else {
            let (t, handed_down) = convert_task(
                task,
                uuids,
                parent,
                section_priority_mapping,
                children_to_dependencies,
                append_sections_to_project,
            );
            let ghost prev = output_tasks@;
            output_tasks.push(t);
            assert(views(output_tasks@) =~= views(prev).push(t@));
            let ghost after_own = views(output_tasks@);
            let sub_parent = Some(handed_down);
            match &task.subtasks {
                Some(sub) => {
                    assert(decreases_to!(asana_tasks@ => sub@)) by {
                        assert(decreases_to!(asana_tasks@ => asana_tasks@[i as int]));
                    }
                    convert_known(
                        sub,
                        uuids,
                        &sub_parent,
                        output_tasks,
                        section_priority_mapping,
                        children_to_dependencies,
                        append_sections_to_project,
                    );
                },
                None => {},
            }
            assert(views(output_tasks@) =~= before + convert_one(
                *task,
                ctx,
                ids,
                m,
                children_to_dependencies,
                append_sections_to_project,
            ));
        }
        assert(asana_tasks@.take(i + 1).drop_last() =~= asana_tasks@.take(i as int));
        assert(asana_tasks@.take(i + 1).last() == *task);
        i = i + 1;
    }
    assert(asana_tasks@.take(asana_tasks@.len() as int) =~= asana_tasks@);
}

/// Convert a forest of source tasks, appending the records to
/// `output_tasks` in pre-order. Identifiers without an identity in `uuids`
/// get a fresh random one; those that have one keep it.
pub fn convert_tasks_list(
    asana_tasks: &Vec<asana::Task>,
    uuids: &mut UuidRegistry,
    parent: &Option<ParentTaskData>,
    output_tasks: &mut Vec<Task>,
    section_priority_mapping: &SectionPriorityMapping,
    children_to_dependencies: bool,
    append_sections_to_project: bool,
)
    ensures
        old(uuids).ids().submap_of(final(uuids).ids()),
        gids_in(asana_tasks@).subset_of(final(uuids).ids().dom()),
        fresh_v4(old(uuids).ids(), final(uuids).ids()),
        views(final(output_tasks)@) == views(old(output_tasks)@) + convert_list(
            asana_tasks@,
            parent_view(*parent),
            final(uuids).ids(),
            *section_priority_mapping,
            children_to_dependencies,
            append_sections_to_project,
        ),
{
    register_all(asana_tasks, uuids);
    convert_known(
        asana_tasks,
        uuids,
        parent,
        output_tasks,
        section_priority_mapping,
        children_to_dependencies,
        append_sections_to_project,
    );
}

/// Convert a forest of source tasks into target task records, in pre-order,
/// giving each source identifier a fresh random identity.
pub fn convert_tasks(
    asana_tasks: Vec<asana::Task>,
    section_priority_mapping: &SectionPriorityMapping,
    children_to_dependencies: bool,
    append_sections_to_project: bool,
) -> (r: Option<Vec<Task>>)
    ensures
        r is Some,
        exists|ids: Map<Seq<char>, u128>|
            #![trigger convert_list(asana_tasks@, None, ids, *section_priority_mapping, children_to_dependencies, append_sections_to_project)]
            gids_in(asana_tasks@).subset_of(ids.dom()) && (forall|g: Seq<char>|
                #[trigger] ids.contains_key(g) ==> is_v4(ids[g])) && views(r->Some_0@)
                == convert_list(
                asana_tasks@,
                None,
                ids,
                *section_priority_mapping,
                children_to_dependencies,
                append_sections_to_project,
            ),
{
    let mut uuids = UuidRegistry::new();
    let mut output_tasks: Vec<Task> = Vec::new();
    convert_tasks_list(
        &asana_tasks,
        &mut uuids,
        &None,
        &mut output_tasks,
        section_priority_mapping,
        children_to_dependencies,
        append_sections_to_project,
    );
    assert(views(output_tasks@) =~= convert_list(
        asana_tasks@,
        None,
        uuids.ids(),
        *section_priority_mapping,
        children_to_dependencies,
        append_sections_to_project,
    ));
    Some(output_tasks)
}

} // verus!

verus! {

/// Resolving the same source identifier twice in a row gives the same
/// identity, and the second resolution changes nothing.
pub proof fn lemma_resolve_stable(
    m0: Map<Seq<char>, u128>,
    m1: Map<Seq<char>, u128>,
    m2: Map<Seq<char>, u128>,
    gid: Seq<char>,
    v1: u128,
    v2: u128,
)
    requires
        resolved(m0, gid, v1, m1),
        resolved(m1, gid, v2, m2),
    ensures
        v1 == v2,
        m2 == m1,
{
}

/// Every record produced under a context that hands down a priority `c.1`
/// carries that priority, at every depth, whatever its own section.
pub proof fn lemma_priority_inherited(
    ts: Seq<asana::Task>,
    c: ParentView,
    ids: Map<Seq<char>, u128>,
    mapping: SectionPriorityMapping,
    children_to_dependencies: bool,
    append_sections_to_project: bool,
)
    requires
        c.1 is Some,
    ensures
        forall|i: int|
            0 <= i < convert_list(
                ts,
                Some(c),
                ids,
                mapping,
                children_to_dependencies,
                append_sections_to_project,
            ).len() ==> (#[trigger] convert_list(
                ts,
                Some(c),
                ids,
                mapping,
                children_to_dependencies,
                append_sections_to_project,
            )[i]).priority == c.1,
    decreases ts,
{
    if ts.len() > 0 {
        lemma_priority_inherited(
            ts.drop_last(),
            c,
            ids,
            mapping,
            children_to_dependencies,
            append_sections_to_project,
        );
        lemma_priority_inherited_one(
            ts.last(),
            c,
            ids,
            mapping,
            children_to_dependencies,
            append_sections_to_project,
        );
    }
}

proof fn lemma_priority_inherited_one(
    t: asana::Task,
    c: ParentView,
    ids: Map<Seq<char>, u128>,
    mapping: SectionPriorityMapping,
    children_to_dependencies: bool,
    append_sections_to_project: bool,
)
    requires
        c.1 is Some,
    ensures
        forall|i: int|
            0 <= i < convert_one(
                t,
                Some(c),
                ids,
                mapping,
                children_to_dependencies,
                append_sections_to_project,
            ).len() ==> (#[trigger] convert_one(
                t,
                Some(c),
                ids,
                mapping,
                children_to_dependencies,
                append_sections_to_project,
            )[i]).priority == c.1,
    decreases t,
{
    match t.subtasks {
        Some(v) => {
            if t.name@.len() == 0 {
                lemma_priority_inherited(
                    v@,
                    c,
                    ids,
                    mapping,
                    children_to_dependencies,
                    append_sections_to_project,
                );
            } else {
                lemma_priority_inherited(
                    v@,
                    child_context(t, Some(c), ids, mapping, append_sections_to_project),
                    ids,
                    mapping,
                    children_to_dependencies,
                    append_sections_to_project,
                );
            }
        },
        None => {},
    }
}

/// Under a context that hands down completion time `tm`, every record at
/// every depth is completed at `tm`, whatever its own completion state.
pub proof fn lemma_completion_propagated(
    ts: Seq<asana::Task>,
    c: ParentView,
    tm: Timestamp,
    ids: Map<Seq<char>, u128>,
    mapping: SectionPriorityMapping,
    children_to_dependencies: bool,
    append_sections_to_project: bool,
)
    requires
        c.2 == Some(tm),
    ensures
        forall|i: int|
            0 <= i < convert_list(
                ts,
                Some(c),
                ids,
                mapping,
                children_to_dependencies,
                append_sections_to_project,
            ).len() ==> {
                let r = #[trigger] convert_list(
                    ts,
                    Some(c),
                    ids,
                    mapping,
                    children_to_dependencies,
                    append_sections_to_project,
                )[i];
                r.status == Status::Completed && r.end == Some(tm)
            },
    decreases ts,
{
    if ts.len() > 0 {
        lemma_completion_propagated(
            ts.drop_last(),
            c,
            tm,
            ids,
            mapping,
            children_to_dependencies,
            append_sections_to_project,
        );
        lemma_completion_propagated_one(
            ts.last(),
            c,
            tm,
            ids,
            mapping,
            children_to_dependencies,
            append_sections_to_project,
        );
    }
}

proof fn lemma_completion_propagated_one(
    t: asana::Task,
    c: ParentView,
    tm: Timestamp,
    ids: Map<Seq<char>, u128>,
    mapping: SectionPriorityMapping,
    children_to_dependencies: bool,
    append_sections_to_project: bool,
)
    requires
        c.2 == Some(tm),
    ensures
        forall|i: int|
            0 <= i < convert_one(
                t,
                Some(c),
                ids,
                mapping,
                children_to_dependencies,
                append_sections_to_project,
            ).len() ==> {
                let r = #[trigger] convert_one(
                    t,
                    Some(c),
                    ids,
                    mapping,
                    children_to_dependencies,
                    append_sections_to_project,
                )[i];
                r.status == Status::Completed && r.end == Some(tm)
            },
    decreases t,
{
    match t.subtasks {
        Some(v) => {
            if t.name@.len() == 0 {
                lemma_completion_propagated(
                    v@,
                    c,
                    tm,
                    ids,
                    mapping,
                    children_to_dependencies,
                    append_sections_to_project,
                );
            } else {
                lemma_completion_propagated(
                    v@,
                    child_context(t, Some(c), ids, mapping, append_sections_to_project),
                    tm,
                    ids,
                    mapping,
                    children_to_dependencies,
                    append_sections_to_project,
                );
            }
        },
        None => {},
    }
}

/// A task with an empty name gives no record of its own; its subtasks are
/// converted as if they stood in its place, under the context it was given.
pub proof fn lemma_empty_name_skipped(
    t: asana::Task,
    ctx: Option<ParentView>,
    ids: Map<Seq<char>, u128>,
    mapping: SectionPriorityMapping,
    children_to_dependencies: bool,
    append_sections_to_project: bool,
)
    requires
        t.name@.len() == 0,
    ensures
        convert_one(
            t,
            ctx,
            ids,
            mapping,
            children_to_dependencies,
            append_sections_to_project,
        ) == match t.subtasks {
            Some(v) => convert_list(
                v@,
                ctx,
                ids,
                mapping,
                children_to_dependencies,
                append_sections_to_project,
            ),
            None => Seq::empty(),
        },
{
    match t.subtasks {
        Some(v) => {
            assert(Seq::<TaskView>::empty() + convert_list(
                v@,
                ctx,
                ids,
                mapping,
                children_to_dependencies,
                append_sections_to_project,
            ) =~= convert_list(
                v@,
                ctx,
                ids,
                mapping,
                children_to_dependencies,
                append_sections_to_project,
            ));
        },
        None => {},
    }
}

} // verus!
