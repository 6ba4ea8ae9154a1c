use vstd::prelude::*;

use crate::date::Date;

verus! {

/// A user-defined habit with a stable identifier and a display name.
#[derive(Clone, Debug)]
pub struct ActivityType {
    pub id: u64,
    pub name: String,
}

/// A completion fact: the activity with `activity_id` was completed on `date`.
#[derive(Clone, Copy, PartialEq, Eq, Structural, Debug)]
pub struct Activity {
    pub activity_id: u64,
    pub date: Date,
}

impl ActivityType {
    /// A copy with the same id and the same name.
    pub fn duplicate(&self) -> (r: ActivityType)
        ensures
            r.id == self.id,
            r.name@ == self.name@,
    {
        ActivityType { id: self.id, name: self.name.clone() }
    }
}

impl Activity {
    pub fn new(activity_id: u64, date: Date) -> (r: Activity)
        ensures
            r == (Activity { activity_id, date }),
    {
        Activity { activity_id, date }
    }
}

/// The completion state of one catalog entry on the active day.
#[derive(Clone, Copy, PartialEq, Eq, Structural, Debug)]
pub struct ActivityOption {
    pub activity_id: u64,
    pub completed: bool,
}

impl ActivityOption {
    pub fn activity_id(&self) -> (r: u64)
        ensures
            r == self.activity_id,
    {
        self.activity_id
    }

    pub fn completed(&self) -> (r: bool)
        ensures
            r == self.completed,
    {
        self.completed
    }
}

/// Some entry of the catalog carries this id.
pub open spec fn has_id(types: Seq<ActivityType>, id: u64) -> bool {
    exists|i: int| 0 <= i < types.len() && types[i].id == id
}

/// No two catalog entries share an id.
pub open spec fn unique_ids(types: Seq<ActivityType>) -> bool {
    forall|i: int, j: int|
        0 <= i < types.len() && 0 <= j < types.len() && i != j ==> types[i].id != types[j].id
}

/// The largest id in the catalog (0 when the catalog is empty).
pub open spec fn max_id(types: Seq<ActivityType>) -> u64
    decreases types.len(),
{
    if types.len() == 0 {
        0
    } else if types.last().id >= max_id(types.drop_last()) {
        types.last().id
    } else {
        max_id(types.drop_last())
    }
}

pub proof fn lemma_max_id_ge(types: Seq<ActivityType>, i: int)
    requires
        0 <= i < types.len(),
    ensures
        types[i].id <= max_id(types),
    decreases types.len(),
{
    if i < types.len() - 1 {
        lemma_max_id_ge(types.drop_last(), i);
    }
}

/// The set of defined activities; insertion order is kept, ids are unique.
pub struct ActivityTypesStore {
    pub types: Vec<ActivityType>,
}

impl View for ActivityTypesStore {
    type V = Seq<ActivityType>;

    open spec fn view(&self) -> Seq<ActivityType> {
        self.types@
    }
}

impl ActivityTypesStore {
    /// No two entries share an id.
    pub open spec fn wf(self) -> bool {
        unique_ids(self@)
    }

    pub fn new() -> (r: ActivityTypesStore)
        ensures
            r@ == Seq::<ActivityType>::empty(),
            r.wf(),
    {
        let r = ActivityTypesStore { types: Vec::new() };
        proof {
            assert(r@ =~= Seq::<ActivityType>::empty());
        }
        r
    }

    pub fn from_types(types: Vec<ActivityType>) -> (r: ActivityTypesStore)
        ensures
            r@ == types@,
    {
        ActivityTypesStore { types }
    }

    /// Read view of all entries, in insertion order.
    pub fn activity_types(&self) -> (r: &Vec<ActivityType>)
        ensures
            r@ == self@,
    {
        &self.types
    }

    pub fn len(&self) -> (r: usize)
        ensures
            r == self@.len(),
    {
        self.types.len()
    }

    /// Appends a new activity under a freshly allocated id: one greater than
    /// the current maximum, or 0 for the first entry ever created.
    pub fn create_new_activity(&mut self, name: String) -> (r: u64)
        requires
            old(self).wf(),
            max_id(old(self)@) < u64::MAX,
        ensures
            final(self).wf(),
            r == if old(self)@.len() == 0 {
                0u64
            } else {
                (max_id(old(self)@) + 1) as u64
            },
            !has_id(old(self)@, r),
            final(self)@.len() == old(self)@.len() + 1,
            forall|i: int| 0 <= i < old(self)@.len() ==> final(self)@[i] == old(self)@[i],
            final(self)@.last().id == r,
            final(self)@.last().name == name,
    {
        let id = if self.types.len() == 0 {
            0
        } else {
            self.max_id_exec() + 1
        };
        proof {
            assert forall|i: int| 0 <= i < self@.len() implies self@[i].id != id by {
                lemma_max_id_ge(self@, i);
            }
        }
        self.types.push(ActivityType { id, name });
        id
    }

    fn max_id_exec(&self) -> (r: u64)
        ensures
            r == max_id(self@),
    {
        let mut m: u64 = 0;
        let mut i: usize = 0;
        while i < self.types.len()
            invariant
                i <= self@.len(),
                m == max_id(self@.subrange(0, i as int)),
            decreases self@.len() - i,
        {
            proof {
                assert(self@.subrange(0, i + 1).drop_last() =~= self@.subrange(0, i as int));
                assert(self@.subrange(0, i + 1).last() == self@[i as int]);
            }
            if self.types[i].id > m {
                m = self.types[i].id;
            }
            i = i + 1;
        }
        proof {
            assert(self@.subrange(0, self@.len() as int) =~= self@);
        }
        m
    }

    /// Looks an entry up by its id.
    pub fn find_by_id(&self, id: u64) -> (r: Option<&ActivityType>)
        ensures
            match r {
                Some(t) => has_id(self@, id) && t.id == id && exists|i: int|
                    0 <= i < self@.len() && self@[i] == *t,
                None => !has_id(self@, id),
            },
    {
        let mut i: usize = 0;
        while i < self.types.len()
            invariant
                i <= self@.len(),
                forall|j: int| 0 <= j < i ==> self@[j].id != id,
            decreases self@.len() - i,
        {
            if self.types[i].id == id {
                return Some(&self.types[i]);
            }
            i = i + 1;
        }
        None
    }
}

/// The set of completion facts; holds no duplicate record.
pub struct ActivitiesStore {
    pub activities: Vec<Activity>,
}

impl View for ActivitiesStore {
    type V = Seq<Activity>;

    open spec fn view(&self) -> Seq<Activity> {
        self.activities@
    }
}

/// Keeps every record other than `a`.
pub open spec fn not_rec(a: Activity) -> spec_fn(Activity) -> bool {
    |x: Activity| x != a
}

/// What one toggle of record `a` does to the log: a present record is
/// removed, an absent one is added.
pub open spec fn spec_toggle(log: Seq<Activity>, a: Activity) -> Seq<Activity> {
    if log.contains(a) {
        log.filter(not_rec(a))
    } else {
        log.push(a)
    }
}

impl ActivitiesStore {
    /// No record repeats, and every record names a real calendar day.
    pub open spec fn wf(self) -> bool {
        &&& self@.no_duplicates()
        &&& forall|i: int| 0 <= i < self@.len() ==> (#[trigger] self@[i]).date.valid()
    }

    pub fn new() -> (r: ActivitiesStore)
        ensures
            r@ == Seq::<Activity>::empty(),
            r.wf(),
    {
        let r = ActivitiesStore { activities: Vec::new() };
        proof {
            assert(r@ =~= Seq::<Activity>::empty());
        }
        r
    }

    pub fn from_records(records: Vec<Activity>) -> (r: ActivitiesStore)
        ensures
            r@ == records@,
    {
        ActivitiesStore { activities: records }
    }

    pub fn records(&self) -> (r: &Vec<Activity>)
        ensures
            r@ == self@,
    {
        &self.activities
    }

    pub fn len(&self) -> (r: usize)
        ensures
            r == self@.len(),
    {
        self.activities.len()
    }

    pub fn contains(&self, a: Activity) -> (r: bool)
        ensures
            r == self@.contains(a),
    {
        let mut i: usize = 0;
        while i < self.activities.len()
            invariant
                i <= self@.len(),
                forall|j: int| 0 <= j < i ==> self@[j] != a,
            decreases self@.len() - i,
        {
            if self.activities[i] == a {
                return true;
            }
            i = i + 1;
        }
        false
    }

    /// Inserts the record; idempotent when it is already present.
    pub fn add_activity(&mut self, a: Activity)
        requires
            old(self).wf(),
            a.date.valid(),
        ensures
            final(self).wf(),
            final(self)@ == if old(self)@.contains(a) {
                old(self)@
            } else {
                old(self)@.push(a)
            },
    {
        if !self.contains(a) {
            self.activities.push(a);
        }
    }

    /// Deletes the matching record if present; a no-op when it is absent.
    pub fn remove_activity(&mut self, a: Activity)
        requires
            old(self).wf(),
        ensures
            final(self).wf(),
            final(self)@ == old(self)@.filter(not_rec(a)),
    {
        let mut kept: Vec<Activity> = Vec::new();
        let mut i: usize = 0;
        proof {
            reveal(Seq::filter);
            assert(kept@ =~= self@.subrange(0, 0).filter(not_rec(a)));
        }
        while i < self.activities.len()
            invariant
                i <= self@.len(),
                kept@ == self@.subrange(0, i as int).filter(not_rec(a)),
            decreases self@.len() - i,
        {
            proof {
                reveal(Seq::filter);
                assert(self@.subrange(0, i + 1).drop_last() =~= self@.subrange(0, i as int));
                assert(self@.subrange(0, i + 1).last() == self@[i as int]);
            }
            if !(self.activities[i] == a) {
                kept.push(self.activities[i]);
            }
            i = i + 1;
        }
        proof {
            assert(self@.subrange(0, self@.len() as int) =~= self@);
            lemma_filter_no_duplicates(self@, a);
            let f = self@.filter(not_rec(a));
            assert forall|i: int| 0 <= i < f.len() implies (#[trigger] f[i]).date.valid() by {
                self@.lemma_filter_contains_rev(not_rec(a), f[i]);
            }
        }
        self.activities = kept;
    }

    /// All dates on which the given activity was completed, in log order.
    pub fn activities_with_type(&self, activity_type: &ActivityType) -> (r: Vec<Date>)
        ensures
            r@ == self@.filter(|x: Activity| x.activity_id == activity_type.id).map_values(
                |x: Activity| x.date,
            ),
    {
        let pred = |x: Activity| x.activity_id == activity_type.id;
        let mut dates: Vec<Date> = Vec::new();
        let mut i: usize = 0;
        proof {
            reveal(Seq::filter);
            assert(dates@ =~= self@.subrange(0, 0).filter(
                |x: Activity| x.activity_id == activity_type.id,
            ).map_values(|x: Activity| x.date));
        }
        while i < self.activities.len()
            invariant
                i <= self@.len(),
                dates@ == self@.subrange(0, i as int).filter(
                    |x: Activity| x.activity_id == activity_type.id,
                ).map_values(|x: Activity| x.date),
            decreases self@.len() - i,
        {
            proof {
                reveal(Seq::filter);
                assert(self@.subrange(0, i + 1).drop_last() =~= self@.subrange(0, i as int));
                assert(self@.subrange(0, i + 1).last() == self@[i as int]);
                let f = self@.subrange(0, i as int).filter(
                    |x: Activity| x.activity_id == activity_type.id,
                );
                if (self@[i as int].activity_id == activity_type.id) {
                    assert(self@.subrange(0, i + 1).filter(
                        |x: Activity| x.activity_id == activity_type.id,
                    ).map_values(|x: Activity| x.date) =~= f.map_values(|x: Activity| x.date).push(
                        self@[i as int].date,
                    ));
                }
            }
            if self.activities[i].activity_id == activity_type.id {
                let d = self.activities[i].date;
                dates.push(d);
            }
            i = i + 1;
        }
        proof {
            assert(self@.subrange(0, self@.len() as int) =~= self@);
        }
        dates
    }
}

/// Filtering out one value keeps the remaining records free of duplicates.
proof fn lemma_filter_no_duplicates(s: Seq<Activity>, a: Activity)
    requires
        s.no_duplicates(),
    ensures
        s.filter(not_rec(a)).no_duplicates(),
    decreases s.len(),
{
    reveal(Seq::filter);
    if s.len() > 0 {
        lemma_filter_no_duplicates(s.drop_last(), a);
        let f = s.drop_last().filter(not_rec(a));
        assert forall|i: int| 0 <= i < f.len() implies s.drop_last().contains(f[i]) by {
            s.drop_last().lemma_filter_contains_rev(not_rec(a), f[i]);
        }
        assert(!s.drop_last().contains(s.last())) by {
            assert(forall|j: int| 0 <= j < s.len() - 1 ==> s.drop_last()[j] == s[j]);
        }
        assert(!f.contains(s.last()));
    }
}

/// A record absent from the log is untouched by filtering it out.
pub proof fn lemma_filter_absent(s: Seq<Activity>, a: Activity)
    requires
        !s.contains(a),
    ensures
        s.filter(not_rec(a)) == s,
    decreases s.len(),
{
    reveal(Seq::filter);
    if s.len() > 0 {
        assert(!s.drop_last().contains(a)) by {
            assert(forall|i: int| 0 <= i < s.drop_last().len() ==> s.drop_last()[i] == s[i]);
        }
        lemma_filter_absent(s.drop_last(), a);
        assert(s.filter(not_rec(a)) =~= s);
    }
}

/// Filtering one value out removes every occurrence of it and nothing else.
pub proof fn lemma_filter_multiset(s: Seq<Activity>, a: Activity)
    ensures
        forall|x: Activity|
            x != a ==> s.filter(not_rec(a)).to_multiset().count(x)
                == s.to_multiset().count(x),
        s.filter(not_rec(a)).to_multiset().count(a) == 0,
    decreases s.len(),
{
    broadcast use vstd::seq_lib::group_to_multiset_ensures;

    reveal(Seq::filter);
    if s.len() > 0 {
        lemma_filter_multiset(s.drop_last(), a);
        assert(s =~= s.drop_last().push(s.last()));
        if s.last() != a {
            assert(s.filter(not_rec(a)) =~= s.drop_last().filter(not_rec(a)).push(s.last()));
        }
    } else {
        assert(s.filter(not_rec(a)) =~= s);
        assert(forall|x: Activity| s.to_multiset().count(x) == 0);
    }
}

/// Toggling the same record twice returns the log to its original contents.
/// Toggling once when absent adds exactly that one record; toggling once
/// when present removes it and no other record.
pub proof fn lemma_toggle_twice(log: Seq<Activity>, a: Activity)
    requires
        log.no_duplicates(),
    ensures
        spec_toggle(spec_toggle(log, a), a).to_multiset() == log.to_multiset(),
        !log.contains(a) ==> spec_toggle(log, a) == log.push(a),
        log.contains(a) ==> !spec_toggle(log, a).contains(a) && spec_toggle(log, a).to_multiset()
            == log.to_multiset().remove(a),
{
    broadcast use vstd::seq_lib::group_to_multiset_ensures;

    if log.contains(a) {
        let f = log.filter(not_rec(a));
        lemma_filter_multiset(log, a);
        assert(!f.contains(a));
        assert(f.to_multiset() =~= log.to_multiset().remove(a)) by {
            assert(forall|x: Activity|
                x != a ==> #[trigger] f.to_multiset().count(x) == log.to_multiset().remove(
                    a,
                ).count(x));
            assert(log.to_multiset().remove(a).count(a) == log.to_multiset().count(a) - 1);
            log.lemma_multiset_has_no_duplicates();
        }
        assert(spec_toggle(f, a) == f.push(a));
        assert(f.push(a).to_multiset() =~= log.to_multiset()) by {
            assert(f.push(a).to_multiset() =~= f.to_multiset().insert(a));
            assert(log.to_multiset().count(a) >= 1);
        }
    } else {
        let p = log.push(a);
        assert(p.contains(a)) by {
            assert(p[p.len() - 1] == a);
        }
        lemma_filter_multiset(p, a);
        assert(p.to_multiset() =~= log.to_multiset().insert(a));
        assert(!p.drop_last().contains(a)) by {
            assert(p.drop_last() =~= log);
        }
        assert(spec_toggle(p, a) == p.filter(not_rec(a)));
        assert(p.filter(not_rec(a)) =~= log) by {
            reveal(Seq::filter);
            assert(p.drop_last() =~= log);
            lemma_filter_absent(log, a);
        }
    }
}

/// What the day-view projector returns: one option per catalog entry, in
/// catalog order, completed exactly when the log holds a record for the day.
pub open spec fn spec_activity_options(
    types: Seq<ActivityType>,
    log: Seq<Activity>,
    date: Date,
) -> Seq<ActivityOption> {
    types.map_values(
        |t: ActivityType|
            ActivityOption {
                activity_id: t.id,
                completed: log.contains(Activity { activity_id: t.id, date }),
            },
    )
}

/// Day-view projector: the completion state of every catalog entry on `date`.
pub fn activity_options(
    types: &ActivityTypesStore,
    log: &ActivitiesStore,
    date: Date,
) -> (r: Vec<ActivityOption>)
    ensures
        r@ == spec_activity_options(types@, log@, date),
{
    let mut options: Vec<ActivityOption> = Vec::new();
    let mut i: usize = 0;
    while i < types.types.len()
        invariant
            i <= types@.len(),
            options@.len() == i,
            forall|j: int|
                0 <= j < i ==> options@[j] == spec_activity_options(types@, log@, date)[j],
        decreases types@.len() - i,
    {
        let t_id = types.types[i].id;
        let completed = log.contains(Activity { activity_id: t_id, date });
        options.push(ActivityOption { activity_id: t_id, completed });
        i = i + 1;
    }
    proof {
        assert(options@ =~= spec_activity_options(types@, log@, date));
    }
    options
}

/// The projection depends on the catalog, the log and the date alone: two
/// runs over unchanged inputs yield identical ordered results.
pub proof fn lemma_projection_deterministic(
    types: Seq<ActivityType>,
    log: Seq<Activity>,
    date: Date,
    o1: Seq<ActivityOption>,
    o2: Seq<ActivityOption>,
)
    requires
        o1 == spec_activity_options(types, log, date),
        o2 == spec_activity_options(types, log, date),
    ensures
        o1 == o2,
{
}

} // verus!
