use vstd::prelude::*;

use crate::activities::{
    ActivityOption,
    activity_options, has_id, spec_activity_options, spec_toggle, unique_ids, ActivitiesStore,
    Activity, ActivityType, ActivityTypesStore,
};
use crate::date::{max_date, min_date, spec_next_day, spec_prev_day, Date};

verus! {

/// One classified key press, as the input source hands it over.
#[derive(Clone, Copy, PartialEq, Eq, Structural, Debug)]
pub enum Command {
    QuitWithoutSaving,
    SaveAndQuit,
    Digit(u8),
    TogglePopup,
    PreviousDay,
    NextDay,
    JumpToToday,
    PrevHeatmapActivity,
    NextHeatmapActivity,
    Other,
}

/// What the command loop must do after one dispatch.
#[derive(Clone, Copy, PartialEq, Eq, Structural, Debug)]
pub enum Step {
    Continue,
    Quit,
    SaveAndQuit,
}

pub open spec fn spec_classify(c: char) -> Command {
    if c == 'q' {
        Command::QuitWithoutSaving
    } else if c == 's' {
        Command::SaveAndQuit
    } else if c == 'p' {
        Command::TogglePopup
    } else if c == 'j' {
        Command::PreviousDay
    } else if c == 'k' {
        Command::NextDay
    } else if c == 't' {
        Command::JumpToToday
    } else if c == 'n' {
        Command::PrevHeatmapActivity
    } else if c == 'm' {
        Command::NextHeatmapActivity
    } else if '0' <= c <= '9' {
        Command::Digit((c as u8 - '0' as u8) as u8)
    } else {
        Command::Other
    }
}

/// Turns one key press into a command; anything unrecognized is `Other`.
pub fn classify_key(c: char) -> (r: Command)
    ensures
        r == spec_classify(c),
{
    if c == 'q' {
        Command::QuitWithoutSaving
    } else if c == 's' {
        Command::SaveAndQuit
    } else if c == 'p' {
        Command::TogglePopup
    } else if c == 'j' {
        Command::PreviousDay
    } else if c == 'k' {
        Command::NextDay
    } else if c == 't' {
        Command::JumpToToday
    } else if c == 'n' {
        Command::PrevHeatmapActivity
    } else if c == 'm' {
        Command::NextHeatmapActivity
    } else if '0' <= c && c <= '9' {
        Command::Digit(c as u8 - '0' as u8)
    } else {
        Command::Other
    }
}

/// Position of the entry carrying `id` in the catalog.
pub open spec fn idx_of(types: Seq<ActivityType>, id: u64) -> int
    decreases types.len(),
{
    if types.len() == 0 {
        0
    } else if types[0].id == id {
        0
    } else {
        1 + idx_of(types.drop_first(), id)
    }
}

pub proof fn lemma_idx_of(types: Seq<ActivityType>, id: u64)
    requires
        has_id(types, id),
    ensures
        0 <= idx_of(types, id) < types.len(),
        types[idx_of(types, id)].id == id,
    decreases types.len(),
{
    if types.len() > 0 && types[0].id != id {
        let i = choose|i: int| 0 <= i < types.len() && types[i].id == id;
        assert(types.drop_first()[i - 1].id == id);
        lemma_idx_of(types.drop_first(), id);
    }
}

/// With unique ids the position is the only one carrying the id.
pub proof fn lemma_idx_of_unique(types: Seq<ActivityType>, id: u64, i: int)
    requires
        unique_ids(types),
        0 <= i < types.len(),
        types[i].id == id,
    ensures
        idx_of(types, id) == i,
{
    assert(has_id(types, id));
    lemma_idx_of(types, id);
    let j = idx_of(types, id);
    if i != j {
        assert(types[i].id != types[j].id);
    }
}

/// Where the heat-map cursor lands: one step forward or backward in the
/// day-options order, wrapping at either end.
pub open spec fn next_heat_idx(len: int, idx: int, forward: bool) -> int {
    if forward {
        if idx + 1 == len {
            0
        } else {
            idx + 1
        }
    } else {
        if idx == 0 {
            len - 1
        } else {
            idx - 1
        }
    }
}

/// The id under the heat-map cursor after one step from the entry with `id`.
pub open spec fn heat_step_id(types: Seq<ActivityType>, id: u64, forward: bool) -> u64 {
    types[next_heat_idx(types.len() as int, idx_of(types, id), forward)].id
}

/// The id under the heat-map cursor after `n` forward steps.
pub open spec fn heat_step_n(types: Seq<ActivityType>, id: u64, n: nat) -> u64
    decreases n,
{
    if n == 0 {
        id
    } else {
        heat_step_id(types, heat_step_n(types, id, (n - 1) as nat), true)
    }
}

proof fn lemma_heat_step_n_idx(types: Seq<ActivityType>, id: u64, n: nat)
    requires
        unique_ids(types),
        has_id(types, id),
        n <= types.len(),
    ensures
        has_id(types, heat_step_n(types, id, n)),
        idx_of(types, heat_step_n(types, id, n)) == if idx_of(types, id) + n < types.len() {
            idx_of(types, id) + n
        } else {
            idx_of(types, id) + n - types.len()
        },
    decreases n,
{
    lemma_idx_of(types, id);
    if n > 0 {
        lemma_heat_step_n_idx(types, id, (n - 1) as nat);
        let prev = heat_step_n(types, id, (n - 1) as nat);
        let pi = idx_of(types, prev);
        let ni = next_heat_idx(types.len() as int, pi, true);
        assert(heat_step_n(types, id, n) == types[ni].id);
        lemma_idx_of_unique(types, types[ni].id, ni);
    }
}

/// Heat-map cursor wrap: with `k` catalog entries, stepping the cursor
/// forward `k` times from any entry returns it to that entry.
pub proof fn lemma_heatmap_wrap(types: Seq<ActivityType>, id: u64)
    requires
        unique_ids(types),
        has_id(types, id),
    ensures
        heat_step_n(types, id, types.len() as nat) == id,
{
    lemma_heat_step_n_idx(types, id, types.len() as nat);
    lemma_idx_of(types, id);
    let last = heat_step_n(types, id, types.len() as nat);
    lemma_idx_of(types, last);
    assert(types[idx_of(types, last)].id == last);
    assert(idx_of(types, last) == idx_of(types, id));
}

/// The interactive session: both stores, the two cursors, and the popup flag.
pub struct Daila {
    pub activity_types: ActivityTypesStore,
    pub activities: ActivitiesStore,
    pub active_date: Date,
    pub heatmap_activity_type: ActivityType,
    pub popup_visible: bool,
}

/// The heat-map cursor names an entry of the catalog: same id, same name.
pub open spec fn heat_ok(types: Seq<ActivityType>, heat: ActivityType) -> bool {
    exists|i: int|
        0 <= i < types.len() && types[i].id == heat.id && types[i].name@ == heat.name@
}

impl Daila {
    pub open spec fn wf(self) -> bool {
        &&& self.activity_types.wf()
        &&& self.activity_types@.len() >= 1
        &&& self.activities.wf()
        &&& self.active_date.valid()
        &&& heat_ok(self.activity_types@, self.heatmap_activity_type)
    }

    /// Builds the session from the loaded stores and the current date.
    /// An empty catalog receives one default activity first, so the catalog
    /// is never empty for the session's whole lifetime; the heat-map cursor
    /// starts on the entry with the lowest id.
    pub fn new(
        activity_types: ActivityTypesStore,
        activities: ActivitiesStore,
        today: Date,
    ) -> (r: Daila)
        requires
            activity_types.wf(),
            activities.wf(),
            today.valid(),
        ensures
            r.wf(),
            r.activities@ == activities@,
            r.active_date == today,
            r.popup_visible == false,
            activity_types@.len() == 0 ==> r.activity_types@.len() == 1
                && r.activity_types@[0].id == 0 && r.activity_types@[0].name@
                == "\u{1f3de}\u{fe0f}  Meditate"@,
            activity_types@.len() > 0 ==> r.activity_types@ == activity_types@,
            forall|i: int|
                0 <= i < r.activity_types@.len() ==> r.heatmap_activity_type.id
                    <= #[trigger] r.activity_types@[i].id,
    {
        let mut activity_types = activity_types;
        if activity_types.len() == 0 {
            activity_types.create_new_activity("\u{1f3de}\u{fe0f}  Meditate".to_owned());
        }
        let types = activity_types.activity_types();
        let mut first = types[0].duplicate();
        let mut i: usize = 1;
        while i < types.len()
            invariant
                1 <= i <= types@.len(),
                exists|j: int|
                    0 <= j < i && types@[j].id == first.id && types@[j].name@ == first.name@,
                forall|j: int| 0 <= j < i ==> first.id <= #[trigger] types@[j].id,
            decreases types@.len() - i,
        {
            if types[i].id < first.id {
                first = types[i].duplicate();
            }
            i = i + 1;
        }
        Daila {
            activity_types,
            activities,
            active_date: today,
            heatmap_activity_type: first,
            popup_visible: false,
        }
    }

    /// The key bindings shown beside the heat map, one line each.
    pub fn instructions_block(&self) -> (r: Vec<&'static str>)
        ensures
            r@.len() == 9,
            r@[0]@ == "j: previous day"@,
            r@[1]@ == "k: next day"@,
            r@[2]@ == "t: today"@,
            r@[3]@ == "n: display previous activity on heatmap"@,
            r@[4]@ == "m: display next activity on heatmap"@,
            r@[5]@ == "p: open activity editor"@,
            r@[6]@ == "%d: toggle activity"@,
            r@[7]@ == "s: save and quit"@,
            r@[8]@ == "q: quit without saving"@,
    {
        let mut v: Vec<&'static str> = Vec::new();
        v.push("j: previous day");
        v.push("k: next day");
        v.push("t: today");
        v.push("n: display previous activity on heatmap");
        v.push("m: display next activity on heatmap");
        v.push("p: open activity editor");
        v.push("%d: toggle activity");
        v.push("s: save and quit");
        v.push("q: quit without saving");
        v
    }

    /// Applies one command to the session state: at most one transition or
    /// store mutation per call, and unrecognized input changes nothing.
    pub fn dispatch(&mut self, cmd: Command, today: Date) -> (r: Step)
        requires
            old(self).wf(),
            today.valid(),
            cmd == Command::NextDay ==> old(self).active_date != max_date(),
            cmd == Command::PreviousDay ==> old(self).active_date != min_date(),
        ensures
            final(self).wf(),
            final(self).activity_types@ == old(self).activity_types@,
            r == match cmd {
                Command::QuitWithoutSaving => Step::Quit,
                Command::SaveAndQuit => Step::SaveAndQuit,
                _ => Step::Continue,
            },
            final(self).popup_visible == if cmd == Command::TogglePopup {
                !old(self).popup_visible
            } else {
                old(self).popup_visible
            },
            final(self).active_date == match cmd {
                Command::PreviousDay => spec_prev_day(old(self).active_date),
                Command::NextDay => spec_next_day(old(self).active_date),
                Command::JumpToToday => today,
                _ => old(self).active_date,
            },
            final(self).activities@ == match cmd {
                Command::Digit(d) => if 1 <= d <= old(self).activity_types@.len() {
                    spec_toggle(
                        old(self).activities@,
                        (Activity {
                            activity_id: old(self).activity_types@[d - 1].id,
                            date: old(self).active_date,
                        }),
                    )
                } else {
                    old(self).activities@
                },
                _ => old(self).activities@,
            },
            final(self).heatmap_activity_type.id == match cmd {
                Command::NextHeatmapActivity => heat_step_id(
                    old(self).activity_types@,
                    old(self).heatmap_activity_type.id,
                    true,
                ),
                Command::PrevHeatmapActivity => heat_step_id(
                    old(self).activity_types@,
                    old(self).heatmap_activity_type.id,
                    false,
                ),
                _ => old(self).heatmap_activity_type.id,
            },
            !(cmd == Command::NextHeatmapActivity || cmd == Command::PrevHeatmapActivity)
                ==> final(self).heatmap_activity_type.name@ == old(
                self,
            ).heatmap_activity_type.name@,
    {
        let options = activity_options(&self.activity_types, &self.activities, self.active_date);
        match cmd {
            Command::QuitWithoutSaving => Step::Quit,
            Command::SaveAndQuit => Step::SaveAndQuit,
            Command::TogglePopup => {
                self.popup_visible = !self.popup_visible;
                Step::Continue
            },
            Command::PreviousDay => {
                self.active_date = self.active_date.prev_day();
                Step::Continue
            },
            Command::NextDay => {
                self.active_date = self.active_date.next_day();
                Step::Continue
            },
            Command::JumpToToday => {
                self.active_date = today;
                Step::Continue
            },
            Command::Digit(d) => {
                if 1 <= d && (d as usize) <= options.len() {
                    let option = options[(d - 1) as usize];
                    let activity = Activity::new(option.activity_id(), self.active_date);
                    if option.completed() {
                        self.activities.remove_activity(activity);
                    } else {
                        self.activities.add_activity(activity);
                    }
                }
                Step::Continue
            },
            Command::PrevHeatmapActivity | Command::NextHeatmapActivity => {
                let forward = match cmd {
                    Command::NextHeatmapActivity => true,
                    _ => false,
                };
                self.step_heatmap(&options, forward);
                Step::Continue
            },
            Command::Other => Step::Continue,
        }
    }

    /// Moves the heat-map cursor one entry forward or backward in the
    /// current day-options order, wrapping modulo the option count. The
    /// position is recomputed by searching for the cursor's id in the fresh
    /// options each time.
    fn step_heatmap(&mut self, options: &Vec<ActivityOption>, forward: bool)
        requires
            old(self).wf(),
            options@ == spec_activity_options(
                old(self).activity_types@,
                old(self).activities@,
                old(self).active_date,
            ),
        ensures
            final(self).wf(),
            final(self).activity_types@ == old(self).activity_types@,
            final(self).activities@ == old(self).activities@,
            final(self).active_date == old(self).active_date,
            final(self).popup_visible == old(self).popup_visible,
            final(self).heatmap_activity_type.id == heat_step_id(
                old(self).activity_types@,
                old(self).heatmap_activity_type.id,
                forward,
            ),
    {
        let ghost types = self.activity_types@;
        let ghost heat_id = self.heatmap_activity_type.id;
        proof {
            let w = choose|i: int|
                0 <= i < types.len() && types[i].id == heat_id && types[i].name@ == self
                    .heatmap_activity_type
                    .name@;
            assert(options@[w].activity_id == heat_id);
        }
        let k = options.len();
        let mut index: usize = 0;
        while index < k
            invariant
                index <= k,
                k == options@.len(),
                forall|j: int| 0 <= j < index ==> options@[j].activity_id != heat_id,
                options@ == spec_activity_options(types, self.activities@, self.active_date),
                heat_id == self.heatmap_activity_type.id,
                types == self.activity_types@,
            ensures
                index <= k,
                index < k ==> options@[index as int].activity_id == heat_id,
                index == k ==> forall|j: int| 0 <= j < k ==> options@[j].activity_id != heat_id,
            decreases k - index,
        {
            if options[index].activity_id() == self.heatmap_activity_type.id {
                break ;
            }
            index = index + 1;
        }
        proof {
            if index == k {
                let w = choose|i: int| 0 <= i < types.len() && types[i].id == heat_id;
                assert(options@[w].activity_id == heat_id);
                assert(false);
            }
            lemma_idx_of_unique(types, heat_id, index as int);
        }
        let target: usize = if forward {
            if index + 1 == k {
                0
            } else {
                index + 1
            }
        } else {
            if index == 0 {
                k - 1
            } else {
                index - 1
            }
        };
        let target_id = options[target].activity_id();
        proof {
            assert(types[target as int].id == target_id);
        }
        let found = self.activity_types.find_by_id(target_id);
        let new_heat = match found {
            Some(t) => t.duplicate(),
            None => {
                proof {
                    assert(has_id(types, target_id));
                }
                vstd::pervasive::unreached()
            },
        };
        proof {
            let t = found.unwrap();
            let w = choose|i: int| 0 <= i < types.len() && types[i] == *t;
            lemma_idx_of_unique(types, target_id, w);
            lemma_idx_of_unique(types, target_id, target as int);
            assert(types[target as int].name@ == new_heat.name@);
        }
        self.heatmap_activity_type = new_heat;
    }
}

} // verus!
