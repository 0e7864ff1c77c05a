//! The engine that holds one game installation's load order and active set.
//!
//! Every mutation is split in two: a check that leaves the state untouched,
//! and an apply that the caller makes once the change has been persisted.
use vstd::prelude::*;
use crate::active::{accepted_active, active_verdict, lemma_filter_members, lemma_members_ext, lemma_members_idem, members_in_order, count_light, count_regular, fix_active, fixed_active, lemma_fix_active_keeps_valid, light_named, valid_active, validate_active};
use crate::error::LoError;
use crate::order::{
    complete, contains_name, find_plugin, fix_load_order, fixed_order, mandatory_in, order_verdict, installed, names_of, opt_view, unique_names,
    valid_order, validate_load_order,
};
use crate::plugin::PluginInfo;
use crate::profile::{GameProfile, MAX_ACTIVE_LIGHT, MAX_ACTIVE_REGULAR};

verus! {

/// `p` is, by name and kind, one of the scanned `plugins`.
pub open spec fn scanned(plugins: Seq<PluginInfo>, p: PluginInfo) -> bool {
    exists|j: int| 0 <= j < plugins.len() && #[trigger] plugins[j].name@ == p.name@ && plugins[j].kind == p.kind
}

/// The first plugin of each name in `plugins`, in scan order.
pub open spec fn first_of_each(plugins: Seq<PluginInfo>) -> Seq<PluginInfo>
    decreases plugins.len(),
{
    if plugins.len() == 0 {
        Seq::empty()
    } else {
        let rest = first_of_each(plugins.drop_last());
        if installed(rest, plugins.last().name@) {
            rest
        } else {
            rest.push(plugins.last())
        }
    }
}

/// The installed plugins of `plugins`, keeping the first of each name.
pub fn unique_plugins(plugins: &Vec<PluginInfo>) -> (r: Vec<PluginInfo>)
    ensures
        r@ == first_of_each(plugins@),
        unique_names(r@),
        forall|i: int| 0 <= i < plugins@.len() ==> #[trigger] installed(r@, plugins@[i].name@),
        forall|i: int| 0 <= i < r@.len() ==> #[trigger] scanned(plugins@, r@[i]),
{
    let mut r: Vec<PluginInfo> = Vec::new();
    let mut i: usize = 0;
    while i < plugins.len()
        invariant
            i <= plugins@.len(),
            r@ == first_of_each(plugins@.subrange(0, i as int)),
            unique_names(r@),
            forall|k: int| 0 <= k < i ==> #[trigger] installed(r@, plugins@[k].name@),
            forall|k: int| 0 <= k < r@.len() ==> #[trigger] scanned(plugins@, r@[k]),
        decreases plugins@.len() - i,
    {
        let ghost before = r@;
        proof {
            assert(plugins@.subrange(0, i + 1).drop_last() =~= plugins@.subrange(0, i as int));
            assert(plugins@.subrange(0, i + 1).last() == plugins@[i as int]);
        }
        let found = find_plugin(&r, &plugins[i].name);
        if found.is_none() {
            r.push(PluginInfo { name: plugins[i].name.clone(), kind: plugins[i].kind });
            proof {
                assert(r@[before.len() as int] == plugins@[i as int]);
                assert(r@ =~= before.push(plugins@[i as int]));
                assert(r@[before.len() as int].name@ == plugins@[i as int].name@);
                assert forall|k: int| 0 <= k < r@.len() implies #[trigger] scanned(plugins@, r@[k]) by {
                    if k == before.len() {
                        assert(plugins@[i as int].name@ == r@[k].name@);
                    } else {
                        assert(r@[k] == before[k]);
                    }
                }
            }
        }
        proof {
            assert forall|k: int| 0 <= k < i + 1 implies #[trigger] installed(r@, plugins@[k].name@) by {
                if k < i {
                    assert(installed(before, plugins@[k].name@));
                    let w = choose|w: int| 0 <= w < before.len() && #[trigger] before[w].name@ == plugins@[k].name@;
                    assert(r@[w] == before[w]);
                } else if found.is_none() {
                    assert(r@[before.len() as int].name@ == plugins@[k].name@);
                } else {
                    let w = found.unwrap();
                    assert(r@[w as int].name@ == plugins@[k].name@);
                }
            }
        }
        i = i + 1;
    }
    assert(plugins@.subrange(0, i as int) =~= plugins@);
    r
}

proof fn lemma_complete_mandatory(inst: Seq<PluginInfo>, mandatory: Seq<Seq<char>>, o: Seq<Seq<char>>)
    requires
        complete(inst, o),
    ensures
        mandatory_in(inst, mandatory, o),
{
    assert forall|k: int| 0 <= k < mandatory.len() && installed(inst, #[trigger] mandatory[k]) implies o.contains(mandatory[k]) by {
        let i = choose|i: int| 0 <= i < inst.len() && #[trigger] inst[i].name@ == mandatory[k];
        assert(o.contains(inst[i].name@));
    }
}

/// One game installation's state: its rules, its installed plugins, its load
/// order and its active plugins.
pub struct LoadOrderEngine {
    profile: GameProfile,
    installed: Vec<PluginInfo>,
    load_order: Vec<String>,
    active: Vec<String>,
}

impl LoadOrderEngine {
    pub closed spec fn profile_spec(&self) -> GameProfile {
        self.profile
    }

    pub closed spec fn installed_spec(&self) -> Seq<PluginInfo> {
        self.installed@
    }

    /// The load order, as names.
    pub closed spec fn order_spec(&self) -> Seq<Seq<char>> {
        names_of(self.load_order@)
    }

    /// The active plugins, as names.
    pub closed spec fn active_spec(&self) -> Seq<Seq<char>> {
        names_of(self.active@)
    }

    pub open spec fn first_spec(&self) -> Option<Seq<char>> {
        self.profile_spec().first_spec()
    }

    pub open spec fn mandatory_spec(&self) -> Seq<Seq<char>> {
        self.profile_spec().mandatory_spec()
    }

    /// The invariants that every operation preserves.
    pub open spec fn wf(&self) -> bool {
        &&& self.profile_spec().wf()
        &&& unique_names(self.installed_spec())
        &&& valid_order(self.installed_spec(), self.first_spec(), self.order_spec())
        &&& mandatory_in(self.installed_spec(), self.mandatory_spec(), self.order_spec())
        &&& valid_active(self.installed_spec(), self.order_spec(), self.mandatory_spec(), self.active_spec())
    }

    /// What fixing establishes: the fixed load order and active set, hence a
    /// valid, complete load order, left unchanged
    /// when the persisted one was already valid and complete, and an active set
    /// drawn from the persisted list and the mandatory plugins.
    pub open spec fn fixed_from(&self, raw: Seq<Seq<char>>, lines: Seq<Seq<char>>) -> bool {
        &&& self.wf()
        &&& self.order_spec() == fixed_order(self.installed_spec(), self.first_spec(), raw)
        &&& self.active_spec() == fixed_active(self.installed_spec(), self.order_spec(), self.mandatory_spec(), lines)
        &&& complete(self.installed_spec(), self.order_spec())
        &&& (valid_order(self.installed_spec(), self.first_spec(), raw) && complete(self.installed_spec(), raw)
            ==> self.order_spec() == raw)
        &&& forall|i: int| 0 <= i < self.active_spec().len()
            ==> lines.contains(#[trigger] self.active_spec()[i]) || self.mandatory_spec().contains(self.active_spec()[i])
        &&& forall|j: int| 0 <= j < lines.len() && self.order_spec().contains(#[trigger] lines[j])
            && !self.active_spec().contains(lines[j]) ==> if light_named(self.installed_spec(), lines[j]) {
                count_light(self.installed_spec(), self.active_spec()) == MAX_ACTIVE_LIGHT
            } else {
                count_regular(self.installed_spec(), self.active_spec()) == MAX_ACTIVE_REGULAR
            }
    }

    /// Every installed plugin came from the scan `plugins`, and every scanned one is installed.
    pub open spec fn scanned_from(&self, plugins: Seq<PluginInfo>) -> bool {
        &&& forall|i: int| 0 <= i < plugins.len() ==> #[trigger] installed(self.installed_spec(), plugins[i].name@)
        &&& forall|i: int| 0 <= i < self.installed_spec().len() ==> #[trigger] scanned(plugins, self.installed_spec()[i])
    }

    /// Builds the state from a scan of the installed plugins, the persisted
    /// load order and the persisted active list, fixing both.
    pub fn init(profile: GameProfile, plugins: &Vec<PluginInfo>, raw_order: &Vec<String>, active_lines: &Vec<String>) -> (r: Self)
        requires
            profile.wf(),
        ensures
            r.profile_spec() == profile,
            r.fixed_from(names_of(raw_order@), names_of(active_lines@)),
            r.scanned_from(plugins@),
    {
        let installed = unique_plugins(plugins);
        let load_order = fix_load_order(raw_order, &installed, &profile.mandatory_first);
        let active = fix_active(active_lines, &load_order, &installed, &profile.mandatory_active);
        proof {
            lemma_complete_mandatory(installed@, profile.mandatory_spec(), names_of(load_order@));
        }
        LoadOrderEngine { profile, installed, load_order, active }
    }

    /// Re-derives the load order and active set from a fresh scan and the
    /// persisted lists, as `init` does; the caller then writes both back.
    pub fn fix_lists(&mut self, plugins: &Vec<PluginInfo>, raw_order: &Vec<String>, active_lines: &Vec<String>)
        requires
            old(self).wf(),
        ensures
            final(self).profile_spec() == old(self).profile_spec(),
            final(self).fixed_from(names_of(raw_order@), names_of(active_lines@)),
            final(self).scanned_from(plugins@),
    {
        let installed = unique_plugins(plugins);
        let load_order = fix_load_order(raw_order, &installed, &self.profile.mandatory_first);
        let active = fix_active(active_lines, &load_order, &installed, &self.profile.mandatory_active);
        proof {
            lemma_complete_mandatory(installed@, self.profile.mandatory_spec(), names_of(load_order@));
        }
        self.installed = installed;
        self.load_order = load_order;
        self.active = active;
    }

    pub fn profile(&self) -> (r: &GameProfile)
        ensures
            *r == self.profile_spec(),
    {
        &self.profile
    }

    pub fn installed(&self) -> (r: &Vec<PluginInfo>)
        ensures
            r@ == self.installed_spec(),
    {
        &self.installed
    }

    pub fn get_load_order(&self) -> (r: &Vec<String>)
        ensures
            names_of(r@) == self.order_spec(),
    {
        &self.load_order
    }

    pub fn get_active_plugins(&self) -> (r: &Vec<String>)
        ensures
            names_of(r@) == self.active_spec(),
    {
        &self.active
    }

    pub fn is_active(&self, name: &String) -> (r: bool)
        ensures
            r == self.active_spec().contains(name@),
    {
        contains_name(&self.active, name)
    }

    /// The position of `name` in the load order.
    pub fn index_of(&self, name: &String) -> (r: Option<usize>)
        ensures
            match r {
                Some(i) => i < self.order_spec().len() && self.order_spec()[i as int] == name@,
                None => !self.order_spec().contains(name@),
            },
    {
        let mut i: usize = 0;
        while i < self.load_order.len()
            invariant
                i <= self.load_order@.len(),
                forall|k: int| 0 <= k < i ==> self.load_order@[k]@ != name@,
            decreases self.load_order@.len() - i,
        {
            if self.load_order[i] == *name {
                assert(self.order_spec()[i as int] == name@);
                return Some(i);
            }
            i = i + 1;
        }
        proof {
            if self.order_spec().contains(name@) {
                let k = choose|k: int| 0 <= k < self.order_spec().len() && self.order_spec()[k] == name@;
                assert(self.load_order@[k]@ == name@);
            }
        }
        None
    }

    /// Checks a candidate load order; the state is left untouched.
    pub fn check_load_order(&self, cand: &Vec<String>) -> (r: Result<(), LoError>)
        requires
            self.wf(),
        ensures
            order_verdict(self.installed_spec(), self.first_spec(), self.mandatory_spec(), names_of(cand@), r),
    {
        validate_load_order(cand, &self.installed, &self.profile.mandatory_first, &self.profile.mandatory_active)
    }

    /// Makes a checked load order the current one. Active plugins that it
    /// leaves out are deactivated, and mandatory plugins it holds are activated.
    pub fn set_load_order(&mut self, cand: Vec<String>)
        requires
            old(self).wf(),
            valid_order(old(self).installed_spec(), old(self).first_spec(), names_of(cand@)),
            mandatory_in(old(self).installed_spec(), old(self).mandatory_spec(), names_of(cand@)),
        ensures
            final(self).wf(),
            final(self).order_spec() == names_of(cand@),
            final(self).installed_spec() == old(self).installed_spec(),
            final(self).profile_spec() == old(self).profile_spec(),
            final(self).active_spec() == fixed_active(
                old(self).installed_spec(),
                names_of(cand@),
                old(self).mandatory_spec(),
                old(self).active_spec(),
            ),
            forall|i: int| 0 <= i < final(self).active_spec().len()
                ==> old(self).active_spec().contains(#[trigger] final(self).active_spec()[i])
                    || final(self).mandatory_spec().contains(final(self).active_spec()[i]),
    {
        let active = fix_active(&self.active, &cand, &self.installed, &self.profile.mandatory_active);
        self.load_order = cand;
        self.active = active;
    }

    /// Checks a candidate active set; the state is left untouched.
    pub fn check_active_plugins(&self, cand: &Vec<String>) -> (r: Result<(), LoError>)
        requires
            self.wf(),
        ensures
            active_verdict(self.installed_spec(), self.order_spec(), self.mandatory_spec(), names_of(cand@), r),
    {
        validate_active(cand, &self.load_order, &self.installed, &self.profile.mandatory_active)
    }

    /// Makes a checked active set the current one.
    pub fn set_active_plugins(&mut self, cand: Vec<String>)
        requires
            old(self).wf(),
            valid_active(old(self).installed_spec(), old(self).order_spec(), old(self).mandatory_spec(), names_of(cand@)),
        ensures
            final(self).wf(),
            final(self).active_spec() == names_of(cand@),
            final(self).order_spec() == old(self).order_spec(),
            final(self).installed_spec() == old(self).installed_spec(),
            final(self).profile_spec() == old(self).profile_spec(),
    {
        self.active = cand;
    }

    /// The active set with `name` added, unless it is there already.
    pub fn with_activated(&self, name: &String) -> (r: Vec<String>)
        ensures
            self.active_spec().contains(name@) ==> names_of(r@) == self.active_spec(),
            !self.active_spec().contains(name@) ==> names_of(r@) == self.active_spec().push(name@),
    {
        let mut r: Vec<String> = self.active.clone();
        if !contains_name(&self.active, name) {
            r.push(name.clone());
            proof {
                assert(names_of(r@) =~= self.active_spec().push(name@));
            }
        }
        r
    }

    /// The active set with every occurrence of `name` removed.
    pub fn with_deactivated(&self, name: &String) -> (r: Vec<String>)
        ensures
            names_of(r@) == self.active_spec().filter(|n: Seq<char>| n != name@),
    {
        let mut r: Vec<String> = Vec::new();
        let mut i: usize = 0;
        while i < self.active.len()
            invariant
                i <= self.active@.len(),
                names_of(r@) == self.active_spec().subrange(0, i as int).filter(|n: Seq<char>| n != name@),
            decreases self.active@.len() - i,
        {
            let ghost before = r@;
            proof {
                let s = self.active_spec();
                assert(s.subrange(0, i + 1).drop_last() =~= s.subrange(0, i as int));
                reveal(Seq::filter);
            }
            if self.active[i] != *name {
                r.push(self.active[i].clone());
                proof {
                    assert(names_of(r@) =~= names_of(before).push(self.active@[i as int]@));
                }
            }
            i = i + 1;
        }
        assert(self.active_spec().subrange(0, i as int) =~= self.active_spec());
        r
    }
}

/// Fixing is idempotent: when a second fixing over the same installed plugins
/// reads back the load order that the first produced and the active list as it
/// is written (its members in load order), it yields the same load order and
/// the same active list.
pub proof fn law_fix_idempotent(
    first: LoadOrderEngine,
    second: LoadOrderEngine,
    raw: Seq<Seq<char>>,
    lines: Seq<Seq<char>>,
)
    requires
        first.fixed_from(raw, lines),
        second.installed_spec() == first.installed_spec(),
        second.profile_spec() == first.profile_spec(),
        second.fixed_from(first.order_spec(), members_in_order(first.order_spec(), first.active_spec())),
    ensures
        second.order_spec() == first.order_spec(),
        second.active_spec() == first.active_spec(),
{
    let inst = first.installed_spec();
    let lo = first.order_spec();
    let mand = first.mandatory_spec();
    let t1 = accepted_active(inst, lo, mand, lines);
    lemma_members_idem(lo, t1);
    let written = members_in_order(lo, first.active_spec());
    assert(written == first.active_spec());
    assert(second.order_spec() == lo);
    lemma_fix_active_keeps_valid(inst, lo, mand, written, second.active_spec());
    let t2 = accepted_active(inst, lo, mand, written);
    lemma_filter_members(lo, t2);
    assert forall|i: int| 0 <= i < lo.len() implies (t2.contains(#[trigger] lo[i]) <==> first.active_spec().contains(lo[i])) by {
        assert(lo.contains(lo[i]));
        assert(second.active_spec().to_set().contains(lo[i]) == first.active_spec().to_set().contains(lo[i]));
    }
    lemma_members_ext(lo, t2, first.active_spec());
}

/// A plugin that the scan no longer finds is neither in the load order nor
/// active after the next fixing.
pub proof fn law_removed_plugin_gone(
    e: LoadOrderEngine,
    plugins: Seq<PluginInfo>,
    raw: Seq<Seq<char>>,
    lines: Seq<Seq<char>>,
    name: Seq<char>,
)
    requires
        e.fixed_from(raw, lines),
        e.scanned_from(plugins),
        forall|i: int| 0 <= i < plugins.len() ==> #[trigger] plugins[i].name@ != name,
    ensures
        !e.order_spec().contains(name),
        !e.active_spec().contains(name),
{
    if e.order_spec().contains(name) {
        let k = choose|k: int| 0 <= k < e.order_spec().len() && e.order_spec()[k] == name;
        assert(installed(e.installed_spec(), e.order_spec()[k]));
        let w = choose|w: int| 0 <= w < e.installed_spec().len() && #[trigger] e.installed_spec()[w].name@ == name;
        assert(scanned(plugins, e.installed_spec()[w]));
    }
    if e.active_spec().contains(name) {
        let k = choose|k: int| 0 <= k < e.active_spec().len() && e.active_spec()[k] == name;
        assert(e.order_spec().contains(e.active_spec()[k]));
    }
}

} // verus!
