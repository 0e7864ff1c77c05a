//! Load orders: their invariants, validation of candidates, and the fixing
//! that turns any persisted sequence into a valid, complete order.
use vstd::prelude::*;
use crate::error::LoError;
use crate::plugin::{InvalidReason, PluginInfo, PluginKind};

verus! {

/// The names held by a vector of strings.
pub open spec fn names_of(v: Seq<String>) -> Seq<Seq<char>> {
    v.map_values(|s: String| s@)
}

/// No two installed plugins share a name.
pub open spec fn unique_names(inst: Seq<PluginInfo>) -> bool {
    forall|i: int, j: int|
        0 <= i < inst.len() && 0 <= j < inst.len() && i != j ==> inst[i].name@ != inst[j].name@
}

pub open spec fn installed(inst: Seq<PluginInfo>, n: Seq<char>) -> bool {
    exists|i: int| 0 <= i < inst.len() && #[trigger] inst[i].name@ == n
}

/// `n` is installed and is a master (light masters included).
pub open spec fn master_named(inst: Seq<PluginInfo>, n: Seq<char>) -> bool {
    exists|i: int| 0 <= i < inst.len() && #[trigger] inst[i].name@ == n && inst[i].is_master_spec()
}

/// Where the game has a first plugin and it is an installed master, it heads the order.
/// A game's first plugin is its main master; were a file of that name installed
/// without the master flag, putting it first would break masters-first, so the
/// rule then does not apply.
pub open spec fn first_ok(inst: Seq<PluginInfo>, first: Option<Seq<char>>, o: Seq<Seq<char>>) -> bool {
    match first {
        Some(f) => master_named(inst, f) ==> o.len() > 0 && o[0] == f,
        None => true,
    }
}

/// Every master precedes every non-master.
pub open spec fn masters_first(inst: Seq<PluginInfo>, o: Seq<Seq<char>>) -> bool {
    forall|i: int, j: int|
        0 <= i < j < o.len() && #[trigger] master_named(inst, o[j]) ==> #[trigger] master_named(inst, o[i])
}

/// The invariants of a load order.
pub open spec fn valid_order(inst: Seq<PluginInfo>, first: Option<Seq<char>>, o: Seq<Seq<char>>) -> bool {
    &&& forall|i: int| 0 <= i < o.len() ==> #[trigger] installed(inst, o[i])
    &&& o.no_duplicates()
    &&& masters_first(inst, o)
    &&& first_ok(inst, first, o)
}

/// Every installed plugin has a place in the order.
pub open spec fn complete(inst: Seq<PluginInfo>, o: Seq<Seq<char>>) -> bool {
    forall|i: int| 0 <= i < inst.len() ==> #[trigger] o.contains(inst[i].name@)
}

pub open spec fn opt_view(o: Option<String>) -> Option<Seq<char>> {
    match o {
        Some(s) => Some(s@),
        None => None,
    }
}

/// The index of the installed plugin named `n`.
pub fn find_plugin(inst: &Vec<PluginInfo>, n: &String) -> (r: Option<usize>)
    ensures
        match r {
            Some(k) => k < inst@.len() && inst@[k as int].name@ == n@,
            None => !installed(inst@, n@),
        },
{
    let mut i: usize = 0;
    while i < inst.len()
        invariant
            i <= inst@.len(),
            forall|k: int| 0 <= k < i ==> inst@[k].name@ != n@,
        decreases inst@.len() - i,
    {
        if inst[i].name == *n {
            return Some(i);
        }
        i = i + 1;
    }
    None
}

/// Whether `v` holds the name `n`.
pub fn contains_name(v: &Vec<String>, n: &String) -> (r: bool)
    ensures
        r == names_of(v@).contains(n@),
{
    let mut i: usize = 0;
    while i < v.len()
        invariant
            i <= v@.len(),
            forall|k: int| 0 <= k < i ==> v@[k]@ != n@,
        decreases v@.len() - i,
    {
        if v[i] == *n {
            assert(names_of(v@)[i as int] == n@);
            return true;
        }
        i = i + 1;
    }
    proof {
        if names_of(v@).contains(n@) {
            let k = choose|k: int| 0 <= k < names_of(v@).len() && names_of(v@)[k] == n@;
            assert(v@[k]@ == n@);
        }
    }
    false
}

proof fn lemma_unique_master(inst: Seq<PluginInfo>, k: int)
    requires
        unique_names(inst),
        0 <= k < inst.len(),
    ensures
        installed(inst, inst[k].name@),
        master_named(inst, inst[k].name@) == inst[k].is_master_spec(),
{
    if master_named(inst, inst[k].name@) {
        let i = choose|i: int| 0 <= i < inst.len() && #[trigger] inst[i].name@ == inst[k].name@ && inst[i].is_master_spec();
        assert(i == k);
    }
}

/// Whether `n` is installed and its master status is `want_master`.
pub open spec fn qualifies(inst: Seq<PluginInfo>, want_master: bool, n: Seq<char>) -> bool {
    installed(inst, n) && master_named(inst, n) == want_master
}

fn qualifies_exec(inst: &Vec<PluginInfo>, want_master: bool, n: &String) -> (r: bool)
    requires
        unique_names(inst@),
    ensures
        r == qualifies(inst@, want_master, n@),
{
    match find_plugin(inst, n) {
        Some(k) => {
            proof {
                lemma_unique_master(inst@, k as int);
            }
            (inst[k].kind != PluginKind::Regular) == want_master
        },
        None => {
            false
        },
    }
}

/// `out` followed, in the order of `src`, by each name of `src` that qualifies
/// and is not already there.
pub open spec fn appended(inst: Seq<PluginInfo>, want_master: bool, out: Seq<Seq<char>>, src: Seq<Seq<char>>) -> Seq<Seq<char>>
    decreases src.len(),
{
    if src.len() == 0 {
        out
    } else {
        let o2 = appended(inst, want_master, out, src.drop_last());
        let x = src.last();
        if qualifies(inst, want_master, x) && !o2.contains(x) {
            o2.push(x)
        } else {
            o2
        }
    }
}

/// `o` is a prefix of `s`, which has no duplicates, and the names of `s` past
/// `o` that qualify come before those that do not.
pub open spec fn extends_prefix(inst: Seq<PluginInfo>, want_master: bool, o: Seq<Seq<char>>, s: Seq<Seq<char>>) -> bool {
    &&& s.no_duplicates()
    &&& o.len() <= s.len()
    &&& o == s.subrange(0, o.len() as int)
    &&& forall|a: int, b: int|
        o.len() <= a < b < s.len() && #[trigger] qualifies(inst, want_master, s[b])
            ==> #[trigger] qualifies(inst, want_master, s[a])
}

/// Appends to `out`, in the order of `src`, each name of `src` that qualifies
/// and is not yet in `out`.
fn append_qualifying(out: &mut Vec<String>, src: &Vec<String>, inst: &Vec<PluginInfo>, want_master: bool)
    requires
        unique_names(inst@),
        names_of(old(out)@).no_duplicates(),
        forall|i: int| 0 <= i < old(out)@.len() ==> #[trigger] installed(inst@, old(out)@[i]@),
    ensures
        names_of(final(out)@) == appended(inst@, want_master, names_of(old(out)@), names_of(src@)),
        final(out)@.len() >= old(out)@.len(),
        names_of(final(out)@).subrange(0, old(out)@.len() as int) == names_of(old(out)@),
        names_of(final(out)@).no_duplicates(),
        forall|i: int| 0 <= i < final(out)@.len() ==> #[trigger] installed(inst@, final(out)@[i]@),
        forall|i: int|
            old(out)@.len() <= i < final(out)@.len() ==> #[trigger] qualifies(inst@, want_master, final(out)@[i]@),
        forall|j: int|
            0 <= j < src@.len() && #[trigger] qualifies(inst@, want_master, src@[j]@)
                ==> names_of(final(out)@).contains(src@[j]@),
        (forall|j: int|
            0 <= j < src@.len() && #[trigger] qualifies(inst@, want_master, src@[j]@)
                ==> names_of(old(out)@).contains(src@[j]@)) ==> final(out)@ == old(out)@,
        extends_prefix(inst@, want_master, names_of(old(out)@), names_of(src@)) ==> final(out)@.len() <= src@.len(),
        extends_prefix(inst@, want_master, names_of(old(out)@), names_of(src@)) ==> names_of(final(out)@) == names_of(src@).subrange(0, final(out)@.len() as int),
{
    let ghost o = names_of(out@);
    let ghost s = names_of(src@);
    let ghost old_out = out@;
    let mut i: usize = 0;
    while i < src.len()
        invariant
            unique_names(inst@),
            i <= src@.len(),
            s == names_of(src@),
            o == names_of(old_out),
            names_of(out@) == appended(inst@, want_master, o, s.subrange(0, i as int)),
            out@.len() >= old_out.len(),
            names_of(out@).subrange(0, old_out.len() as int) == o,
            names_of(out@).no_duplicates(),
            forall|k: int| 0 <= k < out@.len() ==> #[trigger] installed(inst@, out@[k]@),
            forall|k: int| old_out.len() <= k < out@.len() ==> #[trigger] qualifies(inst@, want_master, out@[k]@),
            forall|j: int| 0 <= j < i && #[trigger] qualifies(inst@, want_master, src@[j]@)
                ==> names_of(out@).contains(src@[j]@),
            (forall|j: int| 0 <= j < src@.len() && #[trigger] qualifies(inst@, want_master, src@[j]@)
                ==> o.contains(src@[j]@)) ==> out@ == old_out,
            extends_prefix(inst@, want_master, o, s) ==> {
                &&& out@.len() <= s.len()
                &&& names_of(out@) == s.subrange(0, out@.len() as int)
                &&& out@.len() >= o.len()
                &&& out@.len() <= if i > o.len() { i as int } else { o.len() as int }
                &&& (out@.len() < i ==> !qualifies(inst@, want_master, s[out@.len() as int]))
            },
        decreases src@.len() - i,
    {
        let q = qualifies_exec(inst, want_master, &src[i]);
        let present = contains_name(out, &src[i]);
        proof {
            assert(s.subrange(0, i + 1).drop_last() =~= s.subrange(0, i as int));
            assert(s.subrange(0, i + 1).last() == src@[i as int]@);
        }
        if q && !present {
            let ghost before = out@;
            proof {
                assert(s[i as int] == src@[i as int]@);
                if extends_prefix(inst@, want_master, o, s) {
                    if i < o.len() {
                        assert(s.subrange(0, o.len() as int)[i as int] == s[i as int]);
                        assert(s[i as int] == o[i as int]);
                        assert(names_of(before)[i as int] == o[i as int]);
                        assert(false);
                    }
                    if before.len() < i {
                        assert(qualifies(inst@, want_master, s[i as int]));
                        assert(qualifies(inst@, want_master, s[before.len() as int]));
                        assert(false);
                    }
                }
                if forall|j: int| 0 <= j < src@.len() && #[trigger] qualifies(inst@, want_master, src@[j]@)
                    ==> o.contains(src@[j]@) {
                    assert(o.contains(src@[i as int]@));
                    let k = choose|k: int| 0 <= k < o.len() && o[k] == src@[i as int]@;
                    assert(names_of(before)[k] == o[k]);
                    assert(false);
                }
            }
            out.push(src[i].clone());
            proof {
                assert(names_of(out@) == names_of(before).push(src@[i as int]@));
                assert(names_of(out@).subrange(0, old_out.len() as int) =~= names_of(before).subrange(0, old_out.len() as int));
                assert(names_of(out@)[before.len() as int] == src@[i as int]@);
                assert forall|j: int| 0 <= j < i + 1 && #[trigger] qualifies(inst@, want_master, src@[j]@)
                    implies names_of(out@).contains(src@[j]@) by {
                    if j < i {
                        let k = choose|k: int| 0 <= k < names_of(before).len() && names_of(before)[k] == src@[j]@;
                        assert(names_of(out@)[k] == src@[j]@);
                    } else {
                        assert(names_of(out@)[before.len() as int] == src@[j]@);
                    }
                }
                if extends_prefix(inst@, want_master, o, s) {
                    assert(names_of(out@) =~= s.subrange(0, out@.len() as int));
                }
            }
        } else {
            proof {
                if extends_prefix(inst@, want_master, o, s) && i >= o.len() && out@.len() < i {
                    assert(!qualifies(inst@, want_master, s[out@.len() as int]));
                    assert(s[i as int] == src@[i as int]@);
                }
                assert(s[i as int] == src@[i as int]@);
                if extends_prefix(inst@, want_master, o, s) && i >= o.len() && out@.len() == i && q {
                    assert(names_of(out@) == s.subrange(0, i as int));
                    let k = choose|k: int| 0 <= k < names_of(out@).len() && names_of(out@)[k] == src@[i as int]@;
                    assert(s.subrange(0, i as int)[k] == s[k]);
                    assert(s[k] == s[i as int]);
                    assert(false);
                }
            }
        }
        i = i + 1;
    }
    proof {
        assert(s.subrange(0, i as int) =~= s);
        if forall|j: int| 0 <= j < src@.len() && #[trigger] qualifies(inst@, want_master, src@[j]@)
            ==> o.contains(src@[j]@) {
            assert(out@ == old_out);
        }
    }
}

/// The names of the installed plugins, in the order given.
pub fn installed_names(inst: &Vec<PluginInfo>) -> (r: Vec<String>)
    ensures
        r@.len() == inst@.len(),
        forall|i: int| 0 <= i < inst@.len() ==> #[trigger] r@[i]@ == inst@[i].name@,
{
    let mut r: Vec<String> = Vec::new();
    let mut i: usize = 0;
    while i < inst.len()
        invariant
            i <= inst@.len(),
            r@.len() == i,
            forall|k: int| 0 <= k < i ==> #[trigger] r@[k]@ == inst@[k].name@,
        decreases inst@.len() - i,
    {
        r.push(inst[i].name.clone());
        i = i + 1;
    }
    r
}

/// The game's first plugin, alone, when it is an installed master; else nothing.
pub open spec fn head_of(inst: Seq<PluginInfo>, first: Option<Seq<char>>) -> Seq<Seq<char>> {
    match first {
        Some(f) => if master_named(inst, f) { seq![f] } else { Seq::empty() },
        None => Seq::empty(),
    }
}

/// The installed plugins' names.
pub open spec fn inst_names(inst: Seq<PluginInfo>) -> Seq<Seq<char>> {
    inst.map_values(|p: PluginInfo| p.name@)
}

/// The load order that fixing makes of the persisted sequence `raw`.
pub open spec fn fixed_order(inst: Seq<PluginInfo>, first: Option<Seq<char>>, raw: Seq<Seq<char>>) -> Seq<Seq<char>> {
    let m1 = appended(inst, true, head_of(inst, first), raw);
    let m2 = appended(inst, true, m1, inst_names(inst));
    let n1 = appended(inst, false, m2, raw);
    appended(inst, false, n1, inst_names(inst))
}

/// Turns a persisted sequence of names into a valid, complete load order:
/// names that are not installed are dropped and repeats collapse to their
/// first occurrence; the game's first plugin, when installed as a master,
/// goes to the front; then come the sequence's masters, the installed masters
/// it lacks, its non-masters, and the installed non-masters it lacks.
/// A sequence that is already a valid, complete order comes back unchanged.
pub fn fix_load_order(raw: &Vec<String>, inst: &Vec<PluginInfo>, first: &Option<String>) -> (r: Vec<String>)
    requires
        unique_names(inst@),
    ensures
        names_of(r@) == fixed_order(inst@, opt_view(*first), names_of(raw@)),
        valid_order(inst@, opt_view(*first), names_of(r@)),
        complete(inst@, names_of(r@)),
        valid_order(inst@, opt_view(*first), names_of(raw@)) && complete(inst@, names_of(raw@))
            ==> names_of(r@) == names_of(raw@),
{
    let ghost rv = names_of(raw@);
    let ghost fv = opt_view(*first);
    let ghost is_valid = valid_order(inst@, fv, rv) && complete(inst@, rv);
    let mut out: Vec<String> = Vec::new();
    match first {
        Some(f) => {
            match find_plugin(inst, f) {
                Some(k) => {
                    if inst[k].kind != PluginKind::Regular {
                        out.push(f.clone());
                        proof {
                            lemma_unique_master(inst@, k as int);
                        }
                    }
                },
                None => {},
            }
        },
        None => {},
    }
    proof {
        assert(names_of(out@).no_duplicates());
        if is_valid {
            assert(rv.len() > 0 ==> first_ok(inst@, fv, rv));
            if out@.len() == 1 {
                assert(rv.len() > 0 && rv[0] == out@[0]@);
                assert(names_of(out@) =~= rv.subrange(0, 1));
            } else {
                assert(names_of(out@) =~= rv.subrange(0, 0));
            }
            assert(extends_prefix(inst@, true, names_of(out@), rv));
        }
    }
    let ghost out0 = out@;
    append_qualifying(&mut out, raw, inst, true);
    let names = installed_names(inst);
    proof {
        assert(names_of(names@) =~= inst_names(inst@));
        assert(names_of(out0) =~= head_of(inst@, fv));
        if is_valid {
            assert forall|j: int| 0 <= j < names@.len() && #[trigger] qualifies(inst@, true, names@[j]@)
                implies names_of(out@).contains(names@[j]@) by {
                assert(rv.contains(inst@[j].name@));
                let k = choose|k: int| 0 <= k < rv.len() && rv[k] == inst@[j].name@;
                assert(raw@[k]@ == rv[k]);
                assert(qualifies(inst@, true, raw@[k]@));
            }
        }
    }
    let ghost out1 = out@;
    append_qualifying(&mut out, &names, inst, true);
    let ghost m = out@.len();
    let ghost outm = out@;
    proof {
        assert forall|i: int| 0 <= i < m implies #[trigger] master_named(inst@, out@[i]@) by {
            if i < out0.len() {
                assert(names_of(out1).subrange(0, out0.len() as int)[i] == names_of(out1)[i]);
                assert(names_of(out@).subrange(0, out1.len() as int)[i] == names_of(out@)[i]);
            } else if i < out1.len() {
                assert(names_of(out@).subrange(0, out1.len() as int)[i] == names_of(out@)[i]);
                assert(qualifies(inst@, true, out1[i]@));
            } else {
                assert(qualifies(inst@, true, out@[i]@));
            }
        }
        if is_valid {
            assert(out@ == out1);
            assert forall|j: int| out@.len() <= j < rv.len() implies #[trigger] qualifies(inst@, false, rv[j]) by {
                assert(installed(inst@, rv[j]));
                if master_named(inst@, rv[j]) {
                    assert(raw@[j]@ == rv[j]);
                    assert(qualifies(inst@, true, raw@[j]@));
                    let k = choose|k: int| 0 <= k < names_of(out@).len() && names_of(out@)[k] == rv[j];
                    assert(rv.subrange(0, out@.len() as int)[k] == rv[k]);
                }
            }
            assert(out@.len() <= rv.len());
            assert(names_of(out@) == rv.subrange(0, out@.len() as int));
            assert(extends_prefix(inst@, false, names_of(out@), rv));
        }
    }
    append_qualifying(&mut out, raw, inst, false);
    let ghost out2 = out@;
    proof {
        if is_valid {
            assert forall|j: int| 0 <= j < names@.len() && #[trigger] qualifies(inst@, false, names@[j]@)
                implies names_of(out@).contains(names@[j]@) by {
                assert(rv.contains(inst@[j].name@));
                let k = choose|k: int| 0 <= k < rv.len() && rv[k] == inst@[j].name@;
                assert(raw@[k]@ == rv[k]);
                assert(qualifies(inst@, false, raw@[k]@));
            }
        }
    }
    append_qualifying(&mut out, &names, inst, false);
    proof {
        let ov = names_of(out@);
        assert forall|i: int| 0 <= i < m implies #[trigger] master_named(inst@, ov[i]) by {
            assert(names_of(out2).subrange(0, m as int)[i] == names_of(out2)[i]);
            assert(ov.subrange(0, out2.len() as int)[i] == ov[i]);
            assert(master_named(inst@, names_of(out2)[i]));
        }
        assert forall|i: int| m <= i < ov.len() implies !#[trigger] master_named(inst@, ov[i]) by {
            if i < out2.len() {
                assert(ov.subrange(0, out2.len() as int)[i] == ov[i]);
                assert(qualifies(inst@, false, out2[i]@));
            } else {
                assert(qualifies(inst@, false, out@[i]@));
            }
        }
        assert forall|i: int| 0 <= i < ov.len() implies #[trigger] installed(inst@, ov[i]) by {
            assert(installed(inst@, out@[i]@));
        }
        assert forall|i: int| 0 <= i < inst@.len() implies #[trigger] ov.contains(inst@[i].name@) by {
            lemma_unique_master(inst@, i);
            assert(names@[i]@ == inst@[i].name@);
            if inst@[i].is_master_spec() {
                assert(qualifies(inst@, true, names@[i]@));
                let k = choose|k: int| 0 <= k < names_of(outm).len() && #[trigger] names_of(outm)[k] == inst@[i].name@;
                assert(names_of(out2).subrange(0, m as int)[k] == names_of(out2)[k]);
                assert(ov.subrange(0, out2.len() as int)[k] == ov[k]);
                assert(ov[k] == inst@[i].name@);
            } else {
                assert(qualifies(inst@, false, names@[i]@));
            }
        }
        if out0.len() == 1 {
            assert(names_of(out1).subrange(0, out0.len() as int)[0] == names_of(out1)[0]);
            assert(names_of(out2).subrange(0, m as int)[0] == names_of(out2)[0]);
            assert(ov.subrange(0, out2.len() as int)[0] == ov[0]);
        }
        if is_valid {
            assert(out@ == out2);
            assert(ov == rv.subrange(0, ov.len() as int));
            if ov.len() < rv.len() {
                let last = rv.len() - 1;
                assert(installed(inst@, rv[last]));
                assert(raw@[last]@ == rv[last]);
                if master_named(inst@, rv[last]) {
                    assert(qualifies(inst@, true, raw@[last]@));
                    let k = choose|k: int| 0 <= k < names_of(out1).len() && #[trigger] names_of(out1)[k] == rv[last];
                    assert(names_of(out2).subrange(0, m as int)[k] == names_of(out2)[k]);
                    assert(rv.subrange(0, ov.len() as int)[k] == rv[k]);
                } else {
                    assert(qualifies(inst@, false, raw@[last]@));
                    let k = choose|k: int| 0 <= k < ov.len() && #[trigger] ov[k] == rv[last];
                    assert(rv.subrange(0, ov.len() as int)[k] == rv[k]);
                }
            }
            assert(ov =~= rv);
        }
    }
    out
}

/// The index of an earlier occurrence of `v[i]` in `v`, if any.
pub fn earlier_index(v: &Vec<String>, i: usize) -> (r: Option<usize>)
    requires
        i < v@.len(),
    ensures
        match r {
            Some(k) => k < i && v@[k as int]@ == v@[i as int]@,
            None => forall|k: int| 0 <= k < i ==> v@[k]@ != v@[i as int]@,
        },
{
    let mut j: usize = 0;
    while j < i
        invariant
            i < v@.len(),
            j <= i,
            forall|k: int| 0 <= k < j ==> v@[k]@ != v@[i as int]@,
        decreases i - j,
    {
        if v[j] == v[i] {
            return Some(j);
        }
        j = j + 1;
    }
    None
}

/// Every installed plugin that must be active has a place in the order.
pub open spec fn mandatory_in(inst: Seq<PluginInfo>, mandatory: Seq<Seq<char>>, o: Seq<Seq<char>>) -> bool {
    forall|k: int| 0 <= k < mandatory.len() && installed(inst, #[trigger] mandatory[k]) ==> o.contains(mandatory[k])
}

/// `c[i]` repeats an earlier name.
pub open spec fn repeats_earlier(c: Seq<Seq<char>>, i: int) -> bool {
    exists|j: int| 0 <= j < i && c[j] == c[i]
}

/// `c[i]` is a master that comes after a non-master.
pub open spec fn master_after_non_master(inst: Seq<PluginInfo>, c: Seq<Seq<char>>, i: int) -> bool {
    master_named(inst, c[i]) && exists|j: int| 0 <= j < i && !#[trigger] master_named(inst, c[j])
}

/// What is wrong with entry `i` of a candidate order, taken with those before it.
pub open spec fn entry_fault(inst: Seq<PluginInfo>, c: Seq<Seq<char>>, i: int) -> bool {
    !installed(inst, c[i]) || repeats_earlier(c, i) || master_after_non_master(inst, c, i)
}

/// The first `n` entries of `c` are without fault.
pub open spec fn clean_prefix(inst: Seq<PluginInfo>, c: Seq<Seq<char>>, n: int) -> bool {
    forall|k: int| 0 <= k < n ==> !#[trigger] entry_fault(inst, c, k)
}

/// Entry `i` is the first faulty entry of `c`.
pub open spec fn first_fault(inst: Seq<PluginInfo>, c: Seq<Seq<char>>, i: int) -> bool {
    0 <= i < c.len() && clean_prefix(inst, c, i) && entry_fault(inst, c, i)
}

proof fn lemma_first_fault_unique(inst: Seq<PluginInfo>, c: Seq<Seq<char>>, i: int, j: int)
    requires
        first_fault(inst, c, i),
        first_fault(inst, c, j),
    ensures
        i == j,
{
    if i < j {
        assert(!entry_fault(inst, c, i));
    } else if j < i {
        assert(!entry_fault(inst, c, j));
    }
}

proof fn lemma_clean_valid(inst: Seq<PluginInfo>, c: Seq<Seq<char>>)
    requires
        clean_prefix(inst, c, c.len() as int),
    ensures
        forall|i: int| 0 <= i < c.len() ==> #[trigger] installed(inst, c[i]),
        c.no_duplicates(),
        masters_first(inst, c),
{
    assert forall|i: int| 0 <= i < c.len() implies #[trigger] installed(inst, c[i]) by {
        assert(!entry_fault(inst, c, i));
    }
    assert forall|a: int, b: int| 0 <= a < c.len() && 0 <= b < c.len() && a != b implies c[a] != c[b] by {
        if a < b {
            assert(!entry_fault(inst, c, b));
        } else {
            assert(!entry_fault(inst, c, a));
        }
    }
    assert forall|a: int, b: int| 0 <= a < b < c.len() && #[trigger] master_named(inst, c[b])
        implies #[trigger] master_named(inst, c[a]) by {
        assert(!entry_fault(inst, c, b));
    }
}

proof fn lemma_valid_clean(inst: Seq<PluginInfo>, c: Seq<Seq<char>>, i: int)
    requires
        forall|k: int| 0 <= k < c.len() ==> #[trigger] installed(inst, c[k]),
        c.no_duplicates(),
        masters_first(inst, c),
        0 <= i < c.len(),
    ensures
        !entry_fault(inst, c, i),
{
    if repeats_earlier(c, i) {
        let j = choose|j: int| 0 <= j < i && c[j] == c[i];
    }
    if master_after_non_master(inst, c, i) {
        let j = choose|j: int| 0 <= j < i && !#[trigger] master_named(inst, c[j]);
    }
}

/// What checking the candidate order `c` returns: `Ok` exactly when it is
/// valid, else the error of its first fault.
pub open spec fn order_verdict(
    inst: Seq<PluginInfo>,
    first: Option<Seq<char>>,
    mandatory: Seq<Seq<char>>,
    c: Seq<Seq<char>>,
    r: Result<(), LoError>,
) -> bool {
    let whole = clean_prefix(inst, c, c.len() as int);
    &&& (r is Ok <==> valid_order(inst, first, c) && mandatory_in(inst, mandatory, c))
    &&& (r matches Err(LoError::InvalidPlugin(_, _)) <==> exists|i: int| #[trigger] first_fault(inst, c, i) && !installed(inst, c[i]))
    &&& (r matches Err(LoError::InvalidPlugin(n, why)) ==> why == InvalidReason::NotInstalled
        && exists|i: int| #[trigger] first_fault(inst, c, i) && c[i] == n@)
    &&& (r matches Err(LoError::DuplicatePlugin(_)) <==> exists|i: int| #[trigger] first_fault(inst, c, i)
        && installed(inst, c[i]) && repeats_earlier(c, i))
    &&& (r matches Err(LoError::DuplicatePlugin(n)) ==> exists|i: int| #[trigger] first_fault(inst, c, i) && c[i] == n@)
    &&& (r matches Err(LoError::NonMasterBeforeMaster) <==> exists|i: int| #[trigger] first_fault(inst, c, i)
        && installed(inst, c[i]) && !repeats_earlier(c, i))
    &&& (r matches Err(LoError::GameMasterMustLoadFirst) <==> whole && !first_ok(inst, first, c))
    &&& (r matches Err(LoError::MandatoryPluginMissing(_)) <==> whole && first_ok(inst, first, c)
        && !mandatory_in(inst, mandatory, c))
    &&& (r matches Err(LoError::MandatoryPluginMissing(n)) ==> mandatory.contains(n@)
        && installed(inst, n@) && !c.contains(n@))
    &&& (r is Ok || r matches Err(LoError::InvalidPlugin(_, _)) || r matches Err(LoError::DuplicatePlugin(_))
        || r matches Err(LoError::NonMasterBeforeMaster) || r matches Err(LoError::GameMasterMustLoadFirst)
        || r matches Err(LoError::MandatoryPluginMissing(_)))
}

/// Checks a candidate load order against the invariants of a load order,
/// entry by entry and then as a whole. Its first fault decides the error:
/// an entry that is not installed, one that repeats an earlier one, or a
/// master after a non-master; then the game's first plugin out of place; then
/// a mandatory plugin left out.
pub fn validate_load_order(
    cand: &Vec<String>,
    inst: &Vec<PluginInfo>,
    first: &Option<String>,
    mandatory: &Vec<String>,
) -> (r: Result<(), LoError>)
    requires
        unique_names(inst@),
    ensures
        order_verdict(inst@, opt_view(*first), names_of(mandatory@), names_of(cand@), r),
{
    let ghost cv = names_of(cand@);
    let mut seen_non_master = false;
    let mut i: usize = 0;
    while i < cand.len()
        invariant
            unique_names(inst@),
            cv == names_of(cand@),
            i <= cand@.len(),
            clean_prefix(inst@, cv, i as int),
            seen_non_master <==> exists|k: int| 0 <= k < i && !#[trigger] master_named(inst@, cv[k]),
        decreases cand@.len() - i,
    {
        assert(cv[i as int] == cand@[i as int]@);
        match find_plugin(inst, &cand[i]) {
            None => {
                proof {
                    assert(first_fault(inst@, cv, i as int));
                    assert forall|j: int| #[trigger] first_fault(inst@, cv, j) implies j == i by {
                        lemma_first_fault_unique(inst@, cv, i as int, j);
                    }
                }
                return Err(LoError::InvalidPlugin(cand[i].clone(), InvalidReason::NotInstalled));
            },
            Some(k) => {
                proof {
                    lemma_unique_master(inst@, k as int);
                    assert(cv[i as int] == inst@[k as int].name@);
                }
                match earlier_index(cand, i) {
                    Some(j) => {
                        proof {
                            assert(cv[j as int] == cv[i as int]);
                            assert(repeats_earlier(cv, i as int));
                            assert(first_fault(inst@, cv, i as int));
                            assert forall|w: int| #[trigger] first_fault(inst@, cv, w) implies w == i by {
                                lemma_first_fault_unique(inst@, cv, i as int, w);
                            }
                        }
                        return Err(LoError::DuplicatePlugin(cand[i].clone()));
                    },
                    None => {},
                }
                proof {
                    if repeats_earlier(cv, i as int) {
                        let j = choose|j: int| 0 <= j < i && cv[j] == cv[i as int];
                        assert(cand@[j]@ == cv[j]);
                    }
                }
                let is_master = inst[k].kind != PluginKind::Regular;
                if is_master && seen_non_master {
                    proof {
                        assert(master_after_non_master(inst@, cv, i as int));
                        assert(first_fault(inst@, cv, i as int));
                        assert forall|w: int| #[trigger] first_fault(inst@, cv, w) implies w == i by {
                            lemma_first_fault_unique(inst@, cv, i as int, w);
                        }
                    }
                    return Err(LoError::NonMasterBeforeMaster);
                }
                proof {
                    assert(!master_after_non_master(inst@, cv, i as int));
                    assert(!entry_fault(inst@, cv, i as int));
                    assert forall|w: int| 0 <= w < i + 1 implies !#[trigger] entry_fault(inst@, cv, w) by {
                        if w < i {
                        }
                    }
                }
                if !is_master {
                    seen_non_master = true;
                }
            },
        }
        i = i + 1;
    }
    proof {
        lemma_clean_valid(inst@, cv);
        assert forall|j: int| !#[trigger] first_fault(inst@, cv, j) by {
            if 0 <= j < cv.len() {
                assert(!entry_fault(inst@, cv, j));
            }
        }
    }
    match first {
        Some(f) => {
            match find_plugin(inst, f) {
                Some(k) => {
                    proof {
                        lemma_unique_master(inst@, k as int);
                    }
                    if inst[k].kind != PluginKind::Regular {
                        if cand.len() == 0 || cand[0] != *f {
                            return Err(LoError::GameMasterMustLoadFirst);
                        }
                    }
                },
                None => {
                    assert(!master_named(inst@, f@));
                },
            }
        },
        None => {},
    }
    assert(first_ok(inst@, opt_view(*first), cv));
    assert(clean_prefix(inst@, cv, cv.len() as int));
    let mut m: usize = 0;
    while m < mandatory.len()
        invariant
            unique_names(inst@),
            m <= mandatory@.len(),
            cv == names_of(cand@),
            first_ok(inst@, opt_view(*first), cv),
            clean_prefix(inst@, cv, cv.len() as int),
            forall|k: int| 0 <= k < m && installed(inst@, #[trigger] names_of(mandatory@)[k])
                ==> names_of(cand@).contains(names_of(mandatory@)[k]),
        decreases mandatory@.len() - m,
    {
        assert(names_of(mandatory@)[m as int] == mandatory@[m as int]@);
        if find_plugin(inst, &mandatory[m]).is_some() && !contains_name(cand, &mandatory[m]) {
            proof {
                let k = choose|k: int| 0 <= k < inst@.len() && #[trigger] inst@[k].name@ == mandatory@[m as int]@;
                assert(names_of(mandatory@).contains(mandatory@[m as int]@));
                assert(installed(inst@, names_of(mandatory@)[m as int]));
                assert(!names_of(cand@).contains(names_of(mandatory@)[m as int]));
                assert(!mandatory_in(inst@, names_of(mandatory@), cv));
            }
            return Err(LoError::MandatoryPluginMissing(mandatory[m].clone()));
        }
        m = m + 1;
    }
    Ok(())
}

} // verus!
