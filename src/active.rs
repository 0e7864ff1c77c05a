//! Active plugins: their invariants, validation of candidates, and the fixing
//! of a persisted list.
use vstd::prelude::*;
use crate::error::LoError;
use crate::order::{contains_name, earlier_index, find_plugin, installed, names_of, repeats_earlier, unique_names};
use crate::plugin::{InvalidReason, PluginInfo, PluginKind};
use crate::profile::{MAX_ACTIVE_LIGHT, MAX_ACTIVE_REGULAR};

verus! {

/// `n` is an installed light master.
pub open spec fn light_named(inst: Seq<PluginInfo>, n: Seq<char>) -> bool {
    exists|i: int| 0 <= i < inst.len() && #[trigger] inst[i].name@ == n && inst[i].kind == PluginKind::LightMaster
}

/// How many names of `a` are light masters.
pub open spec fn count_light(inst: Seq<PluginInfo>, a: Seq<Seq<char>>) -> nat
    decreases a.len(),
{
    if a.len() == 0 {
        0
    } else {
        count_light(inst, a.drop_last()) + if light_named(inst, a.last()) { 1nat } else { 0nat }
    }
}

/// How many names of `a` are not light masters.
pub open spec fn count_regular(inst: Seq<PluginInfo>, a: Seq<Seq<char>>) -> nat
    decreases a.len(),
{
    if a.len() == 0 {
        0
    } else {
        count_regular(inst, a.drop_last()) + if light_named(inst, a.last()) { 0nat } else { 1nat }
    }
}

/// The invariants of an active set against a load order `lo`.
pub open spec fn valid_active(
    inst: Seq<PluginInfo>,
    lo: Seq<Seq<char>>,
    mandatory: Seq<Seq<char>>,
    a: Seq<Seq<char>>,
) -> bool {
    &&& forall|i: int| 0 <= i < a.len() ==> #[trigger] lo.contains(a[i])
    &&& a.no_duplicates()
    &&& count_regular(inst, a) <= MAX_ACTIVE_REGULAR
    &&& count_light(inst, a) <= MAX_ACTIVE_LIGHT
    &&& forall|i: int| 0 <= i < mandatory.len() && lo.contains(#[trigger] mandatory[i]) ==> a.contains(mandatory[i])
}

proof fn lemma_counts_push(inst: Seq<PluginInfo>, a: Seq<Seq<char>>, x: Seq<char>)
    ensures
        count_light(inst, a.push(x)) == count_light(inst, a) + if light_named(inst, x) { 1nat } else { 0nat },
        count_regular(inst, a.push(x)) == count_regular(inst, a) + if light_named(inst, x) { 0nat } else { 1nat },
{
    assert(a.push(x).drop_last() =~= a);
}

/// Whether `n` is an installed light master.
fn is_light(inst: &Vec<PluginInfo>, n: &String) -> (r: bool)
    requires
        unique_names(inst@),
    ensures
        r == light_named(inst@, n@),
{
    match find_plugin(inst, n) {
        Some(k) => {
            proof {
                if light_named(inst@, n@) {
                    let i = choose|i: int| 0 <= i < inst@.len() && #[trigger] inst@[i].name@ == n@ && inst@[i].kind == PluginKind::LightMaster;
                    assert(i == k);
                }
            }
            inst[k].kind == PluginKind::LightMaster
        },
        None => false,
    }
}

/// Whether `n` joins the active list `out` under construction: it is in the
/// load order, not yet in `out`, and its kind's cap has room.
pub open spec fn takes(inst: Seq<PluginInfo>, lo: Seq<Seq<char>>, out: Seq<Seq<char>>, n: Seq<char>) -> bool {
    &&& lo.contains(n)
    &&& !out.contains(n)
    &&& if light_named(inst, n) {
        count_light(inst, out) < MAX_ACTIVE_LIGHT
    } else {
        count_regular(inst, out) < MAX_ACTIVE_REGULAR
    }
}

/// `out` followed, in the order of `src`, by each name that `takes` admits.
pub open spec fn taken(inst: Seq<PluginInfo>, lo: Seq<Seq<char>>, out: Seq<Seq<char>>, src: Seq<Seq<char>>) -> Seq<Seq<char>>
    decreases src.len(),
{
    if src.len() == 0 {
        out
    } else {
        let o2 = taken(inst, lo, out, src.drop_last());
        if takes(inst, lo, o2, src.last()) {
            o2.push(src.last())
        } else {
            o2
        }
    }
}

/// The plugins that reading the persisted list `lines` accepts, in the order
/// of acceptance: the mandatory ones first, then the listed ones in file order.
pub open spec fn accepted_active(inst: Seq<PluginInfo>, lo: Seq<Seq<char>>, mandatory: Seq<Seq<char>>, lines: Seq<Seq<char>>) -> Seq<Seq<char>> {
    taken(inst, lo, taken(inst, lo, Seq::empty(), mandatory), lines)
}

/// The names of `lo` that `t` holds, in the order of `lo`.
pub open spec fn members_in_order(lo: Seq<Seq<char>>, t: Seq<Seq<char>>) -> Seq<Seq<char>> {
    lo.filter(|n: Seq<char>| t.contains(n))
}

/// The active set that fixing makes of the persisted list `lines`: the
/// accepted plugins, each at its place in the load order.
pub open spec fn fixed_active(inst: Seq<PluginInfo>, lo: Seq<Seq<char>>, mandatory: Seq<Seq<char>>, lines: Seq<Seq<char>>) -> Seq<Seq<char>> {
    members_in_order(lo, accepted_active(inst, lo, mandatory, lines))
}

/// Adds `n` to the active list under construction when it is in the load order,
/// not yet present, and its kind's cap has room.
fn take_if_room(
    out: &mut Vec<String>,
    light: &mut usize,
    regular: &mut usize,
    n: &String,
    lo: &Vec<String>,
    inst: &Vec<PluginInfo>,
)
    requires
        unique_names(inst@),
        names_of(old(out)@).no_duplicates(),
        forall|i: int| 0 <= i < old(out)@.len() ==> #[trigger] names_of(lo@).contains(old(out)@[i]@),
        *old(light) == count_light(inst@, names_of(old(out)@)),
        *old(regular) == count_regular(inst@, names_of(old(out)@)),
        *old(light) <= MAX_ACTIVE_LIGHT,
        *old(regular) <= MAX_ACTIVE_REGULAR,
    ensures
        names_of(final(out)@).no_duplicates(),
        forall|i: int| 0 <= i < final(out)@.len() ==> #[trigger] names_of(lo@).contains(final(out)@[i]@),
        *final(light) == count_light(inst@, names_of(final(out)@)),
        *final(regular) == count_regular(inst@, names_of(final(out)@)),
        *final(light) <= MAX_ACTIVE_LIGHT,
        *final(regular) <= MAX_ACTIVE_REGULAR,
        *final(light) >= *old(light),
        *final(regular) >= *old(regular),
        final(out)@ == old(out)@ || final(out)@ == old(out)@.push(*n),
        final(out)@ == old(out)@.push(*n) <==> names_of(lo@).contains(n@) && !names_of(old(out)@).contains(n@) && (
            if light_named(inst@, n@) { *old(light) < MAX_ACTIVE_LIGHT } else { *old(regular) < MAX_ACTIVE_REGULAR }),
{
    let ghost before = out@;
    if contains_name(lo, n) && !contains_name(out, n) {
        let l = is_light(inst, n);
        if (l && *light < MAX_ACTIVE_LIGHT) || (!l && *regular < MAX_ACTIVE_REGULAR) {
            out.push(n.clone());
            proof {
                assert(names_of(out@) =~= names_of(before).push(n@));
                lemma_counts_push(inst@, names_of(before), n@);
                assert(names_of(out@)[before.len() as int] == n@);
            }
            if l {
                *light = *light + 1;
            } else {
                *regular = *regular + 1;
            }
        }
    }
    proof {
        if out@ == before.push(*n) {
            assert(out@.len() != before.len());
        }
    }
}

/// The plugins that reading the persisted list `lines` accepts.
fn take_active(lines: &Vec<String>, lo: &Vec<String>, inst: &Vec<PluginInfo>, mandatory: &Vec<String>) -> (r: Vec<String>)
    requires
        unique_names(inst@),
        mandatory@.len() <= MAX_ACTIVE_REGULAR,
    ensures
        names_of(r@) == accepted_active(inst@, names_of(lo@), names_of(mandatory@), names_of(lines@)),
        valid_active(inst@, names_of(lo@), names_of(mandatory@), names_of(r@)),
        forall|i: int| 0 <= i < r@.len() ==> names_of(lines@).contains(#[trigger] r@[i]@) || names_of(mandatory@).contains(r@[i]@),
        forall|j: int| 0 <= j < lines@.len() && names_of(lo@).contains(#[trigger] lines@[j]@) && !names_of(r@).contains(lines@[j]@) ==>
            if light_named(inst@, lines@[j]@) {
                count_light(inst@, names_of(r@)) == MAX_ACTIVE_LIGHT
            } else {
                count_regular(inst@, names_of(r@)) == MAX_ACTIVE_REGULAR
            },
{
    let mut out: Vec<String> = Vec::new();
    let mut light: usize = 0;
    let mut regular: usize = 0;
    let mut i: usize = 0;
    proof {
        assert(names_of(out@) =~= Seq::<Seq<char>>::empty());
    }
    while i < mandatory.len()
        invariant
            unique_names(inst@),
            i <= mandatory@.len(),
            mandatory@.len() <= MAX_ACTIVE_REGULAR,
            names_of(out@) == taken(inst@, names_of(lo@), Seq::empty(), names_of(mandatory@).subrange(0, i as int)),
            out@.len() <= i,
            names_of(out@).no_duplicates(),
            forall|k: int| 0 <= k < out@.len() ==> #[trigger] names_of(lo@).contains(out@[k]@),
            light == count_light(inst@, names_of(out@)),
            regular == count_regular(inst@, names_of(out@)),
            light <= out@.len(),
            regular <= out@.len(),
            light + regular == out@.len(),
            forall|k: int| 0 <= k < out@.len() ==> names_of(mandatory@).contains(#[trigger] out@[k]@),
            forall|k: int| 0 <= k < i && names_of(lo@).contains(#[trigger] mandatory@[k]@) ==> names_of(out@).contains(mandatory@[k]@),
        decreases mandatory@.len() - i,
    {
        let ghost before = out@;
        let ghost (l0, r0) = (light, regular);
        proof {
            let ms = names_of(mandatory@);
            assert(ms.subrange(0, i + 1).drop_last() =~= ms.subrange(0, i as int));
            assert(ms.subrange(0, i + 1).last() == mandatory@[i as int]@);
        }
        take_if_room(&mut out, &mut light, &mut regular, &mandatory[i], lo, inst);
        proof {
            lemma_counts_push(inst@, names_of(before), mandatory@[i as int]@);
            assert(names_of(mandatory@)[i as int] == mandatory@[i as int]@);
            if out@ == before.push(mandatory@[i as int]) {
                assert(names_of(out@) =~= names_of(before).push(mandatory@[i as int]@));
                assert(names_of(out@)[before.len() as int] == mandatory@[i as int]@);
            } else {
                assert(light == l0 && regular == r0) by {
                    assert(out@ == before);
                }
            }
            assert forall|k: int| 0 <= k < out@.len() implies names_of(mandatory@).contains(#[trigger] out@[k]@) by {
                if k < before.len() {
                    assert(out@[k] == before[k]);
                }
            }
            assert forall|k: int| 0 <= k < i + 1 && names_of(lo@).contains(#[trigger] mandatory@[k]@)
                implies names_of(out@).contains(mandatory@[k]@) by {
                if k < i {
                    let w = choose|w: int| 0 <= w < names_of(before).len() && names_of(before)[w] == mandatory@[k]@;
                    assert(names_of(out@)[w] == mandatory@[k]@);
                } else if out@ == before.push(mandatory@[i as int]) {
                    assert(names_of(out@)[before.len() as int] == mandatory@[k]@);
                } else {
                    // Only a name already present is passed over: mandatory ones sit under the cap.
                    assert(names_of(before).contains(mandatory@[k]@));
                }
            }
        }
        proof {
            if out@ == before.push(mandatory@[i as int]) {
                assert(names_of(out@) =~= names_of(before).push(mandatory@[i as int]@));
            } else {
                assert(out@ == before);
            }
        }
        i = i + 1;
    }
    assert(names_of(mandatory@).subrange(0, i as int) =~= names_of(mandatory@));
    let ghost mand_out = out@;
    let mut j: usize = 0;
    while j < lines.len()
        invariant
            unique_names(inst@),
            j <= lines@.len(),
            names_of(out@) == taken(inst@, names_of(lo@), names_of(mand_out), names_of(lines@).subrange(0, j as int)),
            names_of(out@).no_duplicates(),
            forall|k: int| 0 <= k < out@.len() ==> #[trigger] names_of(lo@).contains(out@[k]@),
            light == count_light(inst@, names_of(out@)),
            regular == count_regular(inst@, names_of(out@)),
            light <= MAX_ACTIVE_LIGHT,
            regular <= MAX_ACTIVE_REGULAR,
            out@.len() >= mand_out.len(),
            out@.subrange(0, mand_out.len() as int) == mand_out,
            forall|k: int| 0 <= k < mand_out.len() ==> names_of(mandatory@).contains(#[trigger] mand_out[k]@),
            forall|k: int| mand_out.len() <= k < out@.len() ==> names_of(lines@).contains(#[trigger] out@[k]@),
            forall|k: int| 0 <= k < mandatory@.len() && names_of(lo@).contains(#[trigger] mandatory@[k]@) ==> names_of(mand_out).contains(mandatory@[k]@),
            forall|k: int| 0 <= k < j && names_of(lo@).contains(#[trigger] lines@[k]@) && !names_of(out@).contains(lines@[k]@) ==>
                if light_named(inst@, lines@[k]@) { light == MAX_ACTIVE_LIGHT } else { regular == MAX_ACTIVE_REGULAR },
        decreases lines@.len() - j,
    {
        let ghost before = out@;
        proof {
            let ls = names_of(lines@);
            assert(ls.subrange(0, j + 1).drop_last() =~= ls.subrange(0, j as int));
            assert(ls.subrange(0, j + 1).last() == lines@[j as int]@);
        }
        take_if_room(&mut out, &mut light, &mut regular, &lines[j], lo, inst);
        proof {
            if out@ == before.push(lines@[j as int]) {
                assert(names_of(out@) =~= names_of(before).push(lines@[j as int]@));
            } else {
                assert(out@ == before);
            }
            assert(names_of(lines@)[j as int] == lines@[j as int]@);
            if out@ == before.push(lines@[j as int]) {
                assert(names_of(out@) =~= names_of(before).push(lines@[j as int]@));
                assert(names_of(out@)[before.len() as int] == lines@[j as int]@);
                assert(out@.subrange(0, mand_out.len() as int) =~= before.subrange(0, mand_out.len() as int));
            }
            assert forall|k: int| 0 <= k < j + 1 && names_of(lo@).contains(#[trigger] lines@[k]@) && !names_of(out@).contains(lines@[k]@)
                implies (if light_named(inst@, lines@[k]@) { light == MAX_ACTIVE_LIGHT } else { regular == MAX_ACTIVE_REGULAR }) by {
                if k < j {
                    if !names_of(before).contains(lines@[k]@) {
                    } else {
                        let w = choose|w: int| 0 <= w < names_of(before).len() && names_of(before)[w] == lines@[k]@;
                        if out@ == before.push(lines@[j as int]) {
                            assert(names_of(out@)[w] == lines@[k]@);
                        } else {
                            assert(out@ == before);
                        }
                    }
                } else {
                    if out@ == before.push(lines@[j as int]) {
                        assert(names_of(out@)[before.len() as int] == lines@[k]@);
                    } else {
                        assert(out@ == before);
                    }
                }
            }
            assert forall|k: int| 0 <= k < mandatory@.len() && names_of(lo@).contains(#[trigger] mandatory@[k]@)
                implies names_of(mand_out).contains(mandatory@[k]@) by {}
        }
        j = j + 1;
    }
    proof {
        assert(names_of(lines@).subrange(0, j as int) =~= names_of(lines@));
        let ov = names_of(out@);
        assert forall|k: int| 0 <= k < mandatory@.len() && names_of(lo@).contains(#[trigger] names_of(mandatory@)[k])
            implies ov.contains(names_of(mandatory@)[k]) by {
            assert(names_of(mandatory@)[k] == mandatory@[k]@);
            let w = choose|w: int| 0 <= w < names_of(mand_out).len() && names_of(mand_out)[w] == mandatory@[k]@;
            assert(out@.subrange(0, mand_out.len() as int)[w] == out@[w]);
            assert(ov[w] == mandatory@[k]@);
        }
        assert forall|k: int| 0 <= k < ov.len() implies #[trigger] names_of(lo@).contains(ov[k]) by {
            assert(names_of(lo@).contains(out@[k]@));
        }
        assert forall|k: int| 0 <= k < out@.len() implies names_of(lines@).contains(#[trigger] out@[k]@) || names_of(mandatory@).contains(out@[k]@) by {
            if k < mand_out.len() {
                assert(out@.subrange(0, mand_out.len() as int)[k] == out@[k]);
                assert(names_of(mandatory@).contains(mand_out[k]@));
            }
        }
    }
    out
}

/// Entry `i` of a candidate active set is outside the load order or repeats an earlier entry.
pub open spec fn active_entry_fault(lo: Seq<Seq<char>>, c: Seq<Seq<char>>, i: int) -> bool {
    !lo.contains(c[i]) || repeats_earlier(c, i)
}

/// The first `n` entries of `c` are without fault.
pub open spec fn active_clean_prefix(lo: Seq<Seq<char>>, c: Seq<Seq<char>>, n: int) -> bool {
    forall|k: int| 0 <= k < n ==> !#[trigger] active_entry_fault(lo, c, k)
}

/// Entry `i` is the first faulty entry of `c`.
pub open spec fn first_active_fault(lo: Seq<Seq<char>>, c: Seq<Seq<char>>, i: int) -> bool {
    0 <= i < c.len() && active_clean_prefix(lo, c, i) && active_entry_fault(lo, c, i)
}

/// Every mandatory plugin in the load order is in `a`.
pub open spec fn mandatory_active_in(lo: Seq<Seq<char>>, mandatory: Seq<Seq<char>>, a: Seq<Seq<char>>) -> bool {
    forall|i: int| 0 <= i < mandatory.len() && lo.contains(#[trigger] mandatory[i]) ==> a.contains(mandatory[i])
}

/// What checking the candidate active set `c` returns: `Ok` exactly when it
/// is valid, else the error of its first fault: an entry outside the load
/// order (`InvalidPlugin` when it is not installed at all) or repeated; then
/// too many regular plugins; then too many light masters; then a mandatory
/// plugin left out.
pub open spec fn active_verdict(
    inst: Seq<PluginInfo>,
    lo: Seq<Seq<char>>,
    mandatory: Seq<Seq<char>>,
    c: Seq<Seq<char>>,
    r: Result<(), LoError>,
) -> bool {
    let whole = active_clean_prefix(lo, c, c.len() as int);
    &&& (r is Ok <==> valid_active(inst, lo, mandatory, c))
    &&& (r matches Err(LoError::InvalidPlugin(_, _)) <==> exists|i: int| #[trigger] first_active_fault(lo, c, i)
        && !installed(inst, c[i]))
    &&& (r matches Err(LoError::InvalidPlugin(n, why)) ==> why == InvalidReason::NotInstalled
        && exists|i: int| #[trigger] first_active_fault(lo, c, i) && c[i] == n@)
    &&& (r matches Err(LoError::InvalidActivePlugin(_)) <==> exists|i: int| #[trigger] first_active_fault(lo, c, i)
        && installed(inst, c[i]))
    &&& (r matches Err(LoError::InvalidActivePlugin(n)) ==> exists|i: int| #[trigger] first_active_fault(lo, c, i) && c[i] == n@)
    &&& (r matches Err(LoError::TooManyActivePlugins(false, _)) <==> whole && count_regular(inst, c) > MAX_ACTIVE_REGULAR)
    &&& (r matches Err(LoError::TooManyActivePlugins(true, _)) <==> whole && count_regular(inst, c) <= MAX_ACTIVE_REGULAR
        && count_light(inst, c) > MAX_ACTIVE_LIGHT)
    &&& (r matches Err(LoError::TooManyActivePlugins(l, cap)) ==> cap == if l { MAX_ACTIVE_LIGHT } else { MAX_ACTIVE_REGULAR })
    &&& (r matches Err(LoError::MandatoryPluginInactive(_)) <==> whole && count_regular(inst, c) <= MAX_ACTIVE_REGULAR
        && count_light(inst, c) <= MAX_ACTIVE_LIGHT && !mandatory_active_in(lo, mandatory, c))
    &&& (r matches Err(LoError::MandatoryPluginInactive(n)) ==> mandatory.contains(n@) && lo.contains(n@) && !c.contains(n@))
    &&& (r is Ok || r matches Err(LoError::InvalidPlugin(_, _)) || r matches Err(LoError::InvalidActivePlugin(_))
        || r matches Err(LoError::TooManyActivePlugins(_, _)) || r matches Err(LoError::MandatoryPluginInactive(_)))
}

proof fn lemma_first_active_fault_unique(lo: Seq<Seq<char>>, c: Seq<Seq<char>>, i: int, j: int)
    requires
        first_active_fault(lo, c, i),
        first_active_fault(lo, c, j),
    ensures
        i == j,
{
    if i < j {
        assert(!active_entry_fault(lo, c, i));
    } else if j < i {
        assert(!active_entry_fault(lo, c, j));
    }
}

/// The names of `lo` that `set` holds, in load order.
fn in_load_order(set: &Vec<String>, lo: &Vec<String>) -> (r: Vec<String>)
    ensures
        names_of(r@) == members_in_order(names_of(lo@), names_of(set@)),
{
    let ghost keep = |n: Seq<char>| names_of(set@).contains(n);
    let mut r: Vec<String> = Vec::new();
    let mut j: usize = 0;
    while j < lo.len()
        invariant
            j <= lo@.len(),
            keep == (|n: Seq<char>| names_of(set@).contains(n)),
            names_of(r@) == names_of(lo@).subrange(0, j as int).filter(keep),
        decreases lo@.len() - j,
    {
        let ghost before = r@;
        proof {
            let s = names_of(lo@);
            assert(s.subrange(0, j + 1).drop_last() =~= s.subrange(0, j as int));
            assert(s[j as int] == lo@[j as int]@);
            reveal(Seq::filter);
        }
        if contains_name(set, &lo[j]) {
            r.push(lo[j].clone());
            proof {
                let s = names_of(lo@);
                assert(names_of(r@) =~= names_of(before).push(s[j as int]));
            }
        }
        j = j + 1;
    }
    assert(names_of(lo@).subrange(0, j as int) =~= names_of(lo@));
    r
}

proof fn lemma_filter_no_dup(s: Seq<Seq<char>>, p: spec_fn(Seq<char>) -> bool)
    requires
        s.no_duplicates(),
    ensures
        s.filter(p).no_duplicates(),
    decreases s.len(),
{
    reveal(Seq::filter);
    if s.len() > 0 {
        let d = s.drop_last();
        assert(d.no_duplicates());
        lemma_filter_no_dup(d, p);
        if d.filter(p).contains(s.last()) {
            d.lemma_filter_contains_rev(p, s.last());
            let i = choose|i: int| 0 <= i < d.len() && d[i] == s.last();
            assert(s[i] == s[s.len() - 1]);
        }
        assert(s.filter(p) == if p(s.last()) { d.filter(p).push(s.last()) } else { d.filter(p) });
    }
}

pub proof fn lemma_filter_members(s: Seq<Seq<char>>, t: Seq<Seq<char>>)
    ensures
        forall|x: Seq<char>| #[trigger] members_in_order(s, t).contains(x) <==> s.contains(x) && t.contains(x),
        s.no_duplicates() ==> members_in_order(s, t).no_duplicates(),
{
    let p = |n: Seq<char>| t.contains(n);
    assert(members_in_order(s, t) == s.filter(p));
    s.filter_lemma(p);
    assert forall|x: Seq<char>| #[trigger] s.filter(p).contains(x) <==> s.contains(x) && t.contains(x) by {
        if s.contains(x) && t.contains(x) {
            let i = choose|i: int| 0 <= i < s.len() && s[i] == x;
            assert(p(s[i]));
        }
        if s.filter(p).contains(x) {
            s.lemma_filter_contains_rev(p, x);
            let i = choose|i: int| 0 <= i < s.filter(p).len() && s.filter(p)[i] == x;
            assert(p(s.filter(p)[i]));
        }
    }
    if s.no_duplicates() {
        lemma_filter_no_dup(s, p);
    }
}

/// Picking from `lo` by two lists that agree on the names of `lo` gives the same result.
pub proof fn lemma_members_ext(lo: Seq<Seq<char>>, t1: Seq<Seq<char>>, t2: Seq<Seq<char>>)
    requires
        forall|i: int| 0 <= i < lo.len() ==> (t1.contains(#[trigger] lo[i]) <==> t2.contains(lo[i])),
    ensures
        members_in_order(lo, t1) == members_in_order(lo, t2),
    decreases lo.len(),
{
    reveal(Seq::filter);
    if lo.len() > 0 {
        let d = lo.drop_last();
        assert forall|i: int| 0 <= i < d.len() implies (t1.contains(#[trigger] d[i]) <==> t2.contains(d[i])) by {
            assert(d[i] == lo[i]);
        }
        lemma_members_ext(d, t1, t2);
        assert(t1.contains(lo[lo.len() - 1]) <==> t2.contains(lo[lo.len() - 1]));
    }
}

/// Picking from `lo` by what was already picked from it changes nothing.
pub proof fn lemma_members_idem(lo: Seq<Seq<char>>, t: Seq<Seq<char>>)
    ensures
        members_in_order(lo, members_in_order(lo, t)) == members_in_order(lo, t),
{
    lemma_filter_members(lo, t);
    assert forall|i: int| 0 <= i < lo.len() implies (members_in_order(lo, t).contains(#[trigger] lo[i]) <==> t.contains(lo[i])) by {
        assert(lo.contains(lo[i]));
    }
    lemma_members_ext(lo, members_in_order(lo, t), t);
}

/// Reads a persisted active list against the load order `lo`: every mandatory
/// plugin in the load order is active; then, in file order, each listed plugin
/// that is in the load order is kept while its kind's cap has room, and the
/// rest are dropped. The result follows the load order.
pub fn fix_active(lines: &Vec<String>, lo: &Vec<String>, inst: &Vec<PluginInfo>, mandatory: &Vec<String>) -> (r: Vec<String>)
    requires
        unique_names(inst@),
        mandatory@.len() <= MAX_ACTIVE_REGULAR,
        names_of(lo@).no_duplicates(),
    ensures
        names_of(r@) == fixed_active(inst@, names_of(lo@), names_of(mandatory@), names_of(lines@)),
        valid_active(inst@, names_of(lo@), names_of(mandatory@), names_of(r@)),
        forall|i: int| 0 <= i < r@.len() ==> names_of(lines@).contains(#[trigger] r@[i]@) || names_of(mandatory@).contains(r@[i]@),
        forall|j: int| 0 <= j < lines@.len() && names_of(lo@).contains(#[trigger] lines@[j]@) && !names_of(r@).contains(lines@[j]@) ==>
            if light_named(inst@, lines@[j]@) {
                count_light(inst@, names_of(r@)) == MAX_ACTIVE_LIGHT
            } else {
                count_regular(inst@, names_of(r@)) == MAX_ACTIVE_REGULAR
            },
{
    let acc = take_active(lines, lo, inst, mandatory);
    let r = in_load_order(&acc, lo);
    proof {
        let a = names_of(acc@);
        let rv = names_of(r@);
        let lv = names_of(lo@);
        lemma_filter_members(lv, a);
        assert forall|i: int| 0 <= i < rv.len() implies a.contains(#[trigger] rv[i]) by {
            assert(rv.contains(rv[i]));
        }
        assert forall|i: int| 0 <= i < a.len() implies rv.contains(#[trigger] a[i]) by {
            assert(a.contains(a[i]));
            assert(lv.contains(a[i]));
        }
        lemma_counts_subset(inst@, rv, a);
        lemma_counts_subset(inst@, a, rv);
        assert forall|i: int| 0 <= i < rv.len() implies #[trigger] lv.contains(rv[i]) by {
            assert(rv.contains(rv[i]));
        }
        assert forall|i: int| 0 <= i < r@.len() implies names_of(lines@).contains(#[trigger] r@[i]@) || names_of(mandatory@).contains(r@[i]@) by {
            assert(rv[i] == r@[i]@);
            assert(a.contains(rv[i]));
            let k = choose|k: int| 0 <= k < a.len() && a[k] == rv[i];
            assert(a[k] == acc@[k]@);
        }
        assert forall|k: int| 0 <= k < mandatory@.len() && lv.contains(#[trigger] names_of(mandatory@)[k])
            implies rv.contains(names_of(mandatory@)[k]) by {
            assert(a.contains(names_of(mandatory@)[k]));
        }
        assert forall|j: int| 0 <= j < lines@.len() && lv.contains(#[trigger] lines@[j]@) && !rv.contains(lines@[j]@)
            implies !a.contains(lines@[j]@) by {
        }
    }
    r
}

/// Checks a candidate active set against the load order `lo`, as
/// `active_verdict` says.
pub fn validate_active(cand: &Vec<String>, lo: &Vec<String>, inst: &Vec<PluginInfo>, mandatory: &Vec<String>) -> (r: Result<(), LoError>)
    requires
        unique_names(inst@),
    ensures
        active_verdict(inst@, names_of(lo@), names_of(mandatory@), names_of(cand@), r),
{
    let ghost cv = names_of(cand@);
    let ghost lv = names_of(lo@);
    let mut light: usize = 0;
    let mut regular: usize = 0;
    let mut i: usize = 0;
    while i < cand.len()
        invariant
            unique_names(inst@),
            cv == names_of(cand@),
            lv == names_of(lo@),
            i <= cand@.len(),
            active_clean_prefix(lv, cv, i as int),
            light == count_light(inst@, cv.subrange(0, i as int)),
            regular == count_regular(inst@, cv.subrange(0, i as int)),
            light + regular == i,
        decreases cand@.len() - i,
    {
        assert(cv[i as int] == cand@[i as int]@);
        let mut fault = !contains_name(lo, &cand[i]);
        if !fault {
            match earlier_index(cand, i) {
                Some(j) => {
                    assert(cv[j as int] == cv[i as int]);
                    fault = true;
                },
                None => {
                    proof {
                        if repeats_earlier(cv, i as int) {
                            let j = choose|j: int| 0 <= j < i && cv[j] == cv[i as int];
                            assert(cand@[j]@ == cv[j]);
                        }
                    }
                },
            }
        }
        if fault {
            proof {
                assert(first_active_fault(lv, cv, i as int));
                assert forall|w: int| #[trigger] first_active_fault(lv, cv, w) implies w == i by {
                    lemma_first_active_fault_unique(lv, cv, i as int, w);
                }
            }
            if find_plugin(inst, &cand[i]).is_none() {
                return Err(LoError::InvalidPlugin(cand[i].clone(), InvalidReason::NotInstalled));
            } else {
                return Err(LoError::InvalidActivePlugin(cand[i].clone()));
            }
        }
        proof {
            assert(!active_entry_fault(lv, cv, i as int));
            lemma_counts_push(inst@, cv.subrange(0, i as int), cv[i as int]);
            assert(cv.subrange(0, i + 1) =~= cv.subrange(0, i as int).push(cv[i as int]));
        }
        if is_light(inst, &cand[i]) {
            light = light + 1;
        } else {
            regular = regular + 1;
        }
        i = i + 1;
    }
    proof {
        assert(cv.subrange(0, i as int) =~= cv);
        assert forall|w: int| !#[trigger] first_active_fault(lv, cv, w) by {
            if 0 <= w < cv.len() {
                assert(!active_entry_fault(lv, cv, w));
            }
        }
        assert forall|k: int| 0 <= k < cv.len() implies #[trigger] lv.contains(cv[k]) by {
            assert(!active_entry_fault(lv, cv, k));
        }
        assert forall|a: int, b: int| 0 <= a < cv.len() && 0 <= b < cv.len() && a != b implies cv[a] != cv[b] by {
            if a < b {
                assert(!active_entry_fault(lv, cv, b));
            } else {
                assert(!active_entry_fault(lv, cv, a));
            }
        }
    }
    assert(active_clean_prefix(lv, cv, cv.len() as int));
    if regular > MAX_ACTIVE_REGULAR {
        return Err(LoError::TooManyActivePlugins(false, MAX_ACTIVE_REGULAR));
    }
    if light > MAX_ACTIVE_LIGHT {
        return Err(LoError::TooManyActivePlugins(true, MAX_ACTIVE_LIGHT));
    }
    let mut m: usize = 0;
    while m < mandatory.len()
        invariant
            m <= mandatory@.len(),
            cv == names_of(cand@),
            lv == names_of(lo@),
            active_clean_prefix(lv, cv, cv.len() as int),
            count_regular(inst@, cv) <= MAX_ACTIVE_REGULAR,
            count_light(inst@, cv) <= MAX_ACTIVE_LIGHT,
            forall|k: int| 0 <= k < m && names_of(lo@).contains(#[trigger] names_of(mandatory@)[k])
                ==> names_of(cand@).contains(names_of(mandatory@)[k]),
        decreases mandatory@.len() - m,
    {
        assert(names_of(mandatory@)[m as int] == mandatory@[m as int]@);
        if contains_name(lo, &mandatory[m]) && !contains_name(cand, &mandatory[m]) {
            proof {
                assert(names_of(mandatory@).contains(mandatory@[m as int]@));
                assert(lv.contains(names_of(mandatory@)[m as int]));
                assert(!cv.contains(names_of(mandatory@)[m as int]));
                assert(!mandatory_active_in(lv, names_of(mandatory@), cv));
            }
            return Err(LoError::MandatoryPluginInactive(mandatory[m].clone()));
        }
        m = m + 1;
    }
    Ok(())
}

proof fn lemma_counts_remove(inst: Seq<PluginInfo>, a: Seq<Seq<char>>, idx: int)
    requires
        0 <= idx < a.len(),
    ensures
        count_light(inst, a) == count_light(inst, a.remove(idx)) + if light_named(inst, a[idx]) { 1nat } else { 0nat },
        count_regular(inst, a) == count_regular(inst, a.remove(idx)) + if light_named(inst, a[idx]) { 0nat } else { 1nat },
    decreases a.len(),
{
    if idx == a.len() - 1 {
        assert(a.remove(idx) =~= a.drop_last());
    } else {
        lemma_counts_remove(inst, a.drop_last(), idx);
        assert(a.remove(idx).drop_last() =~= a.drop_last().remove(idx));
        assert(a.remove(idx).last() == a.last());
    }
}

/// Counting the names of a duplicate-free `r` drawn from `a` gives no more than counting `a`.
pub proof fn lemma_counts_subset(inst: Seq<PluginInfo>, r: Seq<Seq<char>>, a: Seq<Seq<char>>)
    requires
        r.no_duplicates(),
        forall|i: int| 0 <= i < r.len() ==> a.contains(#[trigger] r[i]),
    ensures
        count_light(inst, r) <= count_light(inst, a),
        count_regular(inst, r) <= count_regular(inst, a),
    decreases r.len(),
{
    if r.len() > 0 {
        let y = r.last();
        let idx = choose|k: int| 0 <= k < a.len() && a[k] == y;
        let a2 = a.remove(idx);
        let r2 = r.drop_last();
        assert forall|i: int| 0 <= i < r2.len() implies a2.contains(#[trigger] r2[i]) by {
            assert(r[i] == r2[i]);
            assert(a.contains(r[i]));
            let p = choose|p: int| 0 <= p < a.len() && a[p] == r[i];
            assert(r[i] != y);
            if p < idx {
                assert(a2[p] == a[p]);
            } else {
                assert(a2[p - 1] == a[p]);
            }
        }
        lemma_counts_subset(inst, r2, a2);
        lemma_counts_remove(inst, a, idx);
    }
}

/// An active set that is already valid comes back from fixing with the same members.
pub proof fn lemma_fix_active_keeps_valid(
    inst: Seq<PluginInfo>,
    lo: Seq<Seq<char>>,
    mandatory: Seq<Seq<char>>,
    lines: Seq<Seq<char>>,
    r: Seq<Seq<char>>,
)
    requires
        valid_active(inst, lo, mandatory, lines),
        valid_active(inst, lo, mandatory, r),
        forall|i: int| 0 <= i < r.len() ==> lines.contains(#[trigger] r[i]) || mandatory.contains(r[i]),
        forall|j: int| 0 <= j < lines.len() && lo.contains(#[trigger] lines[j]) && !r.contains(lines[j]) ==>
            if light_named(inst, lines[j]) {
                count_light(inst, r) == MAX_ACTIVE_LIGHT
            } else {
                count_regular(inst, r) == MAX_ACTIVE_REGULAR
            },
    ensures
        r.to_set() == lines.to_set(),
{
    assert forall|i: int| 0 <= i < r.len() implies lines.contains(#[trigger] r[i]) by {
        if mandatory.contains(r[i]) {
            let k = choose|k: int| 0 <= k < mandatory.len() && mandatory[k] == r[i];
            assert(lo.contains(mandatory[k]));
        }
    }
    assert forall|j: int| 0 <= j < lines.len() implies r.contains(#[trigger] lines[j]) by {
        if !r.contains(lines[j]) {
            let x = lines[j];
            let r2 = r.push(x);
            assert forall|a: int, b: int| 0 <= a < b < r2.len() implies r2[a] != r2[b] by {
                if b == r.len() {
                    assert(r2[a] == r[a]);
                }
            }
            assert forall|i: int| 0 <= i < r2.len() implies lines.contains(#[trigger] r2[i]) by {
                if i < r.len() {
                    assert(r2[i] == r[i]);
                }
            }
            lemma_counts_subset(inst, r2, lines);
            lemma_counts_push(inst, r, x);
        }
    }
    assert(r.to_set() =~= lines.to_set());
}

/// How a plugin's name is written in the active-plugins file: light masters
/// carry a leading `*` where the game marks them.
pub open spec fn marked(inst: Seq<PluginInfo>, uses_marker: bool, n: Seq<char>) -> Seq<char> {
    if uses_marker && light_named(inst, n) {
        seq!['*'] + n
    } else {
        n
    }
}

/// The lines of the active-plugins file for the active set `active`: its
/// members in load order, each written as `marked` says.
pub fn active_file_lines(active: &Vec<String>, lo: &Vec<String>, inst: &Vec<PluginInfo>, uses_marker: bool) -> (r: Vec<String>)
    requires
        unique_names(inst@),
    ensures
        names_of(r@) == names_of(lo@).filter(|n: Seq<char>| names_of(active@).contains(n)).map_values(
            |n: Seq<char>| marked(inst@, uses_marker, n),
        ),
        !uses_marker ==> names_of(r@) == members_in_order(names_of(lo@), names_of(active@)),
{
    let ghost keep = |n: Seq<char>| names_of(active@).contains(n);
    let ghost mark = |n: Seq<char>| marked(inst@, uses_marker, n);
    let mut r: Vec<String> = Vec::new();
    let mut j: usize = 0;
    while j < lo.len()
        invariant
            unique_names(inst@),
            j <= lo@.len(),
            keep == (|n: Seq<char>| names_of(active@).contains(n)),
            mark == (|n: Seq<char>| marked(inst@, uses_marker, n)),
            names_of(r@) == names_of(lo@).subrange(0, j as int).filter(keep).map_values(mark),
        decreases lo@.len() - j,
    {
        let ghost before = r@;
        proof {
            let s = names_of(lo@);
            assert(s.subrange(0, j + 1).drop_last() =~= s.subrange(0, j as int));
            assert(s[j as int] == lo@[j as int]@);
            reveal(Seq::filter);
        }
        if contains_name(active, &lo[j]) {
            let line = if uses_marker && is_light(inst, &lo[j]) {
                let mut m = "*".to_owned();
                m.append(lo[j].as_str());
                proof {
                    reveal_strlit("*");
                    assert(m@ =~= seq!['*'] + lo@[j as int]@);
                }
                m
            } else {
                lo[j].clone()
            };
            r.push(line);
            proof {
                let s = names_of(lo@);
                assert(s.subrange(0, j + 1).filter(keep) == s.subrange(0, j as int).filter(keep).push(s[j as int]));
                assert(names_of(r@) =~= names_of(before).push(mark(s[j as int])));
                assert(names_of(r@) =~= s.subrange(0, j + 1).filter(keep).map_values(mark));
            }
        } else {
            proof {
                let s = names_of(lo@);
                assert(s.subrange(0, j + 1).filter(keep) == s.subrange(0, j as int).filter(keep));
            }
        }
        j = j + 1;
    }
    assert(names_of(lo@).subrange(0, j as int) =~= names_of(lo@));
    proof {
        let f = names_of(lo@).filter(keep);
        if !uses_marker {
            assert(f.map_values(mark) =~= f);
            assert(f == members_in_order(names_of(lo@), names_of(active@)));
        }
    }
    r
}

/// What a line of the active-plugins file names: nothing for a blank line or
/// a `#` comment, else the line, less a leading `*` where the game marks lines.
pub open spec fn line_entry(line: Seq<char>, uses_marker: bool) -> Option<Seq<char>> {
    if line.len() == 0 || line[0] == '#' {
        None
    } else if uses_marker && line[0] == '*' {
        Some(line.subrange(1, line.len() as int))
    } else {
        Some(line)
    }
}

/// The names that `lines` list, in file order.
pub open spec fn entries_of(lines: Seq<Seq<char>>, uses_marker: bool) -> Seq<Seq<char>>
    decreases lines.len(),
{
    if lines.len() == 0 {
        Seq::empty()
    } else {
        let rest = entries_of(lines.drop_last(), uses_marker);
        match line_entry(lines.last(), uses_marker) {
            Some(n) => rest.push(n),
            None => rest,
        }
    }
}

/// Some line of `lines` names `n`.
pub open spec fn listed(lines: Seq<String>, uses_marker: bool, n: Seq<char>) -> bool {
    exists|j: int| 0 <= j < lines.len() && #[trigger] line_entry(lines[j]@, uses_marker) == Some(n)
}

/// The plugin names that the lines of an active-plugins file list, in file order.
pub fn parse_active_lines(lines: &Vec<String>, uses_marker: bool) -> (r: Vec<String>)
    ensures
        names_of(r@) == entries_of(names_of(lines@), uses_marker),
        forall|i: int| 0 <= i < r@.len() ==> #[trigger] listed(lines@, uses_marker, r@[i]@),
        forall|j: int| 0 <= j < lines@.len() ==> (#[trigger] line_entry(lines@[j]@, uses_marker) matches Some(n) ==> names_of(r@).contains(n)),
{
    let mut r: Vec<String> = Vec::new();
    let mut j: usize = 0;
    while j < lines.len()
        invariant
            j <= lines@.len(),
            forall|i: int| 0 <= i < r@.len() ==> #[trigger] listed(lines@, uses_marker, r@[i]@),
            forall|k: int| 0 <= k < j ==> (#[trigger] line_entry(lines@[k]@, uses_marker) matches Some(n) ==> names_of(r@).contains(n)),
            names_of(r@) == entries_of(names_of(lines@).subrange(0, j as int), uses_marker),
        decreases lines@.len() - j,
    {
        proof {
            let ls = names_of(lines@);
            assert(ls.subrange(0, j + 1).drop_last() =~= ls.subrange(0, j as int));
            assert(ls.subrange(0, j + 1).last() == lines@[j as int]@);
        }
        let line = lines[j].as_str();
        let n = line.unicode_len();
        let ghost before = r@;
        if n > 0 {
            let c = line.get_char(0);
            if c != '#' {
                let entry = if uses_marker && c == '*' {
                    line.substring_char(1, n).to_owned()
                } else {
                    line.to_owned()
                };
                r.push(entry);
                proof {
                    assert(names_of(r@) =~= names_of(before).push(r@[before.len() as int]@));
                    assert(line_entry(lines@[j as int]@, uses_marker) == Some(r@[before.len() as int]@));
                    assert(names_of(r@)[before.len() as int] == r@[before.len() as int]@);
                    assert forall|i: int| 0 <= i < r@.len() implies #[trigger] listed(lines@, uses_marker, r@[i]@) by {
                        if i < before.len() {
                            assert(r@[i] == before[i]);
                        }
                    }
                    assert forall|k: int| 0 <= k < j + 1 implies (#[trigger] line_entry(lines@[k]@, uses_marker) matches Some(n) ==> names_of(r@).contains(n)) by {
                        if k < j {
                            if let Some(n) = line_entry(lines@[k]@, uses_marker) {
                                let w = choose|w: int| 0 <= w < names_of(before).len() && names_of(before)[w] == n;
                                assert(names_of(r@)[w] == n);
                            }
                        }
                    }
                }
            }
        }
        j = j + 1;
    }
    assert(names_of(lines@).subrange(0, j as int) =~= names_of(lines@));
    r
}

} // verus!
