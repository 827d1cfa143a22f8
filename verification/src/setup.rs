//! The setup matcher: pairs parsed directives with the attached monitors and
//! validates the resulting setup as a whole.
//!
//! Each directive claims the first remaining monitor with its index; a
//! directive whose index matches no monitor is dropped and reported.  Monitors
//! left unclaimed are appended after the configured ones, in registry order,
//! with no directive, which the builder turns into a power-off.

use vstd::prelude::*;
use vstd::string::StringExecFns;

use crate::layout::Layout;
use crate::monitors::{Monitor, MonitorView};
use crate::output::{views_of, MonitorLayoutPair, PairView};

verus! {

/// A whole-setup condition under which no command may be issued.
#[derive(Debug, Clone, Copy, PartialEq, Eq, Structural)]
pub enum ValidationError {
    /// More than one directive asks to be the primary monitor.
    MultiplePrimary,
    /// No directive matched any attached monitor.
    NoValidArguments,
    /// The setup would turn every attached monitor off.
    RefuseBlackout,
}

pub open spec fn mon_views(ms: Seq<Monitor>) -> Seq<MonitorView> {
    ms.map_values(|m: Monitor| m@)
}

/// First position in `mons` holding the index `idx`, or `mons.len()`.
pub open spec fn find_monitor(mons: Seq<MonitorView>, idx: int) -> int
    decreases mons.len(),
{
    if mons.len() == 0 {
        0
    } else if mons[0].idx == idx {
        0
    } else {
        1 + find_monitor(mons.drop_first(), idx)
    }
}

proof fn lemma_find_monitor_is(mons: Seq<MonitorView>, idx: int, j: int)
    requires
        0 <= j <= mons.len(),
        forall|t: int| 0 <= t < j ==> mons[t].idx != idx,
        j == mons.len() || mons[j].idx == idx,
    ensures
        find_monitor(mons, idx) == j,
    decreases j,
{
    if j == 0 {
    } else {
        assert(mons[0].idx != idx);
        lemma_find_monitor_is(mons.drop_first(), idx, j - 1);
    }
}

/// The setup items the matcher produces: one per directive that found its
/// monitor, in directive order, then one per unclaimed monitor, in registry
/// order.
pub open spec fn spec_match_pairs(layouts: Seq<Layout>, mons: Seq<MonitorView>) -> Seq<PairView>
    decreases layouts.len(),
{
    if layouts.len() == 0 {
        mons.map_values(|m: MonitorView| PairView { monitor: m, layout: None })
    } else {
        let j = find_monitor(mons, layouts[0].mon_idx as int);
        if j < mons.len() {
            seq![PairView { monitor: mons[j], layout: Some(layouts[0]) }] + spec_match_pairs(
                layouts.drop_first(),
                mons.remove(j),
            )
        } else {
            spec_match_pairs(layouts.drop_first(), mons)
        }
    }
}

/// The indices of the directives that matched no monitor, in directive order.
pub open spec fn spec_match_missing(layouts: Seq<Layout>, mons: Seq<MonitorView>) -> Seq<i32>
    decreases layouts.len(),
{
    if layouts.len() == 0 {
        Seq::empty()
    } else {
        let j = find_monitor(mons, layouts[0].mon_idx as int);
        if j < mons.len() {
            spec_match_missing(layouts.drop_first(), mons.remove(j))
        } else {
            seq![layouts[0].mon_idx] + spec_match_missing(layouts.drop_first(), mons)
        }
    }
}

/// Pairs the directives with the monitors.  Returns the setup items and the
/// indices of directives that matched nothing.
pub fn match_setup(layouts: &Vec<Layout>, monitors: Vec<Monitor>) -> (r: (
    Vec<MonitorLayoutPair>,
    Vec<i32>,
))
    ensures
        views_of(r.0@) == spec_match_pairs(layouts@, mon_views(monitors@)),
        r.1@ == spec_match_missing(layouts@, mon_views(monitors@)),
{
    let ghost ls = layouts@;
    let ghost ms0 = mon_views(monitors@);
    let nl: usize = layouts.len();
    let mut remaining: Vec<Monitor> = monitors;
    let mut pairs: Vec<MonitorLayoutPair> = Vec::new();
    let mut missing: Vec<i32> = Vec::new();
    let mut k: usize = 0;
    proof {
        assert(ls.skip(0) =~= ls);
        assert(views_of(pairs@) + spec_match_pairs(ls, ms0) =~= spec_match_pairs(ls, ms0));
        assert(missing@ + spec_match_missing(ls, ms0) =~= spec_match_missing(ls, ms0));
    }
    while k < nl
        invariant
            k <= nl,
            nl == layouts.len(),
            ls == layouts@,
            views_of(pairs@) + spec_match_pairs(ls.skip(k as int), mon_views(remaining@))
                =~= spec_match_pairs(ls, ms0),
            missing@ + spec_match_missing(ls.skip(k as int), mon_views(remaining@))
                =~= spec_match_missing(ls, ms0),
        decreases nl - k,
    {
        proof {
            assert(ls.skip(k as int).len() > 0);
            assert(ls.skip(k as int)[0] == ls[k as int]);
            assert(ls.skip(k as int).drop_first() =~= ls.skip(k as int + 1));
        }
        let li: Layout = layouts[k];
        let nm: usize = remaining.len();
        let mut j: usize = 0;
        while j < nm
            invariant
                j <= nm,
                nm == remaining.len(),
                forall|t: int| 0 <= t < j ==> mon_views(remaining@)[t].idx != li.mon_idx as int,
            ensures
                j == nm || remaining@[j as int]@.idx == li.mon_idx as int,
            decreases nm - j,
        {
            if remaining[j].idx == li.mon_idx {
                break;
            }
            j = j + 1;
        }
        proof {
            lemma_find_monitor_is(mon_views(remaining@), li.mon_idx as int, j as int);
        }
        if j < nm {
            let ghost before = mon_views(remaining@);
            let m: Monitor = remaining.remove(j);
            proof {
                assert(mon_views(remaining@) =~= before.remove(j as int));
            }
            pairs.push(MonitorLayoutPair::new(m, Some(li)));
            proof {
                assert(views_of(pairs@) =~= views_of(pairs@.drop_last()).push(
                    PairView { monitor: before[j as int], layout: Some(li) },
                ));
            }
        } else {
            missing.push(li.mon_idx);
        }
        k = k + 1;
        proof {
            assert(views_of(pairs@) + spec_match_pairs(ls.skip(k as int), mon_views(remaining@))
                =~= spec_match_pairs(ls, ms0));
            assert(missing@ + spec_match_missing(ls.skip(k as int), mon_views(remaining@))
                =~= spec_match_missing(ls, ms0));
        }
    }
    proof {
        assert(ls.skip(nl as int) =~= Seq::<Layout>::empty());
    }
    while remaining.len() > 0
        invariant
            views_of(pairs@) + mon_views(remaining@).map_values(
                |m: MonitorView| PairView { monitor: m, layout: None },
            ) =~= spec_match_pairs(ls, ms0),
            missing@ == spec_match_missing(ls, ms0),
        decreases remaining.len(),
    {
        let ghost before = mon_views(remaining@);
        let m: Monitor = remaining.remove(0);
        proof {
            assert(mon_views(remaining@) =~= before.drop_first());
        }
        pairs.push(MonitorLayoutPair::new(m, None));
        proof {
            assert(views_of(pairs@) + mon_views(remaining@).map_values(
                |mv: MonitorView| PairView { monitor: mv, layout: None },
            ) =~= spec_match_pairs(ls, ms0));
        }
    }
    proof {
        assert(mon_views(remaining@).map_values(|m: MonitorView| PairView { monitor: m, layout: None })
            =~= Seq::<PairView>::empty());
        assert(views_of(pairs@) =~= spec_match_pairs(ls, ms0));
    }
    (pairs, missing)
}

pub open spec fn is_primary(p: PairView) -> bool {
    match p.layout {
        Some(l) => l.primary,
        None => false,
    }
}

/// Whether the item leaves its monitor on.  Every directive of the final
/// grammar configures its monitor on; only the items without a directive
/// power one off.
pub open spec fn is_on(p: PairView) -> bool {
    p.layout is Some
}

pub open spec fn count_primary(ps: Seq<PairView>) -> int
    decreases ps.len(),
{
    if ps.len() == 0 {
        0
    } else {
        (if is_primary(ps[0]) {
            1int
        } else {
            0int
        }) + count_primary(ps.drop_first())
    }
}

pub open spec fn count_on(ps: Seq<PairView>) -> int
    decreases ps.len(),
{
    if ps.len() == 0 {
        0
    } else {
        (if is_on(ps[0]) {
            1int
        } else {
            0int
        }) + count_on(ps.drop_first())
    }
}

/// The whole-setup validation: at most one primary; never a setup that turns
/// every attached monitor off; at least one directive must have matched.
pub open spec fn spec_validate(ps: Seq<PairView>) -> Option<ValidationError> {
    if count_primary(ps) > 1 {
        Some(ValidationError::MultiplePrimary)
    } else if ps.len() > 0 && count_on(ps) == 0 {
        Some(ValidationError::RefuseBlackout)
    } else if count_on(ps) == 0 {
        Some(ValidationError::NoValidArguments)
    } else {
        None
    }
}

pub fn validate(items: &Vec<MonitorLayoutPair>) -> (r: Option<ValidationError>)
    ensures
        r == spec_validate(views_of(items@)),
{
    let ghost ps = views_of(items@);
    let n: usize = items.len();
    let mut primaries: usize = 0;
    let mut on: usize = 0;
    let mut k: usize = 0;
    proof {
        assert(ps.skip(0) =~= ps);
    }
    while k < n
        invariant
            k <= n,
            n == items.len(),
            ps == views_of(items@),
            primaries <= k,
            on <= k,
            primaries + count_primary(ps.skip(k as int)) == count_primary(ps),
            on + count_on(ps.skip(k as int)) == count_on(ps),
        decreases n - k,
    {
        proof {
            assert(ps.skip(k as int).len() > 0);
            assert(ps.skip(k as int)[0] == ps[k as int]);
            assert(ps.skip(k as int).drop_first() =~= ps.skip(k as int + 1));
        }
        match &items[k].layout {
            Some(l) => {
                on = on + 1;
                if l.primary {
                    primaries = primaries + 1;
                }
            },
            None => {},
        }
        k = k + 1;
    }
    proof {
        assert(ps.skip(n as int) =~= Seq::<PairView>::empty());
    }
    if primaries > 1 {
        Some(ValidationError::MultiplePrimary)
    } else if n > 0 && on == 0 {
        Some(ValidationError::RefuseBlackout)
    } else if on == 0 {
        Some(ValidationError::NoValidArguments)
    } else {
        None
    }
}

/// Matching an empty directive list against the monitors configures nothing:
/// every monitor becomes one item without a directive, in registry order.
pub proof fn lemma_match_empty(mons: Seq<MonitorView>)
    ensures
        spec_match_pairs(Seq::empty(), mons).len() == mons.len(),
        forall|i: int|
            0 <= i < mons.len() ==> spec_match_pairs(Seq::empty(), mons)[i] == (PairView {
                monitor: mons[i],
                layout: None,
            }),
        spec_match_missing(Seq::empty(), mons) == Seq::<i32>::empty(),
{
}

proof fn lemma_counts_all_off(ps: Seq<PairView>)
    requires
        forall|i: int| 0 <= i < ps.len() ==> !is_on(ps[i]),
    ensures
        count_on(ps) == 0,
        count_primary(ps) == 0,
    decreases ps.len(),
{
    if ps.len() > 0 {
        assert(forall|i: int|
            0 <= i < ps.drop_first().len() ==> ps.drop_first()[i] == ps[i + 1] && !is_on(
                ps.drop_first()[i],
            ));
        lemma_counts_all_off(ps.drop_first());
    }
}

/// A non-empty setup whose every item leaves its monitor off is rejected
/// with the blackout refusal, so the builder never sees it.
pub proof fn lemma_blackout_refused(ps: Seq<PairView>)
    requires
        ps.len() > 0,
        forall|i: int| 0 <= i < ps.len() ==> !is_on(ps[i]),
    ensures
        spec_validate(ps) == Some(ValidationError::RefuseBlackout),
{
    lemma_counts_all_off(ps);
}

/// Validation lets a setup through only with at most one primary directive,
/// and rejects two or more primaries whatever else the setup holds.
pub proof fn lemma_primary_exclusive(ps: Seq<PairView>)
    ensures
        spec_validate(ps) is None ==> count_primary(ps) <= 1,
        count_primary(ps) > 1 ==> spec_validate(ps) == Some(ValidationError::MultiplePrimary),
{
}

pub open spec fn spec_exit_code(e: ValidationError) -> int {
    match e {
        ValidationError::MultiplePrimary => 1,
        ValidationError::NoValidArguments => 2,
        ValidationError::RefuseBlackout => 3,
    }
}

pub open spec fn spec_message(e: ValidationError) -> Seq<char> {
    match e {
        ValidationError::MultiplePrimary => "More than one primary monitor provided"@,
        ValidationError::NoValidArguments => "No valid arguments provided for current monitor setup"@,
        ValidationError::RefuseBlackout => "Refusing to turn every monitor off"@,
    }
}

impl ValidationError {
    /// The fixed process exit status for each fatal error: 1 for more than
    /// one primary, 2 for no matching directive, 3 for a blackout refusal.
    pub fn exit_code(&self) -> (c: i32)
        ensures
            c == spec_exit_code(*self),
    {
        match self {
            ValidationError::MultiplePrimary => 1,
            ValidationError::NoValidArguments => 2,
            ValidationError::RefuseBlackout => 3,
        }
    }

    /// The text reported to the user for each fatal error.
    pub fn message(&self) -> (s: String)
        ensures
            s@ == spec_message(*self),
    {
        match self {
            ValidationError::MultiplePrimary => String::from_str(
                "More than one primary monitor provided",
            ),
            ValidationError::NoValidArguments => String::from_str(
                "No valid arguments provided for current monitor setup",
            ),
            ValidationError::RefuseBlackout => String::from_str(
                "Refusing to turn every monitor off",
            ),
        }
    }
}

} // verus!
