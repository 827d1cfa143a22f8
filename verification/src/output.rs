//! The command builder: turns an ordered list of monitor/directive pairs into
//! the argument groups for the external display-configuration command.
//!
//! Groups come out in the order they must be applied: first one standalone
//! `--off` group per force-cycled monitor, then a single trailing group that
//! carries every monitor's flags.  Within that group a running accumulator
//! chains the X offsets left to right; a monitor's horizontal extent is its
//! width, or its height when it is rotated a quarter turn.

use vstd::prelude::*;
use vstd::string::StringExecFns;

use crate::layout::{Layout, Rotation};
use crate::monitors::{Monitor, MonitorView};
use crate::text::{dec_int, dims_token, dims_string};

verus! {

/// A monitor joined with the directive that configures it; `None` means no
/// directive was given and the monitor is to be powered off.
#[derive(Debug)]
pub struct MonitorLayoutPair {
    pub monitor: Monitor,
    pub layout: Option<Layout>,
}

pub ghost struct PairView {
    pub monitor: MonitorView,
    pub layout: Option<Layout>,
}

impl View for MonitorLayoutPair {
    type V = PairView;

    open spec fn view(&self) -> PairView {
        PairView { monitor: self.monitor@, layout: self.layout }
    }
}

impl MonitorLayoutPair {
    pub fn new(monitor: Monitor, layout: Option<Layout>) -> (r: Self)
        ensures
            r.monitor == monitor,
            r.layout == layout,
    {
        MonitorLayoutPair { monitor, layout }
    }
}

pub open spec fn views_of(ps: Seq<MonitorLayoutPair>) -> Seq<PairView> {
    ps.map_values(|p: MonitorLayoutPair| p@)
}

/// The flag value naming a rotation.
pub open spec fn spec_rot_name(r: Rotation) -> Seq<char> {
    match r {
        Rotation::Normal => "normal"@,
        Rotation::Left => "left"@,
        Rotation::Right => "right"@,
        Rotation::Inverted => "inverted"@,
    }
}

fn rot_name(r: Rotation) -> (s: &'static str)
    ensures
        s@ == spec_rot_name(r),
{
    match r {
        Rotation::Normal => "normal",
        Rotation::Left => "left",
        Rotation::Right => "right",
        Rotation::Inverted => "inverted",
    }
}

/// How much of the horizontal axis the monitor occupies: its width, or its
/// height when a quarter-turn rotation puts the height on the X axis.
pub open spec fn horizontal_extent(l: Layout, m: MonitorView) -> int {
    match l.rotation {
        Rotation::Normal | Rotation::Inverted => m.width,
        Rotation::Left | Rotation::Right => m.height,
    }
}

/// The X position an item is placed at: its explicit position if given, else
/// the running accumulator.
pub open spec fn resolved_x(acc_x: int, l: Layout) -> int {
    match l.position.0 {
        Some(x) => x as int,
        None => acc_x,
    }
}

/// The Y position an item is placed at: its explicit position if given, else
/// the Y the previous item resolved to.
pub open spec fn resolved_y(acc_y: int, l: Layout) -> int {
    match l.position.1 {
        Some(y) => y as int,
        None => acc_y,
    }
}

/// The X accumulator after an item: advanced by the monitor's horizontal
/// extent for configured items, untouched for powered-off ones.
pub open spec fn next_x(acc_x: int, p: PairView) -> int {
    match p.layout {
        Some(l) => acc_x + horizontal_extent(l, p.monitor),
        None => acc_x,
    }
}

/// The Y accumulator after an item: the Y it resolved to, so that the next
/// item without an explicit Y inherits it.
pub open spec fn next_y(acc_y: int, p: PairView) -> int {
    match p.layout {
        Some(l) => resolved_y(acc_y, l),
        None => acc_y,
    }
}

/// The flags one item contributes to the trailing group.
pub open spec fn item_tokens(p: PairView, acc_x: int, acc_y: int) -> Seq<Seq<char>> {
    match p.layout {
        Some(l) => seq![
            "--output"@,
            p.monitor.link,
            "--rotation"@,
            spec_rot_name(l.rotation),
            "--pos"@,
            dims_token(resolved_x(acc_x, l), resolved_y(acc_y, l)),
            "--mode"@,
            dims_token(p.monitor.width, p.monitor.height),
            "--auto"@,
        ],
        None => seq!["--output"@, p.monitor.link, "--off"@],
    }
}

/// The trailing group: every item's flags in order, with the X and Y
/// accumulators threaded through.
pub open spec fn main_group(ps: Seq<PairView>, acc_x: int, acc_y: int) -> Seq<Seq<char>>
    decreases ps.len(),
{
    if ps.len() == 0 {
        Seq::empty()
    } else {
        item_tokens(ps[0], acc_x, acc_y) + main_group(
            ps.drop_first(),
            next_x(acc_x, ps[0]),
            next_y(acc_y, ps[0]),
        )
    }
}

pub open spec fn is_forced(p: PairView) -> bool {
    match p.layout {
        Some(l) => l.force,
        None => false,
    }
}

/// The standalone group that powers one monitor off.
pub open spec fn spec_off_group(link: Seq<char>) -> Seq<Seq<char>> {
    seq!["--output"@, link, "--off"@]
}

/// One standalone off-group per force-cycled item, in item order.
pub open spec fn off_groups(ps: Seq<PairView>) -> Seq<Seq<Seq<char>>>
    decreases ps.len(),
{
    if ps.len() == 0 {
        Seq::empty()
    } else if is_forced(ps[0]) {
        seq![spec_off_group(ps[0].monitor.link)] + off_groups(ps.drop_first())
    } else {
        off_groups(ps.drop_first())
    }
}

/// Everything the builder emits: the off-groups, then the trailing group,
/// with both accumulators starting at zero.
pub open spec fn build_args_spec(ps: Seq<PairView>) -> Seq<Seq<Seq<char>>> {
    off_groups(ps).push(main_group(ps, 0, 0))
}

/// The running X offset stays representable along the whole chain.
pub open spec fn chain_fits(ps: Seq<PairView>, acc_x: int) -> bool
    decreases ps.len(),
{
    ps.len() == 0 || {
        let nx = next_x(acc_x, ps[0]);
        i32::MIN <= nx <= i32::MAX && chain_fits(ps.drop_first(), nx)
    }
}

/// Builds the argument groups, or reports that the X offsets outgrow an
/// `i32` somewhere along the chain.
pub fn build_args_checked(pairs: &Vec<MonitorLayoutPair>) -> (r: Option<Vec<Vec<String>>>)
    ensures
        match r {
            Some(groups) => chain_fits(views_of(pairs@), 0) && groups.deep_view()
                == build_args_spec(views_of(pairs@)),
            None => !chain_fits(views_of(pairs@), 0),
        },
{
    let ghost ps = views_of(pairs@);
    let n: usize = pairs.len();
    let mut all_args: Vec<Vec<String>> = Vec::new();
    let mut k: usize = 0;
    proof {
        assert(ps.skip(0) =~= ps);
        assert(all_args.deep_view() + off_groups(ps) =~~= off_groups(ps));
    }
    while k < n
        invariant
            k <= n,
            n == pairs.len(),
            ps == views_of(pairs@),
            all_args.deep_view() + off_groups(ps.skip(k as int)) =~~= off_groups(ps),
        decreases n - k,
    {
        proof {
            assert(ps.skip(k as int).len() > 0);
            assert(ps.skip(k as int)[0] == ps[k as int]);
            assert(ps.skip(k as int).drop_first() =~= ps.skip(k as int + 1));
        }
        let forced: bool = match &pairs[k].layout {
            Some(l) => l.force,
            None => false,
        };
        if forced {
            let mut g: Vec<String> = Vec::new();
            g.push(String::from_str("--output"));
            g.push(pairs[k].monitor.link.clone());
            g.push(String::from_str("--off"));
            proof {
                assert(g.deep_view() =~= spec_off_group(ps[k as int].monitor.link));
            }
            all_args.push(g);
        }
        k = k + 1;
        proof {
            assert(all_args.deep_view() + off_groups(ps.skip(k as int)) =~~= off_groups(ps));
        }
    }
    proof {
        assert(ps.skip(n as int) =~= Seq::<PairView>::empty());
        assert(all_args.deep_view() =~~= off_groups(ps));
    }
    let mut args: Vec<String> = Vec::new();
    let mut acc_x: i32 = 0;
    let mut acc_y: i32 = 0;
    let mut k: usize = 0;
    proof {
        assert(ps.skip(0) =~= ps);
        assert(args.deep_view() + main_group(ps, 0, 0) =~~= main_group(ps, 0, 0));
    }
    while k < n
        invariant
            k <= n,
            n == pairs.len(),
            ps == views_of(pairs@),
            all_args.deep_view() =~~= off_groups(ps),
            args.deep_view() + main_group(ps.skip(k as int), acc_x as int, acc_y as int)
                =~~= main_group(ps, 0, 0),
            chain_fits(ps, 0) == chain_fits(ps.skip(k as int), acc_x as int),
        decreases n - k,
    {
        proof {
            assert(ps.skip(k as int).len() > 0);
            assert(ps.skip(k as int)[0] == ps[k as int]);
            assert(ps.skip(k as int).drop_first() =~= ps.skip(k as int + 1));
        }
        let ghost old_args = args.deep_view();
        match &pairs[k].layout {
            None => {
                args.push(String::from_str("--output"));
                args.push(pairs[k].monitor.link.clone());
                args.push(String::from_str("--off"));
                proof {
                    assert(args.deep_view() =~~= old_args + item_tokens(
                        ps[k as int],
                        acc_x as int,
                        acc_y as int,
                    ));
                }
            },
            Some(l) => {
                let rx: i32 = match l.position.0 {
                    Some(x) => x,
                    None => acc_x,
                };
                let ry: i32 = match l.position.1 {
                    Some(y) => y,
                    None => acc_y,
                };
                args.push(String::from_str("--output"));
                args.push(pairs[k].monitor.link.clone());
                args.push(String::from_str("--rotation"));
                args.push(String::from_str(rot_name(l.rotation)));
                args.push(String::from_str("--pos"));
                args.push(dims_string(rx, ry));
                args.push(String::from_str("--mode"));
                args.push(dims_string(pairs[k].monitor.width, pairs[k].monitor.height));
                args.push(String::from_str("--auto"));
                proof {
                    assert(args.deep_view() =~~= old_args + item_tokens(
                        ps[k as int],
                        acc_x as int,
                        acc_y as int,
                    ));
                }
                let ext: i32 = match l.rotation {
                    Rotation::Normal | Rotation::Inverted => pairs[k].monitor.width,
                    Rotation::Left | Rotation::Right => pairs[k].monitor.height,
                };
                match acc_x.checked_add(ext) {
                    Some(nx) => {
                        acc_x = nx;
                    },
                    None => {
                        return None;
                    },
                }
                acc_y = ry;
            },
        }
        k = k + 1;
        proof {
            assert(args.deep_view() + main_group(ps.skip(k as int), acc_x as int, acc_y as int)
                =~~= main_group(ps, 0, 0));
        }
    }
    proof {
        assert(ps.skip(n as int) =~= Seq::<PairView>::empty());
        assert(args.deep_view() =~~= main_group(ps, 0, 0));
        assert(chain_fits(ps.skip(n as int), acc_x as int));
    }
    all_args.push(args);
    proof {
        assert(all_args.deep_view() =~~= build_args_spec(ps));
    }
    Some(all_args)
}

/// The accumulators after a run of items that started at `x`, `y`.
pub open spec fn accs_after(ps: Seq<PairView>, x: int, y: int) -> (int, int)
    decreases ps.len(),
{
    if ps.len() == 0 {
        (x, y)
    } else {
        accs_after(ps.drop_first(), next_x(x, ps[0]), next_y(y, ps[0]))
    }
}

/// The accumulators the builder holds when it reaches item `i`.
pub open spec fn accs_at(ps: Seq<PairView>, i: int) -> (int, int) {
    accs_after(ps.take(i), 0, 0)
}

/// The trailing group decomposes around any split of the item list, with the
/// accumulators carried across the split.
pub proof fn lemma_main_group_append(a: Seq<PairView>, b: Seq<PairView>, x: int, y: int)
    ensures
        main_group(a + b, x, y) == main_group(a, x, y) + main_group(
            b,
            accs_after(a, x, y).0,
            accs_after(a, x, y).1,
        ),
    decreases a.len(),
{
    if a.len() == 0 {
        assert(a + b =~= b);
        assert(main_group(a, x, y) + main_group(b, x, y) =~= main_group(b, x, y));
    } else {
        assert((a + b)[0] == a[0]);
        assert((a + b).drop_first() =~= a.drop_first() + b);
        lemma_main_group_append(a.drop_first(), b, next_x(x, a[0]), next_y(y, a[0]));
        assert(main_group(a + b, x, y) =~= main_group(a, x, y) + main_group(
            b,
            accs_after(a, x, y).0,
            accs_after(a, x, y).1,
        ));
    }
}

/// A monitor turned a quarter-turn (`Left` or `Right`) contributes its
/// height, any other its width, to the X offset of the item that follows.
pub proof fn lemma_rotation_extent(acc_x: int, p: PairView, l: Layout)
    requires
        p.layout == Some(l),
    ensures
        (l.rotation == Rotation::Left || l.rotation == Rotation::Right) ==> next_x(acc_x, p)
            == acc_x + p.monitor.height,
        (l.rotation == Rotation::Normal || l.rotation == Rotation::Inverted) ==> next_x(acc_x, p)
            == acc_x + p.monitor.width,
{
}

proof fn lemma_off_groups_has(ps: Seq<PairView>, i: int)
    requires
        0 <= i < ps.len(),
        is_forced(ps[i]),
    ensures
        exists|g: int|
            0 <= g < off_groups(ps).len() && off_groups(ps)[g] == spec_off_group(
                ps[i].monitor.link,
            ),
    decreases i,
{
    if i == 0 {
        assert(off_groups(ps)[0] == spec_off_group(ps[0].monitor.link));
    } else {
        assert(ps.drop_first()[i - 1] == ps[i]);
        lemma_off_groups_has(ps.drop_first(), i - 1);
        let g0 = choose|g: int|
            0 <= g < off_groups(ps.drop_first()).len() && off_groups(ps.drop_first())[g]
                == spec_off_group(ps[i].monitor.link);
        if is_forced(ps[0]) {
            assert(off_groups(ps)[g0 + 1] == spec_off_group(ps[i].monitor.link));
        } else {
            assert(off_groups(ps)[g0] == spec_off_group(ps[i].monitor.link));
        }
    }
}

/// When a directive forces a power cycle, the builder's output holds a
/// standalone off-group for that monitor strictly before the trailing group,
/// and the trailing group carries the monitor's configuration flags.
pub proof fn lemma_force_sequencing(ps: Seq<PairView>, i: int)
    requires
        0 <= i < ps.len(),
        is_forced(ps[i]),
    ensures
        ({
            let groups = build_args_spec(ps);
            &&& groups.len() >= 1
            &&& exists|g: int|
                0 <= g < groups.len() - 1 && groups[g] == spec_off_group(ps[i].monitor.link)
            &&& exists|ofs: int|
                0 <= ofs && ofs + 9 <= groups.last().len() && #[trigger] groups.last().subrange(
                    ofs,
                    ofs + 9,
                ) == item_tokens(ps[i], accs_at(ps, i).0, accs_at(ps, i).1)
        }),
{
    lemma_off_groups_has(ps, i);
    assert(ps.take(i) + ps.skip(i) =~= ps);
    lemma_main_group_append(ps.take(i), ps.skip(i), 0, 0);
    let ax = accs_at(ps, i).0;
    let ay = accs_at(ps, i).1;
    assert(ps.skip(i)[0] == ps[i]);
    assert(ps[i].layout is Some);
    let ofs = main_group(ps.take(i), 0, 0).len() as int;
    assert(item_tokens(ps[i], ax, ay).len() == 9);
    assert(main_group(ps, 0, 0).subrange(ofs, ofs + 9) =~= item_tokens(ps[i], ax, ay));
    let groups = build_args_spec(ps);
    assert(groups.last() == main_group(ps, 0, 0));
    let g0 = choose|g: int|
        0 <= g < off_groups(ps).len() && off_groups(ps)[g] == spec_off_group(ps[i].monitor.link);
    assert(groups[g0] == spec_off_group(ps[i].monitor.link));
    assert(0 <= g0 < groups.len() - 1 && groups[g0] == spec_off_group(ps[i].monitor.link));
    assert(0 <= ofs && ofs + 9 <= groups.last().len() && groups.last().subrange(ofs, ofs + 9)
        == item_tokens(ps[i], accs_at(ps, i).0, accs_at(ps, i).1));
}

/// Builds the argument groups for a chain the accumulator is known to fit.
pub fn build_args(pairs: &Vec<MonitorLayoutPair>) -> (r: Vec<Vec<String>>)
    requires
        chain_fits(views_of(pairs@), 0),
    ensures
        r.deep_view() == build_args_spec(views_of(pairs@)),
{
    match build_args_checked(pairs) {
        Some(groups) => groups,
        None => {
            proof {
                assert(false);
            }
            Vec::new()
        },
    }
}

} // verus!
