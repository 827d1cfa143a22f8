//! The directive parser.
//!
//! A directive is a compact string describing how one monitor should be
//! configured: a mandatory decimal monitor index, then in any order at most
//! one rotation letter (`n`/`r`/`i`/`l`, either case), at most one `x` and one
//! `y` each followed by a signed decimal position, and the flags `f` (force a
//! power cycle) and `p` (primary), either case.  Anything else is rejected.

use vstd::prelude::*;
use vstd::string::StrSliceExecFns;

use crate::chars::{digit_run_len, digits_val, is_digit_char, lemma_digit_run_all,
    lemma_digit_run_len_is, lemma_digit_run_len_le, lemma_digits_val_bounds, scan_digits,
    spec_is_digit};

verus! {

broadcast use lemma_digit_run_len_le;

/// How a monitor is rotated; `Left` and `Right` swap its width and height.
#[derive(Debug, Clone, Copy, PartialEq, Eq, Structural)]
pub enum Rotation {
    Normal,
    Left,
    Right,
    Inverted,
}

/// One parsed directive.
#[derive(Debug, Clone, Copy, PartialEq)]
pub struct Layout {
    pub mon_idx: i32,
    pub rotation: Rotation,
    /// Explicit x and y positions; `None` means "compute from the chain".
    pub position: (Option<i32>, Option<i32>),
    pub force: bool,
    pub primary: bool,
}

/// Why a directive string was rejected.
#[derive(Debug, Clone, Copy, PartialEq, Eq, Structural)]
pub enum ParseError {
    /// The string does not begin with a decimal monitor index.
    MissingMonitorIndex,
    /// More than one rotation letter was given.
    AmbiguousRotation,
    /// An `x`/`y` payload or the index is not a decimal number that fits.
    InvalidNumber,
    /// A character that belongs to no field, or a repeated field.
    TrailingGarbage,
}

/// The rotation a single letter stands for, if any.
pub open spec fn spec_rot_char(c: char) -> Option<Rotation> {
    if c == 'n' || c == 'N' {
        Some(Rotation::Normal)
    } else if c == 'r' || c == 'R' {
        Some(Rotation::Right)
    } else if c == 'i' || c == 'I' {
        Some(Rotation::Inverted)
    } else if c == 'l' || c == 'L' {
        Some(Rotation::Left)
    } else {
        None
    }
}

/// A signed decimal number at the head of `s`: its value and how many
/// characters it occupies.  `None` when there is no digit or the value does
/// not fit an `i32`.
pub open spec fn spec_number(s: Seq<char>) -> Option<(int, int)> {
    let neg = s.len() > 0 && s[0] == '-';
    let body = if neg {
        s.drop_first()
    } else {
        s
    };
    let k = digit_run_len(body) as int;
    if k == 0 {
        None
    } else {
        let mag = digits_val(body.take(k));
        let v = if neg {
            -mag
        } else {
            mag
        };
        if v < i32::MIN || v > i32::MAX {
            None
        } else {
            Some((v, if neg { k + 1 } else { k }))
        }
    }
}

/// Scanner state: the fields gathered so far, plus whether a rotation letter
/// was already seen (needed because `n` sets the default value again).
#[derive(Clone, Copy)]
pub struct ScanState {
    pub layout: Layout,
    pub rot_seen: bool,
}

pub open spec fn initial_state(mon_idx: i32) -> ScanState {
    ScanState {
        layout: Layout {
            mon_idx: mon_idx,
            rotation: Rotation::Normal,
            position: (None, None),
            force: false,
            primary: false,
        },
        rot_seen: false,
    }
}

/// One scanner step per field: what the tail of a directive after the leading
/// digits means, given the fields gathered so far.
pub open spec fn scan_tail(s: Seq<char>, st: ScanState) -> Result<Layout, ParseError>
    decreases s.len(),
{
    if s.len() == 0 {
        Ok(st.layout)
    } else {
        let c = s[0];
        match spec_rot_char(c) {
            Some(rot) => {
                if st.rot_seen {
                    Err(ParseError::AmbiguousRotation)
                } else {
                    scan_tail(
                        s.drop_first(),
                        ScanState {
                            layout: Layout {
                                mon_idx: st.layout.mon_idx,
                                rotation: rot,
                                position: st.layout.position,
                                force: st.layout.force,
                                primary: st.layout.primary,
                            },
                            rot_seen: true,
                        },
                    )
                }
            },
            None => {
                if c == 'x' {
                    if st.layout.position.0 is Some {
                        Err(ParseError::TrailingGarbage)
                    } else {
                        match spec_number(s.drop_first()) {
                            None => Err(ParseError::InvalidNumber),
                            Some(vk) => scan_tail(
                                s.skip(1 + vk.1),
                                ScanState {
                                    layout: Layout {
                                        mon_idx: st.layout.mon_idx,
                                        rotation: st.layout.rotation,
                                        position: (Some(vk.0 as i32), st.layout.position.1),
                                        force: st.layout.force,
                                        primary: st.layout.primary,
                                    },
                                    rot_seen: st.rot_seen,
                                },
                            ),
                        }
                    }
                } else if c == 'y' {
                    if st.layout.position.1 is Some {
                        Err(ParseError::TrailingGarbage)
                    } else {
                        match spec_number(s.drop_first()) {
                            None => Err(ParseError::InvalidNumber),
                            Some(vk) => scan_tail(
                                s.skip(1 + vk.1),
                                ScanState {
                                    layout: Layout {
                                        mon_idx: st.layout.mon_idx,
                                        rotation: st.layout.rotation,
                                        position: (st.layout.position.0, Some(vk.0 as i32)),
                                        force: st.layout.force,
                                        primary: st.layout.primary,
                                    },
                                    rot_seen: st.rot_seen,
                                },
                            ),
                        }
                    }
                } else if c == 'f' || c == 'F' {
                    if st.layout.force {
                        Err(ParseError::TrailingGarbage)
                    } else {
                        scan_tail(
                            s.drop_first(),
                            ScanState {
                                layout: Layout {
                                    mon_idx: st.layout.mon_idx,
                                    rotation: st.layout.rotation,
                                    position: st.layout.position,
                                    force: true,
                                    primary: st.layout.primary,
                                },
                                rot_seen: st.rot_seen,
                            },
                        )
                    }
                } else if c == 'p' || c == 'P' {
                    if st.layout.primary {
                        Err(ParseError::TrailingGarbage)
                    } else {
                        scan_tail(
                            s.drop_first(),
                            ScanState {
                                layout: Layout {
                                    mon_idx: st.layout.mon_idx,
                                    rotation: st.layout.rotation,
                                    position: st.layout.position,
                                    force: st.layout.force,
                                    primary: true,
                                },
                                rot_seen: st.rot_seen,
                            },
                        )
                    }
                } else {
                    Err(ParseError::TrailingGarbage)
                }
            },
        }
    }
}

/// What parsing a whole directive string yields.
pub open spec fn spec_parse(s: Seq<char>) -> Result<Layout, ParseError> {
    if s.len() == 0 || !spec_is_digit(s[0]) {
        Err(ParseError::MissingMonitorIndex)
    } else {
        let k = digit_run_len(s) as int;
        let v = digits_val(s.take(k));
        if v > i32::MAX {
            Err(ParseError::InvalidNumber)
        } else {
            scan_tail(s.skip(k), initial_state(v as i32))
        }
    }
}

fn rot_char_of(c: char) -> (r: Option<Rotation>)
    ensures
        r == spec_rot_char(c),
{
    if c == 'n' || c == 'N' {
        Some(Rotation::Normal)
    } else if c == 'r' || c == 'R' {
        Some(Rotation::Right)
    } else if c == 'i' || c == 'I' {
        Some(Rotation::Inverted)
    } else if c == 'l' || c == 'L' {
        Some(Rotation::Left)
    } else {
        None
    }
}

/// Scans a signed decimal number of `s` that starts at `start`; returns its
/// value and the position just past it, or `None` as `spec_number` says.
fn scan_signed(s: &str, start: usize, n: usize) -> (r: Option<(i32, usize)>)
    requires
        start <= n,
        n == s@.len(),
    ensures
        ({
            let m = spec_number(s@.skip(start as int));
            match r {
                None => m is None,
                Some(p) => start < p.1 <= n && m == Some((p.0 as int, p.1 - start as int)),
            }
        }),
{
    let ghost t = s@.skip(start as int);
    let mut neg: bool = false;
    let mut j: usize = start;
    if j < n {
        let c: char = s.get_char(j);
        if c == '-' {
            neg = true;
            j = j + 1;
        }
    }
    proof {
        assert(t.len() > 0 ==> t[0] == s@[start as int]);
        if neg {
            assert(t.drop_first() =~= s@.skip(j as int));
        } else {
            assert(t =~= s@.skip(j as int));
        }
    }
    let (end, mag): (usize, u64) = scan_digits(s, j, n);
    proof {
        assert(s@.skip(j as int).take(end - j) =~= s@.subrange(j as int, end as int));
    }
    if end == j {
        return None;
    }
    if neg {
        if mag > 0x8000_0000u64 {
            None
        } else if mag == 0x8000_0000u64 {
            Some((i32::MIN, end))
        } else {
            Some((-(mag as i32), end))
        }
    } else {
        if mag > 0x7FFF_FFFFu64 {
            None
        } else {
            Some((mag as i32, end))
        }
    }
}

impl Layout {
    /// Parses one directive string.
    pub fn new(opt: &str) -> (r: Result<Layout, ParseError>)
        ensures
            r == spec_parse(opt@),
    {
        let ghost s = opt@;
        let n: usize = opt.unicode_len();
        if n == 0 {
            return Err(ParseError::MissingMonitorIndex);
        }
        if !is_digit_char(opt.get_char(0)) {
            return Err(ParseError::MissingMonitorIndex);
        }
        proof {
            assert(s.skip(0) =~= s);
        }
        let (idx_end, idx_mag): (usize, u64) = scan_digits(opt, 0, n);
        proof {
            assert(s.subrange(0, idx_end as int) =~= s.take(digit_run_len(s) as int));
        }
        if idx_mag > 0x7FFF_FFFFu64 {
            return Err(ParseError::InvalidNumber);
        }
        let mut st: ScanState = ScanState {
            layout: Layout {
                mon_idx: idx_mag as i32,
                rotation: Rotation::Normal,
                position: (None, None),
                force: false,
                primary: false,
            },
            rot_seen: false,
        };
        let mut i: usize = idx_end;
        proof {
            assert(st == initial_state(idx_mag as i32));
            assert(scan_tail(s.skip(i as int), st) == spec_parse(s));
        }
        loop
            invariant
                i <= n,
                n == s.len(),
                s == opt@,
                scan_tail(s.skip(i as int), st) == spec_parse(s),
            ensures
                i == n,
            decreases n - i,
        {
            if i >= n {
                break;
            }
            let c: char = opt.get_char(i);
            proof {
                assert(s.skip(i as int).len() > 0);
                assert(s.skip(i as int)[0] == s[i as int]);
                assert(s.skip(i as int).drop_first() =~= s.skip(i as int + 1));
            }
            match rot_char_of(c) {
                Some(rot) => {
                    if st.rot_seen {
                        return Err(ParseError::AmbiguousRotation);
                    }
                    st = ScanState {
                        layout: Layout {
                            mon_idx: st.layout.mon_idx,
                            rotation: rot,
                            position: st.layout.position,
                            force: st.layout.force,
                            primary: st.layout.primary,
                        },
                        rot_seen: true,
                    };
                    i = i + 1;
                },
                None => {
                    if c == 'x' {
                        if st.layout.position.0.is_some() {
                            return Err(ParseError::TrailingGarbage);
                        }
                        match scan_signed(opt, i + 1, n) {
                            None => {
                                return Err(ParseError::InvalidNumber);
                            },
                            Some((v, end)) => {
                                proof {
                                    assert(s.skip(i as int).skip(1 + (end - (i + 1))) =~= s.skip(
                                        end as int,
                                    ));
                                }
                                st = ScanState {
                                    layout: Layout {
                                        mon_idx: st.layout.mon_idx,
                                        rotation: st.layout.rotation,
                                        position: (Some(v), st.layout.position.1),
                                        force: st.layout.force,
                                        primary: st.layout.primary,
                                    },
                                    rot_seen: st.rot_seen,
                                };
                                i = end;
                            },
                        }
                    } else if c == 'y' {
                        if st.layout.position.1.is_some() {
                            return Err(ParseError::TrailingGarbage);
                        }
                        match scan_signed(opt, i + 1, n) {
                            None => {
                                return Err(ParseError::InvalidNumber);
                            },
                            Some((v, end)) => {
                                proof {
                                    assert(s.skip(i as int).skip(1 + (end - (i + 1))) =~= s.skip(
                                        end as int,
                                    ));
                                }
                                st = ScanState {
                                    layout: Layout {
                                        mon_idx: st.layout.mon_idx,
                                        rotation: st.layout.rotation,
                                        position: (st.layout.position.0, Some(v)),
                                        force: st.layout.force,
                                        primary: st.layout.primary,
                                    },
                                    rot_seen: st.rot_seen,
                                };
                                i = end;
                            },
                        }
                    } else if c == 'f' || c == 'F' {
                        if st.layout.force {
                            return Err(ParseError::TrailingGarbage);
                        }
                        st = ScanState {
                            layout: Layout {
                                mon_idx: st.layout.mon_idx,
                                rotation: st.layout.rotation,
                                position: st.layout.position,
                                force: true,
                                primary: st.layout.primary,
                            },
                            rot_seen: st.rot_seen,
                        };
                        i = i + 1;
                    } else if c == 'p' || c == 'P' {
                        if st.layout.primary {
                            return Err(ParseError::TrailingGarbage);
                        }
                        st = ScanState {
                            layout: Layout {
                                mon_idx: st.layout.mon_idx,
                                rotation: st.layout.rotation,
                                position: st.layout.position,
                                force: st.layout.force,
                                primary: true,
                            },
                            rot_seen: st.rot_seen,
                        };
                        i = i + 1;
                    } else {
                        return Err(ParseError::TrailingGarbage);
                    }
                },
            }
        }
        proof {
            assert(s.skip(n as int) =~= Seq::<char>::empty());
        }
        Ok(st.layout)
    }
}

/// One field of a directive's tail, for stating what well-formed directives
/// mean: a rotation letter, an explicit position, or a flag.
pub enum DirectiveField {
    Rot(Rotation),
    X(i32),
    Y(i32),
    Force,
    Primary,
}

pub open spec fn all_digits(t: Seq<char>) -> bool {
    forall|j: int| 0 <= j < t.len() ==> spec_is_digit(t[j])
}

/// `t` spells the signed decimal number `v`: an optional minus sign, then at
/// least one digit.
pub open spec fn number_text(t: Seq<char>, v: int) -> bool {
    if t.len() > 0 && t[0] == '-' {
        t.len() >= 2 && all_digits(t.drop_first()) && v == -digits_val(t.drop_first())
    } else {
        t.len() >= 1 && all_digits(t) && v == digits_val(t)
    }
}

/// `t` spells the field `f`.
pub open spec fn field_text(t: Seq<char>, f: DirectiveField) -> bool {
    match f {
        DirectiveField::Rot(r) => t.len() == 1 && spec_rot_char(t[0]) == Some(r),
        DirectiveField::X(v) => t.len() >= 2 && t[0] == 'x' && number_text(t.drop_first(), v as int),
        DirectiveField::Y(v) => t.len() >= 2 && t[0] == 'y' && number_text(t.drop_first(), v as int),
        DirectiveField::Force => t.len() == 1 && (t[0] == 'f' || t[0] == 'F'),
        DirectiveField::Primary => t.len() == 1 && (t[0] == 'p' || t[0] == 'P'),
    }
}

pub open spec fn concat_texts(ts: Seq<Seq<char>>) -> Seq<char>
    decreases ts.len(),
{
    if ts.len() == 0 {
        Seq::empty()
    } else {
        ts[0] + concat_texts(ts.drop_first())
    }
}

pub open spec fn field_kind(f: DirectiveField) -> int {
    match f {
        DirectiveField::Rot(_) => 0,
        DirectiveField::X(_) => 1,
        DirectiveField::Y(_) => 2,
        DirectiveField::Force => 3,
        DirectiveField::Primary => 4,
    }
}

/// Each field appears at most once, as the grammar demands.
pub open spec fn distinct_kinds(fs: Seq<DirectiveField>) -> bool {
    forall|i: int, j: int|
        0 <= i < j < fs.len() ==> field_kind(fs[i]) != field_kind(fs[j])
}

/// What one field does to the scanner state.
spec fn apply_field(st: ScanState, f: DirectiveField) -> ScanState {
    match f {
        DirectiveField::Rot(r) => ScanState {
            layout: Layout {
                mon_idx: st.layout.mon_idx,
                rotation: r,
                position: st.layout.position,
                force: st.layout.force,
                primary: st.layout.primary,
            },
            rot_seen: true,
        },
        DirectiveField::X(v) => ScanState {
            layout: Layout {
                mon_idx: st.layout.mon_idx,
                rotation: st.layout.rotation,
                position: (Some(v), st.layout.position.1),
                force: st.layout.force,
                primary: st.layout.primary,
            },
            rot_seen: st.rot_seen,
        },
        DirectiveField::Y(v) => ScanState {
            layout: Layout {
                mon_idx: st.layout.mon_idx,
                rotation: st.layout.rotation,
                position: (st.layout.position.0, Some(v)),
                force: st.layout.force,
                primary: st.layout.primary,
            },
            rot_seen: st.rot_seen,
        },
        DirectiveField::Force => ScanState {
            layout: Layout {
                mon_idx: st.layout.mon_idx,
                rotation: st.layout.rotation,
                position: st.layout.position,
                force: true,
                primary: st.layout.primary,
            },
            rot_seen: st.rot_seen,
        },
        DirectiveField::Primary => ScanState {
            layout: Layout {
                mon_idx: st.layout.mon_idx,
                rotation: st.layout.rotation,
                position: st.layout.position,
                force: st.layout.force,
                primary: true,
            },
            rot_seen: st.rot_seen,
        },
    }
}

spec fn apply_fields(st: ScanState, fs: Seq<DirectiveField>) -> ScanState
    decreases fs.len(),
{
    if fs.len() == 0 {
        st
    } else {
        apply_fields(apply_field(st, fs[0]), fs.drop_first())
    }
}

/// The state has not yet seen any of the fields in `fs`.
spec fn st_admits(st: ScanState, fs: Seq<DirectiveField>) -> bool {
    forall|i: int|
        0 <= i < fs.len() ==> (match #[trigger] fs[i] {
            DirectiveField::Rot(_) => !st.rot_seen,
            DirectiveField::X(_) => st.layout.position.0 is None,
            DirectiveField::Y(_) => st.layout.position.1 is None,
            DirectiveField::Force => !st.layout.force,
            DirectiveField::Primary => !st.layout.primary,
        })
}

/// A digit run followed by anything that starts with a non-digit is exactly
/// the digits.
proof fn lemma_digit_run_concat(d: Seq<char>, rest: Seq<char>)
    requires
        all_digits(d),
        rest.len() == 0 || !spec_is_digit(rest[0]),
    ensures
        digit_run_len(d + rest) == d.len(),
        digits_val((d + rest).take(d.len() as int)) == digits_val(d),
{
    assert(forall|j: int| 0 <= j < d.len() ==> (d + rest)[j] == d[j]);
    if rest.len() > 0 {
        assert((d + rest)[d.len() as int] == rest[0]);
    }
    lemma_digit_run_len_is(d + rest, d.len() as int);
    assert((d + rest).take(d.len() as int) =~= d);
}

/// A number text at the head of a string is scanned as that number, when the
/// text that follows starts with no digit.
proof fn lemma_number_at(t: Seq<char>, v: int, rest: Seq<char>)
    requires
        number_text(t, v),
        i32::MIN <= v <= i32::MAX,
        rest.len() == 0 || !spec_is_digit(rest[0]),
    ensures
        spec_number(t + rest) == Some((v, t.len() as int)),
{
    let w = t + rest;
    assert(w[0] == t[0]);
    if t[0] == '-' {
        assert(w.drop_first() =~= t.drop_first() + rest);
        lemma_digit_run_concat(t.drop_first(), rest);
        lemma_digits_val_bounds(t.drop_first());
        assert(!spec_is_digit('-'));
        assert(w.len() > 0 && w[0] == '-');
        assert(digit_run_len(w.drop_first()) == t.len() - 1);
    } else {
        assert(!(w.len() > 0 && w[0] == '-'));
        lemma_digit_run_concat(t, rest);
        lemma_digits_val_bounds(t);
        assert(digit_run_len(w) == t.len());
        assert(w.take(t.len() as int) =~= t);
    }
}

/// Scanning the concatenation of one text per yet-unseen field, each field at
/// most once, succeeds and applies exactly those fields, whatever their order.
proof fn lemma_scan_fields(ts: Seq<Seq<char>>, fs: Seq<DirectiveField>, st: ScanState)
    requires
        ts.len() == fs.len(),
        forall|i: int| 0 <= i < fs.len() ==> field_text(#[trigger] ts[i], fs[i]),
        distinct_kinds(fs),
        st_admits(st, fs),
    ensures
        scan_tail(concat_texts(ts), st) == Ok::<Layout, ParseError>(apply_fields(st, fs).layout),
    decreases fs.len(),
{
    if fs.len() == 0 {
        assert(concat_texts(ts) =~= Seq::<char>::empty());
    } else {
        let t0 = ts[0];
        let f0 = fs[0];
        let rest = concat_texts(ts.drop_first());
        let whole = concat_texts(ts);
        assert(field_text(t0, f0));
        assert(t0.len() >= 1);
        assert(whole == t0 + rest);
        assert(whole[0] == t0[0]);
        let ts1 = ts.drop_first();
        let fs1 = fs.drop_first();
        assert forall|i: int| 0 <= i < fs1.len() implies field_text(#[trigger] ts1[i], fs1[i]) by {
            assert(ts1[i] == ts[i + 1]);
            assert(fs1[i] == fs[i + 1]);
        }
        assert forall|i: int, j: int| 0 <= i < j < fs1.len() implies field_kind(fs1[i])
            != field_kind(fs1[j]) by {
            assert(fs1[i] == fs[i + 1]);
            assert(fs1[j] == fs[j + 1]);
        }
        let st1 = apply_field(st, f0);
        assert forall|i: int|
            0 <= i < fs1.len() implies (match #[trigger] fs1[i] {
            DirectiveField::Rot(_) => !st1.rot_seen,
            DirectiveField::X(_) => st1.layout.position.0 is None,
            DirectiveField::Y(_) => st1.layout.position.1 is None,
            DirectiveField::Force => !st1.layout.force,
            DirectiveField::Primary => !st1.layout.primary,
        }) by {
            assert(fs1[i] == fs[i + 1]);
            assert(field_kind(fs[0]) != field_kind(fs[i + 1]));
        }
        if fs1.len() > 0 {
            assert(field_text(ts1[0], fs1[0]));
            assert(rest[0] == ts1[0][0]);
            assert(!spec_is_digit(rest[0]));
        }
        lemma_scan_fields(ts1, fs1, st1);
        match f0 {
            DirectiveField::Rot(r) => {
                assert(spec_rot_char(whole[0]) == Some(r));
                assert(!st.rot_seen);
                assert(whole.drop_first() =~= rest);
            },
            DirectiveField::X(v) => {
                assert(whole[0] == 'x');
                assert(spec_rot_char('x') is None);
                assert(st.layout.position.0 is None);
                assert(whole.drop_first() =~= t0.drop_first() + rest);
                lemma_number_at(t0.drop_first(), v as int, rest);
                assert(spec_number(whole.drop_first()) == Some((v as int, t0.len() - 1)));
                assert(whole.skip(1 + (t0.len() - 1)) =~= rest);
            },
            DirectiveField::Y(v) => {
                assert(whole[0] == 'y');
                assert(spec_rot_char('y') is None);
                assert(st.layout.position.1 is None);
                assert(whole.drop_first() =~= t0.drop_first() + rest);
                lemma_number_at(t0.drop_first(), v as int, rest);
                assert(spec_number(whole.drop_first()) == Some((v as int, t0.len() - 1)));
                assert(whole.skip(1 + (t0.len() - 1)) =~= rest);
            },
            DirectiveField::Force => {
                assert(whole[0] == 'f' || whole[0] == 'F');
                assert(spec_rot_char(whole[0]) is None);
                assert(!st.layout.force);
                assert(whole.drop_first() =~= rest);
            },
            DirectiveField::Primary => {
                assert(whole[0] == 'p' || whole[0] == 'P');
                assert(spec_rot_char(whole[0]) is None);
                assert(!st.layout.primary);
                assert(whole.drop_first() =~= rest);
            },
        }
    }
}

/// Applying each field at most once sets exactly the fields present and
/// leaves the rest at their prior values, whatever the order.
proof fn lemma_apply_fields_props(st: ScanState, fs: Seq<DirectiveField>)
    requires
        distinct_kinds(fs),
    ensures
        apply_fields(st, fs).layout.mon_idx == st.layout.mon_idx,
        (forall|i: int| 0 <= i < fs.len() ==> !(#[trigger] fs[i] is Rot)) ==> apply_fields(
            st,
            fs,
        ).layout.rotation == st.layout.rotation,
        forall|i: int|
            0 <= i < fs.len() ==> (#[trigger] fs[i] matches DirectiveField::Rot(r) ==> apply_fields(
                st,
                fs,
            ).layout.rotation == r),
        (forall|i: int| 0 <= i < fs.len() ==> !(#[trigger] fs[i] is X)) ==> apply_fields(
            st,
            fs,
        ).layout.position.0 == st.layout.position.0,
        forall|i: int|
            0 <= i < fs.len() ==> (#[trigger] fs[i] matches DirectiveField::X(v) ==> apply_fields(
                st,
                fs,
            ).layout.position.0 == Some(v)),
        (forall|i: int| 0 <= i < fs.len() ==> !(#[trigger] fs[i] is Y)) ==> apply_fields(
            st,
            fs,
        ).layout.position.1 == st.layout.position.1,
        forall|i: int|
            0 <= i < fs.len() ==> (#[trigger] fs[i] matches DirectiveField::Y(v) ==> apply_fields(
                st,
                fs,
            ).layout.position.1 == Some(v)),
        apply_fields(st, fs).layout.force == (st.layout.force || exists|i: int|
            0 <= i < fs.len() && #[trigger] fs[i] is Force),
        apply_fields(st, fs).layout.primary == (st.layout.primary || exists|i: int|
            0 <= i < fs.len() && #[trigger] fs[i] is Primary),
    decreases fs.len(),
{
    if fs.len() > 0 {
        let fs1 = fs.drop_first();
        assert forall|i: int, j: int| 0 <= i < j < fs1.len() implies field_kind(fs1[i])
            != field_kind(fs1[j]) by {
            assert(fs1[i] == fs[i + 1]);
            assert(fs1[j] == fs[j + 1]);
        }
        let st1 = apply_field(st, fs[0]);
        lemma_apply_fields_props(st1, fs1);
        assert(forall|i: int| 0 <= i < fs1.len() ==> #[trigger] fs1[i] == fs[i + 1]);
        assert forall|i: int| 1 <= i < fs.len() implies field_kind(fs[0]) != field_kind(
            #[trigger] fs[i],
        ) by {
            assert(fs1[i - 1] == fs[i]);
        }
        let out = apply_fields(st, fs);
        assert(out == apply_fields(st1, fs1));
        assert forall|i: int|
            0 <= i < fs.len() implies (#[trigger] fs[i] matches DirectiveField::Rot(r)
            ==> out.layout.rotation == r) by {
            if fs[i] is Rot {
                if i == 0 {
                    assert forall|j: int| 0 <= j < fs1.len() implies !(#[trigger] fs1[j]
                        is Rot) by {
                        assert(fs1[j] == fs[j + 1]);
                    }
                    assert(out.layout.rotation == st1.layout.rotation);
                } else {
                    assert(fs1[i - 1] == fs[i]);
                }
            }
        }
        assert forall|i: int|
            0 <= i < fs.len() implies (#[trigger] fs[i] matches DirectiveField::X(v)
            ==> out.layout.position.0 == Some(v)) by {
            if fs[i] is X {
                if i == 0 {
                    assert forall|j: int| 0 <= j < fs1.len() implies !(#[trigger] fs1[j] is X) by {
                        assert(fs1[j] == fs[j + 1]);
                    }
                    assert(out.layout.position.0 == st1.layout.position.0);
                } else {
                    assert(fs1[i - 1] == fs[i]);
                }
            }
        }
        assert forall|i: int|
            0 <= i < fs.len() implies (#[trigger] fs[i] matches DirectiveField::Y(v)
            ==> out.layout.position.1 == Some(v)) by {
            if fs[i] is Y {
                if i == 0 {
                    assert forall|j: int| 0 <= j < fs1.len() implies !(#[trigger] fs1[j] is Y) by {
                        assert(fs1[j] == fs[j + 1]);
                    }
                    assert(out.layout.position.1 == st1.layout.position.1);
                } else {
                    assert(fs1[i - 1] == fs[i]);
                }
            }
        }
        if (exists|i: int| 0 <= i < fs.len() && #[trigger] fs[i] is Force) && !(fs[0] is Force) {
            let w = choose|i: int| 0 <= i < fs.len() && #[trigger] fs[i] is Force;
            assert(fs1[w - 1] is Force);
        }
        if (exists|i: int| 0 <= i < fs1.len() && #[trigger] fs1[i] is Force) {
            let w = choose|i: int| 0 <= i < fs1.len() && #[trigger] fs1[i] is Force;
            assert(fs[w + 1] is Force);
        }
        if (exists|i: int| 0 <= i < fs.len() && #[trigger] fs[i] is Primary) && !(fs[0]
            is Primary) {
            let w = choose|i: int| 0 <= i < fs.len() && #[trigger] fs[i] is Primary;
            assert(fs1[w - 1] is Primary);
        }
        if (exists|i: int| 0 <= i < fs1.len() && #[trigger] fs1[i] is Primary) {
            let w = choose|i: int| 0 <= i < fs1.len() && #[trigger] fs1[i] is Primary;
            assert(fs[w + 1] is Primary);
        }
    }
}

/// A string that does not open with a decimal digit never parses.
pub proof fn lemma_reject_bad_index(s: Seq<char>)
    requires
        s.len() == 0 || !spec_is_digit(s[0]),
    ensures
        spec_parse(s) == Err::<Layout, ParseError>(ParseError::MissingMonitorIndex),
{
}

/// The characters a scanned number occupies: a possible sign, then digits.
proof fn lemma_number_chars(body: Seq<char>, v: int, k: int)
    requires
        spec_number(body) == Some((v, k)),
    ensures
        0 < k <= body.len(),
        forall|p: int| 0 <= p < k ==> (body[p] == '-' || spec_is_digit(#[trigger] body[p])),
{
    let neg = body.len() > 0 && body[0] == '-';
    let b2 = if neg {
        body.drop_first()
    } else {
        body
    };
    lemma_digit_run_all(b2);
    lemma_digit_run_len_le(b2);
    assert forall|p: int| 0 <= p < k implies (body[p] == '-' || spec_is_digit(
        #[trigger] body[p],
    )) by {
        if neg {
            if p > 0 {
                assert(body[p] == b2[p - 1]);
            }
        } else {
            assert(body[p] == b2[p]);
        }
    }
}

spec fn count_rot(s: Seq<char>) -> int
    decreases s.len(),
{
    if s.len() == 0 {
        0
    } else {
        (if spec_rot_char(s[0]) is Some {
            1int
        } else {
            0int
        }) + count_rot(s.drop_first())
    }
}

proof fn lemma_count_rot_nonneg(s: Seq<char>)
    ensures
        count_rot(s) >= 0,
    decreases s.len(),
{
    if s.len() > 0 {
        lemma_count_rot_nonneg(s.drop_first());
    }
}

proof fn lemma_count_rot_concat(a: Seq<char>, b: Seq<char>)
    ensures
        count_rot(a + b) == count_rot(a) + count_rot(b),
    decreases a.len(),
{
    if a.len() == 0 {
        assert(a + b =~= b);
    } else {
        assert((a + b)[0] == a[0]);
        assert((a + b).drop_first() =~= a.drop_first() + b);
        lemma_count_rot_concat(a.drop_first(), b);
    }
}

proof fn lemma_count_rot_none(s: Seq<char>)
    requires
        forall|j: int| 0 <= j < s.len() ==> spec_rot_char(#[trigger] s[j]) is None,
    ensures
        count_rot(s) == 0,
    decreases s.len(),
{
    if s.len() > 0 {
        assert(forall|j: int|
            0 <= j < s.drop_first().len() ==> #[trigger] s.drop_first()[j] == s[j + 1]);
        lemma_count_rot_none(s.drop_first());
    }
}

/// A successful scan consumes at most one rotation letter, counting the one
/// the state may already have seen.
proof fn lemma_scan_rot_bound(s: Seq<char>, st: ScanState)
    requires
        scan_tail(s, st) is Ok,
    ensures
        count_rot(s) + (if st.rot_seen {
            1int
        } else {
            0int
        }) <= 1,
    decreases s.len(),
{
    if s.len() > 0 {
        let c = s[0];
        match spec_rot_char(c) {
            Some(r) => {
                assert(!st.rot_seen);
                let st1 = ScanState {
                    layout: Layout {
                        mon_idx: st.layout.mon_idx,
                        rotation: r,
                        position: st.layout.position,
                        force: st.layout.force,
                        primary: st.layout.primary,
                    },
                    rot_seen: true,
                };
                lemma_scan_rot_bound(s.drop_first(), st1);
            },
            None => {
                if c == 'x' || c == 'y' {
                    match spec_number(s.drop_first()) {
                        Some(vk) => {
                            let k = vk.1;
                            lemma_number_chars(s.drop_first(), vk.0, k);
                            let head = s.take(1 + k);
                            let tail = s.skip(1 + k);
                            assert(head + tail =~= s);
                            lemma_count_rot_concat(head, tail);
                            assert forall|j: int| 0 <= j < head.len() implies spec_rot_char(
                                #[trigger] head[j],
                            ) is None by {
                                if j == 0 {
                                } else {
                                    assert(head[j] == s.drop_first()[j - 1]);
                                }
                            }
                            lemma_count_rot_none(head);
                            let st1 = scan_tail_xy_state(st, c, vk.0 as i32);
                            lemma_scan_rot_bound(tail, st1);
                        },
                        None => {
                            assert(false);
                        },
                    }
                } else if c == 'f' || c == 'F' || c == 'p' || c == 'P' {
                    lemma_scan_rot_bound(
                        s.drop_first(),
                        if c == 'f' || c == 'F' {
                            ScanState {
                                layout: Layout {
                                    mon_idx: st.layout.mon_idx,
                                    rotation: st.layout.rotation,
                                    position: st.layout.position,
                                    force: true,
                                    primary: st.layout.primary,
                                },
                                rot_seen: st.rot_seen,
                            }
                        } else {
                            ScanState {
                                layout: Layout {
                                    mon_idx: st.layout.mon_idx,
                                    rotation: st.layout.rotation,
                                    position: st.layout.position,
                                    force: st.layout.force,
                                    primary: true,
                                },
                                rot_seen: st.rot_seen,
                            }
                        },
                    );
                } else {
                    assert(false);
                }
            },
        }
    }
}

/// The state after an `x` or `y` token, as the scanner builds it.
spec fn scan_tail_xy_state(st: ScanState, c: char, v: i32) -> ScanState {
    if c == 'x' {
        ScanState {
            layout: Layout {
                mon_idx: st.layout.mon_idx,
                rotation: st.layout.rotation,
                position: (Some(v), st.layout.position.1),
                force: st.layout.force,
                primary: st.layout.primary,
            },
            rot_seen: st.rot_seen,
        }
    } else {
        ScanState {
            layout: Layout {
                mon_idx: st.layout.mon_idx,
                rotation: st.layout.rotation,
                position: (st.layout.position.0, Some(v)),
                force: st.layout.force,
                primary: st.layout.primary,
            },
            rot_seen: st.rot_seen,
        }
    }
}

/// A string holding two rotation letters never parses, wherever they stand.
pub proof fn lemma_reject_two_rotations(s: Seq<char>, i: int, j: int)
    requires
        0 <= i < j < s.len(),
        spec_rot_char(s[i]) is Some,
        spec_rot_char(s[j]) is Some,
    ensures
        spec_parse(s) is Err,
{
    if spec_parse(s) is Ok {
        let k = digit_run_len(s) as int;
        lemma_digit_run_all(s);
        lemma_digit_run_len_le(s);
        assert(!spec_is_digit(s[i]));
        assert(i >= k);
        let t = s.skip(k);
        lemma_scan_rot_bound(t, initial_state(digits_val(s.take(k)) as i32));
        let a = t.take(i - k);
        let b = t.subrange(i - k, j - k);
        let d = t.skip(j - k);
        assert(a + b + d =~= t);
        lemma_count_rot_concat(a + b, d);
        lemma_count_rot_concat(a, b);
        lemma_count_rot_nonneg(a);
        lemma_count_rot_nonneg(b.drop_first());
        lemma_count_rot_nonneg(d.drop_first());
        assert(b[0] == s[i]);
        assert(d[0] == s[j]);
        assert(count_rot(b) >= 1);
        assert(count_rot(d) >= 1);
        assert(false);
    }
}

/// A scan that would reach an `x` or `y` whose payload is no in-range number
/// always fails.
proof fn lemma_scan_xy_payload(s: Seq<char>, st: ScanState, i: int)
    requires
        0 <= i < s.len(),
        s[i] == 'x' || s[i] == 'y',
        spec_number(s.skip(i + 1)) is None,
    ensures
        scan_tail(s, st) is Err,
    decreases s.len(),
{
    let c = s[0];
    if i == 0 {
        assert(s.drop_first() =~= s.skip(1));
        assert(spec_rot_char(c) is None);
    } else {
        match spec_rot_char(c) {
            Some(r) => {
                if !st.rot_seen {
                    let st1 = ScanState {
                        layout: Layout {
                            mon_idx: st.layout.mon_idx,
                            rotation: r,
                            position: st.layout.position,
                            force: st.layout.force,
                            primary: st.layout.primary,
                        },
                        rot_seen: true,
                    };
                    assert(s.drop_first()[i - 1] == s[i]);
                    assert(s.drop_first().skip(i) =~= s.skip(i + 1));
                    lemma_scan_xy_payload(s.drop_first(), st1, i - 1);
                }
            },
            None => {
                if c == 'x' || c == 'y' {
                    match spec_number(s.drop_first()) {
                        Some(vk) => {
                            let k = vk.1;
                            lemma_number_chars(s.drop_first(), vk.0, k);
                            assert forall|p: int| 1 <= p < 1 + k implies s[p] != 'x' && s[p]
                                != 'y' by {
                                assert(s[p] == s.drop_first()[p - 1]);
                            }
                            assert(i >= 1 + k);
                            let tail = s.skip(1 + k);
                            assert(tail[i - (1 + k)] == s[i]);
                            assert(tail.skip(i - (1 + k) + 1) =~= s.skip(i + 1));
                            let st1 = scan_tail_xy_state(st, c, vk.0 as i32);
                            lemma_scan_xy_payload(tail, st1, i - (1 + k));
                        },
                        None => {},
                    }
                } else if c == 'f' || c == 'F' {
                    if !st.layout.force {
                        assert(s.drop_first()[i - 1] == s[i]);
                        assert(s.drop_first().skip(i) =~= s.skip(i + 1));
                        lemma_scan_xy_payload(
                            s.drop_first(),
                            ScanState {
                                layout: Layout {
                                    mon_idx: st.layout.mon_idx,
                                    rotation: st.layout.rotation,
                                    position: st.layout.position,
                                    force: true,
                                    primary: st.layout.primary,
                                },
                                rot_seen: st.rot_seen,
                            },
                            i - 1,
                        );
                    }
                } else if c == 'p' || c == 'P' {
                    if !st.layout.primary {
                        assert(s.drop_first()[i - 1] == s[i]);
                        assert(s.drop_first().skip(i) =~= s.skip(i + 1));
                        lemma_scan_xy_payload(
                            s.drop_first(),
                            ScanState {
                                layout: Layout {
                                    mon_idx: st.layout.mon_idx,
                                    rotation: st.layout.rotation,
                                    position: st.layout.position,
                                    force: st.layout.force,
                                    primary: true,
                                },
                                rot_seen: st.rot_seen,
                            },
                            i - 1,
                        );
                    }
                }
            },
        }
    }
}

/// A string with an `x` or `y` whose payload is no in-range decimal number
/// never parses.
pub proof fn lemma_reject_bad_payload(s: Seq<char>, i: int)
    requires
        0 <= i < s.len(),
        s[i] == 'x' || s[i] == 'y',
        spec_number(s.skip(i + 1)) is None,
    ensures
        spec_parse(s) is Err,
{
    if spec_parse(s) is Ok {
        let k = digit_run_len(s) as int;
        lemma_digit_run_all(s);
        lemma_digit_run_len_le(s);
        assert(!spec_is_digit(s[i]));
        assert(i >= k);
        let t = s.skip(k);
        assert(t[i - k] == s[i]);
        assert(t.skip(i - k + 1) =~= s.skip(i + 1));
        lemma_scan_xy_payload(t, initial_state(digits_val(s.take(k)) as i32), i - k);
        assert(false);
    }
}

/// Parsing is total and order-insensitive on well-formed directives: a run of
/// index digits followed by one text per field, each field at most once, in
/// any order, parses successfully, and every field of the result is pinned by
/// which fields are present, not by where they stand.
pub proof fn lemma_parse_well_formed(digits: Seq<char>, ts: Seq<Seq<char>>, fs: Seq<DirectiveField>)
    requires
        digits.len() > 0,
        all_digits(digits),
        digits_val(digits) <= i32::MAX,
        ts.len() == fs.len(),
        forall|i: int| 0 <= i < fs.len() ==> field_text(#[trigger] ts[i], fs[i]),
        distinct_kinds(fs),
    ensures
        ({
            match spec_parse(digits + concat_texts(ts)) {
                Ok(l) => {
                    &&& l.mon_idx as int == digits_val(digits)
                    &&& (forall|i: int| 0 <= i < fs.len() ==> !(#[trigger] fs[i] is Rot))
                        ==> l.rotation == Rotation::Normal
                    &&& forall|i: int|
                        0 <= i < fs.len() ==> (#[trigger] fs[i] matches DirectiveField::Rot(r)
                            ==> l.rotation == r)
                    &&& (forall|i: int| 0 <= i < fs.len() ==> !(#[trigger] fs[i] is X))
                        ==> l.position.0 is None
                    &&& forall|i: int|
                        0 <= i < fs.len() ==> (#[trigger] fs[i] matches DirectiveField::X(v)
                            ==> l.position.0 == Some(v))
                    &&& (forall|i: int| 0 <= i < fs.len() ==> !(#[trigger] fs[i] is Y))
                        ==> l.position.1 is None
                    &&& forall|i: int|
                        0 <= i < fs.len() ==> (#[trigger] fs[i] matches DirectiveField::Y(v)
                            ==> l.position.1 == Some(v))
                    &&& l.force == exists|i: int| 0 <= i < fs.len() && #[trigger] fs[i] is Force
                    &&& l.primary == exists|i: int|
                        0 <= i < fs.len() && #[trigger] fs[i] is Primary
                },
                Err(_) => false,
            }
        }),
{
    let s = digits + concat_texts(ts);
    let rest = concat_texts(ts);
    assert(s[0] == digits[0]);
    assert(spec_is_digit(s[0]));
    if fs.len() > 0 {
        assert(field_text(ts[0], fs[0]));
        assert(rest[0] == ts[0][0]);
        assert(!spec_is_digit(rest[0]));
    } else {
        assert(rest =~= Seq::<char>::empty());
    }
    lemma_digit_run_concat(digits, rest);
    lemma_digits_val_bounds(digits);
    assert(digit_run_len(s) == digits.len());
    assert(digits_val(s.take(digits.len() as int)) == digits_val(digits));
    assert(s.skip(digits.len() as int) =~= rest);
    let idx = digits_val(digits) as i32;
    let st0 = initial_state(idx);
    assert(st_admits(st0, fs));
    lemma_scan_fields(ts, fs, st0);
    lemma_apply_fields_props(st0, fs);
}

} // verus!
