//! Monitor records and the probe-output scanner.
//!
//! The probe runs the display-configuration command in listing mode and scans
//! its text: each `" connected"` line opens a new monitor, the indented lines
//! after an `EDID` marker carry the identification blob, and indented
//! `WIDTHxHEIGHT` lines list the supported modes (the first is the native
//! one).  Spawning that command, and the identification decoder, is the
//! caller's business; everything that reads their text lives here.

use vstd::prelude::*;
use vstd::string::{StrSliceExecFns, StringExecFns};

use crate::chars::{digit_run_len, digits_val, lemma_digit_run_all, lemma_digits_val_bounds, pow10,
    scan_digits, spec_is_digit};
use crate::text::{dec_int, dims_token, dims_string, i32_to_string, contains_sub, find_sub,
    lemma_find_contains, remove_char, remove_quotes, spec_contains, spec_find, spec_is_ws,
    is_ws_char, spec_lines, spec_trim, split_lines, trim_str};

verus! {

/// One attached monitor: its index in discovery order, the stable port name
/// handed to the configuration command, its native resolution and its model
/// name.
#[derive(Debug, Clone, PartialEq)]
pub struct Monitor {
    pub idx: i32,
    pub link: String,
    pub width: i32,
    pub height: i32,
    pub name: String,
}

pub ghost struct MonitorView {
    pub idx: int,
    pub link: Seq<char>,
    pub width: int,
    pub height: int,
    pub name: Seq<char>,
}

impl View for Monitor {
    type V = MonitorView;

    open spec fn view(&self) -> MonitorView {
        MonitorView {
            idx: self.idx as int,
            link: self.link@,
            width: self.width as int,
            height: self.height as int,
            name: self.name@,
        }
    }
}

/// The one-line description of a monitor shown to the user.
pub open spec fn spec_describe(m: MonitorView) -> Seq<char> {
    dec_int(m.idx) + ". "@ + m.name + " ("@ + dims_token(m.width, m.height) + ") on "@ + m.link
}

impl Monitor {
    /// Renders the monitor as `idx. name (widthxheight) on link`.
    pub fn describe(&self) -> (r: String)
        ensures
            r@ == spec_describe(self@),
    {
        let s = i32_to_string(self.idx);
        let s = s.concat(". ");
        let s = s.concat(self.name.as_str());
        let s = s.concat(" (");
        let dims = dims_string(self.width, self.height);
        let s = s.concat(dims.as_str());
        let s = s.concat(") on ");
        s.concat(self.link.as_str())
    }
}

/// The characters a port name may consist of: letters, digits, dashes.
pub open spec fn spec_is_link_char(c: char) -> bool {
    (65 <= c as u32 && c as u32 <= 90) || (97 <= c as u32 && c as u32 <= 122) || (48 <= c as u32
        && c as u32 <= 57) || c == '-'
}

fn is_link_char(c: char) -> (b: bool)
    ensures
        b == spec_is_link_char(c),
{
    let u: u32 = c as u32;
    (65 <= u && u <= 90) || (97 <= u && u <= 122) || (48 <= u && u <= 57) || c == '-'
}

/// Length of the longest port-name prefix of `s`.
pub open spec fn link_run_len(s: Seq<char>) -> nat
    decreases s.len(),
{
    if s.len() > 0 && spec_is_link_char(s[0]) {
        1 + link_run_len(s.drop_first())
    } else {
        0
    }
}

proof fn lemma_link_run_len_is(t: Seq<char>, m: int)
    requires
        0 <= m <= t.len(),
        forall|j: int| 0 <= j < m ==> spec_is_link_char(t[j]),
        m == t.len() || !spec_is_link_char(t[m]),
    ensures
        link_run_len(t) == m,
    decreases m,
{
    if m > 0 {
        assert(spec_is_link_char(t[0]));
        lemma_link_run_len_is(t.drop_first(), m - 1);
    }
}

/// The port name of a monitor header line: its leading run of name
/// characters, accepted only when the line announces a connected output.
pub open spec fn spec_parse_monitor(s: Seq<char>) -> Option<Seq<char>> {
    let k = link_run_len(s) as int;
    if k == 0 {
        None
    } else if spec_contains(s, " connected"@) {
        Some(s.take(k))
    } else {
        None
    }
}

/// Reads a monitor header line.  The record holds only the port name; index,
/// resolution and model name are filled in later.
pub fn parse_monitor(s: &str) -> (r: Option<Monitor>)
    ensures
        match r {
            None => spec_parse_monitor(s@) is None,
            Some(m) => spec_parse_monitor(s@) == Some(m.link@) && m@.idx == -1 && m@.width == -1
                && m@.height == -1 && m@.name == Seq::<char>::empty(),
        },
{
    let n: usize = s.unicode_len();
    let mut k: usize = 0;
    while k < n
        invariant
            k <= n,
            n == s@.len(),
            forall|j: int| 0 <= j < k ==> spec_is_link_char(s@[j]),
        ensures
            k == n || !spec_is_link_char(s@[k as int]),
        decreases n - k,
    {
        if !is_link_char(s.get_char(k)) {
            break;
        }
        k = k + 1;
    }
    proof {
        lemma_link_run_len_is(s@, k as int);
    }
    if k == 0 {
        return None;
    }
    if !contains_sub(s, " connected") {
        return None;
    }
    let link = s.substring_char(0, k);
    proof {
        assert(s@.subrange(0, k as int) =~= s@.take(k as int));
    }
    Some(
        Monitor {
            idx: -1,
            link: link.to_owned(),
            width: -1,
            height: -1,
            name: String::new(),
        },
    )
}

/// The piece of `s` between the first and second occurrence of `pat`, or
/// after the first occurrence when there is no second; `None` when `pat` does
/// not occur.  This is what splitting at `pat` and taking the second piece
/// yields.
pub open spec fn spec_split_nth1(s: Seq<char>, pat: Seq<char>) -> Option<Seq<char>> {
    match spec_find(s, pat) {
        None => None,
        Some(p) => {
            let rest = s.skip(p + pat.len());
            match spec_find(rest, pat) {
                None => Some(rest),
                Some(q) => Some(rest.take(q)),
            }
        },
    }
}

pub fn split_nth1(s: &str, pat: &str) -> (r: Option<String>)
    ensures
        match r {
            None => spec_split_nth1(s@, pat@) is None,
            Some(x) => spec_split_nth1(s@, pat@) == Some(x@),
        },
{
    let n: usize = s.unicode_len();
    let m: usize = pat.unicode_len();
    proof {
        lemma_find_contains(s@, pat@);
    }
    match find_sub(s, pat) {
        None => None,
        Some(p) => {
            let rest: &str = s.substring_char(p + m, n);
            proof {
                assert(rest@ =~= s@.skip(p + m as int));
                lemma_find_contains(rest@, pat@);
            }
            match find_sub(rest, pat) {
                None => Some(rest.to_owned()),
                Some(q) => {
                    let piece = rest.substring_char(0, q);
                    proof {
                        assert(piece@ =~= rest@.take(q as int));
                    }
                    Some(piece.to_owned())
                },
            }
        },
    }
}

/// A resolution `WIDTHxHEIGHT ` standing at position `i` of a mode line:
/// preceded by whitespace, three to five digits on each side of the `x`, a
/// blank after.
pub open spec fn res_match_at(s: Seq<char>, i: int) -> Option<(int, int)> {
    if i < 1 || i >= s.len() || !spec_is_ws(s[i - 1]) {
        None
    } else {
        let d1 = digit_run_len(s.skip(i)) as int;
        if 3 <= d1 <= 5 && i + d1 < s.len() && s[i + d1] == 'x' {
            let d2 = digit_run_len(s.skip(i + d1 + 1)) as int;
            if 3 <= d2 <= 5 && i + d1 + 1 + d2 < s.len() && s[i + d1 + 1 + d2] == ' ' {
                Some(
                    (
                        digits_val(s.subrange(i, i + d1)),
                        digits_val(s.subrange(i + d1 + 1, i + d1 + 1 + d2)),
                    ),
                )
            } else {
                None
            }
        } else {
            None
        }
    }
}

/// The leftmost resolution match in `s` at or after position `i`.
pub open spec fn spec_find_res(s: Seq<char>, i: int) -> Option<(int, int)>
    decreases s.len() - i,
{
    if i < 0 || i >= s.len() {
        None
    } else if res_match_at(s, i) is Some {
        res_match_at(s, i)
    } else {
        spec_find_res(s, i + 1)
    }
}

fn res_at(s: &str, n: usize, i: usize) -> (r: Option<(i32, i32)>)
    requires
        n == s@.len(),
        1 <= i < n,
    ensures
        match r {
            None => res_match_at(s@, i as int) is None,
            Some(p) => res_match_at(s@, i as int) == Some((p.0 as int, p.1 as int)),
        },
{
    if !is_ws_char(s.get_char(i - 1)) {
        return None;
    }
    let (e1, mag1): (usize, u64) = scan_digits(s, i, n);
    let d1: usize = e1 - i;
    if !(3 <= d1 && d1 <= 5 && e1 < n) {
        return None;
    }
    if s.get_char(e1) != 'x' {
        return None;
    }
    let (e2, mag2): (usize, u64) = scan_digits(s, e1 + 1, n);
    let d2: usize = e2 - (e1 + 1);
    if !(3 <= d2 && d2 <= 5 && e2 < n) {
        return None;
    }
    if s.get_char(e2) != ' ' {
        return None;
    }
    proof {
        let t1 = s@.subrange(i as int, e1 as int);
        assert(t1 =~= s@.skip(i as int).take(d1 as int));
        lemma_digit_run_all(s@.skip(i as int));
        assert(forall|j: int| 0 <= j < t1.len() ==> spec_is_digit(#[trigger] t1[j]));
        lemma_digits_val_bounds(t1);
        assert(pow10(0) == 1);
        assert(pow10(1) == 10);
        assert(pow10(2) == 100);
        assert(pow10(3) == 1000);
        assert(pow10(4) == 10000);
        assert(pow10(5) == 100000);
        assert(pow10(t1.len()) <= 100000);
        let t2 = s@.subrange(e1 as int + 1, e2 as int);
        assert(t2 =~= s@.skip(e1 as int + 1).take(d2 as int));
        lemma_digit_run_all(s@.skip(e1 as int + 1));
        assert(forall|j: int| 0 <= j < t2.len() ==> spec_is_digit(#[trigger] t2[j]));
        lemma_digits_val_bounds(t2);
        assert(pow10(t2.len()) <= 100000);
    }
    Some((mag1 as i32, mag2 as i32))
}

/// Gathers one monitor's raw probe text: the header line, the identification
/// blob, and the supported resolutions, first one native.
#[derive(Debug)]
pub struct MonitorBuilder {
    idx: i32,
    header: String,
    edid: String,
    resolutions: Vec<(i32, i32)>,
}

#[verifier::ext_equal]
pub ghost struct BuilderView {
    pub idx: int,
    pub header: Seq<char>,
    pub edid: Seq<char>,
    pub resolutions: Seq<(int, int)>,
}

impl View for MonitorBuilder {
    type V = BuilderView;

    closed spec fn view(&self) -> BuilderView {
        BuilderView {
            idx: self.idx as int,
            header: self.header@,
            edid: self.edid@,
            resolutions: self.resolutions@.map_values(|p: (i32, i32)| (p.0 as int, p.1 as int)),
        }
    }
}

/// The monitor a finished builder yields, once the identification decoder has
/// supplied the model name: the header's port name, the first (native)
/// resolution, and `-1` where nothing was seen.
pub open spec fn spec_build(b: BuilderView, name: Seq<char>) -> Option<MonitorView> {
    match spec_parse_monitor(b.header) {
        None => None,
        Some(link) => Some(
            MonitorView {
                idx: b.idx,
                link: link,
                width: if b.resolutions.len() > 0 {
                    b.resolutions[0].0
                } else {
                    -1
                },
                height: if b.resolutions.len() > 0 {
                    b.resolutions[0].1
                } else {
                    -1
                },
                name: name,
            },
        ),
    }
}

impl MonitorBuilder {
    pub fn new(idx: i32) -> (r: Self)
        ensures
            r@ == (BuilderView {
                idx: idx as int,
                header: Seq::<char>::empty(),
                edid: Seq::<char>::empty(),
                resolutions: Seq::<(int, int)>::empty(),
            }),
    {
        let r = MonitorBuilder {
            idx,
            header: String::new(),
            edid: String::new(),
            resolutions: Vec::new(),
        };
        proof {
            assert(r@.resolutions =~= Seq::<(int, int)>::empty());
            assert(r@ =~~= (BuilderView {
                idx: idx as int,
                header: Seq::<char>::empty(),
                edid: Seq::<char>::empty(),
                resolutions: Seq::<(int, int)>::empty(),
            }));
        }
        r
    }

    pub fn add_header(&mut self, header: &str)
        ensures
            final(self)@ == (BuilderView { header: old(self)@.header + header@, ..old(self)@ }),
    {
        self.header.append(header);
        proof {
            assert(self@ =~~= (BuilderView { header: old(self)@.header + header@, ..old(self)@ }));
        }
    }

    pub fn add_edid(&mut self, edid: &str)
        ensures
            final(self)@ == (BuilderView { edid: old(self)@.edid + edid@, ..old(self)@ }),
    {
        self.edid.append(edid);
        proof {
            assert(self@ =~~= (BuilderView { edid: old(self)@.edid + edid@, ..old(self)@ }));
        }
    }

    pub fn add_resolution(&mut self, width: i32, height: i32)
        ensures
            final(self)@ == (BuilderView {
                resolutions: old(self)@.resolutions.push((width as int, height as int)),
                ..old(self)@
            }),
    {
        self.resolutions.push((width, height));
        proof {
            assert(self@.resolutions =~= old(self)@.resolutions.push(
                (width as int, height as int),
            ));
            assert(self@ =~~= (BuilderView {
                resolutions: old(self)@.resolutions.push((width as int, height as int)),
                ..old(self)@
            }));
        }
    }

    pub fn get_edid(&self) -> (r: &str)
        ensures
            r@ == self@.edid,
    {
        self.edid.as_str()
    }

    /// Whether the gathered header announces a connected output, so that a
    /// monitor record will come out of `build`.
    pub fn has_monitor(&self) -> (b: bool)
        ensures
            b == (spec_build(self@, Seq::<char>::empty()) is Some),
    {
        match parse_monitor(self.header.as_str()) {
            Some(_) => true,
            None => false,
        }
    }

    /// Finishes the builder into a monitor record, given the model name the
    /// identification decoder produced.
    pub fn build(self, name: String) -> (r: Option<Monitor>)
        ensures
            match r {
                None => spec_build(self@, name@) is None,
                Some(m) => spec_build(self@, name@) == Some(m@),
            },
    {
        match parse_monitor(self.header.as_str()) {
            None => None,
            Some(m) => {
                let width: i32 = if self.resolutions.len() > 0 {
                    self.resolutions[0].0
                } else {
                    -1
                };
                let height: i32 = if self.resolutions.len() > 0 {
                    self.resolutions[0].1
                } else {
                    -1
                };
                Some(
                    Monitor {
                        idx: self.idx,
                        link: m.link,
                        width,
                        height,
                        name,
                    },
                )
            },
        }
    }
}

pub open spec fn builder_views(bs: Seq<MonitorBuilder>) -> Seq<BuilderView> {
    bs.map_values(|b: MonitorBuilder| b@)
}

/// The scanner's whole state: the builders already closed, the one being
/// filled, whether the scan stands inside an identification blob, and the
/// index handed to the next monitor.
#[verifier::ext_equal]
pub ghost struct ProbeState {
    pub builders: Seq<BuilderView>,
    pub cur: BuilderView,
    pub in_edid: bool,
    pub idx: int,
}

pub open spec fn initial_probe_state() -> ProbeState {
    ProbeState {
        builders: Seq::empty(),
        cur: BuilderView {
            idx: -1,
            header: Seq::empty(),
            edid: Seq::empty(),
            resolutions: Seq::empty(),
        },
        in_edid: false,
        idx: -1,
    }
}

/// One line of probe output: a connected-output line closes the current
/// builder and opens the next; an `EDID` marker starts the identification
/// blob, which runs until a line holding a colon; any other line may carry a
/// resolution.
pub open spec fn probe_step(st: ProbeState, line: Seq<char>) -> ProbeState {
    let st1 = if spec_contains(line, " connected"@) {
        ProbeState {
            builders: st.builders.push(st.cur),
            cur: BuilderView {
                idx: st.idx + 1,
                header: line,
                edid: Seq::empty(),
                resolutions: Seq::empty(),
            },
            in_edid: st.in_edid,
            idx: st.idx + 1,
        }
    } else {
        st
    };
    if spec_contains(line, "EDID"@) {
        ProbeState { in_edid: true, ..st1 }
    } else if st1.in_edid {
        if spec_contains(line, ":"@) {
            ProbeState { in_edid: false, ..st1 }
        } else {
            ProbeState {
                cur: BuilderView { edid: st1.cur.edid + spec_trim(line), ..st1.cur },
                ..st1
            }
        }
    } else {
        match spec_find_res(line, 0) {
            Some(wh) => ProbeState {
                cur: BuilderView { resolutions: st1.cur.resolutions.push(wh), ..st1.cur },
                ..st1
            },
            None => st1,
        }
    }
}

pub open spec fn probe_fold(lines: Seq<Seq<char>>, st: ProbeState) -> ProbeState
    decreases lines.len(),
{
    if lines.len() == 0 {
        st
    } else {
        probe_fold(lines.drop_first(), probe_step(st, lines[0]))
    }
}

/// The builders a probe listing yields: one per connected output, preceded by
/// the empty builder the scan starts with.
pub open spec fn spec_collect_builders(lines: Seq<Seq<char>>) -> Seq<BuilderView> {
    let st = probe_fold(lines, initial_probe_state());
    st.builders.push(st.cur)
}

/// Scans the probe listing's lines into one builder per monitor.  The first
/// returned builder is the scan's empty start and yields no monitor.
pub fn collect_builders(lines: &Vec<String>) -> (r: Vec<MonitorBuilder>)
    requires
        lines@.len() < 0x8000_0000,
    ensures
        builder_views(r@) == spec_collect_builders(lines.deep_view()),
{
    let ghost ls = lines.deep_view();
    let n: usize = lines.len();
    let mut builders: Vec<MonitorBuilder> = Vec::new();
    let mut cur: MonitorBuilder = MonitorBuilder::new(-1);
    let mut in_edid: bool = false;
    let mut idx: i32 = -1;
    let mut k: usize = 0;
    proof {
        assert(ls.skip(0) =~= ls);
        assert(builder_views(builders@) =~= Seq::<BuilderView>::empty());
        assert((ProbeState {
            builders: builder_views(builders@),
            cur: cur@,
            in_edid: in_edid,
            idx: idx as int,
        }) =~~= initial_probe_state());
    }
    while k < n
        invariant
            k <= n,
            n == lines.len(),
            n < 0x8000_0000,
            ls == lines.deep_view(),
            -1 <= idx < k + 1,
            probe_fold(
                ls.skip(k as int),
                ProbeState {
                    builders: builder_views(builders@),
                    cur: cur@,
                    in_edid: in_edid,
                    idx: idx as int,
                },
            ) == probe_fold(ls, initial_probe_state()),
        decreases n - k,
    {
        let ghost st = ProbeState {
            builders: builder_views(builders@),
            cur: cur@,
            in_edid: in_edid,
            idx: idx as int,
        };
        proof {
            assert(ls.skip(k as int)[0] == ls[k as int]);
            assert(ls.skip(k as int).drop_first() =~= ls.skip(k as int + 1));
            assert(lines@[k as int]@ == ls[k as int]);
        }
        let line: &str = lines[k].as_str();
        if contains_sub(line, " connected") {
            idx = idx + 1;
            let mut nb = MonitorBuilder::new(idx);
            nb.add_header(line);
            proof {
                assert(nb@.header =~= ls[k as int]);
            }
            builders.push(cur);
            cur = nb;
            proof {
                assert(builder_views(builders@) =~= builder_views(builders@.drop_last()).push(
                    st.cur,
                ));
            }
        }
        let ghost st1 = ProbeState {
            builders: builder_views(builders@),
            cur: cur@,
            in_edid: in_edid,
            idx: idx as int,
        };
        proof {
            if spec_contains(ls[k as int], " connected"@) {
                assert(st1 =~~= (ProbeState {
                    builders: st.builders.push(st.cur),
                    cur: BuilderView {
                        idx: st.idx + 1,
                        header: ls[k as int],
                        edid: Seq::empty(),
                        resolutions: Seq::empty(),
                    },
                    in_edid: st.in_edid,
                    idx: st.idx + 1,
                }));
            } else {
                assert(st1 =~~= st);
            }
        }
        if contains_sub(line, "EDID") {
            in_edid = true;
        } else if in_edid {
            if contains_sub(line, ":") {
                in_edid = false;
            } else {
                let t = trim_str(line);
                cur.add_edid(t.as_str());
            }
        } else {
            match find_resolution(line) {
                Some((w, h)) => {
                    cur.add_resolution(w, h);
                },
                None => {},
            }
        }
        k = k + 1;
        proof {
            assert((ProbeState {
                builders: builder_views(builders@),
                cur: cur@,
                in_edid: in_edid,
                idx: idx as int,
            }) =~~= probe_step(st, ls[k as int - 1]));
        }
    }
    proof {
        assert(ls.skip(n as int) =~= Seq::<Seq<char>>::empty());
    }
    builders.push(cur);
    proof {
        assert(builder_views(builders@) =~= spec_collect_builders(ls));
    }
    builders
}

/// Lexicographic order on strings by code point, as the identification
/// decoder's pieces are sorted.
pub open spec fn spec_lex_le(a: Seq<char>, b: Seq<char>) -> bool
    decreases a.len(),
{
    if a.len() == 0 {
        true
    } else if b.len() == 0 {
        false
    } else if (a[0] as u32) < (b[0] as u32) {
        true
    } else if (b[0] as u32) < (a[0] as u32) {
        false
    } else {
        spec_lex_le(a.drop_first(), b.drop_first())
    }
}

fn lex_le(a: &str, b: &str) -> (r: bool)
    ensures
        r == spec_lex_le(a@, b@),
{
    let na: usize = a.unicode_len();
    let nb: usize = b.unicode_len();
    let mut i: usize = 0;
    proof {
        assert(a@.skip(0) =~= a@);
        assert(b@.skip(0) =~= b@);
    }
    loop
        invariant
            i <= na,
            i <= nb,
            na == a@.len(),
            nb == b@.len(),
            spec_lex_le(a@, b@) == spec_lex_le(a@.skip(i as int), b@.skip(i as int)),
        decreases na - i,
    {
        if i >= na {
            return true;
        }
        if i >= nb {
            return false;
        }
        let ca: u32 = a.get_char(i) as u32;
        let cb: u32 = b.get_char(i) as u32;
        proof {
            assert(a@.skip(i as int)[0] == a@[i as int]);
            assert(b@.skip(i as int)[0] == b@[i as int]);
            assert(a@.skip(i as int).drop_first() =~= a@.skip(i as int + 1));
            assert(b@.skip(i as int).drop_first() =~= b@.skip(i as int + 1));
        }
        if ca < cb {
            return true;
        }
        if cb < ca {
            return false;
        }
        i = i + 1;
    }
}

/// `x` placed into the sorted sequence `a`, before the first element it
/// compares at or below.
pub open spec fn insert_sorted(x: Seq<char>, a: Seq<Seq<char>>) -> Seq<Seq<char>>
    decreases a.len(),
{
    if a.len() == 0 {
        seq![x]
    } else if spec_lex_le(x, a[0]) {
        seq![x] + a
    } else {
        seq![a[0]] + insert_sorted(x, a.drop_first())
    }
}

/// The strings sorted by `spec_lex_le`, by insertion.
pub open spec fn spec_sort_strings(a: Seq<Seq<char>>) -> Seq<Seq<char>>
    decreases a.len(),
{
    if a.len() == 0 {
        Seq::empty()
    } else {
        insert_sorted(a[0], spec_sort_strings(a.drop_first()))
    }
}

proof fn lemma_insert_sorted_at(x: Seq<char>, a: Seq<Seq<char>>, p: int)
    requires
        0 <= p <= a.len(),
        forall|t: int| 0 <= t < p ==> !spec_lex_le(x, a[t]),
        p == a.len() || spec_lex_le(x, a[p]),
    ensures
        insert_sorted(x, a) == a.insert(p, x),
    decreases p,
{
    if p == 0 {
        if a.len() == 0 {
            assert(insert_sorted(x, a) =~= a.insert(0, x));
        } else {
            assert(seq![x] + a =~= a.insert(0, x));
        }
    } else {
        assert(!spec_lex_le(x, a[0]));
        lemma_insert_sorted_at(x, a.drop_first(), p - 1);
        assert(seq![a[0]] + a.drop_first().insert(p - 1, x) =~= a.insert(p, x));
    }
}

fn insert_string_sorted(v: &mut Vec<String>, x: String)
    ensures
        final(v).deep_view() == insert_sorted(x@, old(v).deep_view()),
{
    let ghost d = v.deep_view();
    let n: usize = v.len();
    let mut pos: usize = 0;
    loop
        invariant
            pos <= n,
            n == v.len(),
            d == v.deep_view(),
            forall|t: int| 0 <= t < pos ==> !spec_lex_le(x@, d[t]),
        ensures
            pos == n || spec_lex_le(x@, d[pos as int]),
        decreases n - pos,
    {
        if pos >= n {
            break;
        }
        if lex_le(x.as_str(), v[pos].as_str()) {
            break;
        }
        pos = pos + 1;
    }
    proof {
        lemma_insert_sorted_at(x@, d, pos as int);
    }
    v.insert(pos, x);
    proof {
        assert(v.deep_view() =~~= d.insert(pos as int, x@));
    }
}

/// Sorts the strings by code-point order.
pub fn sort_strings(v: Vec<String>) -> (r: Vec<String>)
    ensures
        r.deep_view() == spec_sort_strings(v.deep_view()),
{
    let ghost d = v.deep_view();
    let mut v = v;
    let mut acc: Vec<String> = Vec::new();
    proof {
        assert(v.deep_view() =~~= d.take(v@.len() as int));
        assert(d.skip(v@.len() as int) =~= Seq::<Seq<char>>::empty());
        assert(acc.deep_view() =~~= spec_sort_strings(d.skip(v@.len() as int)));
    }
    while v.len() > 0
        invariant
            v@.len() <= d.len(),
            v.deep_view() == d.take(v@.len() as int),
            acc.deep_view() == spec_sort_strings(d.skip(v@.len() as int)),
        decreases v@.len(),
    {
        let ghost len = v@.len() as int;
        let ghost dv = v.deep_view();
        let x: String = match v.pop() {
            Some(x) => x,
            None => {
                proof {
                    assert(false);
                }
                String::new()
            },
        };
        proof {
            assert(x@ == dv[len - 1]);
            assert(x@ == d[len - 1]);
            assert(v.deep_view() =~~= d.take(len - 1));
            assert(d.skip(len - 1)[0] == d[len - 1]);
            assert(d.skip(len - 1).drop_first() =~= d.skip(len));
        }
        insert_string_sorted(&mut acc, x);
        proof {
            assert(acc.deep_view() =~~= spec_sort_strings(d.skip(len - 1)));
        }
    }
    proof {
        assert(d.skip(0) =~= d);
    }
    acc
}

/// The tail of a run-deduplicated sequence, given the last kept element.
pub open spec fn dedup_from(a: Seq<Seq<char>>, prev: Seq<char>) -> Seq<Seq<char>>
    decreases a.len(),
{
    if a.len() == 0 {
        Seq::empty()
    } else if a[0] == prev {
        dedup_from(a.drop_first(), prev)
    } else {
        seq![a[0]] + dedup_from(a.drop_first(), a[0])
    }
}

/// The sequence with runs of equal neighbours collapsed to one element.
pub open spec fn spec_dedup(a: Seq<Seq<char>>) -> Seq<Seq<char>> {
    if a.len() == 0 {
        Seq::empty()
    } else {
        seq![a[0]] + dedup_from(a.drop_first(), a[0])
    }
}

/// Collapses runs of equal neighbours.
pub fn dedup_strings(v: &Vec<String>) -> (r: Vec<String>)
    ensures
        r.deep_view() == spec_dedup(v.deep_view()),
{
    let ghost d = v.deep_view();
    let n: usize = v.len();
    let mut r: Vec<String> = Vec::new();
    if n == 0 {
        proof {
            assert(r.deep_view() =~~= spec_dedup(d));
        }
        return r;
    }
    let mut prev: String = v[0].clone();
    r.push(v[0].clone());
    let mut k: usize = 1;
    proof {
        assert(r.deep_view() =~~= seq![d[0]]);
        assert(d.skip(1) =~= d.drop_first());
    }
    while k < n
        invariant
            1 <= k <= n,
            n == v.len(),
            d == v.deep_view(),
            r.deep_view() + dedup_from(d.skip(k as int), prev@) =~~= spec_dedup(d),
        decreases n - k,
    {
        proof {
            assert(d.skip(k as int)[0] == d[k as int]);
            assert(d.skip(k as int).drop_first() =~= d.skip(k as int + 1));
        }
        if !(v[k] == prev) {
            r.push(v[k].clone());
            prev = v[k].clone();
        }
        k = k + 1;
        proof {
            assert(r.deep_view() + dedup_from(d.skip(k as int), prev@) =~~= spec_dedup(d));
        }
    }
    proof {
        assert(d.skip(n as int) =~= Seq::<Seq<char>>::empty());
        assert(r.deep_view() =~~= spec_dedup(d));
    }
    r
}

/// What follows the first element when joining with single blanks.
pub open spec fn join_rest(a: Seq<Seq<char>>) -> Seq<char>
    decreases a.len(),
{
    if a.len() == 0 {
        Seq::empty()
    } else {
        " "@ + a[0] + join_rest(a.drop_first())
    }
}

/// The strings joined with single blanks.
pub open spec fn spec_join_spaces(a: Seq<Seq<char>>) -> Seq<char> {
    if a.len() == 0 {
        Seq::empty()
    } else {
        a[0] + join_rest(a.drop_first())
    }
}

/// Joins the strings with single blanks.
pub fn join_spaces(v: &Vec<String>) -> (r: String)
    ensures
        r@ == spec_join_spaces(v.deep_view()),
{
    let ghost d = v.deep_view();
    let n: usize = v.len();
    if n == 0 {
        return String::new();
    }
    let mut r: String = v[0].clone();
    let mut k: usize = 1;
    proof {
        assert(d.skip(1) =~= d.drop_first());
        assert(r@ + join_rest(d.skip(1)) =~= spec_join_spaces(d));
    }
    while k < n
        invariant
            1 <= k <= n,
            n == v.len(),
            d == v.deep_view(),
            r@ + join_rest(d.skip(k as int)) =~= spec_join_spaces(d),
        decreases n - k,
    {
        proof {
            assert(d.skip(k as int)[0] == d[k as int]);
            assert(d.skip(k as int).drop_first() =~= d.skip(k as int + 1));
        }
        r.append(" ");
        r.append(v[k].as_str());
        k = k + 1;
        proof {
            assert(r@ + join_rest(d.skip(k as int)) =~= spec_join_spaces(d));
        }
    }
    proof {
        assert(d.skip(n as int) =~= Seq::<Seq<char>>::empty());
        assert(r@ =~= spec_join_spaces(d));
    }
    r
}

/// The model name on the first line that carries the name marker, if any.
pub open spec fn first_name_line(lines: Seq<Seq<char>>) -> Option<Seq<char>>
    decreases lines.len(),
{
    if lines.len() == 0 {
        None
    } else {
        let h = spec_split_nth1(lines[0], "Monitor name: "@);
        if spec_contains(lines[0], "Monitor name: "@) && h is Some {
            h
        } else {
            first_name_line(lines.drop_first())
        }
    }
}

/// The fallback identification pieces: ASCII strings as they stand, and
/// alphanumeric data strings trimmed and stripped of single quotes, in line
/// order, from lines that carry no name marker.
pub open spec fn spec_ascii_pieces(lines: Seq<Seq<char>>) -> Seq<Seq<char>>
    decreases lines.len(),
{
    if lines.len() == 0 {
        Seq::empty()
    } else {
        let l = lines[0];
        let rest = spec_ascii_pieces(lines.drop_first());
        if spec_contains(l, "Monitor name: "@) {
            rest
        } else if spec_contains(l, "ASCII string: "@) {
            match spec_split_nth1(l, "ASCII string: "@) {
                Some(p) => seq![p] + rest,
                None => rest,
            }
        } else if spec_contains(l, "Alphanumeric Data String:"@) {
            match spec_split_nth1(l, "Alphanumeric Data String:"@) {
                Some(p) => seq![remove_char(spec_trim(p), '\'')] + rest,
                None => rest,
            }
        } else {
            rest
        }
    }
}

/// The model name the identification decoder's output yields: the first
/// explicitly named monitor, else the sorted, deduplicated identification
/// pieces joined with blanks, else `unknown`.
pub open spec fn spec_model_name(lines: Seq<Seq<char>>) -> Seq<char> {
    match first_name_line(lines) {
        Some(nm) => nm,
        None => {
            let a = spec_ascii_pieces(lines);
            if a.len() == 0 {
                "unknown"@
            } else {
                spec_join_spaces(spec_dedup(spec_sort_strings(a)))
            }
        },
    }
}

/// Reads the model name out of the identification decoder's text.
pub fn model_from_decode_output(s: &str) -> (r: String)
    ensures
        r@ == spec_model_name(spec_lines(s@)),
{
    let lines: Vec<String> = split_lines(s);
    let ghost d = lines.deep_view();
    let n: usize = lines.len();
    let mut k: usize = 0;
    proof {
        assert(d.skip(0) =~= d);
    }
    while k < n
        invariant
            k <= n,
            n == lines.len(),
            d == lines.deep_view(),
            d == spec_lines(s@),
            first_name_line(d.skip(k as int)) == first_name_line(d),
        decreases n - k,
    {
        proof {
            assert(d.skip(k as int)[0] == d[k as int]);
            assert(d.skip(k as int).drop_first() =~= d.skip(k as int + 1));
        }
        let line: &str = lines[k].as_str();
        if contains_sub(line, "Monitor name: ") {
            match split_nth1(line, "Monitor name: ") {
                Some(nm) => {
                    proof {
                        assert(line@ == d.skip(k as int)[0]);
                        assert(first_name_line(d.skip(k as int)) == Some(nm@));
                    }
                    return nm;
                },
                None => {},
            }
        }
        k = k + 1;
    }
    proof {
        assert(d.skip(n as int) =~= Seq::<Seq<char>>::empty());
    }
    let mut asc: Vec<String> = Vec::new();
    let mut k: usize = 0;
    proof {
        assert(d.skip(0) =~= d);
        assert(asc.deep_view() + spec_ascii_pieces(d) =~~= spec_ascii_pieces(d));
    }
    while k < n
        invariant
            k <= n,
            n == lines.len(),
            d == lines.deep_view(),
            asc.deep_view() + spec_ascii_pieces(d.skip(k as int)) =~~= spec_ascii_pieces(d),
        decreases n - k,
    {
        proof {
            assert(d.skip(k as int)[0] == d[k as int]);
            assert(d.skip(k as int).drop_first() =~= d.skip(k as int + 1));
        }
        let line: &str = lines[k].as_str();
        if contains_sub(line, "Monitor name: ") {
        } else if contains_sub(line, "ASCII string: ") {
            match split_nth1(line, "ASCII string: ") {
                Some(p) => {
                    asc.push(p);
                },
                None => {},
            }
        } else if contains_sub(line, "Alphanumeric Data String:") {
            match split_nth1(line, "Alphanumeric Data String:") {
                Some(p) => {
                    let t = trim_str(p.as_str());
                    let q = remove_quotes(t.as_str());
                    asc.push(q);
                },
                None => {},
            }
        }
        k = k + 1;
        proof {
            assert(asc.deep_view() + spec_ascii_pieces(d.skip(k as int)) =~~= spec_ascii_pieces(
                d,
            ));
        }
    }
    proof {
        assert(d.skip(n as int) =~= Seq::<Seq<char>>::empty());
        assert(asc.deep_view() =~~= spec_ascii_pieces(d));
    }
    if asc.len() == 0 {
        return String::from_str("unknown");
    }
    let sorted = sort_strings(asc);
    let deduped = dedup_strings(&sorted);
    join_spaces(&deduped)
}

/// Finds the leftmost resolution of a mode line.
pub fn find_resolution(s: &str) -> (r: Option<(i32, i32)>)
    ensures
        match r {
            None => spec_find_res(s@, 0) is None,
            Some(p) => spec_find_res(s@, 0) == Some((p.0 as int, p.1 as int)),
        },
{
    let n: usize = s.unicode_len();
    let mut i: usize = 0;
    while i < n
        invariant
            i <= n,
            n == s@.len(),
            spec_find_res(s@, 0) == spec_find_res(s@, i as int),
        decreases n - i,
    {
        if i >= 1 {
            match res_at(s, n, i) {
                Some(p) => {
                    return Some(p);
                },
                None => {},
            }
        }
        i = i + 1;
    }
    None
}

} // verus!
