//! The configuration format: one text line per item.
//!
//! ```text
//! [PROFILES]
//! PROFILE:<name>
//!   <device>=<wallpaper path>
//! [SCHEDULE]
//! <profile name>,<hour>,<minute>,<1 if enabled, else 0>
//! ```

use vstd::prelude::*;
use crate::engine::strings_view;
use crate::model::{EntryView, ScheduleEntry, WallpaperProfile};
use crate::store::WallpaperManager;
use crate::assoc::{assoc_view, has_key, keys_unique, lemma_assoc_empty, lemma_assoc_index, lemma_assoc_push};
use crate::text::{all_digits, chars_of, decimal, digits_value, lemma_decimal, has_prefix, parse_i32, parse_i32_spec, parse_u32, parse_u32_spec, push_decimal, str_eq, strip_prefix};

verus! {

pub open spec fn pair_line(p: (Seq<char>, Seq<char>)) -> Seq<char> {
    "  "@ + p.0 + "="@ + p.1
}

/// The lines of one profile: its header, then one line per assignment.
pub open spec fn profile_lines(name: Seq<char>, pairs: Seq<(Seq<char>, Seq<char>)>) -> Seq<Seq<char>> {
    seq!["PROFILE:"@ + name] + pairs.map_values(|p: (Seq<char>, Seq<char>)| pair_line(p))
}

/// The lines of a sequence of profiles.
pub open spec fn profiles_lines(ps: Seq<WallpaperProfile>) -> Seq<Seq<char>>
    decreases ps.len(),
{
    if ps.len() == 0 {
        Seq::empty()
    } else {
        profiles_lines(ps.drop_last()) + profile_lines(ps.last().name@, ps.last().pairs())
    }
}

pub open spec fn flag_text(b: bool) -> Seq<char> {
    if b { "1"@ } else { "0"@ }
}

pub open spec fn entry_line(e: EntryView) -> Seq<char> {
    e.profile_name + ","@ + decimal(e.hour as nat) + ","@ + decimal(e.minute as nat) + ","@ + flag_text(e.enabled)
}

/// The whole configuration of a store.
pub open spec fn config_lines(profiles: Seq<WallpaperProfile>, schedule: Seq<EntryView>) -> Seq<Seq<char>> {
    seq!["[PROFILES]"@] + profiles_lines(profiles) + seq!["[SCHEDULE]"@] + schedule.map_values(
        |e: EntryView| entry_line(e),
    )
}

fn pair_text(d: &String, p: &String) -> (r: String)
    ensures
        r@ == pair_line((d@, p@)),
{
    let mut s = String::from_str("  ");
    s.append(d.as_str());
    s.append("=");
    s.append(p.as_str());
    s
}

fn entry_text(e: &ScheduleEntry) -> (r: String)
    ensures
        r@ == entry_line(e@),
{
    let mut s = e.profile_name.clone();
    s.append(",");
    push_decimal(&mut s, e.hour as u64);
    s.append(",");
    push_decimal(&mut s, e.minute as u64);
    s.append(",");
    if e.enabled {
        s.append("1");
    } else {
        s.append("0");
    }
    s
}

impl WallpaperManager {
    /// The configuration lines of the store: its profiles in store order, each
    /// with its assignments, then its schedule in order.
    pub fn save_config(&self) -> (r: Vec<String>)
        ensures
            strings_view(r@) == config_lines(self.profiles@, self.schedule_view()),
    {
        let mut out: Vec<String> = Vec::new();
        out.push(String::from_str("[PROFILES]"));
        let ghost head = seq!["[PROFILES]"@];
        assert(strings_view(out@) =~= head + profiles_lines(self.profiles@.subrange(0, 0)));
        let mut i: usize = 0;
        while i < self.profiles.len()
            invariant
                i <= self.profiles@.len(),
                head == seq!["[PROFILES]"@],
                strings_view(out@) == head + profiles_lines(self.profiles@.subrange(0, i as int)),
            decreases self.profiles@.len() - i,
        {
            let p = &self.profiles[i];
            let ghost before = strings_view(out@);
            let mut h = String::from_str("PROFILE:");
            h.append(p.name.as_str());
            out.push(h);
            let mut j: usize = 0;
            while j < p.monitor_wallpapers.len()
                invariant
                    j <= p.monitor_wallpapers@.len(),
                    strings_view(out@) == before + seq!["PROFILE:"@ + p.name@] + p.pairs().subrange(0, j as int).map_values(
                        |q: (Seq<char>, Seq<char>)| pair_line(q),
                    ),
                decreases p.monitor_wallpapers@.len() - j,
            {
                let q = &p.monitor_wallpapers[j];
                assert(p.pairs()[j as int] == (q.0@, q.1@));
                let line = pair_text(&q.0, &q.1);
                let ghost prev = strings_view(out@);
                out.push(line);
                assert(strings_view(out@) =~= prev.push(line@));
                j = j + 1;
                assert(strings_view(out@) =~= before + seq!["PROFILE:"@ + p.name@] + p.pairs().subrange(0, j as int).map_values(
                    |q: (Seq<char>, Seq<char>)| pair_line(q),
                ));
            }
            assert(p.pairs().subrange(0, j as int) =~= p.pairs());
            proof {
                let sub = self.profiles@.subrange(0, i as int + 1);
                assert(sub.drop_last() =~= self.profiles@.subrange(0, i as int));
                assert(sub.last() == *p);
            }
            i = i + 1;
            assert(strings_view(out@) =~= head + profiles_lines(self.profiles@.subrange(0, i as int)));
        }
        assert(self.profiles@.subrange(0, i as int) =~= self.profiles@);
        out.push(String::from_str("[SCHEDULE]"));
        let ghost mid = strings_view(out@);
        let mut k: usize = 0;
        while k < self.schedule.len()
            invariant
                k <= self.schedule@.len(),
                strings_view(out@) == mid + self.schedule_view().subrange(0, k as int).map_values(
                    |e: EntryView| entry_line(e),
                ),
            decreases self.schedule@.len() - k,
        {
            assert(self.schedule_view()[k as int] == self.schedule@[k as int]@);
            let line = entry_text(&self.schedule[k]);
            let ghost prev = strings_view(out@);
            out.push(line);
            assert(strings_view(out@) =~= prev.push(line@));
            k = k + 1;
            assert(strings_view(out@) =~= mid + self.schedule_view().subrange(0, k as int).map_values(
                |e: EntryView| entry_line(e),
            ));
        }
        assert(self.schedule_view().subrange(0, k as int) =~= self.schedule_view());
        assert(strings_view(out@) =~= config_lines(self.profiles@, self.schedule_view()));
        out
    }
}


/// `i` is the first position of `c` in `s`.
pub open spec fn is_first(s: Seq<char>, c: char, i: int) -> bool {
    0 <= i < s.len() && s[i] == c && forall|j: int| 0 <= j < i ==> s[j] != c
}

/// The first position of `c` in `s`.
pub open spec fn first_index(s: Seq<char>, c: char) -> Option<int> {
    if exists|i: int| is_first(s, c, i) {
        Some(choose|i: int| is_first(s, c, i))
    } else {
        None
    }
}

/// The pieces of `s` between occurrences of `c`; one more than there are `c`s.
pub open spec fn split_on(s: Seq<char>, c: char) -> Seq<Seq<char>>
    decreases s.len(),
{
    if s.len() == 0 {
        seq![Seq::empty()]
    } else {
        let r = split_on(s.drop_last(), c);
        if s.last() == c {
            r.push(Seq::empty())
        } else {
            r.update(r.len() - 1, r.last().push(s.last()))
        }
    }
}

/// A line of the form `[name]` opens the section `name`.
pub open spec fn is_header(line: Seq<char>) -> bool {
    line.len() > 0 && line[0] == '[' && line.last() == ']'
}

/// The schedule entry a line stands for: four comma-separated fields, the
/// hour and minute as `u32`, the flag as `i32` with 1 meaning enabled.
pub open spec fn schedule_entry_of(line: Seq<char>) -> Option<EntryView> {
    let parts = split_on(line, ',');
    if parts.len() == 4 && parse_u32_spec(parts[1]) is Some && parse_u32_spec(parts[2]) is Some
        && parse_i32_spec(parts[3]) is Some {
        Some(
            EntryView {
                profile_name: parts[0],
                hour: parse_u32_spec(parts[1])->0,
                minute: parse_u32_spec(parts[2])->0,
                enabled: parse_i32_spec(parts[3])->0 == 1,
            },
        )
    } else {
        None
    }
}

/// Where a load stands after some lines: the current section and profile,
/// and what has been read.
pub struct LoadState {
    pub section: Seq<char>,
    pub current: Seq<char>,
    pub profiles: Map<Seq<char>, Map<Seq<char>, Seq<char>>>,
    pub schedule: Seq<EntryView>,
}

/// The effect of one line in the profiles section.
pub open spec fn profile_section_line(st: LoadState, line: Seq<char>) -> LoadState {
    if has_prefix(line, "PROFILE:"@) {
        let n = line.subrange("PROFILE:"@.len() as int, line.len() as int);
        LoadState { current: n, profiles: st.profiles.insert(n, Map::empty()), ..st }
    } else if has_prefix(line, "  "@) && st.current.len() > 0 {
        match first_index(line, '=') {
            Some(e) => {
                if st.profiles.contains_key(st.current) {
                    let device = line.subrange(2, e);
                    let path = line.subrange(e + 1, line.len() as int);
                    LoadState {
                        profiles: st.profiles.insert(st.current, st.profiles[st.current].insert(device, path)),
                        ..st
                    }
                } else {
                    st
                }
            },
            None => st,
        }
    } else {
        st
    }
}

/// The effect of one line: empty lines are skipped, a header switches the
/// section, other lines are read by the rules of the current section.
pub open spec fn load_line(st: LoadState, line: Seq<char>) -> LoadState {
    if line.len() == 0 {
        st
    } else if is_header(line) {
        LoadState { section: line.subrange(1, line.len() - 1), ..st }
    } else if st.section == "PROFILES"@ {
        profile_section_line(st, line)
    } else if st.section == "SCHEDULE"@ {
        match schedule_entry_of(line) {
            Some(e) => LoadState { schedule: st.schedule.push(e), ..st },
            None => st,
        }
    } else {
        st
    }
}

pub open spec fn load_from(st: LoadState, lines: Seq<Seq<char>>) -> LoadState
    decreases lines.len(),
{
    if lines.len() == 0 {
        st
    } else {
        load_line(load_from(st, lines.drop_last()), lines.last())
    }
}

/// The state a load starts from: no section, no profile, nothing read.
pub open spec fn initial_load_state() -> LoadState {
    LoadState { section: Seq::empty(), current: Seq::empty(), profiles: Map::empty(), schedule: Seq::empty() }
}

/// What loading `lines` reads.
pub open spec fn load_lines(lines: Seq<Seq<char>>) -> LoadState {
    load_from(initial_load_state(), lines)
}

/// The first position of `c` in `x`.
fn find_char(x: &Vec<char>, c: char) -> (r: Option<usize>)
    ensures
        r matches Some(i) ==> first_index(x@, c) == Some(i as int),
        r is None ==> first_index(x@, c) is None,
{
    let mut i: usize = 0;
    while i < x.len()
        invariant
            i <= x@.len(),
            forall|j: int| 0 <= j < i ==> x@[j] != c,
        decreases x@.len() - i,
    {
        if x[i] == c {
            assert(is_first(x@, c, i as int));
            assert forall|k: int| is_first(x@, c, k) implies k == i by {
                if k < i {
                } else if k > i {
                    assert(x@[i as int] == c);
                }
            }
            return Some(i);
        }
        i = i + 1;
    }
    assert(!exists|k: int| is_first(x@, c, k));
    None
}

/// The comma-separated fields of `line`.
pub fn split_commas(line: &str) -> (r: Vec<String>)
    ensures
        strings_view(r@) == split_on(line@, ','),
{
    let x = chars_of(line);
    let n = x.len();
    let mut r: Vec<String> = Vec::new();
    let mut start: usize = 0;
    let mut i: usize = 0;
    assert(line@.subrange(0, 0) =~= Seq::<char>::empty());
    assert(strings_view(r@) =~= Seq::<Seq<char>>::empty());
    assert(split_on(Seq::<char>::empty(), ',') == seq![Seq::<char>::empty()]);
    assert(strings_view(r@).push(line@.subrange(0, 0)) =~= split_on(line@.subrange(0, 0), ','));
    while i < n
        invariant
            n == x@.len(),
            x@ == line@,
            start <= i <= n,
            strings_view(r@).push(line@.subrange(start as int, i as int)) == split_on(line@.subrange(0, i as int), ','),
        decreases n - i,
    {
        let ghost pre = line@.subrange(0, i as int + 1);
        assert(pre.drop_last() =~= line@.subrange(0, i as int));
        assert(pre.last() == x@[i as int]);
        if x[i] == ',' {
            let piece = line.substring_char(start, i).to_owned();
            let ghost prev = strings_view(r@);
            r.push(piece);
            assert(strings_view(r@) =~= prev.push(line@.subrange(start as int, i as int)));
            start = i + 1;
            i = i + 1;
            assert(line@.subrange(start as int, i as int) =~= Seq::<char>::empty());
        } else {
            i = i + 1;
            assert(line@.subrange(start as int, i as int) =~= line@.subrange(start as int, i - 1).push(x@[i - 1]));
            assert(strings_view(r@).push(line@.subrange(start as int, i as int)) =~= split_on(
                line@.subrange(0, i as int),
                ',',
            ));
        }
    }
    let piece = line.substring_char(start, n).to_owned();
    let ghost prev = strings_view(r@);
    r.push(piece);
    assert(strings_view(r@) =~= prev.push(line@.subrange(start as int, n as int)));
    assert(line@.subrange(0, n as int) =~= line@);
    r
}

/// The schedule entry a line stands for, if it is one.
pub fn parse_schedule_line(line: &str) -> (r: Option<ScheduleEntry>)
    ensures
        r matches Some(e) ==> schedule_entry_of(line@) == Some(e@),
        r is None ==> schedule_entry_of(line@) is None,
{
    let parts = split_commas(line);
    if parts.len() != 4 {
        return None;
    }
    assert(strings_view(parts@)[1] == parts@[1]@);
    assert(strings_view(parts@)[2] == parts@[2]@);
    assert(strings_view(parts@)[3] == parts@[3]@);
    assert(strings_view(parts@)[0] == parts@[0]@);
    let hour = match parse_u32(parts[1].as_str()) {
        Some(h) => h,
        None => {
            return None;
        },
    };
    let minute = match parse_u32(parts[2].as_str()) {
        Some(m) => m,
        None => {
            return None;
        },
    };
    let flag = match parse_i32(parts[3].as_str()) {
        Some(f) => f,
        None => {
            return None;
        },
    };
    Some(ScheduleEntry { profile_name: parts[0].clone(), hour, minute, enabled: flag == 1 })
}

impl WallpaperManager {
    pub open spec fn load_state(&self, section: Seq<char>, current: Seq<char>) -> LoadState {
        LoadState { section, current, profiles: self.profiles_view(), schedule: self.schedule_view() }
    }

    /// Reads one configuration line into the store.
    fn load_one_line(&mut self, section: &mut String, current: &mut String, line: &str)
        requires
            old(self).wf(),
        ensures
            final(self).wf(),
            final(self).load_state(final(section)@, final(current)@) == load_line(
                old(self).load_state(old(section)@, old(current)@),
                line@,
            ),
            final(self).monitors == old(self).monitors,
            final(self).scheduler_running == old(self).scheduler_running,
    {
        let ghost st = self.load_state(section@, current@);
        let x = chars_of(line);
        let n = x.len();
        if n == 0 {
            return;
        }
        if x[0] == '[' && x[n - 1] == ']' {
            *section = line.substring_char(1, n - 1).to_owned();
            return;
        }
        if str_eq(section.as_str(), "PROFILES") {
            match strip_prefix(line, "PROFILE:") {
                Some(name) => {
                    self.put_empty_profile(name.as_str());
                    *current = name;
                    return;
                },
                None => {},
            }
            if strip_prefix(line, "  ").is_some() && current.unicode_len() > 0 {
                match find_char(&x, '=') {
                    Some(e) => {
                        proof {
                            reveal_strlit("  ");
                        }
                        if let Some(i) = self.find_profile(current.as_str()) {
                            proof {
                                lemma_assoc_index(self.profile_pairs(), i as int);
                            }
                            assert(e >= 2) by {
                                assert(line@[0] == ' ' && line@[1] == ' ') by {
                                    assert(line@.subrange(0, 2)[0] == line@[0]);
                                    assert(line@.subrange(0, 2)[1] == line@[1]);
                                }
                            }
                            let device = line.substring_char(2, e);
                            let path = line.substring_char(e + 1, n);
                            self.put_assignment(i, device, path);
                        }
                    },
                    None => {},
                }
            }
            return;
        }
        if str_eq(section.as_str(), "SCHEDULE") {
            match parse_schedule_line(line) {
                Some(entry) => {
                    let ghost prev = self.schedule_view();
                    self.schedule.push(entry);
                    assert(self.schedule_view() =~= prev.push(entry@));
                },
                None => {},
            }
        }
    }

    /// Replaces the profiles and the schedule with what `lines` hold; lines
    /// that fit no rule of their section are skipped.
    pub fn load_config(&mut self, lines: &Vec<String>)
        requires
            old(self).wf(),
        ensures
            final(self).wf(),
            final(self).profiles_view() == load_lines(strings_view(lines@)).profiles,
            final(self).schedule_view() == load_lines(strings_view(lines@)).schedule,
            final(self).monitors == old(self).monitors,
            final(self).scheduler_running == old(self).scheduler_running,
    {
        self.profiles.clear();
        self.schedule.clear();
        proof {
            crate::assoc::lemma_assoc_empty::<Map<Seq<char>, Seq<char>>>();
            assert(self.profile_pairs() =~= Seq::empty());
            assert(self.schedule_view() =~= Seq::empty());
        }
        let mut section = String::new();
        let mut current = String::new();
        let ghost ls = strings_view(lines@);
        let mut i: usize = 0;
        while i < lines.len()
            invariant
                i <= lines@.len(),
                ls == strings_view(lines@),
                self.wf(),
                self.load_state(section@, current@) == load_from(initial_load_state(), ls.subrange(0, i as int)),
                self.monitors == old(self).monitors,
                self.scheduler_running == old(self).scheduler_running,
            decreases lines@.len() - i,
        {
            proof {
                let sub = ls.subrange(0, i as int + 1);
                assert(sub.drop_last() =~= ls.subrange(0, i as int));
                assert(sub.last() == lines@[i as int]@);
            }
            self.load_one_line(&mut section, &mut current, lines[i].as_str());
            i = i + 1;
        }
        assert(ls.subrange(0, i as int) =~= ls);
    }
}


/// Loading two runs of lines is loading the first, then the second.
pub proof fn lemma_load_concat(st: LoadState, a: Seq<Seq<char>>, b: Seq<Seq<char>>)
    ensures
        load_from(st, a + b) == load_from(load_from(st, a), b),
    decreases b.len(),
{
    if b.len() == 0 {
        assert(a + b =~= a);
    } else {
        lemma_load_concat(st, a, b.drop_last());
        assert((a + b).drop_last() =~= a + b.drop_last());
        assert((a + b).last() == b.last());
    }
}

pub open spec fn no_char(s: Seq<char>, c: char) -> bool {
    forall|i: int| 0 <= i < s.len() ==> s[i] != c
}

proof fn lemma_split_single(b: Seq<char>, c: char)
    requires
        no_char(b, c),
    ensures
        split_on(b, c) == seq![b],
    decreases b.len(),
{
    if b.len() == 0 {
        assert(b =~= Seq::<char>::empty());
    } else {
        assert(no_char(b.drop_last(), c)) by {
            assert forall|i: int| 0 <= i < b.drop_last().len() implies b.drop_last()[i] != c by {
                assert(b.drop_last()[i] == b[i]);
            }
        }
        lemma_split_single(b.drop_last(), c);
        assert(b.last() != c);
        assert(b.drop_last().push(b.last()) =~= b);
        assert(seq![b.drop_last()].update(0, b.drop_last().push(b.last())) =~= seq![b]);
    }
}

proof fn lemma_split_after_sep(a: Seq<char>, b: Seq<char>, c: char)
    requires
        no_char(b, c),
    ensures
        split_on(a.push(c) + b, c) == split_on(a, c).push(b),
    decreases b.len(),
{
    let s = a.push(c) + b;
    if b.len() == 0 {
        assert(b =~= Seq::<char>::empty());
        assert(s =~= a.push(c));
        assert(s.drop_last() =~= a);
        assert(s.last() == c);
    } else {
        assert(no_char(b.drop_last(), c)) by {
            assert forall|i: int| 0 <= i < b.drop_last().len() implies b.drop_last()[i] != c by {
                assert(b.drop_last()[i] == b[i]);
            }
        }
        lemma_split_after_sep(a, b.drop_last(), c);
        assert(s.drop_last() =~= a.push(c) + b.drop_last());
        assert(s.last() == b.last());
        assert(b.last() != c);
        let r = split_on(a, c).push(b.drop_last());
        assert(r.last().push(b.last()) =~= b);
        assert(r.update(r.len() - 1, r.last().push(b.last())) =~= split_on(a, c).push(b));
    }
}

proof fn lemma_parse_decimal(n: u32)
    ensures
        parse_u32_spec(decimal(n as nat)) == Some(n),
        no_char(decimal(n as nat), ','),
{
    lemma_decimal(n as nat);
}

proof fn lemma_parse_flag(b: bool)
    ensures
        parse_i32_spec(flag_text(b)) is Some,
        (parse_i32_spec(flag_text(b))->0 == 1) == b,
        no_char(flag_text(b), ','),
        flag_text(b).len() == 1,
        flag_text(b)[0] != ']',
{
    reveal_strlit("1");
    reveal_strlit("0");
    let f = flag_text(b);
    assert(f.drop_last() =~= Seq::<char>::empty());
    assert(digits_value(Seq::<char>::empty()) == 0);
    assert(digits_value(f) == digits_value(f.drop_last()) * 10 + crate::text::digit_of(f.last()));
    assert(all_digits(f));
}

/// A schedule line reads back as the entry it was written from.
proof fn lemma_entry_line(e: EntryView)
    requires
        no_char(e.profile_name, ','),
    ensures
        entry_line(e).len() > 0,
        !is_header(entry_line(e)),
        schedule_entry_of(entry_line(e)) == Some(e),
{
    reveal_strlit(",");
    let d1 = decimal(e.hour as nat);
    let d2 = decimal(e.minute as nat);
    let f = flag_text(e.enabled);
    lemma_parse_decimal(e.hour);
    lemma_parse_decimal(e.minute);
    lemma_parse_flag(e.enabled);
    let n = e.profile_name;
    let l = entry_line(e);
    assert(l =~= ((n.push(',') + d1).push(',') + d2).push(',') + f);
    lemma_split_single(n, ',');
    lemma_split_after_sep(n, d1, ',');
    lemma_split_after_sep(n.push(',') + d1, d2, ',');
    lemma_split_after_sep((n.push(',') + d1).push(',') + d2, f, ',');
    assert(split_on(l, ',') =~= seq![n, d1, d2, f]);
    assert(l.last() == f[0]);
}

/// Loading schedule lines appends their entries.
proof fn lemma_schedule_part(st: LoadState, es: Seq<EntryView>)
    requires
        st.section == "SCHEDULE"@,
        forall|i: int| 0 <= i < es.len() ==> no_char((#[trigger] es[i]).profile_name, ','),
    ensures
        load_from(st, es.map_values(|e: EntryView| entry_line(e))).schedule == st.schedule + es,
        load_from(st, es.map_values(|e: EntryView| entry_line(e))).profiles == st.profiles,
    decreases es.len(),
{
    reveal_strlit("SCHEDULE");
    reveal_strlit("PROFILES");
    let lines = es.map_values(|e: EntryView| entry_line(e));
    if es.len() == 0 {
        assert(st.schedule + es =~= st.schedule);
    } else {
        let p = es.drop_last();
        lemma_schedule_part(st, p);
        assert(lines.drop_last() =~= p.map_values(|e: EntryView| entry_line(e)));
        let mid = load_from(st, lines.drop_last());
        lemma_entry_line(es.last());
        assert(mid.section == st.section) by {
            lemma_schedule_section(st, p);
        }
        assert("SCHEDULE"@ != "PROFILES"@) by {
            assert("SCHEDULE"@[0] != "PROFILES"@[0]);
        }
        assert(st.schedule + es =~= (st.schedule + p).push(es.last()));
    }
}

proof fn lemma_schedule_section(st: LoadState, es: Seq<EntryView>)
    requires
        forall|i: int| 0 <= i < es.len() ==> no_char((#[trigger] es[i]).profile_name, ','),
    ensures
        load_from(st, es.map_values(|e: EntryView| entry_line(e))).section == st.section,
    decreases es.len(),
{
    let lines = es.map_values(|e: EntryView| entry_line(e));
    if es.len() > 0 {
        let p = es.drop_last();
        lemma_schedule_section(st, p);
        assert(lines.drop_last() =~= p.map_values(|e: EntryView| entry_line(e)));
        lemma_entry_line(es.last());
    }
}

/// An assignment line reads back as that assignment.
proof fn lemma_pair_line(st: LoadState, d: Seq<char>, path: Seq<char>)
    requires
        st.section == "PROFILES"@,
        st.current.len() > 0,
        st.profiles.contains_key(st.current),
        no_char(d, '='),
    ensures
        load_line(st, pair_line((d, path))) == (LoadState {
            profiles: st.profiles.insert(st.current, st.profiles[st.current].insert(d, path)),
            ..st
        }),
{
    reveal_strlit("  ");
    reveal_strlit("=");
    reveal_strlit("PROFILE:");
    let l = pair_line((d, path));
    let e: int = 2 + d.len() as int;
    assert(l[0] == ' ');
    assert(!has_prefix(l, "PROFILE:"@)) by {
        if has_prefix(l, "PROFILE:"@) {
            assert(l.subrange(0, 8)[0] == l[0]);
        }
    }
    assert(has_prefix(l, "  "@)) by {
        assert(l.subrange(0, 2) =~= "  "@);
    }
    assert(l[e] == '=');
    assert forall|j: int| 0 <= j < e implies l[j] != '=' by {
        if j >= 2 {
            assert(l[j] == d[j - 2]);
        }
    }
    assert(is_first(l, '=', e));
    assert forall|k: int| is_first(l, '=', k) implies k == e by {
        if k > e {
            assert(l[e] == '=');
        }
    }
    assert(first_index(l, '=') == Some(e));
    assert(l.subrange(2, e) =~= d);
    assert(l.subrange(e + 1, l.len() as int) =~= path);
}

/// Loading the assignment lines of one profile fills that profile.
proof fn lemma_pairs_part(st: LoadState, pairs: Seq<(Seq<char>, Seq<char>)>)
    requires
        st.section == "PROFILES"@,
        pairs.len() > 0 ==> st.current.len() > 0,
        st.profiles.contains_key(st.current),
        keys_unique(pairs),
        forall|i: int| 0 <= i < pairs.len() ==> no_char((#[trigger] pairs[i]).0, '='),
    ensures
        load_from(st, pairs.map_values(|p: (Seq<char>, Seq<char>)| pair_line(p))) == (LoadState {
            profiles: st.profiles.insert(
                st.current,
                st.profiles[st.current].union_prefer_right(assoc_view(pairs)),
            ),
            ..st
        }),
    decreases pairs.len(),
{
    let lines = pairs.map_values(|p: (Seq<char>, Seq<char>)| pair_line(p));
    if pairs.len() == 0 {
        assert(lines =~= Seq::<Seq<char>>::empty());
        assert(load_from(st, lines) == st);
        assert(pairs =~= Seq::<(Seq<char>, Seq<char>)>::empty());
        lemma_assoc_empty::<Seq<char>>();
        assert(st.profiles[st.current].union_prefer_right(Map::empty()) =~= st.profiles[st.current]);
        assert(st.profiles.insert(st.current, st.profiles[st.current]) =~= st.profiles);
    } else {
        let p = pairs.drop_last();
        assert(keys_unique(p)) by {
            assert forall|i: int, j: int| 0 <= i < p.len() && 0 <= j < p.len() && (#[trigger] p[i]).0 == (#[trigger] p[j]).0 implies i == j by {
                assert(p[i] == pairs[i] && p[j] == pairs[j]);
            }
        }
        lemma_pairs_part(st, p);
        assert(lines.drop_last() =~= p.map_values(|q: (Seq<char>, Seq<char>)| pair_line(q)));
        let mid = load_from(st, lines.drop_last());
        let (d, v) = pairs.last();
        assert(lines.last() == pair_line((d, v)));
        assert(load_from(st, lines) == load_line(mid, pair_line((d, v))));
        assert(no_char(d, '='));
        lemma_pair_line(mid, d, v);
        assert(!has_key(p, d)) by {
            if has_key(p, d) {
                let i = choose|i: int| 0 <= i < p.len() && (#[trigger] p[i]).0 == d;
                assert(pairs[i].0 == pairs[pairs.len() - 1].0);
            }
        }
        lemma_assoc_push(p, d, v);
        assert(p.push((d, v)) =~= pairs);
        let base = st.profiles[st.current];
        assert(base.union_prefer_right(assoc_view(p)).insert(d, v) =~= base.union_prefer_right(assoc_view(pairs)));
        assert(mid.profiles[st.current] == base.union_prefer_right(assoc_view(p)));
        assert(mid.profiles.insert(st.current, mid.profiles[st.current].insert(d, v)) =~= st.profiles.insert(
            st.current,
            base.union_prefer_right(assoc_view(pairs)),
        ));
        assert(mid.section == st.section && mid.current == st.current && mid.schedule == st.schedule);
    }
}

pub open spec fn profile_entries(ps: Seq<WallpaperProfile>) -> Seq<(Seq<char>, Map<Seq<char>, Seq<char>>)> {
    ps.map_values(|p: WallpaperProfile| (p.name@, p.wallpapers()))
}

/// What a store must avoid for its configuration to read back unchanged:
/// a profile with assignments has a nonempty name, no device name holds `=`,
/// and no scheduled profile name holds `,`.
pub open spec fn round_trip_safe(profiles: Seq<WallpaperProfile>, schedule: Seq<EntryView>) -> bool {
    &&& forall|i: int| 0 <= i < profiles.len() ==> ((#[trigger] profiles[i]).name@.len() > 0
        || profiles[i].pairs().len() == 0)
    &&& forall|i: int, j: int| 0 <= i < profiles.len() && 0 <= j < profiles[i].pairs().len()
        ==> no_char((#[trigger] profiles[i].pairs()[j]).0, '=')
    &&& forall|k: int| 0 <= k < schedule.len() ==> no_char((#[trigger] schedule[k]).profile_name, ',')
}

/// Loading the lines of a run of profiles reads those profiles.
proof fn lemma_profiles_part(st: LoadState, ps: Seq<WallpaperProfile>)
    requires
        st.section == "PROFILES"@,
        st.profiles == Map::<Seq<char>, Map<Seq<char>, Seq<char>>>::empty(),
        keys_unique(profile_entries(ps)),
        forall|i: int| 0 <= i < ps.len() ==> (#[trigger] ps[i]).wf(),
        round_trip_safe(ps, Seq::empty()),
    ensures
        load_from(st, profiles_lines(ps)).section == "PROFILES"@,
        load_from(st, profiles_lines(ps)).schedule == st.schedule,
        load_from(st, profiles_lines(ps)).profiles == assoc_view(profile_entries(ps)),
    decreases ps.len(),
{
    reveal_strlit("PROFILE:");
    if ps.len() == 0 {
        lemma_assoc_empty::<Map<Seq<char>, Seq<char>>>();
        assert(profile_entries(ps) =~= Seq::empty());
    } else {
        let p = ps.drop_last();
        let last = ps.last();
        assert(profile_entries(p) =~= profile_entries(ps).drop_last());
        assert(keys_unique(profile_entries(p))) by {
            let q = profile_entries(p);
            let r = profile_entries(ps);
            assert forall|i: int, j: int| 0 <= i < q.len() && 0 <= j < q.len() && (#[trigger] q[i]).0 == (#[trigger] q[j]).0 implies i == j by {
                assert(q[i] == r[i] && q[j] == r[j]);
            }
        }
        assert(round_trip_safe(p, Seq::empty())) by {
            assert forall|i: int, j: int| 0 <= i < p.len() && 0 <= j < p[i].pairs().len()
                implies no_char((#[trigger] p[i].pairs()[j]).0, '=') by {
                assert(p[i] == ps[i]);
            }
            assert forall|i: int| 0 <= i < p.len() implies ((#[trigger] p[i]).name@.len() > 0 || p[i].pairs().len() == 0) by {
                assert(p[i] == ps[i]);
            }
        }
        assert forall|i: int| 0 <= i < p.len() implies (#[trigger] p[i]).wf() by {
            assert(p[i] == ps[i]);
        }
        lemma_profiles_part(st, p);
        lemma_load_concat(st, profiles_lines(p), profile_lines(last.name@, last.pairs()));
        let mid = load_from(st, profiles_lines(p));
        let h = "PROFILE:"@ + last.name@;
        let body = last.pairs().map_values(|q: (Seq<char>, Seq<char>)| pair_line(q));
        lemma_load_concat(mid, seq![h], body);
        assert(profile_lines(last.name@, last.pairs()) =~= seq![h] + body);
        assert(seq![h].drop_last() =~= Seq::<Seq<char>>::empty());
        assert(h[0] == 'P');
        assert(has_prefix(h, "PROFILE:"@)) by {
            assert(h.subrange(0, 8) =~= "PROFILE:"@);
        }
        assert(h.subrange(8, h.len() as int) =~= last.name@);
        let after_head = load_from(mid, seq![h]);
        assert(load_from(mid, seq![h]) == load_line(load_from(mid, Seq::<Seq<char>>::empty()), h));
        assert(load_from(mid, Seq::<Seq<char>>::empty()) == mid);
        assert(after_head == LoadState {
            current: last.name@,
            profiles: mid.profiles.insert(last.name@, Map::empty()),
            ..mid
        });
        assert(ps[ps.len() - 1] == last);
        assert(forall|j: int| 0 <= j < last.pairs().len() ==> no_char((#[trigger] last.pairs()[j]).0, '='));
        lemma_pairs_part(after_head, last.pairs());
        assert(Map::<Seq<char>, Seq<char>>::empty().union_prefer_right(last.wallpapers()) =~= last.wallpapers());
        let entries = profile_entries(ps);
        assert(entries.last() == (last.name@, last.wallpapers()));
        assert(!has_key(profile_entries(p), last.name@)) by {
            if has_key(profile_entries(p), last.name@) {
                let i = choose|i: int| 0 <= i < profile_entries(p).len() && (#[trigger] profile_entries(p)[i]).0 == last.name@;
                assert(entries[i].0 == entries[entries.len() - 1].0);
            }
        }
        lemma_assoc_push(profile_entries(p), last.name@, last.wallpapers());
        assert(profile_entries(p).push((last.name@, last.wallpapers())) =~= entries);
    }
}

/// Saving a store's configuration and loading the lines back gives the same
/// profiles, each with the same assignments, and the same schedule.
pub proof fn lemma_config_round_trip(m: WallpaperManager)
    requires
        m.wf(),
        round_trip_safe(m.profiles@, m.schedule_view()),
    ensures
        load_lines(config_lines(m.profiles@, m.schedule_view())).profiles == m.profiles_view(),
        load_lines(config_lines(m.profiles@, m.schedule_view())).schedule == m.schedule_view(),
{
    reveal_strlit("[PROFILES]");
    reveal_strlit("PROFILES");
    reveal_strlit("[SCHEDULE]");
    reveal_strlit("SCHEDULE");
    let ps = m.profiles@;
    let sv = m.schedule_view();
    let st0 = initial_load_state();
    let hp = seq!["[PROFILES]"@];
    let hs = seq!["[SCHEDULE]"@];
    let sl = sv.map_values(|e: EntryView| entry_line(e));
    assert(config_lines(ps, sv) =~= ((hp + profiles_lines(ps)) + hs) + sl);
    lemma_load_concat(st0, (hp + profiles_lines(ps)) + hs, sl);
    lemma_load_concat(st0, hp + profiles_lines(ps), hs);
    lemma_load_concat(st0, hp, profiles_lines(ps));
    assert(hp.drop_last() =~= Seq::<Seq<char>>::empty());
    assert(hs.drop_last() =~= Seq::<Seq<char>>::empty());
    assert("[PROFILES]"@.subrange(1, 9) =~= "PROFILES"@);
    assert("[SCHEDULE]"@.subrange(1, 9) =~= "SCHEDULE"@);
    let s1 = load_from(st0, hp);
    assert(s1 == load_line(load_from(st0, Seq::<Seq<char>>::empty()), "[PROFILES]"@));
    assert(load_from(st0, Seq::<Seq<char>>::empty()) == st0);
    assert(s1 == LoadState { section: "PROFILES"@, ..st0 });
    assert(profile_entries(ps) == m.profile_pairs());
    assert(round_trip_safe(ps, Seq::empty()));
    lemma_profiles_part(s1, ps);
    let s2 = load_from(s1, profiles_lines(ps));
    let s3 = load_from(s2, hs);
    assert(s3 == load_line(load_from(s2, Seq::<Seq<char>>::empty()), "[SCHEDULE]"@));
    assert(load_from(s2, Seq::<Seq<char>>::empty()) == s2);
    assert(s3 == LoadState { section: "SCHEDULE"@, ..s2 });
    lemma_schedule_part(s3, sv);
    assert(Seq::<EntryView>::empty() + sv =~= sv);
}

} // verus!
