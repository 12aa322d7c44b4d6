//! Graphics settings driven by the in-game settings page, and their
//! `key=value` text form (the settings file).
use vstd::prelude::*;

use crate::text::{
    chars_eq_str, chars_to_string, find_char, find_char_exec, joined, lines_of, parse_i32, push_signed_decimal,
    push_str_chars, signed_decimal, spec_parse_i32, str_chars, trim, trim_chars, trim_start, trim_end,
    is_ws, no_newline, is_digit, decimal, lemma_decimal_digits, lemma_parse_signed_decimal,
    lemma_lines_of_joined,
};

verus! {

/// Default chunk streaming radius (range 1..=32).
pub const VIEW_RADIUS: i32 = 4;

/// All settings with their live values.
#[derive(Clone, Copy, Debug)]
pub struct Settings {
    /// Chunk streaming radius around the player (1..=32).
    pub render_distance: i32,
    /// Cloud layer radius in grid cells around the player (2..=10).
    pub cloud_distance: i32,
    /// Sun/moon shadow map on/off.
    pub shadows: bool,
    /// Drifting cloud layer on/off.
    pub clouds: bool,
    /// Planned shader-pack features, read-only for now.
    pub rt_shadows: bool,
    pub rt_ao: bool,
    pub god_rays: bool,
}

pub open spec fn clamp_int(v: int, lo: int, hi: int) -> int {
    if v < lo {
        lo
    } else if v > hi {
        hi
    } else {
        v
    }
}

/// `v` clamped to `lo..=hi`.
pub fn clamp_i32(v: i32, lo: i32, hi: i32) -> (r: i32)
    requires
        lo <= hi,
    ensures
        r == clamp_int(v as int, lo as int, hi as int),
{
    if v < lo {
        lo
    } else if v > hi {
        hi
    } else {
        v
    }
}

pub open spec fn spec_default_settings() -> Settings {
    Settings {
        render_distance: VIEW_RADIUS,
        cloud_distance: 7,
        shadows: true,
        clouds: true,
        rt_shadows: false,
        rt_ao: false,
        god_rays: false,
    }
}

impl Default for Settings {
    fn default() -> (s: Settings)
        ensures
            s == spec_default_settings(),
    {
        Settings {
            render_distance: VIEW_RADIUS,
            cloud_distance: 7,
            shadows: true,
            clouds: true,
            rt_shadows: false,
            rt_ao: false,
            god_rays: false,
        }
    }
}

impl Settings {
    /// Both sliders are within their ranges.
    pub open spec fn in_range(self) -> bool {
        1 <= self.render_distance <= 32 && 2 <= self.cloud_distance <= 10
    }

    /// One wheel notch on the render-distance slider, clamped to 1..=32.
    pub fn step_render_distance(&mut self, delta: i32)
        ensures
            final(self).render_distance == clamp_int(old(self).render_distance + delta, 1, 32),
            *final(self) == (Settings { render_distance: final(self).render_distance, ..*old(self) }),
    {
        let sum: i64 = self.render_distance as i64 + delta as i64;
        self.render_distance = if sum < 1 {
            1
        } else if sum > 32 {
            32
        } else {
            sum as i32
        };
    }

    /// One wheel notch on the cloud-distance slider, clamped to 2..=10.
    pub fn step_cloud_distance(&mut self, delta: i32)
        ensures
            final(self).cloud_distance == clamp_int(old(self).cloud_distance + delta, 2, 10),
            *final(self) == (Settings { cloud_distance: final(self).cloud_distance, ..*old(self) }),
    {
        let sum: i64 = self.cloud_distance as i64 + delta as i64;
        self.cloud_distance = if sum < 2 {
            2
        } else if sum > 10 {
            10
        } else {
            sum as i32
        };
    }

    pub fn toggle_shadows(&mut self)
        ensures
            *final(self) == (Settings { shadows: !old(self).shadows, ..*old(self) }),
    {
        self.shadows = !self.shadows;
    }

    pub fn toggle_clouds(&mut self)
        ensures
            *final(self) == (Settings { clouds: !old(self).clouds, ..*old(self) }),
    {
        self.clouds = !self.clouds;
    }

    /// Direct slider assignment, clamped to 1..=32.
    pub fn set_render_distance(&mut self, v: i32)
        ensures
            *final(self) == (Settings { render_distance: clamp_int(v as int, 1, 32) as i32, ..*old(self) }),
    {
        self.render_distance = clamp_i32(v, 1, 32);
    }

    /// Direct slider assignment, clamped to 2..=10.
    pub fn set_cloud_distance(&mut self, v: i32)
        ensures
            *final(self) == (Settings { cloud_distance: clamp_int(v as int, 2, 10) as i32, ..*old(self) }),
    {
        self.cloud_distance = clamp_i32(v, 2, 10);
    }
}

/// `"true"` and `"1"` switch a toggle on; anything else switches it off.
pub open spec fn spec_flag(v: Seq<char>) -> bool {
    v == "true"@ || v == "1"@
}

/// The effect of one settings-file line: `key=value` with whitespace
/// trimmed around the line, key and value; blank lines, `#` comments,
/// lines without '=', unknown keys and unparsable numbers change nothing.
#[verifier::opaque]
pub open spec fn apply_setting_line(s: Settings, line: Seq<char>) -> Settings {
    let l = trim(line);
    if l.len() == 0 || l[0] == '#' {
        s
    } else {
        match find_char(l, '=') {
            None => s,
            Some(i) => {
                let k = trim(l.take(i));
                let v = trim(l.skip(i + 1));
                if k == "render_distance"@ {
                    match spec_parse_i32(v) {
                        Some(n) => Settings { render_distance: clamp_int(n as int, 1, 32) as i32, ..s },
                        None => s,
                    }
                } else if k == "cloud_distance"@ {
                    match spec_parse_i32(v) {
                        Some(n) => Settings { cloud_distance: clamp_int(n as int, 2, 10) as i32, ..s },
                        None => s,
                    }
                } else if k == "shadows"@ {
                    Settings { shadows: spec_flag(v), ..s }
                } else if k == "clouds"@ {
                    Settings { clouds: spec_flag(v), ..s }
                } else {
                    s
                }
            },
        }
    }
}

/// The lines applied in order, starting from `s`.
pub open spec fn apply_setting_lines(s: Settings, lines: Seq<Seq<char>>) -> Settings
    decreases lines.len(),
{
    if lines.len() == 0 {
        s
    } else {
        apply_setting_line(apply_setting_lines(s, lines.drop_last()), lines.last())
    }
}

/// Settings read from a settings-file text: the defaults with every line
/// applied in order.
pub open spec fn spec_parse_settings(text: Seq<char>) -> Settings {
    apply_setting_lines(spec_default_settings(), lines_of(text))
}

fn flag_exec(v: &[char]) -> (r: bool)
    ensures
        r == spec_flag(v@),
{
    chars_eq_str(v, "true") || chars_eq_str(v, "1")
}

/// Apply one line of a settings file.
fn apply_line_exec(s: &mut Settings, line: &[char])
    ensures
        *final(s) == apply_setting_line(*old(s), line@),
{
    reveal(apply_setting_line);
    let l = trim_chars(line);
    if l.len() == 0 || l[0] == '#' {
        return;
    }
    let eq = find_char_exec(l.as_slice(), '=');
    match eq {
        None => {},
        Some(i) => {
            let mut head: Vec<char> = Vec::new();
            let mut tail: Vec<char> = Vec::new();
            let mut j: usize = 0;
            while j < l.len()
                invariant
                    i < l.len(),
                    j <= l.len(),
                    head@ == l@.take(if j < i { j as int } else { i as int }),
                    tail@ == (if j <= i + 1 { seq![] } else { l@.subrange(i + 1, j as int) }),
                decreases l.len() - j,
            {
                if j < i {
                    head.push(l[j]);
                    assert(head@ =~= l@.take(j + 1));
                } else if j > i {
                    tail.push(l[j]);
                    assert(tail@ =~= l@.subrange(i + 1, j + 1));
                }
                j = j + 1;
            }
            assert(tail@ =~= l@.skip(i + 1));
            let k = trim_chars(head.as_slice());
            let v = trim_chars(tail.as_slice());
            if chars_eq_str(k.as_slice(), "render_distance") {
                if let Some(n) = parse_i32(v.as_slice()) {
                    s.set_render_distance(n);
                }
            } else if chars_eq_str(k.as_slice(), "cloud_distance") {
                if let Some(n) = parse_i32(v.as_slice()) {
                    s.set_cloud_distance(n);
                }
            } else if chars_eq_str(k.as_slice(), "shadows") {
                s.shadows = flag_exec(v.as_slice());
            } else if chars_eq_str(k.as_slice(), "clouds") {
                s.clouds = flag_exec(v.as_slice());
            }
        },
    }
}

impl Settings {
    /// Parse `key=value` lines; unknown keys and out-of-range or invalid
    /// values are ignored, every absent setting keeps its default.
    pub fn parse(text: &str) -> (s: Settings)
        ensures
            s == spec_parse_settings(text@),
    {
        let cs = str_chars(text);
        let mut s = Settings::default();
        let mut cur: Vec<char> = Vec::new();
        let mut i: usize = 0;
        while i < cs.len()
            invariant
                i <= cs.len(),
                cs@ == text@,
                lines_of(cs@.take(i as int)).len() >= 1,
                s == apply_setting_lines(spec_default_settings(), lines_of(cs@.take(i as int)).drop_last()),
                cur@ == lines_of(cs@.take(i as int)).last(),
            decreases cs.len() - i,
        {
            let ghost pre = cs@.take(i as int);
            let ghost ls = lines_of(pre);
            let c = cs[i];
            proof {
                assert(cs@.take(i + 1).drop_last() =~= pre);
                assert(cs@.take(i + 1).last() == c);
            }
            if c == '\n' {
                apply_line_exec(&mut s, cur.as_slice());
                cur = Vec::new();
                proof {
                    let nl = lines_of(cs@.take(i + 1));
                    assert(nl == ls.push(seq![]));
                    assert(nl.drop_last() =~= ls);
                    assert(ls =~= ls.drop_last().push(ls.last()));
                }
            } else {
                cur.push(c);
                proof {
                    let nl = lines_of(cs@.take(i + 1));
                    assert(nl == ls.update(ls.len() - 1, ls.last().push(c)));
                    assert(nl.drop_last() =~= ls.drop_last());
                }
            }
            i = i + 1;
        }
        proof {
            assert(cs@.take(cs.len() as int) =~= cs@);
        }
        let ghost ls = lines_of(cs@);
        apply_line_exec(&mut s, cur.as_slice());
        assert(ls =~= ls.drop_last().push(ls.last()));
        s
    }
}


pub open spec fn bool_text(b: bool) -> Seq<char> {
    if b {
        "true"@
    } else {
        "false"@
    }
}

/// The lines of the settings file: a comment header, then one
/// `key=value` line per persisted setting.
pub open spec fn settings_lines(s: Settings) -> Seq<Seq<char>> {
    seq![
        "# VoxelCraft settings (hand-editable; invalid lines are ignored)"@,
        "render_distance="@ + signed_decimal(s.render_distance as int),
        "cloud_distance="@ + signed_decimal(s.cloud_distance as int),
        "shadows="@ + bool_text(s.shadows),
        "clouds="@ + bool_text(s.clouds),
    ]
}

/// The settings-file text: [`settings_lines`], each ended by '\n'.
pub open spec fn spec_settings_text(s: Settings) -> Seq<char> {
    joined(settings_lines(s))
}

fn push_bool_text(out: &mut Vec<char>, b: bool)
    ensures
        final(out)@ == old(out)@ + bool_text(b),
{
    if b {
        push_str_chars(out, "true");
    } else {
        push_str_chars(out, "false");
    }
}

impl Settings {
    /// The text that saving writes to the settings file.
    pub fn save(&self) -> (t: String)
        ensures
            t@ == spec_settings_text(*self),
    {
        let ghost ls = settings_lines(*self);
        let mut out: Vec<char> = Vec::new();
        push_str_chars(&mut out, "# VoxelCraft settings (hand-editable; invalid lines are ignored)");
        out.push('\n');
        assert(out@ =~= joined(ls.take(1))) by {
            assert(ls.take(1).drop_last() =~= Seq::<Seq<char>>::empty());
            assert(joined(Seq::<Seq<char>>::empty()) =~= Seq::<char>::empty());
            assert(joined(ls.take(1)) == joined(ls.take(1).drop_last()) + ls[0] + seq!['\n']);
        }
        push_str_chars(&mut out, "render_distance=");
        push_signed_decimal(&mut out, self.render_distance as i64);
        out.push('\n');
        assert(out@ =~= joined(ls.take(2))) by {
            assert(ls.take(2).drop_last() =~= ls.take(1));
            assert(joined(ls.take(2)) == joined(ls.take(1)) + ls[1] + seq!['\n']);
        }
        push_str_chars(&mut out, "cloud_distance=");
        push_signed_decimal(&mut out, self.cloud_distance as i64);
        out.push('\n');
        assert(out@ =~= joined(ls.take(3))) by {
            assert(ls.take(3).drop_last() =~= ls.take(2));
            assert(joined(ls.take(3)) == joined(ls.take(2)) + ls[2] + seq!['\n']);
        }
        push_str_chars(&mut out, "shadows=");
        push_bool_text(&mut out, self.shadows);
        out.push('\n');
        assert(out@ =~= joined(ls.take(4))) by {
            assert(ls.take(4).drop_last() =~= ls.take(3));
            assert(joined(ls.take(4)) == joined(ls.take(3)) + ls[3] + seq!['\n']);
        }
        push_str_chars(&mut out, "clouds=");
        push_bool_text(&mut out, self.clouds);
        out.push('\n');
        assert(out@ =~= joined(ls.take(5))) by {
            assert(ls.take(5).drop_last() =~= ls.take(4));
            assert(joined(ls.take(5)) == joined(ls.take(4)) + ls[4] + seq!['\n']);
        }
        assert(ls.take(5) =~= ls);
        chars_to_string(&out)
    }
}


proof fn lemma_trim_plain(x: Seq<char>)
    requires
        x.len() >= 1,
        !is_ws(x[0]),
        !is_ws(x.last()),
    ensures
        trim(x) == x,
{
    assert(trim_start(x) == x);
    assert(trim_end(x) == x);
}

/// How a `key=value` line with no surrounding blanks splits.
proof fn lemma_key_value_line(key: Seq<char>, v: Seq<char>)
    requires
        key.len() >= 1,
        forall|i: int| 0 <= i < key.len() ==> key[i] != '=',
        !is_ws(key[0]),
        !is_ws(key.last()),
        key[0] != '#',
        v.len() >= 1,
        !is_ws(v[0]),
        !is_ws(v.last()),
    ensures
        ({
            let l = key + seq!['='] + v;
            &&& l.len() > 0
            &&& l[0] != '#'
            &&& trim(l) == l
            &&& find_char(l, '=') == Some(key.len() as int)
            &&& trim(l.take(key.len() as int)) == key
            &&& trim(l.skip(key.len() as int + 1)) == v
        }),
{
    let l = key + seq!['='] + v;
    let n = key.len() as int;
    assert(l[0] == key[0]);
    assert(l.last() == v.last());
    lemma_trim_plain(l);
    assert(l[n] == '=');
    assert(exists|i: int| 0 <= i < l.len() && l[i] == '=');
    let c = choose|i: int| 0 <= i < l.len() && l[i] == '=' && forall|j: int| 0 <= j < i ==> l[j] != '=';
    assert(0 <= n < l.len() && l[n] == '=' && forall|j: int| 0 <= j < n ==> l[j] != '=') by {
        assert forall|j: int| 0 <= j < n implies l[j] != '=' by {
            assert(l[j] == key[j]);
        }
    }
    assert(0 <= c < l.len() && l[c] == '=' && forall|j: int| 0 <= j < c ==> l[j] != '=');
    if c < n {
        assert(l[c] == key[c]);
    }
    assert(c == n);
    assert(l.take(n) =~= key);
    assert(l.skip(n + 1) =~= v);
    lemma_trim_plain(key);
    lemma_trim_plain(v);
}

proof fn lemma_signed_decimal_plain(n: i32)
    ensures
        ({
            let d = signed_decimal(n as int);
            &&& d.len() >= 1
            &&& !is_ws(d[0])
            &&& !is_ws(d.last())
            &&& no_newline(d)
            &&& spec_parse_i32(d) == Some(n)
        }),
{
    let d = signed_decimal(n as int);
    lemma_parse_signed_decimal(n);
    if n < 0 {
        lemma_decimal_digits((-n) as nat);
        let e = decimal((-n) as nat);
        assert(d.last() == e.last());
        assert(is_digit(e[e.len() - 1]));
        assert forall|i: int| 0 <= i < d.len() implies d[i] != '\n' by {
            if i > 0 {
                assert(d[i] == e[i - 1]);
                assert(is_digit(e[i - 1]));
            }
        }
    } else {
        lemma_decimal_digits(n as nat);
        assert(is_digit(d[0]));
        assert(is_digit(d[d.len() - 1]));
        assert forall|i: int| 0 <= i < d.len() implies d[i] != '\n' by {
            assert(is_digit(d[i]));
        }
    }
}

/// What reading the settings file back gives: the persisted settings,
/// sliders clamped to their ranges, the read-only toggles at their
/// defaults.
pub open spec fn reloaded(s: Settings) -> Settings {
    Settings {
        render_distance: clamp_int(s.render_distance as int, 1, 32) as i32,
        cloud_distance: clamp_int(s.cloud_distance as int, 2, 10) as i32,
        rt_shadows: false,
        rt_ao: false,
        god_rays: false,
        ..s
    }
}

proof fn lemma_settings_lines_split(s: Settings)
    ensures
        lines_of(spec_settings_text(s)) == settings_lines(s).push(seq![]),
{
    reveal_strlit("# VoxelCraft settings (hand-editable; invalid lines are ignored)");
    reveal_strlit("render_distance=");
    reveal_strlit("cloud_distance=");
    reveal_strlit("shadows=");
    reveal_strlit("clouds=");
    reveal_strlit("true");
    reveal_strlit("false");
    let ls = settings_lines(s);
    let d1 = signed_decimal(s.render_distance as int);
    let d2 = signed_decimal(s.cloud_distance as int);
    lemma_signed_decimal_plain(s.render_distance);
    lemma_signed_decimal_plain(s.cloud_distance);
    let l1 = "render_distance="@ + d1;
    let l2 = "cloud_distance="@ + d2;
    assert forall|i: int| 0 <= i < l1.len() implies l1[i] != '\n' by {
        if i >= 16 {
            assert(l1[i] == d1[i - 16]);
        }
    }
    assert forall|i: int| 0 <= i < l2.len() implies l2[i] != '\n' by {
        if i >= 15 {
            assert(l2[i] == d2[i - 15]);
        }
    }
    assert(no_newline(ls[0]));
    assert(no_newline(ls[3]));
    assert(no_newline(ls[4]));
    assert forall|j: int| 0 <= j < ls.len() implies no_newline(#[trigger] ls[j]) by {}
    lemma_lines_of_joined(ls);
}

proof fn lemma_render_line(s: Settings, n: i32)
    ensures
        apply_setting_line(s, "render_distance="@ + signed_decimal(n as int))
            == (Settings { render_distance: clamp_int(n as int, 1, 32) as i32, ..s }),
{
    reveal(apply_setting_line);
    reveal_strlit("render_distance=");
    reveal_strlit("render_distance");
    let d = signed_decimal(n as int);
    lemma_signed_decimal_plain(n);
    assert("render_distance="@ + d =~= "render_distance"@ + seq!['='] + d);
    lemma_key_value_line("render_distance"@, d);
}

proof fn lemma_cloud_line(s: Settings, n: i32)
    ensures
        apply_setting_line(s, "cloud_distance="@ + signed_decimal(n as int))
            == (Settings { cloud_distance: clamp_int(n as int, 2, 10) as i32, ..s }),
{
    reveal(apply_setting_line);
    reveal_strlit("cloud_distance=");
    reveal_strlit("cloud_distance");
    reveal_strlit("render_distance");
    let d = signed_decimal(n as int);
    lemma_signed_decimal_plain(n);
    assert("cloud_distance="@ + d =~= "cloud_distance"@ + seq!['='] + d);
    lemma_key_value_line("cloud_distance"@, d);
}

proof fn lemma_shadows_line(s: Settings, b: bool)
    ensures
        apply_setting_line(s, "shadows="@ + bool_text(b)) == (Settings { shadows: b, ..s }),
{
    reveal(apply_setting_line);
    reveal_strlit("shadows=");
    reveal_strlit("shadows");
    reveal_strlit("render_distance");
    reveal_strlit("cloud_distance");
    reveal_strlit("true");
    reveal_strlit("false");
    reveal_strlit("1");
    let v = bool_text(b);
    assert("shadows="@ + v =~= "shadows"@ + seq!['='] + v);
    lemma_key_value_line("shadows"@, v);
}

proof fn lemma_clouds_line(s: Settings, b: bool)
    ensures
        apply_setting_line(s, "clouds="@ + bool_text(b)) == (Settings { clouds: b, ..s }),
{
    reveal(apply_setting_line);
    reveal_strlit("clouds=");
    reveal_strlit("clouds");
    reveal_strlit("shadows");
    reveal_strlit("render_distance");
    reveal_strlit("cloud_distance");
    reveal_strlit("true");
    reveal_strlit("false");
    reveal_strlit("1");
    let v = bool_text(b);
    assert("clouds="@ + v =~= "clouds"@ + seq!['='] + v);
    lemma_key_value_line("clouds"@, v);
}

proof fn lemma_header_line(s: Settings)
    ensures
        apply_setting_line(s, "# VoxelCraft settings (hand-editable; invalid lines are ignored)"@) == s,
{
    reveal(apply_setting_line);
    reveal_strlit("# VoxelCraft settings (hand-editable; invalid lines are ignored)");
    lemma_trim_plain("# VoxelCraft settings (hand-editable; invalid lines are ignored)"@);
}

proof fn lemma_blank_line(s: Settings)
    ensures
        apply_setting_line(s, Seq::<char>::empty()) == s,
{
    reveal(apply_setting_line);
    assert(trim(Seq::<char>::empty()) =~= Seq::<char>::empty());
}

/// Writing the settings file and parsing it back gives every persisted
/// setting back (sliders clamped to their ranges, so in-range settings
/// come back unchanged).
pub proof fn lemma_settings_round_trip(s: Settings)
    ensures
        spec_parse_settings(spec_settings_text(s)) == reloaded(s),
{
    reveal_strlit("# VoxelCraft settings (hand-editable; invalid lines are ignored)");
    let ls = settings_lines(s);
    lemma_settings_lines_split(s);
    let d = spec_default_settings();
    lemma_header_line(d);
    let s0 = apply_setting_line(d, ls[0]);
    lemma_render_line(s0, s.render_distance);
    let s1 = apply_setting_line(s0, ls[1]);
    lemma_cloud_line(s1, s.cloud_distance);
    let s2 = apply_setting_line(s1, ls[2]);
    lemma_shadows_line(s2, s.shadows);
    let s3 = apply_setting_line(s2, ls[3]);
    lemma_clouds_line(s3, s.clouds);
    let s4 = apply_setting_line(s3, ls[4]);
    let all = ls.push(seq![]);
    assert(all.take(1).drop_last() =~= Seq::<Seq<char>>::empty());
    assert(apply_setting_lines(d, Seq::<Seq<char>>::empty()) == d);
    assert(all.take(1).last() == ls[0]);
    assert(apply_setting_lines(d, all.take(1)) == s0);
    assert(all.take(2).drop_last() =~= all.take(1));
    assert(all.take(2).last() == ls[1]);
    assert(apply_setting_lines(d, all.take(2)) == s1);
    assert(all.take(3).drop_last() =~= all.take(2));
    assert(all.take(3).last() == ls[2]);
    assert(apply_setting_lines(d, all.take(3)) == s2);
    assert(all.take(4).drop_last() =~= all.take(3));
    assert(all.take(4).last() == ls[3]);
    assert(apply_setting_lines(d, all.take(4)) == s3);
    assert(all.take(5).drop_last() =~= all.take(4));
    assert(all.take(5).last() == ls[4]);
    assert(apply_setting_lines(d, all.take(5)) == s4);
    assert(all.drop_last() =~= all.take(5));
    assert(all.last() == Seq::<char>::empty());
    lemma_blank_line(s4);
    assert(apply_setting_lines(d, all) == s4);
    assert(s4 == reloaded(s));
}


proof fn lemma_line_keeps_range(s: Settings, line: Seq<char>)
    requires
        s.in_range(),
    ensures
        apply_setting_line(s, line).in_range(),
{
    reveal(apply_setting_line);
}

proof fn lemma_lines_keep_range(s: Settings, lines: Seq<Seq<char>>)
    requires
        s.in_range(),
    ensures
        apply_setting_lines(s, lines).in_range(),
    decreases lines.len(),
{
    if lines.len() > 0 {
        lemma_lines_keep_range(s, lines.drop_last());
        lemma_line_keeps_range(apply_setting_lines(s, lines.drop_last()), lines.last());
    }
}

/// Whatever the settings file says, the parsed sliders lie within their
/// ranges (render distance 1..=32, cloud distance 2..=10).
pub proof fn lemma_parse_in_range(text: Seq<char>)
    ensures
        spec_parse_settings(text).in_range(),
{
    lemma_lines_keep_range(spec_default_settings(), lines_of(text));
}

/// The value a settings-file line gives `key`: the trimmed text after the
/// first '=' of a `key=value` line for that key.
pub open spec fn line_value(line: Seq<char>, key: Seq<char>) -> Option<Seq<char>> {
    let l = trim(line);
    if l.len() == 0 || l[0] == '#' {
        None
    } else {
        match find_char(l, '=') {
            None => None,
            Some(i) => if trim(l.take(i)) == key {
                Some(trim(l.skip(i + 1)))
            } else {
                None
            },
        }
    }
}

/// The number a line sets for slider `key`, clamped to `lo..=hi`; none when
/// the line is not for `key` or its value is not a number.
pub open spec fn line_number(line: Seq<char>, key: Seq<char>, lo: int, hi: int) -> Option<int> {
    match line_value(line, key) {
        Some(v) => match spec_parse_i32(v) {
            Some(n) => Some(clamp_int(n as int, lo, hi)),
            None => None,
        },
        None => None,
    }
}

/// The slider `key` after `lines`: the number of the last line that gives
/// one, else `dflt`.
pub open spec fn last_number(lines: Seq<Seq<char>>, key: Seq<char>, lo: int, hi: int, dflt: int) -> int
    decreases lines.len(),
{
    if lines.len() == 0 {
        dflt
    } else {
        match line_number(lines.last(), key, lo, hi) {
            Some(n) => n,
            None => last_number(lines.drop_last(), key, lo, hi, dflt),
        }
    }
}

/// The toggle `key` after `lines`: set by the last line for `key`
/// (`"true"` or `"1"` switch it on), else `dflt`.
pub open spec fn last_flag(lines: Seq<Seq<char>>, key: Seq<char>, dflt: bool) -> bool
    decreases lines.len(),
{
    if lines.len() == 0 {
        dflt
    } else {
        match line_value(lines.last(), key) {
            Some(v) => spec_flag(v),
            None => last_flag(lines.drop_last(), key, dflt),
        }
    }
}

proof fn lemma_line_by_key(s: Settings, line: Seq<char>)
    ensures
        apply_setting_line(s, line) == (Settings {
            render_distance: match line_number(line, "render_distance"@, 1, 32) {
                Some(n) => n as i32,
                None => s.render_distance,
            },
            cloud_distance: match line_number(line, "cloud_distance"@, 2, 10) {
                Some(n) => n as i32,
                None => s.cloud_distance,
            },
            shadows: match line_value(line, "shadows"@) {
                Some(v) => spec_flag(v),
                None => s.shadows,
            },
            clouds: match line_value(line, "clouds"@) {
                Some(v) => spec_flag(v),
                None => s.clouds,
            },
            ..s
        }),
{
    reveal(apply_setting_line);
    reveal_strlit("render_distance");
    reveal_strlit("cloud_distance");
    reveal_strlit("shadows");
    reveal_strlit("clouds");
    let r = "render_distance"@;
    let c = "cloud_distance"@;
    let sh = "shadows"@;
    let cl = "clouds"@;
    assert(r.len() == 15 && c.len() == 14 && sh.len() == 7 && cl.len() == 6);
    assert(r != c && r != sh && r != cl && c != sh && c != cl && sh != cl);
    let l = trim(line);
    if l.len() == 0 || l[0] == '#' {
    } else {
        match find_char(l, '=') {
            None => {},
            Some(i) => {
                let k = trim(l.take(i));
                if k == r {
                } else if k == c {
                } else if k == sh {
                } else if k == cl {
                } else {
                }
            },
        }
    }
}

proof fn lemma_lines_by_key(s: Settings, lines: Seq<Seq<char>>)
    ensures
        apply_setting_lines(s, lines) == (Settings {
            render_distance: last_number(lines, "render_distance"@, 1, 32, s.render_distance as int) as i32,
            cloud_distance: last_number(lines, "cloud_distance"@, 2, 10, s.cloud_distance as int) as i32,
            shadows: last_flag(lines, "shadows"@, s.shadows),
            clouds: last_flag(lines, "clouds"@, s.clouds),
            ..s
        }),
    decreases lines.len(),
{
    if lines.len() > 0 {
        lemma_lines_by_key(s, lines.drop_last());
        lemma_line_by_key(apply_setting_lines(s, lines.drop_last()), lines.last());
    }
}

/// Parsing a settings text: each setting takes the last line that gives it
/// a value (numbers clamped to their ranges; a toggle is on exactly for
/// `"true"` or `"1"`), else keeps its default (4, 7, on, on); other lines
/// change nothing, and the planned ray-tracing options stay off.
pub proof fn lemma_parse_takes_last_lines(text: Seq<char>)
    ensures
        spec_parse_settings(text) == (Settings {
            render_distance: last_number(lines_of(text), "render_distance"@, 1, 32, 4) as i32,
            cloud_distance: last_number(lines_of(text), "cloud_distance"@, 2, 10, 7) as i32,
            shadows: last_flag(lines_of(text), "shadows"@, true),
            clouds: last_flag(lines_of(text), "clouds"@, true),
            rt_shadows: false,
            rt_ao: false,
            god_rays: false,
        }),
{
    lemma_lines_by_key(spec_default_settings(), lines_of(text));
}

} // verus!
