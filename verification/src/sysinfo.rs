//! Machine facts for the debug overlay, read from `/proc/cpuinfo` and
//! `/proc/meminfo` text.
use vstd::prelude::*;

use crate::text::{
    chars_eq, chars_to_string, find_char, find_char_exec, lines_of, str_chars, trim, trim_chars,
};

verus! {

/// What the debug overlay displays about the machine.
#[derive(Clone, Debug)]
pub struct SysInfo {
    pub cpu_model: String,
    pub ram_total_mib: u64,
    pub ram_used_mib: u64,
}

/// The ASCII digits of `s`, in order.
pub open spec fn digits_only(s: Seq<char>) -> Seq<char>
    decreases s.len(),
{
    if s.len() == 0 {
        s
    } else if '0' <= s.last() <= '9' {
        digits_only(s.drop_last()).push(s.last())
    } else {
        digits_only(s.drop_last())
    }
}

/// Value of a string of ASCII digits as `str::parse::<u64>` reads it:
/// `None` when empty or too large.
pub open spec fn spec_parse_u64_digits(d: Seq<char>) -> Option<u64> {
    if d.len() == 0 || crate::text::digits_value(d) > u64::MAX {
        None
    } else {
        Some(crate::text::digits_value(d) as u64)
    }
}

/// The MiB value a `/proc/meminfo` line gives `key`: the line's part
/// before the first ':' trimmed must equal `key`, and the digits after it
/// (in kiB) must parse.
pub open spec fn meminfo_line_value(line: Seq<char>, key: Seq<char>) -> Option<u64> {
    match find_char(line, ':') {
        None => None,
        Some(i) => if trim(line.take(i)) == key {
            match spec_parse_u64_digits(digits_only(line.skip(i + 1))) {
                Some(kib) => Some((kib / 1024) as u64),
                None => None,
            }
        } else {
            None
        },
    }
}

/// The value of `key` in the last line that gives it one.
pub open spec fn meminfo_value(lines: Seq<Seq<char>>, key: Seq<char>) -> Option<u64>
    decreases lines.len(),
{
    if lines.len() == 0 {
        None
    } else {
        match meminfo_line_value(lines.last(), key) {
            Some(v) => Some(v),
            None => meminfo_value(lines.drop_last(), key),
        }
    }
}

/// (total, used) MiB from `/proc/meminfo` text: `MemTotal`, and
/// `MemTotal - MemAvailable` saturating at zero; absent values count as 0.
pub open spec fn spec_meminfo(text: Seq<char>) -> (u64, u64) {
    let total = match meminfo_value(lines_of(text), "MemTotal"@) {
        Some(v) => v,
        None => 0,
    };
    let avail = match meminfo_value(lines_of(text), "MemAvailable"@) {
        Some(v) => v,
        None => 0,
    };
    (total, if total >= avail { (total - avail) as u64 } else { 0 })
}

fn parse_u64_digits(d: &[char]) -> (r: Option<u64>)
    requires
        forall|i: int| 0 <= i < d.len() ==> '0' <= #[trigger] d@[i] <= '9',
    ensures
        r == spec_parse_u64_digits(d@),
{
    if d.len() == 0 {
        return None;
    }
    let mut v: u128 = 0;
    let mut i: usize = 0;
    while i < d.len()
        invariant
            i <= d.len(),
            forall|j: int| 0 <= j < d.len() ==> '0' <= #[trigger] d@[j] <= '9',
            v == crate::text::digits_value(d@.take(i as int)),
            v <= u64::MAX,
        decreases d.len() - i,
    {
        assert(d@.take(i + 1).drop_last() =~= d@.take(i as int));
        v = v * 10 + ((d[i] as u8) - 48u8) as u128;
        if v > u64::MAX as u128 {
            proof {
                crate::text::lemma_digits_prefix_le(d@, i + 1);
            }
            return None;
        }
        i = i + 1;
    }
    assert(d@.take(d.len() as int) =~= d@);
    Some(v as u64)
}

fn line_value(line: &[char], key: &[char]) -> (r: Option<u64>)
    ensures
        r == meminfo_line_value(line@, key@),
{
    let colon = find_char_exec(line, ':');
    match colon {
        None => None,
        Some(i) => {
            let mut head: Vec<char> = Vec::new();
            let mut digits: Vec<char> = Vec::new();
            let mut j: usize = 0;
            while j < line.len()
                invariant
                    i < line.len(),
                    j <= line.len(),
                    head@ == line@.take(if j < i { j as int } else { i as int }),
                    digits@ == (if j <= i + 1 { seq![] } else { digits_only(line@.subrange(i + 1, j as int)) }),
                    forall|k: int| 0 <= k < digits.len() ==> '0' <= #[trigger] digits@[k] <= '9',
                decreases line.len() - j,
            {
                let c = line[j];
                if j < i {
                    head.push(c);
                    assert(head@ =~= line@.take(j + 1));
                } else if j > i {
                    let ghost before = line@.subrange(i + 1, j as int);
                    assert(line@.subrange(i + 1, j + 1) =~= before.push(c));
                    assert(before.push(c).drop_last() =~= before);
                    if '0' <= c && c <= '9' {
                        digits.push(c);
                    }
                    if j == i + 1 {
                        assert(before =~= Seq::<char>::empty());
                        assert(digits_only(before) =~= Seq::<char>::empty());
                    }
                }
                j = j + 1;
            }
            if j <= i + 1 {
                assert(line@.skip(i + 1) =~= Seq::<char>::empty());
                assert(digits_only(line@.skip(i + 1)) =~= Seq::<char>::empty());
            } else {
                assert(line@.subrange(i + 1, j as int) =~= line@.skip(i + 1));
            }
            let k = trim_chars(head.as_slice());
            if !chars_eq(k.as_slice(), key) {
                return None;
            }
            match parse_u64_digits(digits.as_slice()) {
                Some(kib) => Some(kib / 1024),
                None => None,
            }
        },
    }
}

/// The last value `/proc/meminfo` text gives `key` (see
/// [`meminfo_value`]).
fn meminfo_lookup(text: &[char], key: &[char]) -> (r: Option<u64>)
    ensures
        r == meminfo_value(lines_of(text@), key@),
{
    let mut found: Option<u64> = None;
    let mut cur: Vec<char> = Vec::new();
    let mut i: usize = 0;
    while i < text.len()
        invariant
            i <= text.len(),
            lines_of(text@.take(i as int)).len() >= 1,
            found == meminfo_value(lines_of(text@.take(i as int)).drop_last(), key@),
            cur@ == lines_of(text@.take(i as int)).last(),
        decreases text.len() - i,
    {
        let ghost ls = lines_of(text@.take(i as int));
        let c = text[i];
        proof {
            assert(text@.take(i + 1).drop_last() =~= text@.take(i as int));
            assert(text@.take(i + 1).last() == c);
        }
        if c == '\n' {
            let v = line_value(cur.as_slice(), key);
            if v.is_some() {
                found = v;
            }
            cur = Vec::new();
            proof {
                let nl = lines_of(text@.take(i + 1));
                assert(nl == ls.push(seq![]));
                assert(nl.drop_last() =~= ls);
                assert(ls =~= ls.drop_last().push(ls.last()));
            }
        } else {
            cur.push(c);
            proof {
                let nl = lines_of(text@.take(i + 1));
                assert(nl == ls.update(ls.len() - 1, ls.last().push(c)));
                assert(nl.drop_last() =~= ls.drop_last());
            }
        }
        i = i + 1;
    }
    assert(text@.take(text.len() as int) =~= text@);
    let ghost ls = lines_of(text@);
    let v = line_value(cur.as_slice(), key);
    assert(ls =~= ls.drop_last().push(ls.last()));
    if v.is_some() {
        v
    } else {
        found
    }
}

/// (total, used) MiB from `/proc/meminfo` text (see [`spec_meminfo`]).
pub fn parse_meminfo(text: &str) -> (r: (u64, u64))
    ensures
        r == spec_meminfo(text@),
{
    let t = str_chars(text);
    let k1 = str_chars("MemTotal");
    let k2 = str_chars("MemAvailable");
    let total = match meminfo_lookup(t.as_slice(), k1.as_slice()) {
        Some(v) => v,
        None => 0,
    };
    let avail = match meminfo_lookup(t.as_slice(), k2.as_slice()) {
        Some(v) => v,
        None => 0,
    };
    (total, total.saturating_sub(avail))
}


/// Does `l` begin with `p`?
pub open spec fn has_prefix(l: Seq<char>, p: Seq<char>) -> bool {
    l.len() >= p.len() && l.take(p.len() as int) == p
}

/// The first of `lines` that begins with `p`.
pub open spec fn first_prefixed(lines: Seq<Seq<char>>, p: Seq<char>) -> Option<Seq<char>>
    decreases lines.len(),
{
    if lines.len() == 0 {
        None
    } else {
        match first_prefixed(lines.drop_last(), p) {
            Some(l) => Some(l),
            None => if has_prefix(lines.last(), p) {
                Some(lines.last())
            } else {
                None
            },
        }
    }
}

/// The CPU model `/proc/cpuinfo` text names: the first line that starts
/// with `model name`, its part after the first ':' trimmed; `unknown` when
/// there is no such line or it has no ':'.
pub open spec fn spec_cpu_model(text: Seq<char>) -> Seq<char> {
    match first_prefixed(lines_of(text), "model name"@) {
        Some(l) => match find_char(l, ':') {
            Some(i) => trim(l.skip(i + 1)),
            None => "unknown"@,
        },
        None => "unknown"@,
    }
}

fn has_prefix_exec(l: &[char], p: &[char]) -> (r: bool)
    ensures
        r == has_prefix(l@, p@),
{
    if l.len() < p.len() {
        return false;
    }
    let mut i: usize = 0;
    while i < p.len()
        invariant
            i <= p.len(),
            p.len() <= l.len(),
            forall|j: int| 0 <= j < i ==> l@[j] == p@[j],
        decreases p.len() - i,
    {
        if l[i] != p[i] {
            assert(l@.take(p.len() as int)[i as int] != p@[i as int]);
            return false;
        }
        i = i + 1;
    }
    assert(l@.take(p.len() as int) =~= p@);
    true
}

/// The first line of `text` that begins with `p` (see [`first_prefixed`]).
fn first_line_with_prefix(text: &[char], p: &[char]) -> (r: Option<Vec<char>>)
    ensures
        match r {
            Some(v) => first_prefixed(lines_of(text@), p@) == Some(v@),
            None => first_prefixed(lines_of(text@), p@) is None,
        },
{
    let mut found: Option<Vec<char>> = None;
    let mut cur: Vec<char> = Vec::new();
    let mut i: usize = 0;
    while i < text.len()
        invariant
            i <= text.len(),
            lines_of(text@.take(i as int)).len() >= 1,
            match found {
                Some(v) => first_prefixed(lines_of(text@.take(i as int)).drop_last(), p@) == Some(v@),
                None => first_prefixed(lines_of(text@.take(i as int)).drop_last(), p@) is None,
            },
            cur@ == lines_of(text@.take(i as int)).last(),
        decreases text.len() - i,
    {
        let ghost ls = lines_of(text@.take(i as int));
        let c = text[i];
        proof {
            assert(text@.take(i + 1).drop_last() =~= text@.take(i as int));
            assert(text@.take(i + 1).last() == c);
        }
        if c == '\n' {
            if found.is_none() && has_prefix_exec(cur.as_slice(), p) {
                found = Some(cur);
            }
            cur = Vec::new();
            proof {
                let nl = lines_of(text@.take(i + 1));
                assert(nl == ls.push(seq![]));
                assert(nl.drop_last() =~= ls);
                assert(ls =~= ls.drop_last().push(ls.last()));
            }
        } else {
            cur.push(c);
            proof {
                let nl = lines_of(text@.take(i + 1));
                assert(nl == ls.update(ls.len() - 1, ls.last().push(c)));
                assert(nl.drop_last() =~= ls.drop_last());
            }
        }
        i = i + 1;
    }
    assert(text@.take(text.len() as int) =~= text@);
    let ghost ls = lines_of(text@);
    assert(ls =~= ls.drop_last().push(ls.last()));
    if found.is_some() {
        found
    } else if has_prefix_exec(cur.as_slice(), p) {
        Some(cur)
    } else {
        None
    }
}

/// The CPU model named by `/proc/cpuinfo` text (see [`spec_cpu_model`]).
pub fn cpu_model(cpuinfo: &str) -> (r: String)
    ensures
        r@ == spec_cpu_model(cpuinfo@),
{
    let t = str_chars(cpuinfo);
    let p = str_chars("model name");
    let unknown = str_chars("unknown");
    match first_line_with_prefix(t.as_slice(), p.as_slice()) {
        Some(l) => match find_char_exec(l.as_slice(), ':') {
            Some(i) => {
                let mut rest: Vec<char> = Vec::new();
                let mut j: usize = i + 1;
                while j < l.len()
                    invariant
                        i < j <= l.len(),
                        rest@ == l@.subrange(i + 1, j as int),
                    decreases l.len() - j,
                {
                    rest.push(l[j]);
                    assert(rest@ =~= l@.subrange(i + 1, j + 1));
                    j = j + 1;
                }
                assert(rest@ =~= l@.skip(i + 1));
                let v = trim_chars(rest.as_slice());
                chars_to_string(&v)
            },
            None => chars_to_string(&unknown),
        },
        None => chars_to_string(&unknown),
    }
}

/// What the debug overlay shows, from the text of `/proc/cpuinfo` and
/// `/proc/meminfo` (an empty text where a file could not be read).
pub fn read(cpuinfo: &str, meminfo: &str) -> (r: SysInfo)
    ensures
        r.cpu_model@ == spec_cpu_model(cpuinfo@),
        (r.ram_total_mib, r.ram_used_mib) == spec_meminfo(meminfo@),
{
    let (ram_total_mib, ram_used_mib) = parse_meminfo(meminfo);
    SysInfo { cpu_model: cpu_model(cpuinfo), ram_total_mib, ram_used_mib }
}

} // verus!
