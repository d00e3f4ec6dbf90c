//! Per-process GPU memory, as the DRM fdinfo files of `/proc/<pid>/fdinfo` report it.

use std::collections::HashMap;
use vstd::prelude::*;
use vstd::multiset::Multiset;
use crate::text::{
    chars_of, decimal_text, first_token, first_token_bounds, has_prefix, is_ws, lemma_decimal_text,
    lemma_lines_of_one, lemma_lines_of_two, lemma_parse_decimal_text, lemma_token_len_of,
    line_bounds, lines, parse_u32, parse_u64_in, parsed_u32, parsed_u64, starts_with_in, trim,
    trim_start, trimmed,
};

verus! {

broadcast use {vstd::string::group_string_axioms, vstd::std_specs::hash::group_hash_axioms};

/// Per-process GPU memory usage.
#[derive(Debug, Clone)]
pub struct ProcessGpuMem {
    pub pid: u32,
    pub name: String,
    pub vram_kib: u64,
    pub gtt_kib: u64,
}

/// The memory a process uses in VRAM and GTT together, in KiB.
pub open spec fn total_of(p: ProcessGpuMem) -> int {
    p.vram_kib + p.gtt_kib
}

impl ProcessGpuMem {
    /// VRAM plus GTT, in KiB.
    pub fn total_kib(&self) -> (r: u64)
        requires
            total_of(*self) <= u64::MAX,
        ensures
            r == total_of(*self),
    {
        self.vram_kib + self.gtt_kib
    }
}

/// The number in an fdinfo memory field such as `\t12345 KiB`: its first
/// whitespace-separated token, read as a decimal `u64`.
pub open spec fn kib_value(s: Seq<char>) -> Option<u64> {
    match first_token(s) {
        Some(t) => parsed_u64(t),
        None => None,
    }
}

/// Reads the number of KiB in the value part of an fdinfo memory field.
pub fn parse_kib_value(s: &str) -> (r: Option<u64>)
    ensures
        r == kib_value(s@),
{
    let v = chars_of(s);
    assert(v@.subrange(0, v@.len() as int) =~= v@);
    kib_value_in(&v, 0, v.len())
}

fn kib_value_in(v: &Vec<char>, lo: usize, hi: usize) -> (r: Option<u64>)
    requires
        lo <= hi <= v.len(),
    ensures
        r == kib_value(v@.subrange(lo as int, hi as int)),
{
    match first_token_bounds(v, lo, hi) {
        Some((a, b)) => parse_u64_in(v, a, b),
        None => None,
    }
}

/// What a scan of fdinfo lines has found so far: the last VRAM and GTT values read,
/// and whether a VRAM value was read at all (which marks a DRM file).
pub struct FdScan {
    pub vram_kib: u64,
    pub gtt_kib: u64,
    pub has_drm: bool,
}

/// The field that reports a DRM client's VRAM use.
pub open spec fn vram_key() -> Seq<char> {
    "drm-memory-vram:"@
}

/// The field that reports a DRM client's GTT use.
pub open spec fn gtt_key() -> Seq<char> {
    "drm-memory-gtt:"@
}

/// One fdinfo line applied to a scan: a `drm-memory-vram:` line with a readable
/// value sets the VRAM value and marks the file as DRM; a `drm-memory-gtt:` line
/// with a readable value sets the GTT value; any other line changes nothing.
pub open spec fn fd_step(st: FdScan, line: Seq<char>) -> FdScan {
    if has_prefix(line, vram_key()) {
        match kib_value(line.skip(vram_key().len() as int)) {
            Some(v) => FdScan { vram_kib: v, gtt_kib: st.gtt_kib, has_drm: true },
            None => st,
        }
    } else if has_prefix(line, gtt_key()) {
        match kib_value(line.skip(gtt_key().len() as int)) {
            Some(g) => FdScan { vram_kib: st.vram_kib, gtt_kib: g, has_drm: st.has_drm },
            None => st,
        }
    } else {
        st
    }
}

/// The scan of the lines `ls`, in order, from nothing found.
pub open spec fn fd_scan(ls: Seq<Seq<char>>) -> FdScan
    decreases ls.len(),
{
    if ls.len() == 0 {
        FdScan { vram_kib: 0, gtt_kib: 0, has_drm: false }
    } else {
        fd_step(fd_scan(ls.drop_last()), ls.last())
    }
}

/// The (VRAM, GTT) use, in KiB, that an fdinfo file reports, or `None` when it
/// is not a DRM file.
pub open spec fn fd_usage(content: Seq<char>) -> Option<(u64, u64)> {
    let st = fd_scan(lines(content));
    if st.has_drm {
        Some((st.vram_kib, st.gtt_kib))
    } else {
        None
    }
}

/// The value part of a memory field, as the kernel writes it: a space, the number and
/// its unit.
pub open spec fn kib_field_value(n: u64) -> Seq<char> {
    " "@ + decimal_text(n as nat) + " KiB"@
}

/// A `drm-memory-vram:` line reporting `n` KiB.
pub open spec fn vram_line(n: u64) -> Seq<char> {
    vram_key() + kib_field_value(n)
}

/// A `drm-memory-gtt:` line reporting `n` KiB.
pub open spec fn gtt_line(n: u64) -> Seq<char> {
    gtt_key() + kib_field_value(n)
}

/// A memory field's value part reads back as the number it reports.
pub proof fn lemma_kib_field_value(n: u64)
    ensures
        kib_value(kib_field_value(n)) == Some(n),
        forall|i: int|
            0 <= i < kib_field_value(n).len() ==> #[trigger] kib_field_value(n)[i] != '\n',
{
    reveal_strlit(" ");
    reveal_strlit(" KiB");
    let d = decimal_text(n as nat);
    let r = " KiB"@;
    let s = kib_field_value(n);
    lemma_decimal_text(n as nat);
    lemma_parse_decimal_text(n);
    assert(s.drop_first() =~= d + r);
    assert(is_ws(s[0]));
    assert((d + r)[0] == d[0]);
    assert(trim_start(d + r) == d + r);
    assert(trim_start(s) == d + r);
    lemma_token_len_of(d, r);
    assert((d + r).take(d.len() as int) =~= d);
    assert forall|i: int| 0 <= i < s.len() implies #[trigger] s[i] != '\n' by {
        if 1 <= i < 1 + d.len() {
            assert(s[i] == d[i - 1]);
            assert(!is_ws(d[i - 1]));
        }
    }
}

proof fn lemma_key_lines(v: u64, g: u64)
    ensures
        has_prefix(vram_line(v), vram_key()),
        vram_line(v).skip(vram_key().len() as int) == kib_field_value(v),
        !has_prefix(gtt_line(g), vram_key()),
        has_prefix(gtt_line(g), gtt_key()),
        gtt_line(g).skip(gtt_key().len() as int) == kib_field_value(g),
        forall|i: int| 0 <= i < vram_line(v).len() ==> #[trigger] vram_line(v)[i] != '\n',
        forall|i: int| 0 <= i < gtt_line(g).len() ==> #[trigger] gtt_line(g)[i] != '\n',
{
    reveal_strlit("drm-memory-vram:");
    reveal_strlit("drm-memory-gtt:");
    lemma_kib_field_value(v);
    lemma_kib_field_value(g);
    let a = vram_line(v);
    let b = gtt_line(g);
    assert(a.take(vram_key().len() as int) =~= vram_key());
    assert(a.skip(vram_key().len() as int) =~= kib_field_value(v));
    assert(b.take(gtt_key().len() as int) =~= gtt_key());
    assert(b.skip(gtt_key().len() as int) =~= kib_field_value(g));
    if b.len() >= vram_key().len() {
        assert(b.take(vram_key().len() as int)[11] == 'g');
        assert(vram_key()[11] == 'v');
    }
    assert forall|i: int| 0 <= i < a.len() implies #[trigger] a[i] != '\n' by {
        if i >= vram_key().len() {
            assert(a[i] == kib_field_value(v)[i - vram_key().len()]);
        }
    }
    assert forall|i: int| 0 <= i < b.len() implies #[trigger] b[i] != '\n' by {
        if i >= gtt_key().len() {
            assert(b[i] == kib_field_value(g)[i - gtt_key().len()]);
        }
    }
}

/// An fdinfo file whose memory lines report `v` KiB of VRAM and `g` KiB of GTT reads
/// as exactly that use, whatever the numbers, zero VRAM included.
pub proof fn lemma_fdinfo_reports_fields(v: u64, g: u64)
    ensures
        fd_usage(vram_line(v) + seq!['\n'] + gtt_line(g) + seq!['\n']) == Some((v, g)),
{
    lemma_key_lines(v, g);
    lemma_kib_field_value(v);
    lemma_kib_field_value(g);
    lemma_lines_of_two(vram_line(v), gtt_line(g));
    let ls = seq![vram_line(v), gtt_line(g)];
    assert(ls.drop_last() =~= seq![vram_line(v)]);
    assert(seq![vram_line(v)].drop_last() =~= Seq::<Seq<char>>::empty());
    let init = FdScan { vram_kib: 0, gtt_kib: 0, has_drm: false };
    assert(fd_scan(Seq::<Seq<char>>::empty()) == init);
    assert(fd_step(init, vram_line(v)) == (FdScan { vram_kib: v, gtt_kib: 0, has_drm: true }));
    assert(fd_scan(seq![vram_line(v)]) == (FdScan { vram_kib: v, gtt_kib: 0, has_drm: true }));
    assert(fd_step(FdScan { vram_kib: v, gtt_kib: 0, has_drm: true }, gtt_line(g)) == (FdScan {
        vram_kib: v,
        gtt_kib: g,
        has_drm: true,
    }));
    assert(fd_scan(ls) == (FdScan { vram_kib: v, gtt_kib: g, has_drm: true }));
}

/// A readable `drm-memory-vram:` line alone makes a file a DRM file, even at 0 KiB:
/// it reads as that VRAM use and no GTT.
pub proof fn lemma_fdinfo_vram_line_alone(v: u64)
    ensures
        fd_usage(vram_line(v) + seq!['\n']) == Some((v, 0u64)),
{
    lemma_key_lines(v, 0);
    lemma_kib_field_value(v);
    lemma_lines_of_one(vram_line(v));
    assert(seq![vram_line(v)].drop_last() =~= Seq::<Seq<char>>::empty());
    let init = FdScan { vram_kib: 0, gtt_kib: 0, has_drm: false };
    assert(fd_scan(Seq::<Seq<char>>::empty()) == init);
    assert(fd_step(init, vram_line(v)) == (FdScan { vram_kib: v, gtt_kib: 0, has_drm: true }));
    assert(fd_scan(seq![vram_line(v)]) == (FdScan { vram_kib: v, gtt_kib: 0, has_drm: true }));
}

/// Reads the VRAM and GTT use out of the contents of one fdinfo file.
pub fn fdinfo_usage(content: &str) -> (r: Option<(u64, u64)>)
    ensures
        r == fd_usage(content@),
{
    let v = chars_of(content);
    let bounds = line_bounds(&v);
    let vram_key_chars = chars_of("drm-memory-vram:");
    let gtt_key_chars = chars_of("drm-memory-gtt:");
    let ghost ls = lines(v@);
    let mut vram: u64 = 0;
    let mut gtt: u64 = 0;
    let mut has_drm = false;
    let mut k: usize = 0;
    assert(ls.take(0) =~= Seq::<Seq<char>>::empty());
    while k < bounds.len()
        invariant
            k <= bounds.len() == ls.len(),
            ls == lines(v@),
            vram_key_chars@ == vram_key(),
            gtt_key_chars@ == gtt_key(),
            forall|j: int|
                0 <= j < bounds.len() ==> {
                    &&& (#[trigger] bounds[j]).0 <= bounds[j].1 <= v.len()
                    &&& v@.subrange(bounds[j].0 as int, bounds[j].1 as int) == ls[j]
                },
            fd_scan(ls.take(k as int)) == (FdScan { vram_kib: vram, gtt_kib: gtt, has_drm }),
        decreases bounds.len() - k,
    {
        let (a, b) = bounds[k];
        let ghost line = v@.subrange(a as int, b as int);
        assert(ls.take(k + 1).drop_last() =~= ls.take(k as int));
        if starts_with_in(&v, a, b, &vram_key_chars) {
            let c = a + vram_key_chars.len();
            assert(line.skip(vram_key().len() as int) =~= v@.subrange(c as int, b as int));
            if let Some(x) = kib_value_in(&v, c, b) {
                vram = x;
                has_drm = true;
            }
        } else if starts_with_in(&v, a, b, &gtt_key_chars) {
            let c = a + gtt_key_chars.len();
            assert(line.skip(gtt_key().len() as int) =~= v@.subrange(c as int, b as int));
            if let Some(x) = kib_value_in(&v, c, b) {
                gtt = x;
            }
        }
        k += 1;
    }
    assert(ls.take(ls.len() as int) =~= ls);
    if has_drm {
        Some((vram, gtt))
    } else {
        None
    }
}

/// The larger of two readings.
pub open spec fn larger(a: u64, b: u64) -> u64 {
    if a >= b {
        a
    } else {
        b
    }
}

/// One fdinfo file applied to a process's totals: a DRM file raises each value to
/// at least its own and marks the process as found.
pub open spec fn usage_step(st: FdScan, fd: Option<(u64, u64)>) -> FdScan {
    match fd {
        Some((v, g)) => FdScan {
            vram_kib: larger(st.vram_kib, v),
            gtt_kib: larger(st.gtt_kib, g),
            has_drm: true,
        },
        None => st,
    }
}

/// The fdinfo files `fds` of one process, in order, applied from nothing found.
pub open spec fn usage_scan(fds: Seq<Seq<char>>) -> FdScan
    decreases fds.len(),
{
    if fds.len() == 0 {
        FdScan { vram_kib: 0, gtt_kib: 0, has_drm: false }
    } else {
        usage_step(usage_scan(fds.drop_last()), fd_usage(fds.last()))
    }
}

/// A process's GPU memory: the largest VRAM and the largest GTT value over its DRM
/// fdinfo files, or `None` when it has none.
pub open spec fn process_usage_of(fds: Seq<Seq<char>>) -> Option<(u64, u64)> {
    let st = usage_scan(fds);
    if st.has_drm {
        Some((st.vram_kib, st.gtt_kib))
    } else {
        None
    }
}

/// When every DRM fdinfo file of a process reports the same use, as the fds of one
/// DRM context do, the process's use is that use: sharing fds does not add up.
pub proof fn lemma_same_context_usage(fds: Seq<Seq<char>>, vram_kib: u64, gtt_kib: u64)
    requires
        forall|i: int|
            0 <= i < fds.len() ==> #[trigger] fd_usage(fds[i]) is None || fd_usage(fds[i])
                == Some((vram_kib, gtt_kib)),
        exists|i: int| 0 <= i < fds.len() && #[trigger] fd_usage(fds[i]) == Some((vram_kib, gtt_kib)),
    ensures
        process_usage_of(fds) == Some((vram_kib, gtt_kib)),
{
    lemma_usage_scan_uniform(fds, vram_kib, gtt_kib);
    let i = choose|i: int| 0 <= i < fds.len() && #[trigger] fd_usage(fds[i]) == Some((vram_kib, gtt_kib));
    lemma_usage_scan_found(fds, i);
}

/// The VRAM part of a reading, 0 where there is none.
pub open spec fn vram_part(u: Option<(u64, u64)>) -> u64 {
    match u {
        Some((v, _)) => v,
        None => 0,
    }
}

/// The GTT part of a reading, 0 where there is none.
pub open spec fn gtt_part(u: Option<(u64, u64)>) -> u64 {
    match u {
        Some((_, g)) => g,
        None => 0,
    }
}

/// A process's use is the largest use over its DRM fdinfo files: no file reports more,
/// and some file reports each of the two values.
pub proof fn lemma_usage_is_max(fds: Seq<Seq<char>>)
    ensures
        match process_usage_of(fds) {
            Some((v, g)) => {
                &&& forall|i: int|
                    0 <= i < fds.len() && #[trigger] fd_usage(fds[i]) is Some ==> vram_part(
                        fd_usage(fds[i]),
                    ) <= v && gtt_part(fd_usage(fds[i])) <= g
                &&& exists|i: int|
                    0 <= i < fds.len() && #[trigger] fd_usage(fds[i]) is Some && vram_part(
                        fd_usage(fds[i]),
                    ) == v
                &&& exists|i: int|
                    0 <= i < fds.len() && #[trigger] fd_usage(fds[i]) is Some && gtt_part(
                        fd_usage(fds[i]),
                    ) == g
            },
            None => forall|i: int| 0 <= i < fds.len() ==> #[trigger] fd_usage(fds[i]) is None,
        },
{
    lemma_usage_scan_max(fds);
}

proof fn lemma_usage_scan_max(fds: Seq<Seq<char>>)
    ensures
        forall|i: int|
            0 <= i < fds.len() && #[trigger] fd_usage(fds[i]) is Some ==> {
                &&& usage_scan(fds).has_drm
                &&& vram_part(fd_usage(fds[i])) <= usage_scan(fds).vram_kib
                &&& gtt_part(fd_usage(fds[i])) <= usage_scan(fds).gtt_kib
            },
        !usage_scan(fds).has_drm ==> usage_scan(fds).vram_kib == 0 && usage_scan(fds).gtt_kib
            == 0,
        usage_scan(fds).has_drm ==> exists|i: int|
            0 <= i < fds.len() && #[trigger] fd_usage(fds[i]) is Some && vram_part(
                fd_usage(fds[i]),
            ) == usage_scan(fds).vram_kib,
        usage_scan(fds).has_drm ==> exists|i: int|
            0 <= i < fds.len() && #[trigger] fd_usage(fds[i]) is Some && gtt_part(
                fd_usage(fds[i]),
            ) == usage_scan(fds).gtt_kib,
    decreases fds.len(),
{
    if fds.len() > 0 {
        let init = fds.drop_last();
        let n = fds.len() - 1;
        lemma_usage_scan_max(init);
        let st = usage_scan(init);
        let cur = usage_scan(fds);
        let last = fd_usage(fds[n]);
        assert(cur == usage_step(st, last));
        assert forall|i: int| 0 <= i < fds.len() && #[trigger] fd_usage(fds[i]) is Some implies {
            &&& cur.has_drm
            &&& vram_part(fd_usage(fds[i])) <= cur.vram_kib
            &&& gtt_part(fd_usage(fds[i])) <= cur.gtt_kib
        } by {
            if i < n {
                assert(fds[i] == init[i]);
                assert(fd_usage(init[i]) is Some);
            }
        }
        if cur.has_drm {
            if last is Some && vram_part(last) >= st.vram_kib {
                assert(fd_usage(fds[n]) is Some && vram_part(fd_usage(fds[n])) == cur.vram_kib);
            } else {
                let i0 = choose|i: int|
                    0 <= i < init.len() && #[trigger] fd_usage(init[i]) is Some && vram_part(
                        fd_usage(init[i]),
                    ) == st.vram_kib;
                assert(fds[i0] == init[i0]);
                assert(fd_usage(fds[i0]) is Some && vram_part(fd_usage(fds[i0])) == cur.vram_kib);
            }
            if last is Some && gtt_part(last) >= st.gtt_kib {
                assert(fd_usage(fds[n]) is Some && gtt_part(fd_usage(fds[n])) == cur.gtt_kib);
            } else {
                let j0 = choose|i: int|
                    0 <= i < init.len() && #[trigger] fd_usage(init[i]) is Some && gtt_part(
                        fd_usage(init[i]),
                    ) == st.gtt_kib;
                assert(fds[j0] == init[j0]);
                assert(fd_usage(fds[j0]) is Some && gtt_part(fd_usage(fds[j0])) == cur.gtt_kib);
            }
        }
    }
}

proof fn lemma_usage_scan_uniform(fds: Seq<Seq<char>>, vram_kib: u64, gtt_kib: u64)
    requires
        forall|i: int|
            0 <= i < fds.len() ==> #[trigger] fd_usage(fds[i]) is None || fd_usage(fds[i])
                == Some((vram_kib, gtt_kib)),
    ensures
        usage_scan(fds).has_drm ==> usage_scan(fds) == (FdScan { vram_kib, gtt_kib, has_drm: true }),
        !usage_scan(fds).has_drm ==> usage_scan(fds) == (FdScan { vram_kib: 0, gtt_kib: 0, has_drm: false }),
    decreases fds.len(),
{
    if fds.len() > 0 {
        let init = fds.drop_last();
        assert forall|i: int| 0 <= i < init.len() implies #[trigger] fd_usage(init[i]) is None
            || fd_usage(init[i]) == Some((vram_kib, gtt_kib)) by {
            assert(init[i] == fds[i]);
        }
        lemma_usage_scan_uniform(init, vram_kib, gtt_kib);
        assert(fd_usage(fds[fds.len() - 1]) is None || fd_usage(fds[fds.len() - 1]) == Some((vram_kib, gtt_kib)));
    }
}

proof fn lemma_usage_scan_found(fds: Seq<Seq<char>>, i: int)
    requires
        0 <= i < fds.len(),
        fd_usage(fds[i]) is Some,
    ensures
        usage_scan(fds).has_drm,
    decreases fds.len(),
{
    if i < fds.len() - 1 {
        assert(fds.drop_last()[i] == fds[i]);
        lemma_usage_scan_found(fds.drop_last(), i);
    }
}

/// The contents of some files, by view.
pub open spec fn contents_of(files: Seq<String>) -> Seq<Seq<char>> {
    files.map_values(|f: String| f@)
}

/// Combines the fdinfo files of one process. All fds of one DRM context report the
/// same values, so the largest value of each kind is kept.
pub fn process_usage(fdinfos: &Vec<String>) -> (r: Option<(u64, u64)>)
    ensures
        r == process_usage_of(contents_of(fdinfos@)),
{
    let ghost all = contents_of(fdinfos@);
    let mut best_vram: u64 = 0;
    let mut best_gtt: u64 = 0;
    let mut found = false;
    let mut k: usize = 0;
    assert(all.take(0) =~= Seq::<Seq<char>>::empty());
    while k < fdinfos.len()
        invariant
            k <= fdinfos.len() == all.len(),
            all == contents_of(fdinfos@),
            usage_scan(all.take(k as int)) == (FdScan {
                vram_kib: best_vram,
                gtt_kib: best_gtt,
                has_drm: found,
            }),
        decreases fdinfos.len() - k,
    {
        assert(all.take(k + 1).drop_last() =~= all.take(k as int));
        assert(all[k as int] == fdinfos@[k as int]@);
        if let Some((v, g)) = fdinfo_usage(fdinfos[k].as_str()) {
            found = true;
            if v > best_vram {
                best_vram = v;
            }
            if g > best_gtt {
                best_gtt = g;
            }
        }
        k += 1;
    }
    assert(all.take(all.len() as int) =~= all);
    if found {
        Some((best_vram, best_gtt))
    } else {
        None
    }
}

/// The process id that a `/proc` entry's name gives, if it is a number.
pub fn pid_from_dir_name(name: &str) -> (r: Option<u32>)
    ensures
        r == parsed_u32(name@),
{
    parse_u32(name)
}

/// The name to show for a process: its `comm` file without surrounding
/// whitespace, or `?` when that file could not be read.
pub open spec fn process_name_text(comm: Option<Seq<char>>) -> Seq<char> {
    match comm {
        Some(c) => trim(c),
        None => "?"@,
    }
}

/// Names a process from the contents of its `comm` file, if it could be read.
pub fn process_name(comm: Option<&str>) -> (r: String)
    ensures
        r@ == process_name_text(match comm {
            Some(c) => Some(c@),
            None => None,
        }),
{
    match comm {
        Some(c) => trimmed(c),
        None => String::from_str("?"),
    }
}

/// The processes found so far, one entry per process id.
pub struct ProcessTable {
    by_pid: HashMap<u32, ProcessGpuMem>,
    pids: Vec<u32>,
}

impl View for ProcessTable {
    type V = Map<u32, ProcessGpuMem>;

    closed spec fn view(&self) -> Map<u32, ProcessGpuMem> {
        self.by_pid@
    }
}

/// The entry that recording `(pid, name, vram_kib, gtt_kib)` leaves in a table
/// that maps pids as `m` does: a new process gets the values as given; a process
/// already there keeps its name and the larger of each value.
pub open spec fn recorded(
    m: Map<u32, ProcessGpuMem>,
    pid: u32,
    name: String,
    vram_kib: u64,
    gtt_kib: u64,
) -> ProcessGpuMem {
    if m.contains_key(pid) {
        ProcessGpuMem {
            pid,
            name: m[pid].name,
            vram_kib: larger(m[pid].vram_kib, vram_kib),
            gtt_kib: larger(m[pid].gtt_kib, gtt_kib),
        }
    } else {
        ProcessGpuMem { pid, name, vram_kib, gtt_kib }
    }
}

impl ProcessTable {
    /// Every entry is filed under its own pid, and the list of pids names each
    /// filed pid exactly once.
    pub closed spec fn wf(&self) -> bool {
        &&& self.pids@.no_duplicates()
        &&& forall|p: u32| #[trigger] self.by_pid@.contains_key(p) <==> self.pids@.contains(p)
        &&& forall|p: u32| #[trigger] self.by_pid@.contains_key(p) ==> self.by_pid@[p].pid == p
    }

    /// An empty table.
    pub fn new() -> (r: ProcessTable)
        ensures
            r.wf(),
            r@ == Map::<u32, ProcessGpuMem>::empty(),
    {
        ProcessTable { by_pid: HashMap::new(), pids: Vec::new() }
    }

    /// Records the GPU memory of process `pid`, merging with what is already there.
    pub fn record(&mut self, pid: u32, name: String, vram_kib: u64, gtt_kib: u64)
        requires
            old(self).wf(),
        ensures
            final(self).wf(),
            final(self)@ == old(self)@.insert(pid, recorded(old(self)@, pid, name, vram_kib, gtt_kib)),
    {
        let ghost m = self.by_pid@;
        let ghost old_pids = self.pids@;
        match self.by_pid.remove(&pid) {
            Some(e) => {
                let v = if e.vram_kib >= vram_kib {
                    e.vram_kib
                } else {
                    vram_kib
                };
                let g = if e.gtt_kib >= gtt_kib {
                    e.gtt_kib
                } else {
                    gtt_kib
                };
                self.by_pid.insert(pid, ProcessGpuMem { pid, name: e.name, vram_kib: v, gtt_kib: g });
                assert(self.by_pid@ =~= m.insert(pid, recorded(m, pid, name, vram_kib, gtt_kib)));
            },
            None => {
                assert(!old_pids.contains(pid));
                self.by_pid.insert(pid, ProcessGpuMem { pid, name, vram_kib, gtt_kib });
                self.pids.push(pid);
                assert(self.by_pid@ =~= m.insert(pid, recorded(m, pid, name, vram_kib, gtt_kib)));
                assert(self.pids@ == old_pids.push(pid));
                assert forall|p: u32| #[trigger]
                    self.by_pid@.contains_key(p) <==> self.pids@.contains(p) by {
                    if p != pid {
                        if old_pids.contains(p) {
                            let i = choose|i: int| 0 <= i < old_pids.len() && old_pids[i] == p;
                            assert(self.pids@[i] == p);
                        }
                        if self.pids@.contains(p) {
                            let i = choose|i: int| 0 <= i < self.pids@.len() && self.pids@[i] == p;
                            assert(old_pids[i] == p);
                        }
                    } else {
                        assert(self.pids@[old_pids.len() as int] == pid);
                    }
                }
            },
        }
    }

    /// Whether every recorded process's VRAM and GTT add up within `u64`.
    pub fn totals_fit(&self) -> (r: bool)
        requires
            self.wf(),
        ensures
            r == forall|p: u32| #[trigger] self@.contains_key(p) ==> total_of(self@[p]) <= u64::MAX,
    {
        let mut k: usize = 0;
        while k < self.pids.len()
            invariant
                self.wf(),
                k <= self.pids.len(),
                forall|j: int| 0 <= j < k ==> total_of(self.by_pid@[#[trigger] self.pids@[j]]) <= u64::MAX,
            decreases self.pids.len() - k,
        {
            let pid = self.pids[k];
            assert(self.pids@.contains(pid));
            match self.by_pid.get(&pid) {
                Some(e) => {
                    if e.vram_kib.checked_add(e.gtt_kib).is_none() {
                        assert(self@ == self.by_pid@);
                        assert(self.by_pid@.contains_key(pid) && self.by_pid@[pid] == *e);
                        assert(total_of(self@[pid]) > u64::MAX);
                        return false;
                    }
                },
                None => {
                    assert(false);
                },
            }
            k += 1;
        }
        assert forall|p: u32| #[trigger] self@.contains_key(p) implies total_of(self@[p]) <= u64::MAX by {
            assert(self.pids@.contains(p));
            let j = choose|j: int| 0 <= j < self.pids.len() && self.pids@[j] == p;
            assert(total_of(self.by_pid@[self.pids@[j]]) <= u64::MAX);
        }
        true
    }

    /// The recorded processes, largest total first.
    pub fn into_sorted(self) -> (r: Vec<ProcessGpuMem>)
        requires
            self.wf(),
            forall|p: u32| #[trigger] self@.contains_key(p) ==> total_of(self@[p]) <= u64::MAX,
        ensures
            sorted_by_total_desc(r@),
            forall|i: int|
                0 <= i < r.len() ==> self@.contains_key(#[trigger] r[i].pid) && self@[r[i].pid]
                    == r[i],
            forall|p: u32| #[trigger]
                self@.contains_key(p) ==> exists|i: int| 0 <= i < r.len() && r[i].pid == p,
            forall|i: int, j: int| 0 <= i < j < r.len() ==> r[i].pid != r[j].pid,
    {
        broadcast use vstd::seq_lib::group_to_multiset_ensures;

        let ghost orig = self.by_pid@;
        assert(orig == self@);
        let ProcessTable { mut by_pid, pids } = self;
        let mut v: Vec<ProcessGpuMem> = Vec::new();
        let mut k: usize = 0;
        while k < pids.len()
            invariant
                k <= pids.len(),
                pids@.no_duplicates(),
                forall|p: u32| #[trigger] orig.contains_key(p) <==> pids@.contains(p),
                forall|p: u32| #[trigger] orig.contains_key(p) ==> orig[p].pid == p,
                forall|p: u32| #[trigger] orig.contains_key(p) ==> total_of(orig[p]) <= u64::MAX,
                forall|j: int|
                    k <= j < pids.len() ==> by_pid@.contains_key(#[trigger] pids@[j])
                        && by_pid@[pids@[j]] == orig[pids@[j]],
                v.len() == k,
                forall|j: int| 0 <= j < k ==> #[trigger] v@[j] == orig[pids@[j]],
            decreases pids.len() - k,
        {
            let pid = pids[k];
            assert(pids@.contains(pid));
            let ghost before = by_pid@;
            match by_pid.remove(&pid) {
                Some(e) => {
                    v.push(e);
                },
                None => {
                    assert(false);
                },
            }
            assert forall|j: int| k + 1 <= j < pids.len() implies by_pid@.contains_key(
                #[trigger] pids@[j],
            ) && by_pid@[pids@[j]] == orig[pids@[j]] by {
                assert(pids@[j] != pids@[k as int]);
                assert(before.contains_key(pids@[j]));
            }
            k += 1;
        }
        assert forall|i: int| 0 <= i < v.len() implies total_of(#[trigger] v@[i]) <= u64::MAX by {
            assert(pids@.contains(pids@[i]));
            assert(orig.contains_key(pids@[i]));
        }
        assert(v@.no_duplicates()) by {
            assert forall|i: int, j: int|
                0 <= i < v.len() && 0 <= j < v.len() && i != j implies v@[i] != v@[j] by {
                assert(pids@.contains(pids@[i]));
                assert(pids@.contains(pids@[j]));
                assert(orig.contains_key(pids@[i]));
                assert(orig.contains_key(pids@[j]));
            }
        }
        let r = sort_by_total_desc(v);
        proof {
            v@.lemma_multiset_has_no_duplicates();
            r@.lemma_multiset_has_no_duplicates_conv();
            assert forall|i: int| 0 <= i < r.len() implies orig.contains_key(#[trigger] r[i].pid)
                && orig[r[i].pid] == r[i] by {
                assert(r@.to_multiset().count(r@[i]) > 0);
                assert(v@.contains(r@[i]));
                let j = choose|j: int| 0 <= j < v.len() && v@[j] == r@[i];
                assert(pids@.contains(pids@[j]));
                assert(orig.contains_key(pids@[j]));
            }
            assert forall|p: u32| #[trigger] orig.contains_key(p) implies exists|i: int|
                0 <= i < r.len() && r[i].pid == p by {
                let j = choose|j: int| 0 <= j < pids.len() && pids@[j] == p;
                assert(v@.to_multiset().count(v@[j]) > 0);
                assert(r@.contains(v@[j]));
                let i = choose|i: int| 0 <= i < r.len() && r@[i] == v@[j];
                assert(r[i].pid == p);
            }
        }
        r
    }
}

/// Recording the same reading twice leaves the table as recording it once.
pub proof fn lemma_record_idempotent(
    m: Map<u32, ProcessGpuMem>,
    pid: u32,
    name: String,
    vram_kib: u64,
    gtt_kib: u64,
)
    ensures
        ({
            let once = m.insert(pid, recorded(m, pid, name, vram_kib, gtt_kib));
            once.insert(pid, recorded(once, pid, name, vram_kib, gtt_kib)) == once
        }),
{
    let once = m.insert(pid, recorded(m, pid, name, vram_kib, gtt_kib));
    assert(once.insert(pid, recorded(once, pid, name, vram_kib, gtt_kib)) =~= once);
}

/// The memory kept for a process is the largest of what was recorded for it, whatever
/// the order of the readings: two readings recorded either way round leave the same
/// VRAM and GTT values, and each is at least every value recorded.
pub proof fn lemma_record_order_free(
    m: Map<u32, ProcessGpuMem>,
    pid: u32,
    name_a: String,
    vram_a: u64,
    gtt_a: u64,
    name_b: String,
    vram_b: u64,
    gtt_b: u64,
)
    ensures
        ({
            let ma = m.insert(pid, recorded(m, pid, name_a, vram_a, gtt_a));
            let ab = recorded(ma, pid, name_b, vram_b, gtt_b);
            let mb = m.insert(pid, recorded(m, pid, name_b, vram_b, gtt_b));
            let ba = recorded(mb, pid, name_a, vram_a, gtt_a);
            &&& ab.vram_kib == ba.vram_kib
            &&& ab.gtt_kib == ba.gtt_kib
            &&& ab.vram_kib >= vram_a && ab.vram_kib >= vram_b
            &&& ab.gtt_kib >= gtt_a && ab.gtt_kib >= gtt_b
            &&& ab.pid == pid
        }),
{
}

/// Entries ordered by total, largest first.
pub open spec fn sorted_by_total_desc(s: Seq<ProcessGpuMem>) -> bool {
    forall|i: int, j: int| 0 <= i < j < s.len() ==> total_of(s[i]) >= total_of(s[j])
}

/// Orders `v` by total, largest first.
pub fn sort_by_total_desc(v: Vec<ProcessGpuMem>) -> (r: Vec<ProcessGpuMem>)
    requires
        forall|i: int| 0 <= i < v.len() ==> total_of(#[trigger] v@[i]) <= u64::MAX,
    ensures
        r@.to_multiset() == v@.to_multiset(),
        sorted_by_total_desc(r@),
{
    broadcast use vstd::seq_lib::group_to_multiset_ensures;

    let ghost orig = v@;
    let mut rest = v;
    let mut out: Vec<ProcessGpuMem> = Vec::new();
    while rest.len() > 0
        invariant
            out@.to_multiset().add(rest@.to_multiset()) == orig.to_multiset(),
            sorted_by_total_desc(out@),
            forall|i: int| 0 <= i < rest.len() ==> total_of(#[trigger] rest@[i]) <= u64::MAX,
            forall|i: int| 0 <= i < out.len() ==> total_of(#[trigger] out@[i]) <= u64::MAX,
        decreases rest.len(),
    {
        let ghost before = rest@;
        let e = match rest.pop() {
            Some(e) => e,
            None => {
                assert(false);
                return out;
            },
        };
        assert(before == rest@.push(e));
        assert(total_of(before[before.len() - 1]) <= u64::MAX);
        let t = e.total_kib();
        let mut pos: usize = 0;
        while pos < out.len() && out[pos].total_kib() >= t
            invariant
                pos <= out.len(),
                forall|i: int| 0 <= i < out.len() ==> total_of(#[trigger] out@[i]) <= u64::MAX,
                forall|i: int| 0 <= i < pos ==> total_of(#[trigger] out@[i]) >= t,
            decreases out.len() - pos,
        {
            pos += 1;
        }
        let ghost prev = out@;
        out.insert(pos, e);
        assert(out@ == prev.insert(pos as int, e));
        proof {
            vstd::seq_lib::to_multiset_insert(prev, pos as int, e);
            vstd::seq_lib::to_multiset_build(rest@, e);
        }
        assert(out@.to_multiset().add(rest@.to_multiset()) =~= orig.to_multiset());
        assert forall|i: int, j: int| 0 <= i < j < out.len() implies total_of(out@[i]) >= total_of(
            out@[j],
        ) by {
            if j < pos {
            } else if j == pos {
                assert(out@[i] == prev[i]);
            } else if i < pos {
                assert(out@[j] == prev[j - 1]);
            } else if i == pos {
                assert(out@[j] == prev[j - 1]);
                assert(total_of(prev[pos as int]) < t);
            } else {
                assert(out@[j] == prev[j - 1]);
                assert(out@[i] == prev[i - 1]);
            }
        }
    }
    assert(rest@.to_multiset() =~= Multiset::empty());
    assert(out@.to_multiset().add(Multiset::empty()) =~= out@.to_multiset());
    out
}

} // verus!
