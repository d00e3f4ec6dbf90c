//! What is read from the amdgpu sysfs files: device identity, driver version and live statistics.

use std::path::PathBuf;
use vstd::prelude::*;
use crate::text::{
    all_digits, chars_of, contains_in, decimal_text, equals_in, first_token_bounds, has_prefix,
    has_suffix, is_ws, lemma_decimal_text, lemma_lines_of_two, lemma_parse_decimal_text,
    lemma_token_len_of, lemma_trim_text_then_ws, lemma_trimmed_ends, line_bounds, lines,
    parse_u32_in, parse_u64_in, parsed_u32, parsed_u64, second_token, starts_with_in,
    strip_prefix_all, strip_prefix_all_in, strip_suffix_all, strip_suffix_all_in, trim,
    trim_bounds, trim_end, trim_start, trimmed,
};

verus! {

broadcast use vstd::string::group_string_axioms;

/// `std::path::PathBuf`, carried through as an opaque value.
#[verifier::external_type_specification]
#[verifier::external_body]
pub struct ExPathBuf(PathBuf);

/// `<PathBuf as Clone>::clone`: the copy equals the path it was made from.
pub assume_specification[ <PathBuf as Clone>::clone ](p: &PathBuf) -> (r: PathBuf)
    ensures
        r == *p,
;

/// Static GPU information from sysfs.
#[derive(Debug, Clone)]
pub struct GpuInfo {
    pub name: String,
    pub driver_version: String,
    pub vram_total: u64,
    pub gtt_total: u64,
    pub card_path: PathBuf,
}

/// Dynamic GPU stats read each tick.
#[derive(Debug, Clone)]
pub struct GpuStats {
    pub vram_used: u64,
    pub gtt_used: u64,
    pub gpu_busy_pct: u8,
    pub temp_millicelsius: u32,
    pub sclk_mhz: u32,
    pub mclk_mhz: u32,
}

impl Default for GpuStats {
    fn default() -> (r: GpuStats)
        ensures
            r.vram_used == 0,
            r.gtt_used == 0,
            r.gpu_busy_pct == 0,
            r.temp_millicelsius == 0,
            r.sclk_mhz == 0,
            r.mclk_mhz == 0,
    {
        GpuStats {
            vram_used: 0,
            gtt_used: 0,
            gpu_busy_pct: 0,
            temp_millicelsius: 0,
            sclk_mhz: 0,
            mclk_mhz: 0,
        }
    }
}

/// The contents of the sysfs files that the statistics come from; `None` where a
/// file could not be read.
pub struct StatsSources {
    /// `mem_info_vram_used`.
    pub vram_used: Option<String>,
    /// `mem_info_gtt_used`.
    pub gtt_used: Option<String>,
    /// `gpu_busy_percent`.
    pub gpu_busy_percent: Option<String>,
    /// `temp1_input` of the first hwmon directory that has one.
    pub hwmon_temp: Option<String>,
    /// `pp_dpm_sclk`.
    pub dpm_sclk: Option<String>,
    /// `pp_dpm_mclk`.
    pub dpm_mclk: Option<String>,
}

/// The number held by a sysfs attribute file: its contents without surrounding
/// whitespace, read as a decimal `u64`.
pub open spec fn sysfs_value(content: Seq<char>) -> Option<u64> {
    parsed_u64(trim(content))
}

/// The value of an attribute file that may have failed to read.
pub open spec fn sysfs_reading(content: Option<String>) -> Option<u64> {
    match content {
        Some(c) => sysfs_value(c@),
        None => None,
    }
}

/// A reading, or 0 where there is none.
pub open spec fn or_zero(v: Option<u64>) -> u64 {
    match v {
        Some(x) => x,
        None => 0,
    }
}

/// A sysfs attribute holding the decimal text of any `u64`, followed by a newline or
/// other trailing whitespace, reads as that number, however many digits it has.
pub proof fn lemma_sysfs_reads_whole_number(n: u64, ws: Seq<char>)
    requires
        forall|i: int| 0 <= i < ws.len() ==> is_ws(#[trigger] ws[i]),
    ensures
        sysfs_value(decimal_text(n as nat) + ws) == Some(n),
        sysfs_value(decimal_text(n as nat) + seq!['\n']) == Some(n),
{
    let d = decimal_text(n as nat);
    lemma_decimal_text(n as nat);
    lemma_parse_decimal_text(n);
    assert(!is_ws(d[0]));
    assert(!is_ws(d[d.len() - 1]));
    lemma_trim_text_then_ws(d, ws);
    assert(is_ws(seq!['\n'][0]));
    lemma_trim_text_then_ws(d, seq!['\n']);
}

/// Reads a sysfs attribute file's contents as an unsigned number.
pub fn parse_sysfs_u64(content: &str) -> (r: Option<u64>)
    ensures
        r == sysfs_value(content@),
{
    let v = chars_of(content);
    let (a, b) = trim_bounds(&v, 0, v.len());
    assert(v@.subrange(0, v@.len() as int) =~= v@);
    parse_u64_in(&v, a, b)
}

fn reading(content: &Option<String>) -> (r: Option<u64>)
    ensures
        r == sysfs_reading(*content),
{
    match content {
        Some(c) => parse_sysfs_u64(c.as_str()),
        None => None,
    }
}

/// The clock speed, in MHz, that a `pp_dpm_*` table gives: the first line that holds
/// a `*` marks the active level, as in `1: 742Mhz *`; its second token, without every
/// trailing `Mhz` and then every trailing `MHz`, is the number.
pub open spec fn active_dpm_mhz(content: Seq<char>) -> Option<u32> {
    match first_star_line(lines(content)) {
        None => None,
        Some(line) => match second_token(line) {
            None => None,
            Some(t) => parsed_u32(strip_suffix_all(strip_suffix_all(t, "Mhz"@), "MHz"@)),
        },
    }
}

/// The first of `ls` that holds a `*`.
pub open spec fn first_star_line(ls: Seq<Seq<char>>) -> Option<Seq<char>>
    decreases ls.len(),
{
    if ls.len() == 0 {
        None
    } else {
        match first_star_line(ls.drop_last()) {
            Some(l) => Some(l),
            None => if ls.last().contains('*') {
                Some(ls.last())
            } else {
                None
            },
        }
    }
}

/// The `pp_dpm_*` line of a level at `n` MHz that is the active one.
pub open spec fn active_level_line(n: u32) -> Seq<char> {
    "1: "@ + decimal_text(n as nat) + "Mhz *"@
}

proof fn lemma_digits_not_mhz(d: Seq<char>, p: Seq<char>)
    requires
        d.len() > 0,
        is_digit_char(d.last()),
        p.len() > 0,
        !is_digit_char(p.last()),
    ensures
        strip_suffix_all(d, p) == d,
{
    if has_suffix(d, p) {
        assert(d.skip(d.len() - p.len()).last() == d.last());
    }
}

spec fn is_digit_char(c: char) -> bool {
    '0' <= c <= '9'
}

proof fn lemma_active_line_shape(n: u32)
    ensures
        second_token(active_level_line(n)) == Some(decimal_text(n as nat) + "Mhz"@),
        forall|i: int|
            0 <= i < active_level_line(n).len() ==> #[trigger] active_level_line(n)[i] != '\n',
        active_level_line(n).contains('*'),
{
    reveal_strlit("1: ");
    reveal_strlit("Mhz *");
    reveal_strlit("Mhz");
    let d = decimal_text(n as nat);
    lemma_decimal_text(n as nat);
    assert(all_digits(d));
    let line = active_level_line(n);
    let head = seq!['1', ':'];
    let mhz = "Mhz"@;
    let tail = seq![' ', '*'];
    let word = d + mhz;
    let rest = seq![' '] + (word + tail);
    assert(line =~= head + rest);
    assert forall|i: int| 0 <= i < line.len() implies #[trigger] line[i] != '\n' by {
        if 3 <= i < 3 + d.len() {
            assert(line[i] == d[i - 3]);
            assert(is_digit_char(d[i - 3]));
        }
    }
    assert(line[line.len() - 1] == '*');
    assert(trim_start(line) == line);
    assert(is_ws(rest[0]));
    lemma_token_len_of(head, rest);
    assert(line.skip(2) =~= rest);
    assert(rest.drop_first() =~= word + tail);
    assert((word + tail)[0] == d[0]);
    assert(trim_start(word + tail) == word + tail);
    assert forall|i: int| 0 <= i < word.len() implies !is_ws(#[trigger] word[i]) by {
        if i < d.len() {
            assert(word[i] == d[i]);
        }
    }
    lemma_token_len_of(word, tail);
    assert((word + tail).take(word.len() as int) =~= word);
}

proof fn lemma_unit_comes_off(n: u32)
    ensures
        parsed_u32(strip_suffix_all(strip_suffix_all(decimal_text(n as nat) + "Mhz"@, "Mhz"@), "MHz"@))
            == Some(n),
{
    reveal_strlit("Mhz");
    reveal_strlit("MHz");
    let d = decimal_text(n as nat);
    lemma_decimal_text(n as nat);
    assert(all_digits(d));
    let mhz = "Mhz"@;
    let word = d + mhz;
    assert(word.skip(word.len() - mhz.len()) =~= mhz);
    assert(word.take(word.len() - mhz.len()) =~= d);
    assert(is_digit_char(d.last()));
    lemma_digits_not_mhz(d, mhz);
    assert(strip_suffix_all(word, mhz) == d);
    lemma_digits_not_mhz(d, "MHz"@);
}

proof fn lemma_star_line_found(other: Seq<char>, line: Seq<char>)
    requires
        !other.contains('*'),
        line.contains('*'),
    ensures
        first_star_line(seq![other, line]) == Some(line),
{
    let ls = seq![other, line];
    assert(ls.drop_last() =~= seq![other]);
    assert(seq![other].drop_last() =~= Seq::<Seq<char>>::empty());
    assert(first_star_line(Seq::<Seq<char>>::empty()) is None);
    assert(first_star_line(seq![other]) is None);
}

/// A clock table whose active level reports `n` MHz reads as `n`, for every `n`,
/// whatever inactive line comes before it.
pub proof fn lemma_active_level_read(other: Seq<char>, n: u32)
    requires
        forall|i: int| 0 <= i < other.len() ==> #[trigger] other[i] != '\n' && other[i] != '*',
    ensures
        active_dpm_mhz(other + seq!['\n'] + active_level_line(n) + seq!['\n']) == Some(n),
{
    lemma_active_line_shape(n);
    lemma_unit_comes_off(n);
    lemma_lines_of_two(other, active_level_line(n));
    assert(!other.contains('*'));
    lemma_star_line_found(other, active_level_line(n));
}

/// Finds the active clock level in the contents of a `pp_dpm_sclk` or `pp_dpm_mclk` file.
pub fn parse_active_dpm(content: &str) -> (r: Option<u32>)
    ensures
        r == active_dpm_mhz(content@),
{
    let v = chars_of(content);
    let bounds = line_bounds(&v);
    let ghost ls = lines(v@);
    let mut found: Option<(usize, usize)> = None;
    let mut k: usize = 0;
    assert(ls.take(0) =~= Seq::<Seq<char>>::empty());
    while k < bounds.len()
        invariant
            k <= bounds.len() == ls.len(),
            ls == lines(v@),
            forall|j: int|
                0 <= j < bounds.len() ==> {
                    &&& (#[trigger] bounds[j]).0 <= bounds[j].1 <= v.len()
                    &&& v@.subrange(bounds[j].0 as int, bounds[j].1 as int) == ls[j]
                },
            match found {
                Some((a, b)) => a <= b <= v.len() && first_star_line(ls.take(k as int)) == Some(
                    v@.subrange(a as int, b as int),
                ),
                None => first_star_line(ls.take(k as int)) is None,
            },
        decreases bounds.len() - k,
    {
        let (a, b) = bounds[k];
        assert(ls.take(k + 1).drop_last() =~= ls.take(k as int));
        if found.is_none() && contains_in(&v, a, b, '*') {
            found = Some((a, b));
        }
        k += 1;
    }
    assert(ls.take(ls.len() as int) =~= ls);
    match found {
        None => None,
        Some((a, b)) => {
            match first_token_bounds(&v, a, b) {
                None => None,
                Some((_, c)) => match first_token_bounds(&v, c, b) {
                    None => None,
                    Some((t0, t1)) => {
                        let e = strip_suffix_all_in(&v, t0, t1, &chars_of("Mhz"));
                        let f = strip_suffix_all_in(&v, t0, e, &chars_of("MHz"));
                        parse_u32_in(&v, t0, f)
                    },
                },
            }
        },
    }
}


/// The clock reading of a `pp_dpm_*` file that may have failed to read.
pub open spec fn dpm_reading(content: Option<String>) -> Option<u32> {
    match content {
        Some(c) => active_dpm_mhz(c@),
        None => None,
    }
}

/// The statistics that `sources` give. A file that could not be read or parsed
/// counts as 0; the busy percentage keeps the low 8 bits and the temperature the
/// low 32 bits of the number read, as an `as` cast does.
pub open spec fn stats_of(sources: StatsSources) -> GpuStats {
    GpuStats {
        vram_used: or_zero(sysfs_reading(sources.vram_used)),
        gtt_used: or_zero(sysfs_reading(sources.gtt_used)),
        gpu_busy_pct: (or_zero(sysfs_reading(sources.gpu_busy_percent)) % 0x100) as u8,
        temp_millicelsius: (or_zero(sysfs_reading(sources.hwmon_temp)) % 0x1_0000_0000) as u32,
        sclk_mhz: match dpm_reading(sources.dpm_sclk) {
            Some(m) => m,
            None => 0,
        },
        mclk_mhz: match dpm_reading(sources.dpm_mclk) {
            Some(m) => m,
            None => 0,
        },
    }
}

/// Readings are kept as read: each memory figure is the number its file holds, a
/// busy percentage or temperature that fits its field is that number unchanged, and
/// a file that cannot be read or parsed counts as 0.
pub proof fn lemma_stats_keep_readings(sources: StatsSources)
    ensures
        match sysfs_reading(sources.vram_used) {
            Some(t) => stats_of(sources).vram_used == t,
            None => stats_of(sources).vram_used == 0,
        },
        match sysfs_reading(sources.gtt_used) {
            Some(t) => stats_of(sources).gtt_used == t,
            None => stats_of(sources).gtt_used == 0,
        },
        match sysfs_reading(sources.gpu_busy_percent) {
            Some(t) => t <= u8::MAX ==> stats_of(sources).gpu_busy_pct == t,
            None => stats_of(sources).gpu_busy_pct == 0,
        },
        match sysfs_reading(sources.hwmon_temp) {
            Some(t) => t <= u32::MAX ==> stats_of(sources).temp_millicelsius == t,
            None => stats_of(sources).temp_millicelsius == 0,
        },
        dpm_reading(sources.dpm_sclk) is Some ==> stats_of(sources).sclk_mhz == dpm_reading(
            sources.dpm_sclk,
        )->0,
        dpm_reading(sources.dpm_mclk) is Some ==> stats_of(sources).mclk_mhz == dpm_reading(
            sources.dpm_mclk,
        )->0,
{
}

fn dpm(content: &Option<String>) -> (r: u32)
    ensures
        r == (match dpm_reading(*content) {
            Some(m) => m,
            None => 0,
        }),
{
    match content {
        Some(c) => match parse_active_dpm(c.as_str()) {
            Some(m) => m,
            None => 0,
        },
        None => 0,
    }
}

fn value_or_zero(content: &Option<String>) -> (r: u64)
    ensures
        r == or_zero(sysfs_reading(*content)),
{
    match reading(content) {
        Some(x) => x,
        None => 0,
    }
}

/// Reads the dynamic GPU stats out of the contents of their sysfs files.
pub fn read_stats(sources: &StatsSources) -> (r: GpuStats)
    ensures
        r == stats_of(*sources),
{
    let busy = value_or_zero(&sources.gpu_busy_percent);
    let temp = value_or_zero(&sources.hwmon_temp);
    assert(busy as u8 == busy % 0x100) by (bit_vector);
    assert(temp as u32 == temp % 0x1_0000_0000) by (bit_vector);
    GpuStats {
        vram_used: value_or_zero(&sources.vram_used),
        gtt_used: value_or_zero(&sources.gtt_used),
        gpu_busy_pct: busy as u8,
        temp_millicelsius: temp as u32,
        sclk_mhz: dpm(&sources.dpm_sclk),
        mclk_mhz: dpm(&sources.dpm_mclk),
    }
}

/// The PCI device id inside the contents of a `device` file: without surrounding
/// whitespace and without every leading `0x`.
pub open spec fn pci_device_id(content: Seq<char>) -> Seq<char> {
    strip_prefix_all(trim(content), "0x"@)
}

/// The marketing name of a known device id, and `AMD GPU [<id>]` for any other.
pub open spec fn gpu_name(content: Seq<char>) -> Seq<char> {
    let id = pci_device_id(content);
    if id == "150e"@ {
        "AMD Radeon 890M (gfx1150)"@
    } else if id == "1900"@ {
        "AMD Radeon RX 6900 XT"@
    } else if id == "73bf"@ {
        "AMD Radeon RX 6900 XT"@
    } else if id == "164e"@ {
        "AMD Radeon 780M"@
    } else {
        "AMD GPU ["@ + id + "]"@
    }
}

/// A device id is named the same with or without a `0x` in front.
pub proof fn lemma_pci_prefix_free(id: Seq<char>)
    requires
        trim(id) == id,
    ensures
        gpu_name("0x"@ + id) == gpu_name(id),
{
    reveal_strlit("0x");
    lemma_trimmed_ends(id);
    let s = "0x"@ + id;
    assert(s[0] == '0');
    assert(!is_ws(s[0]));
    assert(trim_start(s) == s);
    assert(!is_ws(s.last())) by {
        if id.len() > 0 {
            assert(s.last() == id.last());
        } else {
            assert(s.last() == 'x');
        }
    }
    assert(trim_end(s) == s);
    assert(has_prefix(s, "0x"@)) by {
        assert(s.take(2) =~= "0x"@);
    }
    assert(s.skip(2) =~= id);
}

/// Any device id other than the four known ones is shown as `AMD GPU [<id>]`, both as
/// written and as a `device` file holds it, with `0x` in front and a newline after.
pub proof fn lemma_unknown_id_shown(id: Seq<char>)
    requires
        trim(id) == id,
        !has_prefix(id, "0x"@),
        id != "150e"@,
        id != "1900"@,
        id != "73bf"@,
        id != "164e"@,
    ensures
        gpu_name(id) == "AMD GPU ["@ + id + "]"@,
        gpu_name("0x"@ + id + seq!['\n']) == "AMD GPU ["@ + id + "]"@,
{
    reveal_strlit("0x");
    assert(pci_device_id(id) == id);
    lemma_trimmed_ends(id);
    let d = "0x"@ + id;
    assert(d[0] == '0');
    assert(!is_ws(d.last())) by {
        if id.len() > 0 {
            assert(d.last() == id.last());
        } else {
            assert(d.last() == 'x');
        }
    }
    assert(is_ws(seq!['\n'][0]));
    lemma_trim_text_then_ws(d, seq!['\n']);
    assert(has_prefix(d, "0x"@)) by {
        assert(d.take(2) =~= "0x"@);
    }
    assert(d.skip(2) =~= id);
    assert(pci_device_id(d + seq!['\n']) == id);
}

/// The driver version never claims a firmware version that is not there: without a
/// usable module version and without a `fw_version` file, it is `kernel:` and the
/// release without surrounding whitespace, or `unknown` when that too is missing; with
/// a `fw_version` file that is not blank, it is `fw:` and that version; and a usable
/// module version is shown as it is, whatever the other files hold.
pub proof fn lemma_driver_version_sources(
    module_version: Option<Seq<char>>,
    fw_version: Option<Seq<char>>,
    os_release: Option<Seq<char>>,
)
    ensures
        ({
            let r = driver_version_text(module_version, fw_version, os_release);
            let no_module = module_version is None || trim(module_version->0).len() == 0;
            &&& no_module && fw_version is None ==> !has_prefix(r, "fw:"@)
            &&& no_module && fw_version is None ==> r == match os_release {
                Some(o) => "kernel:"@ + trim(o),
                None => "unknown"@,
            }
            &&& no_module && fw_version is Some && trim(fw_version->0).len() > 0 ==> r == "fw:"@
                + trim(fw_version->0)
            &&& !no_module ==> r == trim(module_version->0)
        }),
{
    reveal_strlit("fw:");
    reveal_strlit("kernel:");
    reveal_strlit("unknown");
    let r = driver_version_text(module_version, fw_version, os_release);
    if (module_version is None || trim(module_version->0).len() == 0) && fw_version is None {
        assert(r[0] != 'f');
        assert("fw:"@[0] == 'f');
        if r.len() >= 3 {
            assert(r.take(3)[0] == r[0]);
        }
    }
}

/// Names the GPU whose PCI device id `device_id` holds.
pub fn pci_id_to_name(device_id: &str) -> (r: String)
    ensures
        r@ == gpu_name(device_id@),
{
    let v = chars_of(device_id);
    let (a, b) = trim_bounds(&v, 0, v.len());
    assert(v@.subrange(0, v@.len() as int) =~= v@);
    let c = strip_prefix_all_in(&v, a, b, &chars_of("0x"));
    if equals_in(&v, c, b, &chars_of("150e")) {
        String::from_str("AMD Radeon 890M (gfx1150)")
    } else if equals_in(&v, c, b, &chars_of("1900")) {
        String::from_str("AMD Radeon RX 6900 XT")
    } else if equals_in(&v, c, b, &chars_of("73bf")) {
        String::from_str("AMD Radeon RX 6900 XT")
    } else if equals_in(&v, c, b, &chars_of("164e")) {
        String::from_str("AMD Radeon 780M")
    } else {
        let mut out = String::from_str("AMD GPU [");
        out.append(device_id.substring_char(c, b));
        out.append("]");
        out
    }
}

/// A file's contents, if it could be read, by view.
pub open spec fn text_of(o: Option<&str>) -> Option<Seq<char>> {
    match o {
        Some(s) => Some(s@),
        None => None,
    }
}

/// The driver version to show: the module version if it is there and not blank,
/// else the firmware version prefixed with `fw:`, else the kernel release
/// prefixed with `kernel:`, else `unknown`; each value without surrounding whitespace.
pub open spec fn driver_version_text(
    module_version: Option<Seq<char>>,
    fw_version: Option<Seq<char>>,
    os_release: Option<Seq<char>>,
) -> Seq<char> {
    if module_version is Some && trim(module_version->0).len() > 0 {
        trim(module_version->0)
    } else if fw_version is Some && trim(fw_version->0).len() > 0 {
        "fw:"@ + trim(fw_version->0)
    } else if os_release is Some {
        "kernel:"@ + trim(os_release->0)
    } else {
        "unknown"@
    }
}

/// Chooses the driver version to show from the contents of the module's `version`
/// file, the device's `fw_version` file and `/proc/sys/kernel/osrelease`, each
/// `None` where it could not be read.
pub fn detect_driver_version(
    module_version: Option<&str>,
    fw_version: Option<&str>,
    os_release: Option<&str>,
) -> (r: String)
    ensures
        r@ == driver_version_text(text_of(module_version), text_of(fw_version), text_of(os_release)),
{
    if let Some(m) = module_version {
        let t = trimmed(m);
        if !t.as_str().is_empty() {
            return t;
        }
    }
    if let Some(f) = fw_version {
        let t = trimmed(f);
        if !t.as_str().is_empty() {
            let mut out = String::from_str("fw:");
            out.append(t.as_str());
            return out;
        }
    }
    if let Some(o) = os_release {
        let t = trimmed(o);
        let mut out = String::from_str("kernel:");
        out.append(t.as_str());
        return out;
    }
    String::from_str("unknown")
}

/// Whether a `/sys/class/drm` entry names a card rather than one of its connectors:
/// it starts with `card` and has no `-`.
pub fn is_card_name(name: &str) -> (r: bool)
    ensures
        r == (has_prefix(name@, "card"@) && !name@.contains('-')),
{
    let v = chars_of(name);
    assert(v@.subrange(0, v@.len() as int) =~= v@);
    starts_with_in(&v, 0, v.len(), &chars_of("card")) && !contains_in(&v, 0, v.len(), '-')
}

} // verus!
