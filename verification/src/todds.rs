//! todds texture optimizer: presets, the command line, and its progress output.

use vstd::prelude::*;

use crate::launch::{split_args, split_list};
use crate::text::{ascii_lower, chars_of, find_char_from, has_prefix, infix, sv, trim};
use crate::error::{decimal, decimal_string, Error};
use crate::xml::parse_u32;

verus! {

broadcast use {vstd::string::group_string_axioms, vstd::seq_lib::group_seq_properties};

/// How todds is run.
#[derive(Debug, Clone, Copy, PartialEq, Eq, Structural)]
pub enum Preset {
    /// BC1 / BC7 with mipmaps: what RimSort recommends.
    Optimized,
    /// Delete the `.dds` files todds would create.
    Clean,
    /// The user's own arguments.
    Custom,
}

/// Optimizer settings.
#[derive(Debug, Clone)]
pub struct ToddsOptions {
    pub preset: Preset,
    pub dry_run: bool,
    pub overwrite: bool,
    pub custom_command: String,
    /// Only the active mods; otherwise every mod in the local and Workshop folders.
    pub active_mods_target: bool,
    /// Run the optimizer before every game launch.
    pub auto_before_launch: bool,
}

impl Default for ToddsOptions {
    fn default() -> (r: ToddsOptions)
        ensures
            r.preset == Preset::Optimized,
            !r.dry_run,
            !r.overwrite,
            r.custom_command@ == Seq::<char>::empty(),
            r.active_mods_target,
            !r.auto_before_launch,
    {
        ToddsOptions {
            preset: Preset::Optimized,
            dry_run: false,
            overwrite: false,
            custom_command: String::new(),
            active_mods_target: true,
            auto_before_launch: false,
        }
    }
}

/// The preset a stored name means: anything mentioning "custom" (any case) is Custom, else
/// anything mentioning "clean" is Clean, else Optimized.
pub open spec fn preset_of(s: Seq<char>) -> Preset {
    let low = s.map_values(|c: char| ascii_lower(c));
    if infix(low, "custom"@) {
        Preset::Custom
    } else if infix(low, "clean"@) {
        Preset::Clean
    } else {
        Preset::Optimized
    }
}

impl Preset {
    /// Parse RimSort's stored preset name ("optimized", "clean", or anything containing "custom").
    pub fn from_setting(s: &str) -> (p: Preset)
        ensures
            p == preset_of(s@),
    {
        let v = chars_of(s);
        let mut low: Vec<char> = Vec::new();
        let mut i: usize = 0;
        while i < v.len()
            invariant
                0 <= i <= v@.len(),
                v@ == s@,
                low@ == v@.take(i as int).map_values(|c: char| ascii_lower(c)),
            decreases v@.len() - i,
        {
            low.push(crate::text::ascii_lower_char(v[i]));
            proof {
                assert(v@.take(i + 1).map_values(|c: char| ascii_lower(c)) =~= v@.take(i as int).map_values(|c: char| ascii_lower(c)).push(ascii_lower(v@[i as int])));
            }
            i += 1;
        }
        proof {
            assert(v@.take(i as int) == v@);
        }
        let custom = chars_of("custom");
        let clean = chars_of("clean");
        if crate::text::has_infix(low.as_slice(), custom.as_slice()) {
            Preset::Custom
        } else if crate::text::has_infix(low.as_slice(), clean.as_slice()) {
            Preset::Clean
        } else {
            Preset::Optimized
        }
    }

    /// The name RimSort stores for the preset.
    pub fn setting_name(self) -> (r: &'static str)
        ensures
            r@ == match self {
                Preset::Optimized => "optimized"@,
                Preset::Clean => "clean"@,
                Preset::Custom => "custom"@,
            },
    {
        match self {
            Preset::Optimized => "optimized",
            Preset::Clean => "clean",
            Preset::Custom => "custom",
        }
    }
}

/// The arguments of a preset before dry-run and input handling.
pub open spec fn base_args(preset: Preset, overwrite: bool, custom: Seq<char>) -> Seq<Seq<char>> {
    match preset {
        Preset::Clean => seq!["-cl"@, "-o"@, "-ss"@, "Textures"@, "-p"@, "-t"@],
        Preset::Optimized => seq![
            "-f"@,
            "BC1"@,
            "-af"@,
            "BC7"@,
            if overwrite { "-o"@ } else { "-on"@ },
            "-vf"@,
            "-fs"@,
            "-ss"@,
            "Textures"@,
            "-t"@,
            "-p"@,
        ],
        Preset::Custom => split_list(custom),
    }
}

/// `s` without the progress (`-p`) and timing (`-t`) flags.
pub open spec fn without_progress(s: Seq<Seq<char>>) -> Seq<Seq<char>>
    decreases s.len(),
{
    if s.len() == 0 {
        Seq::empty()
    } else {
        let r = without_progress(s.drop_last());
        if s.last() == "-p"@ || s.last() == "-t"@ {
            r
        } else {
            r.push(s.last())
        }
    }
}

/// The command line for the options, ending with the input path list: a dry run drops the
/// progress and timing flags and adds `-v -dr`; a custom command gets `-p` when it lacks it.
pub open spec fn todds_args(o: ToddsOptions, input: Seq<char>) -> Seq<Seq<char>> {
    let base = base_args(o.preset, o.overwrite, o.custom_command@);
    let mid = if o.dry_run {
        without_progress(base) + seq!["-v"@, "-dr"@]
    } else if o.preset == Preset::Custom && !base.contains("-p"@) {
        base.push("-p"@)
    } else {
        base
    };
    mid.push(input)
}

/// Strings from literals.
fn strings(v: &[&str]) -> (r: Vec<String>)
    ensures
        sv(r@) == v@.map_values(|s: &str| s@),
{
    let mut r: Vec<String> = Vec::new();
    let mut i: usize = 0;
    while i < v.len()
        invariant
            0 <= i <= v@.len(),
            sv(r@) == v@.take(i as int).map_values(|s: &str| s@),
        decreases v@.len() - i,
    {
        let ghost r0 = r@;
        r.push(String::from_str(v[i]));
        proof {
            assert(sv(r@) =~= sv(r0).push(v@[i as int]@));
            assert(v@.take(i + 1).map_values(|s: &str| s@) =~= v@.take(i as int).map_values(|s: &str| s@).push(v@[i as int]@));
        }
        i += 1;
    }
    proof {
        assert(v@.take(i as int) == v@);
    }
    r
}

/// The command line for `opts` (RimSort's presets), ending with the input path list.
pub fn build_args(opts: &ToddsOptions, input: &str) -> (r: Vec<String>)
    ensures
        sv(r@) == todds_args(*opts, input@),
{
    let base: Vec<String> = match opts.preset {
        Preset::Clean => {
            let b = strings(&["-cl", "-o", "-ss", "Textures", "-p", "-t"]);
            proof {
                assert(sv(b@) =~= base_args(opts.preset, opts.overwrite, opts.custom_command@));
            }
            b
        },
        Preset::Optimized => {
            let b = if opts.overwrite {
                strings(&["-f", "BC1", "-af", "BC7", "-o", "-vf", "-fs", "-ss", "Textures", "-t", "-p"])
            } else {
                strings(&["-f", "BC1", "-af", "BC7", "-on", "-vf", "-fs", "-ss", "Textures", "-t", "-p"])
            };
            proof {
                assert(sv(b@) =~= base_args(opts.preset, opts.overwrite, opts.custom_command@));
            }
            b
        },
        Preset::Custom => split_args(opts.custom_command.as_str()),
    };
    let ghost bv = sv(base@);
    let p = String::from_str("-p");
    let t = String::from_str("-t");
    let mut args: Vec<String> = Vec::new();
    if opts.dry_run {
        let mut i: usize = 0;
        while i < base.len()
            invariant
                0 <= i <= base@.len(),
                bv == sv(base@),
                p@ == "-p"@,
                t@ == "-t"@,
                sv(args@) == without_progress(bv.take(i as int)),
            decreases base@.len() - i,
        {
            proof {
                assert(bv.take(i + 1).drop_last() == bv.take(i as int));
                assert(bv.take(i + 1).last() == base@[i as int]@);
            }
            if !(base[i] == p) && !(base[i] == t) {
                let ghost a0 = args@;
                args.push(base[i].clone());
                proof {
                    assert(sv(args@) =~= sv(a0).push(base@[i as int]@));
                }
            }
            i += 1;
        }
        proof {
            assert(bv.take(i as int) == bv);
        }
        let ghost a0 = args@;
        args.push(String::from_str("-v"));
        args.push(String::from_str("-dr"));
        proof {
            assert(sv(args@) =~= sv(a0) + seq!["-v"@, "-dr"@]);
        }
    } else {
        args = base;
        if opts.preset == Preset::Custom && !crate::text::contains_str(&args, &p) {
            let ghost a0 = args@;
            args.push(p);
            proof {
                assert(sv(args@) =~= sv(a0).push("-p"@));
            }
        }
    }
    let ghost a1 = args@;
    args.push(String::from_str(input));
    proof {
        assert(sv(args@) =~= sv(a1).push(input@));
    }
    args
}

/// Progress in a line of todds output: `Progress: n/m`, surrounding whitespace allowed.
pub open spec fn progress_of(line: Seq<char>) -> Option<(u32, u32)> {
    let t = trim(line);
    let head = "Progress:"@;
    if has_prefix(t, head) {
        let rest = t.skip(head.len() as int);
        let k = crate::xml::find_char(rest, 0, '/');
        if k >= 0 {
            match (parse_u32(trim(rest.take(k)), 10), parse_u32(trim(rest.skip(k + 1)), 10)) {
                (Some(a), Some(b)) => Some((a, b)),
                _ => None,
            }
        } else {
            None
        }
    } else {
        None
    }
}


/// Before a run: there must be folders to process.
pub fn check_targets(count: usize) -> (r: Result<(), Error>)
    ensures
        r is Ok <==> count > 0,
        r matches Err(e) ==> e matches Error::Other(m) && m@ == "No mod folders to process"@,
{
    if count == 0 {
        Err(Error::Other(String::from_str("No mod folders to process")))
    } else {
        Ok(())
    }
}

/// What is shown for a progress line.
pub open spec fn progress_text(done: u32, total: u32) -> Seq<char> {
    "todds: "@ + decimal(done as nat) + "/"@ + decimal(total as nat) + " textures"@
}

/// One line of todds's output, while it runs: its progress, when it is a progress line, and
/// the status text to show. Any other line is shown as it is and becomes the `last` message,
/// which a failure reports.
pub fn on_output(line: &str, last: &mut String) -> (r: (Option<(u32, u32)>, String))
    ensures
        r.0 == progress_of(line@),
        match progress_of(line@) {
            Some((d, t)) => r.1@ == progress_text(d, t) && final(last)@ == old(last)@,
            None => r.1@ == "todds: "@ + line@ && final(last)@ == line@,
        },
{
    match parse_progress(line) {
        Some((done, total)) => {
            let mut t = String::from_str("todds: ");
            let a = decimal_string(done);
            t.append(a.as_str());
            t.append("/");
            let b = decimal_string(total);
            t.append(b.as_str());
            t.append(" textures");
            (Some((done, total)), t)
        },
        None => {
            let mut t = String::from_str("todds: ");
            t.append(line);
            *last = String::from_str(line);
            (None, t)
        },
    }
}

/// How a run ended: cancelled, succeeded, or failed with the exit status and the last message
/// todds printed.
pub fn run_outcome(cancelled: bool, success: bool, status: &str, last: &str) -> (r: Result<(), Error>)
    ensures
        cancelled ==> r matches Err(Error::Cancelled),
        !cancelled && success ==> r is Ok,
        !cancelled && !success ==> (r matches Err(Error::Other(m)) && m@ == "todds failed ("@ + status@ + "): "@ + last@),
{
    if cancelled {
        Err(Error::Cancelled)
    } else if success {
        Ok(())
    } else {
        let mut m = String::from_str("todds failed (");
        m.append(status);
        m.append("): ");
        m.append(last);
        Err(Error::Other(m))
    }
}

/// The number in `v`, trimmed.
fn trimmed_number(v: &[char]) -> (r: Option<u32>)
    ensures
        r == parse_u32(trim(v@), 10),
{
    let (a, b) = crate::text::trim_bounds(v);
    crate::xml::parse_u32_at(v, a, b, 10)
}

/// `Progress: 12/300` → (12, 300).
pub fn parse_progress(line: &str) -> (r: Option<(u32, u32)>)
    ensures
        r == progress_of(line@),
{
    let t = crate::text::trim_str(line);
    let v = chars_of(t.as_str());
    let head = chars_of("Progress:");
    if !crate::text::starts_at(v.as_slice(), 0, head.as_slice()) {
        proof {
            assert(v@.subrange(0, v@.len() as int) == v@);
        }
        return None;
    }
    proof {
        assert(v@.subrange(0, v@.len() as int) == v@);
    }
    let n = v.len();
    let s9 = head.len();
    let k = find_char_from(v.as_slice(), s9, '/');
    let ghost rest = v@.skip(s9 as int);
    proof {
        crate::xml::lemma_find_char_pub(rest, 0, '/', k - s9);
    }
    if k == n {
        return None;
    }
    let left: Vec<char> = crate::text::sub_chars(v.as_slice(), s9, k);
    let right: Vec<char> = crate::text::sub_chars(v.as_slice(), k + 1, n);
    proof {
        assert(left@ == rest.take(k - s9));
        assert(right@ == rest.skip(k - s9 + 1));
    }
    let a = trimmed_number(left.as_slice());
    let b = trimmed_number(right.as_slice());
    match (a, b) {
        (Some(x), Some(y)) => Some((x, y)),
        _ => None,
    }
}

/// Operating system and processor of a todds build.
#[derive(Debug, Clone, Copy, PartialEq, Eq, Structural)]
pub enum Platform {
    Windows,
    MacArm,
    MacIntel,
    Linux,
}

/// Where the todds release archive for a platform is downloaded from.
pub open spec fn archive_url_of(p: Platform) -> Seq<char> {
    "https://github.com/joseasoler/todds/releases/download/0.4.1/"@ + match p {
        Platform::Windows => "todds_Windows_0.4.1.zip"@,
        Platform::MacArm => "todds_Darwin_arm_0.4.1.zip"@,
        Platform::MacIntel => "todds_Darwin_i386_0.4.1.zip"@,
        Platform::Linux => "todds_Linux_x86_64_0.4.1.zip"@,
    }
}

/// The download URL of the todds release for a platform.
pub fn archive_url(p: Platform) -> (r: String)
    ensures
        r@ == archive_url_of(p),
{
    let mut s = String::from_str("https://github.com/joseasoler/todds/releases/download/0.4.1/");
    match p {
        Platform::Windows => s.append("todds_Windows_0.4.1.zip"),
        Platform::MacArm => s.append("todds_Darwin_arm_0.4.1.zip"),
        Platform::MacIntel => s.append("todds_Darwin_i386_0.4.1.zip"),
        Platform::Linux => s.append("todds_Linux_x86_64_0.4.1.zip"),
    }
    s
}

} // verus!
