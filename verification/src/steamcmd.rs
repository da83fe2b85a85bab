//! Downloading Workshop mods with SteamCMD: which ids are accepted, the command line, and how
//! its output counts progress. Running the program is the application's part.

use vstd::prelude::*;

use crate::error::Error;
use crate::text::{chars_of, has_prefix, infix, sv};

verus! {

broadcast use {vstd::string::group_string_axioms, vstd::seq_lib::group_seq_properties};

/// A Workshop id SteamCMD may be given: one or more ASCII digits.
pub open spec fn numeric_id(s: Seq<char>) -> bool {
    s.len() > 0 && forall|i: int| 0 <= i < s.len() ==> '0' <= #[trigger] s[i] && s[i] <= '9'
}

/// Refuse ids that are not numeric (this also keeps anything else off SteamCMD's command line).
pub fn check_ids(ids: &Vec<String>) -> (r: Result<(), Error>)
    ensures
        (forall|k: int| 0 <= k < ids@.len() ==> numeric_id(#[trigger] ids@[k]@)) ==> r is Ok,
        !(forall|k: int| 0 <= k < ids@.len() ==> numeric_id(#[trigger] ids@[k]@)) ==> (r matches Err(Error::Other(m))
            && m@ == "Workshop ids must be numeric"@),
{
    let mut k: usize = 0;
    while k < ids.len()
        invariant
            0 <= k <= ids@.len(),
            forall|j: int| 0 <= j < k ==> numeric_id(#[trigger] ids@[j]@),
        decreases ids@.len() - k,
    {
        let v = chars_of(ids[k].as_str());
        let mut ok = v.len() > 0;
        let mut i: usize = 0;
        while i < v.len()
            invariant
                0 <= i <= v@.len(),
                ok == (v@.len() > 0 && forall|x: int| 0 <= x < i ==> '0' <= #[trigger] v@[x] && v@[x] <= '9'),
            decreases v@.len() - i,
        {
            if !('0' <= v[i] && v[i] <= '9') {
                ok = false;
            }
            i += 1;
        }
        if !ok {
            return Err(Error::Other(String::from_str("Workshop ids must be numeric")));
        }
        k += 1;
    }
    Ok(())
}

/// The SteamCMD command line that downloads `ids` into `install`.
pub open spec fn download_args_of(install: Seq<char>, ids: Seq<Seq<char>>) -> Seq<Seq<char>>
    decreases ids.len(),
{
    if ids.len() == 0 {
        seq!["+force_install_dir"@, install, "+login"@, "anonymous"@, "+quit"@]
    } else {
        let r = download_args_of(install, ids.drop_last());
        r.take(r.len() - 1) + seq!["+workshop_download_item"@, "294100"@, ids.last(), "+quit"@]
    }
}

/// The SteamCMD command line (see `download_args_of`).
pub fn download_args(install: &str, ids: &Vec<String>) -> (r: Vec<String>)
    ensures
        sv(r@) == download_args_of(install@, sv(ids@)),
{
    let mut args: Vec<String> = Vec::new();
    args.push(String::from_str("+force_install_dir"));
    args.push(String::from_str(install));
    args.push(String::from_str("+login"));
    args.push(String::from_str("anonymous"));
    let mut k: usize = 0;
    while k < ids.len()
        invariant
            0 <= k <= ids@.len(),
            sv(args@).push("+quit"@) == download_args_of(install@, sv(ids@).take(k as int)),
        decreases ids@.len() - k,
    {
        let ghost o = sv(args@);
        args.push(String::from_str("+workshop_download_item"));
        args.push(String::from_str("294100"));
        args.push(ids[k].clone());
        proof {
            assert(sv(ids@).take(k + 1).drop_last() == sv(ids@).take(k as int));
            assert(sv(ids@).take(k + 1).last() == ids@[k as int]@);
            let r = download_args_of(install@, sv(ids@).take(k as int));
            assert(r.take(r.len() - 1) == o);
            assert(sv(args@).push("+quit"@) =~= o + seq!["+workshop_download_item"@, "294100"@, ids@[k as int]@, "+quit"@]);
        }
        k += 1;
    }
    args.push(String::from_str("+quit"));
    proof {
        assert(sv(ids@).take(ids@.len() as int) == sv(ids@));
    }
    args
}

/// A SteamCMD output line that settles one item: a download or an error.
pub open spec fn settles_item(line: Seq<char>) -> bool {
    infix(line, "Downloaded item"@) || has_prefix(line, "ERROR!"@)
}

/// Whether an output line settles one item (see `settles_item`).
pub fn counts_item(line: &str) -> (r: bool)
    ensures
        r == settles_item(line@),
{
    let v = chars_of(line);
    let a = chars_of("Downloaded item");
    let b = chars_of("ERROR!");
    proof {
        assert(v@.subrange(0, v@.len() as int) == v@);
    }
    crate::text::has_infix(v.as_slice(), a.as_slice()) || crate::text::starts_at(v.as_slice(), 0, b.as_slice())
}

/// The items settled so far, shown as progress: never more than there are.
pub fn progress_done(done: u32, n: usize) -> (r: u32)
    ensures
        r as int == if done as int <= n { done as int } else { n as int },
{
    if (done as usize) <= n {
        done
    } else {
        n as u32
    }
}

/// The first 80 characters of a line, for the progress message.
pub fn clip_line(line: &str) -> (r: String)
    ensures
        r@ == line@.take(if line@.len() < 80 { line@.len() as int } else { 80 }),
{
    let v = chars_of(line);
    let n: usize = if v.len() < 80 { v.len() } else { 80 };
    proof {
        assert(v@.subrange(0, n as int) == v@.take(n as int));
    }
    crate::text::string_of_range(v.as_slice(), 0, n)
}

} // verus!
