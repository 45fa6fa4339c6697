//! The decision-making parts of one backup run: the argument list handed
//! to the external sync tool, and the cleanup computation that turns a
//! directory listing into the list of snapshot names to delete.
use vstd::prelude::*;

verus! {

use crate::loc::{Loc, loc_path, loc_wf, joined};
use crate::retention::{
    Entry, select_for_removal, sorted_perm_of, split_idx, thin,
};
use crate::snapstamp::{parse_snapshot_ts, parse_ts_of};

/// The directory names of a removal list, in order.
pub open spec fn names_of(s: Seq<Entry>) -> Seq<String> {
    s.map_values(|e: Entry| e.name)
}

/// The retention entries a directory listing yields: each name that parses
/// as a snapshot identifier, paired with its timestamp; other names are
/// invisible to retention.
pub open spec fn parsed_entries(names: Seq<String>) -> Seq<Entry>
    decreases names.len(),
{
    if names.len() == 0 {
        Seq::empty()
    } else {
        let rest = parsed_entries(names.drop_last());
        match parse_ts_of(names.last()@) {
            Option::Some(t) => rest.push(Entry { name: names.last(), ts: t }),
            Option::None => rest,
        }
    }
}

/// Every entry the listing yields carries the timestamp its own name
/// parses to.
pub proof fn lemma_parsed_entries_wf(names: Seq<String>, e: Entry)
    requires
        parsed_entries(names).contains(e),
    ensures
        parse_ts_of(e.name@) == Option::Some(e.ts),
    decreases names.len(),
{
    if names.len() == 0 {
    } else {
        let rest = parsed_entries(names.drop_last());
        match parse_ts_of(names.last()@) {
            Option::Some(t) => {
                if e == (Entry { name: names.last(), ts: t }) {
                } else {
                    let w = choose|w: int|
                        0 <= w < parsed_entries(names).len() && parsed_entries(names)[w] == e;
                    assert(rest[w] == e);
                    lemma_parsed_entries_wf(names.drop_last(), e);
                }
            },
            Option::None => {
                lemma_parsed_entries_wf(names.drop_last(), e);
            },
        }
    }
}

/// Turn a directory listing into the names retention deletes: parse the
/// names, keep the parseable ones, and thin them against the reference
/// time `now`. Every returned name parses to a timestamp strictly below
/// `now`, so the snapshot a run promotes under `now`'s own name is never
/// in the list.
pub fn remove_list(list: Vec<String>, now: i64) -> (res: Vec<String>)
    ensures
        exists|s: Seq<Entry>|
            #[trigger] sorted_perm_of(s, parsed_entries(list@))
            && res@ == names_of(
                thin(s.subrange(0, split_idx(s, now as int)), now as int, 1, 0),
            ),
        forall|j: int| 0 <= j < res@.len()
            ==> (#[trigger] parse_ts_of(res@[j]@) matches Option::Some(t) && t < now),
{
    broadcast use vstd::seq_lib::group_to_multiset_ensures;

    let mut entries: Vec<Entry> = Vec::new();
    let mut idx: usize = 0;
    while idx < list.len()
        invariant
            idx <= list.len(),
            entries@ == parsed_entries(list@.subrange(0, idx as int)),
        decreases list.len() - idx,
    {
        let name = list[idx].clone();
        let t_opt = parse_snapshot_ts(name.as_str());
        let ghost prefix = list@.subrange(0, idx as int + 1);
        proof {
            assert(prefix.drop_last() =~= list@.subrange(0, idx as int));
            assert(prefix.last() == list@[idx as int]);
        }
        match t_opt {
            Option::Some(t) => {
                entries.push(Entry { name, ts: t });
            },
            Option::None => {},
        }
        idx = idx + 1;
    }
    proof {
        assert(list@.subrange(0, list@.len() as int) =~= list@);
    }
    let ghost parsed = parsed_entries(list@);
    let removed = select_for_removal(entries, now);
    let ghost s = choose|s: Seq<Entry>|
        #[trigger] sorted_perm_of(s, parsed)
        && removed@ == thin(s.subrange(0, split_idx(s, now as int)), now as int, 1, 0);

    let mut res: Vec<String> = Vec::new();
    let mut j: usize = 0;
    while j < removed.len()
        invariant
            j <= removed.len(),
            res@.len() == j,
            forall|k: int| 0 <= k < j ==> res@[k] == removed@[k].name,
        decreases removed.len() - j,
    {
        res.push(removed[j].name.clone());
        j = j + 1;
    }
    proof {
        assert(res@ =~= names_of(removed@));
        assert forall|w: int| 0 <= w < res@.len()
            implies (#[trigger] parse_ts_of(res@[w]@) matches Option::Some(t) && t < now) by {
            assert(res@[w] == removed@[w].name);
            assert(parsed.to_multiset().contains(removed@[w]));
            parsed.to_multiset_ensures();
            assert(parsed.contains(removed@[w]));
            lemma_parsed_entries_wf(list@, removed@[w]);
        }
        assert(exists|s2: Seq<Entry>|
            #[trigger] sorted_perm_of(s2, parsed_entries(list@))
            && res@ == names_of(
                thin(s2.subrange(0, split_idx(s2, now as int)), now as int, 1, 0),
            )) by {
            assert(sorted_perm_of(s, parsed_entries(list@))
                && res@ == names_of(
                    thin(s.subrange(0, split_idx(s, now as int)), now as int, 1, 0),
                ));
        }
    }
    res
}

/// The argument list for the external sync tool: source, staging
/// destination, the incremental hard-link base, the fixed transfer flags,
/// the two conventional ignore-file filters (the destination-local
/// `.rsync-filter` override merged per directory, and the standard
/// `.rsyncignore` file excluded on the sending side only, so copies
/// already at the destination are not deleted), the optional
/// single-filesystem restriction, and the caller's extra arguments, in
/// that order.
pub fn rsync_args(
    src: &Loc,
    dst: &Loc,
    one_file_system: bool,
    extra_args: &Vec<String>,
) -> (args: Vec<String>)
    requires
        loc_wf(*dst),
    ensures
        args@.len() == 8 + (if one_file_system { 1int } else { 0int }) + extra_args@.len(),
        args@[0]@ == loc_path(*src),
        args@[1]@ == joined(loc_path(*dst), "current"@),
        args@[2]@ == "--link-dest=../last"@,
        args@[3]@ == "--archive"@,
        args@[4]@ == "--compress"@,
        args@[5]@ == "--delete-excluded"@,
        args@[6]@ == "--filter=dir-merge /.rsync-filter"@,
        args@[7]@ == "--filter=-s .rsyncignore"@,
        one_file_system ==> args@[8]@ == "--one-file-system"@,
        forall|k: int| 0 <= k < extra_args@.len()
            ==> args@[8 + (if one_file_system { 1int } else { 0int }) + k] == extra_args@[k],
{
    let mut args: Vec<String> = Vec::new();
    args.push(String::from_str(src.as_str()));
    let staging = dst.join("current");
    args.push(String::from_str(staging.as_str()));
    args.push(String::from_str("--link-dest=../last"));
    args.push(String::from_str("--archive"));
    args.push(String::from_str("--compress"));
    args.push(String::from_str("--delete-excluded"));
    args.push(String::from_str("--filter=dir-merge /.rsync-filter"));
    args.push(String::from_str("--filter=-s .rsyncignore"));
    if one_file_system {
        args.push(String::from_str("--one-file-system"));
    }
    let ghost base = args@.len() as int;
    let mut k: usize = 0;
    while k < extra_args.len()
        invariant
            k <= extra_args.len(),
            args@.len() == base + k,
            base == 8 + (if one_file_system { 1int } else { 0int }),
            forall|w: int| 0 <= w < k ==> args@[base + w] == extra_args@[w],
            args@[0]@ == loc_path(*src),
            args@[1]@ == joined(loc_path(*dst), "current"@),
            args@[2]@ == "--link-dest=../last"@,
            args@[3]@ == "--archive"@,
            args@[4]@ == "--compress"@,
            args@[5]@ == "--delete-excluded"@,
            args@[6]@ == "--filter=dir-merge /.rsync-filter"@,
            args@[7]@ == "--filter=-s .rsyncignore"@,
            one_file_system ==> args@[8]@ == "--one-file-system"@,
        decreases extra_args.len() - k,
    {
        args.push(extra_args[k].clone());
        k = k + 1;
    }
    args
}

} // verus!
