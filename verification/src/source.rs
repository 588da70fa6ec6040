//! Source directory filtering and output path construction: which
//! walked entries count as source files, and where a rendered page is
//! written.

use crate::model::{lit, DirEntry};
use crate::text::basename_of;
use vstd::prelude::*;

verus! {

/// The path and directory flag of each entry.
pub open spec fn entries_view(es: Seq<DirEntry>) -> Seq<(Seq<char>, bool)> {
    es.map_values(|e: DirEntry| (e.path@, e.is_dir))
}

/// Whether a walked entry belongs in a source list: directories are
/// rejected, so are entries whose basename starts with `.`, and — for
/// the include list — the reserved file `vars.txt`.
pub open spec fn keep_entry(e: (Seq<char>, bool), exclude_vars: bool) -> bool {
    let b = basename_of(e.0);
    &&& !e.1
    &&& !(b.len() > 0 && b[0] == '.')
    &&& !(exclude_vars && b == "vars.txt"@)
}

/// The kept entries, in walk order.
pub open spec fn filtered_entries(es: Seq<(Seq<char>, bool)>, exclude_vars: bool) -> Seq<
    (Seq<char>, bool),
>
    decreases es.len(),
{
    if es.len() == 0 {
        seq![]
    } else {
        let rest = filtered_entries(es.drop_last(), exclude_vars);
        if keep_entry(es.last(), exclude_vars) {
            rest.push(es.last())
        } else {
            rest
        }
    }
}

/// Every entry of a filtered list passes the filter: no directory, no
/// hidden basename, and no `vars.txt` where it is excluded.
pub proof fn lemma_filter_complete(es: Seq<(Seq<char>, bool)>, exclude_vars: bool)
    ensures
        forall|i: int|
            0 <= i < filtered_entries(es, exclude_vars).len() ==> keep_entry(
                #[trigger] filtered_entries(es, exclude_vars)[i],
                exclude_vars,
            ),
    decreases es.len(),
{
    if es.len() > 0 {
        lemma_filter_complete(es.drop_last(), exclude_vars);
        let rest = filtered_entries(es.drop_last(), exclude_vars);
        let whole = filtered_entries(es, exclude_vars);
        assert forall|i: int| 0 <= i < whole.len() implies keep_entry(
            whole[i],
            exclude_vars,
        ) by {
            if keep_entry(es.last(), exclude_vars) {
                if i < rest.len() {
                    assert(whole[i] == rest[i]);
                } else {
                    assert(whole[i] == es.last());
                }
            } else {
                assert(whole[i] == rest[i]);
            }
        }
    }
}

/// Filter a walked directory listing down to its source files.
pub fn filter_source_entries(entries: &Vec<DirEntry>, exclude_vars: bool) -> (r: Vec<DirEntry>)
    ensures
        entries_view(r@) == filtered_entries(entries_view(entries@), exclude_vars),
        forall|i: int|
            0 <= i < r@.len() ==> keep_entry((#[trigger] r@[i].path@, r@[i].is_dir), exclude_vars),
{
    let reserved = lit("vars.txt");
    let mut r: Vec<DirEntry> = Vec::new();
    let mut i: usize = 0;
    proof {
        assert(entries_view(r@) =~= filtered_entries(entries_view(entries@).take(0), exclude_vars));
    }
    while i < entries.len()
        invariant
            0 <= i <= entries@.len(),
            reserved@ == "vars.txt"@,
            entries_view(entries@).len() == entries@.len(),
            entries_view(r@) == filtered_entries(
                entries_view(entries@).take(i as int),
                exclude_vars,
            ),
        decreases entries.len() - i,
    {
        let e = &entries[i];
        let b = crate::text::basename(&e.path);
        let mut keep = !e.is_dir;
        if keep && b.len() > 0 {
            if b[0] == '.' {
                keep = false;
            }
        }
        if keep && exclude_vars {
            if crate::text::chars_eq(&b, &reserved) {
                keep = false;
            }
        }
        let ghost ev = entries_view(entries@)[i as int];
        assert(keep == keep_entry(ev, exclude_vars));
        if keep {
            let ghost prev = entries_view(r@);
            let path = crate::text::copy_text(&e.path);
            r.push(DirEntry { path, is_dir: e.is_dir });
            proof {
                assert(entries_view(r@) =~= prev.push(ev));
            }
        }
        proof {
            let evs = entries_view(entries@);
            assert(evs.take(i + 1).drop_last() =~= evs.take(i as int));
            assert(evs.take(i + 1).last() == evs[i as int]);
        }
        i = i + 1;
    }
    proof {
        let evs = entries_view(entries@);
        assert(evs.take(evs.len() as int) =~= evs);
        lemma_filter_complete(evs, exclude_vars);
        assert forall|j: int| 0 <= j < r@.len() implies keep_entry(
            (r@[j].path@, r@[j].is_dir),
            exclude_vars,
        ) by {
            assert(entries_view(r@)[j] == (r@[j].path@, r@[j].is_dir));
        }
    }
    r
}

/// The path a rendered page is written to: the site root, `/output/`,
/// then the page's declared relative path.
pub open spec fn output_path_of(root: Seq<char>, rel: Seq<char>) -> Seq<char> {
    root + "/output/"@ + rel
}

/// Build the output path for a page's declared relative path.
pub fn output_path(root: &Vec<char>, rel: &Vec<char>) -> (r: Vec<char>)
    ensures
        r@ == output_path_of(root@, rel@),
{
    let mid = lit("/output/");
    crate::text::concat3(root, &mid, rel)
}

} // verus!
