use vstd::prelude::*;

use crate::classify::{category_for_extension, classify_spec};
use crate::config::{CategoryView, Config};
use crate::log::spec_log_file_name;
use crate::log::log_file_name;
use crate::paths::{ext_of, extension_of, numbered_candidate, str_views, unique_path};

verus! {

// The organizer works on a snapshot: the immediate entries of the
// directory and the set of paths currently occupied. From those it plans
// every move of one run; performing the moves, creating the category
// directories and persisting the log are the caller's part.

/// One immediate directory entry of the snapshot.
pub struct FileEntry {
    pub name: String,
    pub is_file: bool,
}

/// Mathematical model of a `FileEntry`.
#[verifier::ext_equal]
pub struct FileEntryView {
    pub name: Seq<char>,
    pub is_file: bool,
}

impl View for FileEntry {
    type V = FileEntryView;

    open spec fn view(&self) -> FileEntryView {
        FileEntryView { name: self.name@, is_file: self.is_file }
    }
}

/// One move the organizer intends to perform.
pub struct PlannedMove {
    pub from: String,
    pub to: String,
}

/// Mathematical model of a `PlannedMove`.
#[verifier::ext_equal]
pub struct PlannedMoveView {
    pub from: Seq<char>,
    pub to: Seq<char>,
}

impl View for PlannedMove {
    type V = PlannedMoveView;

    open spec fn view(&self) -> PlannedMoveView {
        PlannedMoveView { from: self.from@, to: self.to@ }
    }
}

pub open spec fn entry_views(entries: Seq<FileEntry>) -> Seq<FileEntryView> {
    entries.map_values(|e: FileEntry| e@)
}

pub open spec fn move_views(plan: Seq<PlannedMove>) -> Seq<PlannedMoveView> {
    plan.map_values(|m: PlannedMove| m@)
}

pub open spec fn to_views(plan: Seq<PlannedMoveView>) -> Seq<Seq<char>> {
    plan.map_values(|m: PlannedMoveView| m.to)
}

/// An entry is organized when it is a regular file and not the log file.
pub open spec fn eligible(e: FileEntryView) -> bool {
    e.is_file && e.name != spec_log_file_name()
}

/// How many of the first `k` entries are eligible.
pub open spec fn eligible_count(evs: Seq<FileEntryView>, k: int) -> int
    decreases k,
{
    if k <= 0 {
        0
    } else {
        eligible_count(evs, k - 1) + if eligible(evs[k - 1]) {
            1int
        } else {
            0int
        }
    }
}

proof fn lemma_eligible_count_le(evs: Seq<FileEntryView>, k: int)
    ensures
        0 <= eligible_count(evs, k) <= if k <= 0 {
            0int
        } else {
            k
        },
    decreases k,
{
    if k > 0 {
        lemma_eligible_count_le(evs, k - 1);
    }
}

pub open spec fn joined(dir: Seq<char>, name: Seq<char>) -> Seq<char> {
    dir + seq!['/'] + name
}

/// The unresolved destination of an entry: the category subdirectory of
/// `dir` named by classification, then the file's own name.
pub open spec fn dest_candidate(dir: Seq<char>, name: Seq<char>, cats: Seq<CategoryView>) -> Seq<
    char,
> {
    joined(joined(dir, classify_spec(ext_of(name), cats)), name)
}

/// Collision-free resolution of a candidate against occupied paths: the
/// candidate itself when free, else its first free numbered form.
pub open spec fn resolved_to(cand: Seq<char>, occ: Seq<Seq<char>>, to: Seq<char>) -> bool {
    if !occ.contains(cand) {
        to == cand
    } else {
        exists|i: nat|
            1 <= i && to == numbered_candidate(cand, i) && !occ.contains(to) && (forall|j: nat|
                1 <= j < i ==> occ.contains(numbered_candidate(cand, j)))
    }
}

/// What one planned move must be, given the paths occupied before it.
pub open spec fn move_matches(
    dir: Seq<char>,
    e: FileEntryView,
    cats: Seq<CategoryView>,
    force: bool,
    occ: Seq<Seq<char>>,
    m: PlannedMoveView,
) -> bool {
    &&& m.from == joined(dir, e.name)
    &&& if force {
        m.to == dest_candidate(dir, e.name, cats)
    } else {
        resolved_to(dest_candidate(dir, e.name, cats), occ, m.to)
    }
}

/// The whole contract of a planned run: one move per eligible entry, in
/// entry order, each resolved against the snapshot plus every earlier
/// planned destination; and, outside force mode, no destination is an
/// occupied path or another planned destination.
pub open spec fn plan_ok(
    dir: Seq<char>,
    evs: Seq<FileEntryView>,
    cats: Seq<CategoryView>,
    force: bool,
    ex: Seq<Seq<char>>,
    plan: Seq<PlannedMoveView>,
) -> bool {
    &&& plan.len() == eligible_count(evs, evs.len() as int)
    &&& (forall|k: int|
        0 <= k < evs.len() && eligible(evs[k]) ==> move_matches(
            dir,
            evs[k],
            cats,
            force,
            ex + to_views(plan.take(eligible_count(evs, k))),
            plan[eligible_count(evs, k)],
        ))
    &&& (!force ==> (forall|a: int| 0 <= a < plan.len() ==> !ex.contains(plan[a].to)))
    &&& (!force ==> (forall|a: int, b: int|
        0 <= a < b < plan.len() ==> plan[a].to != plan[b].to))
}

fn join_path(dir: &str, name: &str) -> (r: String)
    ensures
        r@ == joined(dir@, name@),
{
    let mut out = String::new();
    out.append(dir);
    out.append("/");
    out.append(name);
    proof {
        reveal_strlit("/");
        assert("/"@ =~= seq!['/']);
        assert(out@ =~= joined(dir@, name@));
    }
    out
}

fn clone_paths(v: &Vec<String>) -> (r: Vec<String>)
    ensures
        r@ == v@,
{
    let mut r: Vec<String> = Vec::new();
    let mut i: usize = 0;
    while i < v.len()
        invariant
            i <= v.len(),
            r@ == v@.take(i as int),
        decreases v.len() - i,
    {
        r.push(v[i].clone());
        proof {
            assert(r@ =~= v@.take(i as int + 1));
        }
        i += 1;
    }
    proof {
        assert(v@.take(v@.len() as int) =~= v@);
    }
    r
}

/// Plans one organize run over a snapshot: the directory's immediate
/// entries, the mapping, and the paths currently occupied. Subdirectories
/// and the log file are left alone; every other entry is classified and
/// given a collision-free destination unless `force` reuses the bare
/// candidate.
pub fn plan_moves(
    dir: &str,
    entries: &Vec<FileEntry>,
    config: &Config,
    force: bool,
    existing: &Vec<String>,
) -> (plan: Vec<PlannedMove>)
    requires
        existing@.len() + entries@.len() < usize::MAX - 1,
    ensures
        plan_ok(dir@, entry_views(entries@), config@, force, str_views(existing@), move_views(plan@)),
{
    let ghost evs = entry_views(entries@);
    let ghost ex = str_views(existing@);
    let logname = String::from_str(log_file_name());
    let mut occ = clone_paths(existing);
    let mut plan: Vec<PlannedMove> = Vec::new();
    let n = entries.len();
    let mut idx: usize = 0;
    proof {
        assert(move_views(plan@).take(0) =~= Seq::<PlannedMoveView>::empty());
        assert(str_views(occ@) =~= ex + to_views(move_views(plan@)));
    }
    while idx < n
        invariant
            n == entries@.len(),
            evs == entry_views(entries@),
            ex == str_views(existing@),
            existing@.len() + n < usize::MAX - 1,
            logname@ == spec_log_file_name(),
            idx <= n,
            move_views(plan@).len() == eligible_count(evs, idx as int),
            0 <= eligible_count(evs, idx as int) <= idx,
            occ@.len() == existing@.len() + plan@.len(),
            str_views(occ@) == ex + to_views(move_views(plan@)),
            forall|k: int|
                0 <= k < idx && eligible(evs[k]) ==> move_matches(
                    dir@,
                    evs[k],
                    config@,
                    force,
                    ex + to_views(move_views(plan@).take(eligible_count(evs, k))),
                    move_views(plan@)[eligible_count(evs, k)],
                ),
            !force ==> (forall|a: int|
                0 <= a < plan@.len() ==> !ex.contains(move_views(plan@)[a].to)),
            !force ==> (forall|a: int, b: int|
                0 <= a < b < plan@.len() ==> move_views(plan@)[a].to != move_views(plan@)[b].to),
        decreases n - idx,
    {
        proof {
            assert(evs[idx as int] == entries@[idx as int]@);
            lemma_eligible_count_le(evs, idx as int);
        }
        let is_log = entries[idx].name == logname;
        if entries[idx].is_file && !is_log {
            let ghost plan0 = move_views(plan@);
            let ghost c0 = eligible_count(evs, idx as int);
            let ext = extension_of(entries[idx].name.as_str());
            let cat = category_for_extension(ext.as_str(), config);
            let target = join_path(dir, cat.as_str());
            let cand = join_path(target.as_str(), entries[idx].name.as_str());
            let ghost candv = cand@;
            proof {
                assert(candv == dest_candidate(dir@, evs[idx as int].name, config@));
            }
            let to: String = if force {
                cand
            } else {
                unique_path(cand.as_str(), &occ)
            };
            let from = join_path(dir, entries[idx].name.as_str());
            let ghost occ0 = occ@;
            let ghost m = PlannedMoveView { from: from@, to: to@ };
            proof {
                if !force {
                    assert(resolved_to(candv, str_views(occ0), m.to));
                }
                assert(move_matches(dir@, evs[idx as int], config@, force, str_views(occ0), m));
            }
            occ.push(to.clone());
            plan.push(PlannedMove { from, to });
            proof {
                assert(occ@ =~= occ0.push(occ@.last()));
                assert(move_views(plan@) =~= plan0.push(m));
                assert(str_views(occ@) =~= str_views(occ0).push(m.to));
                assert(to_views(move_views(plan@)) =~= to_views(plan0).push(m.to));
                assert(str_views(occ@) =~= ex + to_views(move_views(plan@)));
                assert(eligible_count(evs, idx as int + 1) == c0 + 1);
                assert(plan0.take(plan0.len() as int) =~= plan0);
                assert(move_views(plan@).take(c0) =~= plan0);
                assert(move_views(plan@)[c0] == m);
                // Earlier entries keep their prefix of planned destinations.
                assert forall|k: int| 0 <= k < idx && eligible(evs[k]) implies move_matches(
                    dir@,
                    evs[k],
                    config@,
                    force,
                    ex + to_views(move_views(plan@).take(eligible_count(evs, k))),
                    move_views(plan@)[eligible_count(evs, k)],
                ) by {
                    lemma_eligible_count_le(evs, k);
                    lemma_eligible_count_mono(evs, k + 1, idx as int);
                    assert(eligible_count(evs, k) < eligible_count(evs, idx as int));
                    assert(move_views(plan@).take(eligible_count(evs, k)) =~= plan0.take(
                        eligible_count(evs, k),
                    ));
                    assert(move_views(plan@)[eligible_count(evs, k)] == plan0[eligible_count(
                        evs,
                        k,
                    )]);
                }
                if !force {
                    // The new destination is free of the snapshot and of
                    // every earlier planned destination.
                    assert(!str_views(occ0).contains(m.to));
                    assert(!ex.contains(m.to)) by {
                        if ex.contains(m.to) {
                            let w = choose|w: int| 0 <= w < ex.len() && ex[w] == m.to;
                            assert(str_views(occ0)[w] == m.to);
                        }
                    }
                    assert forall|a: int| 0 <= a < plan0.len() implies plan0[a].to != m.to by {
                        assert(str_views(occ0)[ex.len() + a] == to_views(plan0)[a]);
                    }
                }
            }
        } else {
            proof {
                assert(!eligible(evs[idx as int]));
                assert(eligible_count(evs, idx as int + 1) == eligible_count(evs, idx as int));
            }
        }
        idx += 1;
    }
    plan
}

proof fn lemma_eligible_count_mono(evs: Seq<FileEntryView>, k1: int, k2: int)
    requires
        k1 <= k2,
    ensures
        eligible_count(evs, k1) <= eligible_count(evs, k2),
    decreases k2 - k1,
{
    if k1 < k2 {
        lemma_eligible_count_mono(evs, k1, k2 - 1);
    }
}

/// The outcome of one organize run over a snapshot: the planned moves,
/// whether to perform them, and whether to persist the log afterwards.
pub struct OrganizeOutcome {
    pub moves: Vec<PlannedMove>,
    pub perform: bool,
    pub save_log: bool,
}

/// Plans one organize run. Under dry-run the moves are only reported:
/// nothing is to be performed and the log is not to be touched. Otherwise
/// every planned move is to be performed, and the log persisted exactly
/// when something was moved.
pub fn organize_plan(
    dir: &str,
    entries: &Vec<FileEntry>,
    config: &Config,
    dry_run: bool,
    force: bool,
    existing: &Vec<String>,
) -> (o: OrganizeOutcome)
    requires
        existing@.len() + entries@.len() < usize::MAX - 1,
    ensures
        plan_ok(
            dir@,
            entry_views(entries@),
            config@,
            force,
            str_views(existing@),
            move_views(o.moves@),
        ),
        o.perform == !dry_run,
        o.save_log == (!dry_run && o.moves@.len() > 0),
{
    let moves = plan_moves(dir, entries, config, force, existing);
    let any = moves.len() > 0;
    OrganizeOutcome { moves, perform: !dry_run, save_log: !dry_run && any }
}

} // verus!
