use crate::db_deal::{
    clone_paths, contains_path, copy_with_apply, flagged, has_mod, is_name_taken, name_taken,
    lemma_flagged_keeps_wf, lemma_push_contains, lemma_without_mod, update_mod_to_db, with_apply,
    without_mod, Catalog,
};
use crate::file_deal::{
    add_mod_file, all_under, files_among, get_mod_from_dir, staged, DirItem, FileCopy,
};
use crate::entry::{mod_views, path_views, GamePath, ModInfo, ModView};
use crate::error::ModError;
use crate::paths::{archive_of, archive_path, base_name_of, mapped, target_of, target_path};
use vstd::string::*;
use vstd::prelude::*;

verus! {

/// What applying one file of an overlay asks of the file system: where a stock file
/// has to be preserved, copy `target` to `archive` first; then copy `source` to `target`.
#[derive(Debug)]
pub struct ApplyStep {
    pub source: String,
    pub target: String,
    pub archive: Option<String>,
}

/// What retracting one file of an overlay asks of the file system: delete `target`;
/// then, where a stock file is owed, copy `restore` to `target`.
#[derive(Debug)]
pub struct RetractStep {
    pub target: String,
    pub restore: Option<String>,
}

/// The files of an overlay; none where it has no list.
pub open spec fn files_in(m: ModView) -> Seq<Seq<char>> {
    match m.path {
        Some(files) => files,
        None => Seq::empty(),
    }
}

/// Every file lies under the managed directory of the overlay `name`.
pub open spec fn all_mapped(files: Seq<Seq<char>>, name: Seq<char>) -> bool {
    forall|i: int| 0 <= i < files.len() ==> mapped(#[trigger] files[i], name)
}

/// Where the files are projected to, in order.
pub open spec fn targets(files: Seq<Seq<char>>, name: Seq<char>, root: Seq<char>) -> Seq<
    Seq<char>,
> {
    Seq::new(files.len(), |i: int| target_of(files[i], name, root))
}

/// Whether applying file `i` preserves the stock file at its target: a file is there,
/// no stock file of it is preserved yet, and no earlier file has the same target.
pub open spec fn archives_at(
    tg: Seq<Seq<char>>,
    backed: Set<Seq<char>>,
    existing: Set<Seq<char>>,
    i: int,
) -> bool {
    existing.contains(tg[i]) && !backed.contains(tg[i]) && !tg.take(i).contains(tg[i])
}

/// Whether retracting file `i` restores the stock file at its target: one is preserved,
/// and no earlier file has the same target.
pub open spec fn restores_at(tg: Seq<Seq<char>>, backed: Set<Seq<char>>, i: int) -> bool {
    backed.contains(tg[i]) && !tg.take(i).contains(tg[i])
}

/// The preserved paths after an overlay with these targets was applied.
pub open spec fn applied_set(
    backed: Set<Seq<char>>,
    tg: Set<Seq<char>>,
    existing: Set<Seq<char>>,
) -> Set<Seq<char>> {
    backed.union(tg.intersect(existing))
}

/// The preserved paths after an overlay with these targets was retracted.
pub open spec fn retracted_set(backed: Set<Seq<char>>, tg: Set<Seq<char>>) -> Set<Seq<char>> {
    backed.difference(tg)
}

/// The step for file `i` of an application.
pub open spec fn is_apply_step(
    step: ApplyStep,
    files: Seq<Seq<char>>,
    name: Seq<char>,
    root: Seq<char>,
    backed: Set<Seq<char>>,
    existing: Set<Seq<char>>,
    i: int,
) -> bool {
    &&& step.source@ == files[i]
    &&& step.target@ == target_of(files[i], name, root)
    &&& step.archive is Some <==> archives_at(targets(files, name, root), backed, existing, i)
    &&& step.archive is Some ==> step.archive.unwrap()@ == archive_of(files[i], name)
}

/// The step for file `i` of a retraction.
pub open spec fn is_retract_step(
    step: RetractStep,
    files: Seq<Seq<char>>,
    name: Seq<char>,
    root: Seq<char>,
    backed: Set<Seq<char>>,
    i: int,
) -> bool {
    &&& step.target@ == target_of(files[i], name, root)
    &&& step.restore is Some <==> restores_at(targets(files, name, root), backed, i)
    &&& step.restore is Some ==> step.restore.unwrap()@ == archive_of(files[i], name)
}

/// The configured installation root.
pub fn get_game_path(game_path: &GamePath) -> (out: Result<String, ModError>)
    ensures
        out is Ok <==> game_path.0 is Some,
        out is Ok ==> out.unwrap()@ == game_path.0.unwrap()@,
        out is Err ==> out.unwrap_err() == ModError::InstallRootUnset,
{
    match &game_path.0 {
        Some(p) => Ok(p.clone()),
        None => Err(ModError::InstallRootUnset),
    }
}

/// The JSON text of a string.
pub uninterp spec fn json_of_string(value: Seq<char>) -> Seq<char>;

/// The string that a JSON text stands for, where it stands for one.
pub uninterp spec fn string_of_json(text: Seq<char>) -> Option<Seq<char>>;

/// Calls `serde_json::to_string` on a string. The result is the JSON text of the
/// string, which depends on the string alone. The call reports no error: a string is
/// written as one JSON string into a byte vector, and writing into a vector does not
/// fail.
#[verifier::external_body]
fn encode_setting(value: &String) -> (out: Option<String>)
    ensures
        out is Some,
        out.unwrap()@ == json_of_string(value@),
{
    serde_json::to_string(value).ok()
}

/// Calls `serde_json::from_str` for a `String`. The result is the string that the text
/// stands for, or nothing where the call reports an error; it depends on the text alone.
#[verifier::external_body]
fn decode_setting(text: &str) -> (out: Option<String>)
    ensures
        out is Some <==> string_of_json(text@) is Some,
        out is Some ==> out.unwrap()@ == string_of_json(text@).unwrap(),
{
    serde_json::from_str::<String>(text).ok()
}

/// The settings text to store, or the failure to report where there is none.
pub fn settings_text(encoded: Option<String>) -> (out: Result<String, ModError>)
    ensures
        out is Ok <==> encoded is Some,
        out is Ok ==> out.unwrap() == encoded.unwrap(),
        out is Err ==> out.unwrap_err() == (ModError::IOFailure { processed: 0 }),
{
    match encoded {
        Some(text) => Ok(text),
        None => Err(ModError::IOFailure { processed: 0 }),
    }
}

/// Configures the installation root, and gives the settings text that the caller
/// stores: the root as JSON.
pub fn set_game_path(path: String, game_path: &mut GamePath) -> (out: Result<String, ModError>)
    ensures
        final(game_path).0 is Some,
        final(game_path).0.unwrap()@ == path@,
        out is Ok,
        out.unwrap()@ == json_of_string(path@),
{
    let encoded = encode_setting(&path);
    game_path.0 = Some(path);
    settings_text(encoded)
}

/// The installation root that a stored settings text holds: the string that the text
/// stands for as JSON, and none where it stands for no string.
pub fn load_game_path(text: &str) -> (game_path: GamePath)
    ensures
        game_path.0 is Some <==> string_of_json(text@) is Some,
        game_path.0 is Some ==> game_path.0.unwrap()@ == string_of_json(text@).unwrap(),
{
    GamePath(decode_setting(text))
}

/// `paths` without `p`.
pub fn remove_path(paths: &Vec<String>, p: &String) -> (kept: Vec<String>)
    ensures
        forall|q: Seq<char>|
            path_views(kept@).contains(q) <==> path_views(paths@).contains(q) && q != p@,
        path_views(paths@).no_duplicates() ==> path_views(kept@).no_duplicates(),
{
    let mut kept: Vec<String> = Vec::new();
    let mut i: usize = 0;
    while i < paths.len()
        invariant
            i <= paths.len(),
            forall|q: Seq<char>|
                path_views(kept@).contains(q) <==> path_views(paths@).take(i as int).contains(q)
                    && q != p@,
            path_views(paths@).no_duplicates() ==> path_views(kept@).no_duplicates(),
        decreases paths.len() - i,
    {
        let ghost before = path_views(kept@);
        let ghost seen = path_views(paths@).take(i as int);
        let ghost item = paths@[i as int]@;
        proof {
            assert(path_views(paths@).take(i + 1) =~= seen.push(item));
            assert(path_views(paths@)[i as int] == item);
        }
        if paths[i] != *p {
            kept.push(paths[i].clone());
            proof {
                assert(path_views(kept@) =~= before.push(item));
                assert forall|q: Seq<char>|
                    path_views(kept@).contains(q) <==> seen.push(item).contains(q) && q != p@ by {
                    lemma_push_contains(before, item, q);
                    lemma_push_contains(seen, item, q);
                }
                if path_views(paths@).no_duplicates() {
                    if seen.contains(item) {
                        let k = choose|k: int| 0 <= k < seen.len() && seen[k] == item;
                        assert(path_views(paths@)[k] == item);
                    }
                    lemma_push_contains(before, item, item);
                }
            }
        } else {
            proof {
                assert forall|q: Seq<char>|
                    before.contains(q) <==> seen.push(item).contains(q) && q != p@ by {
                    lemma_push_contains(seen, item, q);
                }
            }
        }
        i = i + 1;
    }
    proof {
        assert(path_views(paths@).take(paths@.len() as int) =~= path_views(paths@));
    }
    kept
}

/// Applies an overlay: plans, file by file, what to preserve and what to copy, records
/// the newly preserved paths in the catalog and marks the overlay as applied.
/// `existing` names the installation paths at which a file stands now.
/// Nothing changes where the installation root is unset or a file lies outside the
/// overlay's managed directory.
pub fn use_the_mod(
    mod_info: &mut ModInfo,
    game_path: &GamePath,
    catalog: &mut Catalog,
    existing: &Vec<String>,
) -> (out: Result<Vec<ApplyStep>, ModError>)
    ensures
        out is Ok <==> game_path.0 is Some && all_mapped(
            files_in(old(mod_info)@),
            old(mod_info)@.name,
        ),
        out is Err ==> final(mod_info)@ == old(mod_info)@ && final(catalog)@ == old(catalog)@,
        out is Err ==> out.unwrap_err() == (if game_path.0 is None {
            ModError::InstallRootUnset
        } else {
            ModError::MappingError
        }),
        out is Ok ==> ({
            let files = files_in(old(mod_info)@);
            let name = old(mod_info)@.name;
            let root = game_path.0.unwrap()@;
            let backed = old(catalog)@.game_files;
            let steps = out.unwrap()@;
            &&& steps.len() == files.len()
            &&& forall|i: int|
                0 <= i < steps.len() ==> is_apply_step(
                    #[trigger] steps[i],
                    files,
                    name,
                    root,
                    backed.to_set(),
                    path_views(existing@).to_set(),
                    i,
                )
            &&& final(mod_info)@ == with_apply(old(mod_info)@, true)
            &&& final(catalog)@.mods == flagged(old(catalog)@.mods, name, true)
            &&& final(catalog)@.game_files.to_set() == applied_set(
                backed.to_set(),
                targets(files, name, root).to_set(),
                path_views(existing@).to_set(),
            )
            &&& backed.no_duplicates() ==> final(catalog)@.game_files.no_duplicates()
        }),
        old(catalog).wf() ==> final(catalog).wf(),
{
    let root: &String = match &game_path.0 {
        Some(r) => r,
        None => {
            return Err(ModError::InstallRootUnset);
        },
    };
    let ghost fv = files_in(mod_info@);
    let ghost name = mod_info@.name;
    let ghost tg = targets(fv, name, root@);
    let ghost m0 = *mod_info;
    let ghost c0 = *catalog;
    let ghost old_backed = catalog@.game_files;
    let ghost here = path_views(existing@);
    let mut backed = clone_paths(&catalog.game_files);
    let mut steps: Vec<ApplyStep> = Vec::new();
    match &mod_info.path {
        Some(files) => {
            let mut i: usize = 0;
            while i < files.len()
                invariant
                    i <= files.len(),
                    game_path.0 is Some,
                    *mod_info == m0,
                    *catalog == c0,
                    fv == files_in(m0@),
                    fv == path_views(files@),
                    name == mod_info.name@,
                    tg == targets(fv, name, root@),
                    here == path_views(existing@),
                    steps@.len() == i,
                    forall|k: int| 0 <= k < i ==> mapped(#[trigger] fv[k], name),
                    forall|k: int|
                        0 <= k < i ==> is_apply_step(
                            #[trigger] steps@[k],
                            fv,
                            name,
                            root@,
                            old_backed.to_set(),
                            here.to_set(),
                            k,
                        ),
                    forall|p: Seq<char>|
                        path_views(backed@).contains(p) <==> old_backed.contains(p) || (
                        here.contains(p) && tg.take(i as int).contains(p)),
                    old_backed.no_duplicates() ==> path_views(backed@).no_duplicates(),
                decreases files.len() - i,
            {
                let ghost before = path_views(backed@);
                let ghost seen = tg.take(i as int);
                proof {
                    assert(fv[i as int] == files@[i as int]@);
                    assert(tg.take(i + 1) =~= seen.push(tg[i as int]));
                }
                let target = match target_path(
                    files[i].as_str(),
                    mod_info.name.as_str(),
                    root.as_str(),
                ) {
                    Ok(t) => t,
                    Err(_) => {
                        return Err(ModError::MappingError);
                    },
                };
                let archive = if !contains_path(&backed, &target) && contains_path(
                    existing,
                    &target,
                ) {
                    match archive_path(files[i].as_str(), mod_info.name.as_str()) {
                        Ok(a) => {
                            backed.push(target.clone());
                            Some(a)
                        },
                        Err(_) => {
                            return Err(ModError::MappingError);
                        },
                    }
                } else {
                    None
                };
                proof {
                    let t = tg[i as int];
                    if archive is Some {
                        assert(path_views(backed@) =~= before.push(t));
                    }
                    assert forall|p: Seq<char>|
                        path_views(backed@).contains(p) <==> old_backed.contains(p) || (
                        here.contains(p) && seen.push(t).contains(p)) by {
                        lemma_push_contains(before, t, p);
                        lemma_push_contains(seen, t, p);
                    }
                    lemma_push_contains(before, t, t);
                }
                steps.push(ApplyStep { source: files[i].clone(), target, archive });
                i = i + 1;
            }
            proof {
                assert(tg.take(fv.len() as int) =~= tg);
            }
        },
        None => {
            proof {
                assert(tg.take(0) =~= tg);
            }
        },
    }
    proof {
        assert(path_views(backed@).to_set() =~= applied_set(
            old_backed.to_set(),
            tg.to_set(),
            here.to_set(),
        ));
    }
    catalog.game_files = backed;
    mod_info.apply = true;
    proof {
        lemma_flagged_keeps_wf(c0@.mods, name, true);
    }
    update_mod_to_db(catalog, mod_info);
    Ok(steps)
}

/// Retracts an overlay: plans, file by file, what to delete and what to restore, takes
/// the restored paths out of the catalog and marks the overlay as not applied.
/// Nothing changes where the installation root is unset or a file lies outside the
/// overlay's managed directory.
pub fn unuse_mod(mod_info: &mut ModInfo, game_path: &GamePath, catalog: &mut Catalog) -> (out:
    Result<Vec<RetractStep>, ModError>)
    ensures
        out is Ok <==> game_path.0 is Some && all_mapped(
            files_in(old(mod_info)@),
            old(mod_info)@.name,
        ),
        out is Err ==> final(mod_info)@ == old(mod_info)@ && final(catalog)@ == old(catalog)@,
        out is Err ==> out.unwrap_err() == (if game_path.0 is None {
            ModError::InstallRootUnset
        } else {
            ModError::MappingError
        }),
        out is Ok ==> ({
            let files = files_in(old(mod_info)@);
            let name = old(mod_info)@.name;
            let root = game_path.0.unwrap()@;
            let backed = old(catalog)@.game_files;
            let steps = out.unwrap()@;
            &&& steps.len() == files.len()
            &&& forall|i: int|
                0 <= i < steps.len() ==> is_retract_step(
                    #[trigger] steps[i],
                    files,
                    name,
                    root,
                    backed.to_set(),
                    i,
                )
            &&& final(mod_info)@ == with_apply(old(mod_info)@, false)
            &&& final(catalog)@.mods == flagged(old(catalog)@.mods, name, false)
            &&& final(catalog)@.game_files.to_set() == retracted_set(
                backed.to_set(),
                targets(files, name, root).to_set(),
            )
            &&& backed.no_duplicates() ==> final(catalog)@.game_files.no_duplicates()
        }),
        old(catalog).wf() ==> final(catalog).wf(),
{
    let root: &String = match &game_path.0 {
        Some(r) => r,
        None => {
            return Err(ModError::InstallRootUnset);
        },
    };
    let ghost fv = files_in(mod_info@);
    let ghost name = mod_info@.name;
    let ghost tg = targets(fv, name, root@);
    let ghost m0 = *mod_info;
    let ghost c0 = *catalog;
    let ghost old_backed = catalog@.game_files;
    let mut backed = clone_paths(&catalog.game_files);
    let mut steps: Vec<RetractStep> = Vec::new();
    match &mod_info.path {
        Some(files) => {
            let mut i: usize = 0;
            while i < files.len()
                invariant
                    i <= files.len(),
                    game_path.0 is Some,
                    *mod_info == m0,
                    *catalog == c0,
                    fv == files_in(m0@),
                    fv == path_views(files@),
                    name == mod_info.name@,
                    tg == targets(fv, name, root@),
                    steps@.len() == i,
                    forall|k: int| 0 <= k < i ==> mapped(#[trigger] fv[k], name),
                    forall|k: int|
                        0 <= k < i ==> is_retract_step(
                            #[trigger] steps@[k],
                            fv,
                            name,
                            root@,
                            old_backed.to_set(),
                            k,
                        ),
                    forall|p: Seq<char>|
                        #[trigger] path_views(backed@).contains(p) <==> old_backed.contains(p)
                            && !tg.take(i as int).contains(p),
                    old_backed.no_duplicates() ==> path_views(backed@).no_duplicates(),
                decreases files.len() - i,
            {
                let ghost seen = tg.take(i as int);
                proof {
                    assert(fv[i as int] == files@[i as int]@);
                    assert(tg.take(i + 1) =~= seen.push(tg[i as int]));
                }
                let target = match target_path(
                    files[i].as_str(),
                    mod_info.name.as_str(),
                    root.as_str(),
                ) {
                    Ok(t) => t,
                    Err(_) => {
                        return Err(ModError::MappingError);
                    },
                };
                let restore = if contains_path(&backed, &target) {
                    match archive_path(files[i].as_str(), mod_info.name.as_str()) {
                        Ok(a) => Some(a),
                        Err(_) => {
                            return Err(ModError::MappingError);
                        },
                    }
                } else {
                    None
                };
                let ghost before = path_views(backed@);
                backed = remove_path(&backed, &target);
                proof {
                    let t = tg[i as int];
                    assert(target@ == t);
                    assert(restore is Some <==> before.contains(t));
                    assert(before.contains(t) <==> old_backed.contains(t) && !seen.contains(t));
                    assert(old_backed.to_set().contains(t) <==> old_backed.contains(t));
                    assert forall|p: Seq<char>|
                        path_views(backed@).contains(p) <==> old_backed.contains(p) && !seen.push(
                            t,
                        ).contains(p) by {
                        lemma_push_contains(seen, t, p);
                    }
                }
                steps.push(RetractStep { target, restore });
                i = i + 1;
            }
            proof {
                assert(tg.take(fv.len() as int) =~= tg);
            }
        },
        None => {
            proof {
                assert(tg.take(0) =~= tg);
            }
        },
    }
    proof {
        assert forall|p: Seq<char>|
            path_views(backed@).to_set().contains(p) <==> retracted_set(
                old_backed.to_set(),
                tg.to_set(),
            ).contains(p) by {
            assert(tg.to_set().contains(p) <==> tg.contains(p));
            assert(old_backed.to_set().contains(p) <==> old_backed.contains(p));
        }
        assert(path_views(backed@).to_set() =~= retracted_set(old_backed.to_set(), tg.to_set()));
    }
    catalog.game_files = backed;
    mod_info.apply = false;
    proof {
        lemma_flagged_keeps_wf(c0@.mods, name, false);
    }
    update_mod_to_db(catalog, mod_info);
    Ok(steps)
}

/// The targets whose stock file the first `n` steps preserve.
pub open spec fn archived_before(steps: Seq<ApplyStep>, n: int) -> Set<Seq<char>> {
    Set::new(
        |p: Seq<char>|
            exists|k: int|
                0 <= k < n && k < steps.len() && (#[trigger] steps[k]).archive is Some
                    && steps[k].target@ == p,
    )
}

/// The targets of the first `n` steps.
pub open spec fn retracted_before(steps: Seq<RetractStep>, n: int) -> Set<Seq<char>> {
    Set::new(
        |p: Seq<char>| exists|k: int| 0 <= k < n && k < steps.len() && (#[trigger] steps[k]).target@ == p,
    )
}

/// Records an application that stopped after `processed` steps: the stock files that
/// those steps preserved join the preserved paths, no flag changes, and the failure to
/// report carries the number of steps that went through.
pub fn apply_progress(catalog: &mut Catalog, steps: &Vec<ApplyStep>, processed: usize) -> (err:
    ModError)
    ensures
        final(catalog)@.mods == old(catalog)@.mods,
        final(catalog)@.game_files.to_set() == old(catalog)@.game_files.to_set().union(
            archived_before(steps@, processed as int),
        ),
        old(catalog).wf() ==> final(catalog).wf(),
        err == (ModError::IOFailure {
            processed: if processed <= steps@.len() {
                processed
            } else {
                steps@.len() as usize
            },
        }),
{
    let done: usize = if processed <= steps.len() {
        processed
    } else {
        steps.len()
    };
    let ghost old_backed = catalog@.game_files;
    let mut backed = clone_paths(&catalog.game_files);
    let mut k: usize = 0;
    while k < done
        invariant
            k <= done <= steps@.len(),
            forall|p: Seq<char>|
                #[trigger] path_views(backed@).contains(p) <==> old_backed.contains(p)
                    || archived_before(steps@, k as int).contains(p),
            old_backed.no_duplicates() ==> path_views(backed@).no_duplicates(),
        decreases done - k,
    {
        let ghost before = path_views(backed@);
        let ghost t = steps@[k as int].target@;
        let add = steps[k].archive.is_some() && !contains_path(&backed, &steps[k].target);
        if add {
            backed.push(steps[k].target.clone());
            proof {
                assert(path_views(backed@) =~= before.push(t));
            }
        }
        proof {
            assert forall|p: Seq<char>|
                #[trigger] path_views(backed@).contains(p) <==> old_backed.contains(p)
                    || archived_before(steps@, k + 1).contains(p) by {
                lemma_push_contains(before, t, p);
                if archived_before(steps@, k + 1).contains(p) {
                    let w = choose|w: int|
                        0 <= w < k + 1 && w < steps@.len() && (#[trigger] steps@[w]).archive is Some
                            && steps@[w].target@ == p;
                    if w < k {
                        assert(archived_before(steps@, k as int).contains(p));
                    }
                }
                if archived_before(steps@, k as int).contains(p) {
                    let w = choose|w: int|
                        0 <= w < k && w < steps@.len() && (#[trigger] steps@[w]).archive is Some
                            && steps@[w].target@ == p;
                    assert(0 <= w < k + 1);
                }
                if steps@[k as int].archive is Some && p == t {
                    assert(archived_before(steps@, k + 1).contains(p));
                }
            }
            lemma_push_contains(before, t, t);
        }
        k = k + 1;
    }
    proof {
        assert(archived_before(steps@, done as int) =~= archived_before(steps@, processed as int));
        assert forall|p: Seq<char>|
            path_views(backed@).to_set().contains(p) <==> old_backed.to_set().union(
                archived_before(steps@, processed as int),
            ).contains(p) by {
            assert(old_backed.to_set().contains(p) <==> old_backed.contains(p));
        }
        assert(path_views(backed@).to_set() =~= old_backed.to_set().union(
            archived_before(steps@, processed as int),
        ));
    }
    catalog.game_files = backed;
    ModError::IOFailure { processed: done }
}

/// Records a retraction that stopped after `processed` steps: the targets of those
/// steps leave the preserved paths, no flag changes, and the failure to report carries
/// the number of steps that went through.
pub fn retract_progress(catalog: &mut Catalog, steps: &Vec<RetractStep>, processed: usize) -> (err:
    ModError)
    ensures
        final(catalog)@.mods == old(catalog)@.mods,
        final(catalog)@.game_files.to_set() == old(catalog)@.game_files.to_set().difference(
            retracted_before(steps@, processed as int),
        ),
        old(catalog).wf() ==> final(catalog).wf(),
        err == (ModError::IOFailure {
            processed: if processed <= steps@.len() {
                processed
            } else {
                steps@.len() as usize
            },
        }),
{
    let done: usize = if processed <= steps.len() {
        processed
    } else {
        steps.len()
    };
    let ghost old_backed = catalog@.game_files;
    let mut backed = clone_paths(&catalog.game_files);
    let mut k: usize = 0;
    while k < done
        invariant
            k <= done <= steps@.len(),
            forall|p: Seq<char>|
                #[trigger] path_views(backed@).contains(p) <==> old_backed.contains(p)
                    && !retracted_before(steps@, k as int).contains(p),
            old_backed.no_duplicates() ==> path_views(backed@).no_duplicates(),
        decreases done - k,
    {
        let ghost before = path_views(backed@);
        let ghost t = steps@[k as int].target@;
        backed = remove_path(&backed, &steps[k].target);
        proof {
            assert forall|p: Seq<char>|
                #[trigger] path_views(backed@).contains(p) <==> old_backed.contains(p)
                    && !retracted_before(steps@, k + 1).contains(p) by {
                assert(path_views(backed@).contains(p) <==> before.contains(p) && p != t);
                if retracted_before(steps@, k + 1).contains(p) {
                    let w = choose|w: int|
                        0 <= w < k + 1 && w < steps@.len() && (#[trigger] steps@[w]).target@ == p;
                    if w < k {
                        assert(retracted_before(steps@, k as int).contains(p));
                    }
                }
                if retracted_before(steps@, k as int).contains(p) {
                    let w = choose|w: int|
                        0 <= w < k && w < steps@.len() && (#[trigger] steps@[w]).target@ == p;
                    assert(0 <= w < k + 1);
                }
                if p == t {
                    assert(steps@[k as int].target@ == p);
                    assert(retracted_before(steps@, k + 1).contains(p));
                }
            }
        }
        k = k + 1;
    }
    proof {
        assert(retracted_before(steps@, done as int) =~= retracted_before(
            steps@,
            processed as int,
        ));
        assert forall|p: Seq<char>|
            path_views(backed@).to_set().contains(p) <==> old_backed.to_set().difference(
                retracted_before(steps@, processed as int),
            ).contains(p) by {
            assert(old_backed.to_set().contains(p) <==> old_backed.contains(p));
        }
        assert(path_views(backed@).to_set() =~= old_backed.to_set().difference(
            retracted_before(steps@, processed as int),
        ));
    }
    catalog.game_files = backed;
    ModError::IOFailure { processed: done }
}

/// Forgets every preserved path, whatever is applied, and names the archive directory,
/// which the caller deletes. No file is restored.
pub fn clear_game_file_backup(catalog: &mut Catalog) -> (archive: String)
    ensures
        final(catalog)@.mods == old(catalog)@.mods,
        final(catalog)@.game_files == Seq::<Seq<char>>::empty(),
        old(catalog).wf() ==> final(catalog).wf(),
        archive@ == crate::paths::archive_root(),
{
    crate::db_deal::remove_all_game_file(catalog);
    crate::file_deal::remove_all_game_file()
}

/// Takes an overlay out of the catalog, applied or not, and names its managed
/// directory, which the caller deletes. Files that the overlay projected onto the
/// installation stay where they are: retract it first.
pub fn remove_mod(catalog: &mut Catalog, mod_info: &ModInfo) -> (dir: String)
    ensures
        final(catalog)@.mods == without_mod(old(catalog)@.mods, mod_info@.name),
        final(catalog)@.game_files == old(catalog)@.game_files,
        !has_mod(final(catalog)@.mods, mod_info@.name),
        old(catalog).wf() ==> final(catalog).wf(),
        dir@ == crate::paths::managed_prefix(mod_info@.name),
{
    let mut mods: Vec<ModInfo> = Vec::new();
    let mut i: usize = 0;
    while i < catalog.mods.len()
        invariant
            i <= catalog.mods.len(),
            mod_views(mods@) == without_mod(catalog@.mods.take(i as int), mod_info@.name),
        decreases catalog.mods.len() - i,
    {
        let m = &catalog.mods[i];
        let ghost before = mods@;
        proof {
            assert(catalog@.mods.take(i + 1).drop_last() =~= catalog@.mods.take(i as int));
            assert(catalog@.mods.take(i + 1).last() == m@);
        }
        if m.name != mod_info.name {
            let copy = copy_with_apply(m, m.apply);
            mods.push(copy);
            proof {
                assert(mod_views(mods@) =~= mod_views(before).push(m@));
            }
        }
        i = i + 1;
    }
    proof {
        assert(catalog@.mods.take(catalog@.mods.len() as int) =~= catalog@.mods);
        lemma_without_mod(catalog@.mods, mod_info@.name);
    }
    catalog.mods = mods;
    crate::paths::managed_dir(mod_info.name.as_str())
}

/// Why the import of the source directory `dir` with these files is refused, if it is:
/// no file; a path without a component; a name that is taken or reserved; a file
/// outside `dir`.
pub open spec fn import_error(mods: Seq<ModView>, dir: Seq<char>, files: Seq<Seq<char>>) -> Option<
    ModError,
> {
    if files.len() == 0 {
        Some(ModError::NoFilesFound)
    } else if base_name_of(dir).len() == 0 {
        Some(ModError::SourceNotFound)
    } else if name_taken(mods, base_name_of(dir)) {
        Some(ModError::DuplicateOverlay)
    } else if !all_under(files, dir) {
        Some(ModError::MappingError)
    } else {
        None
    }
}

/// Plans the import of the source directory `path`, whose tree holds `items`: the
/// overlay to register, named after the directory and pointing at managed storage,
/// and one copy for each file. The catalog is only read: the overlay is registered
/// once the copies are made.
pub fn add_mod(catalog: &Catalog, path: String, items: &Vec<DirItem>) -> (out: Result<
    (ModInfo, Vec<FileCopy>),
    ModError,
>)
    ensures
        out is Ok <==> import_error(catalog@.mods, path@, files_among(items@)) is None,
        out is Err ==> Some(out.unwrap_err()) == import_error(
            catalog@.mods,
            path@,
            files_among(items@),
        ),
        out is Ok ==> ({
            let files = files_among(items@);
            let mod_info = out.unwrap().0@;
            let copies = out.unwrap().1@;
            &&& mod_info.name == base_name_of(path@)
            &&& mod_info.path == Some(staged(files, path@))
            &&& mod_info.path.unwrap().len() == files.len()
            &&& !mod_info.apply
            &&& copies.len() == files.len()
            &&& forall|i: int|
                0 <= i < copies.len() ==> (#[trigger] copies[i]).source@ == files[i]
                    && copies[i].target@ == staged(files, path@)[i]
        }),
{
    let mut mod_info = match get_mod_from_dir(&path, items) {
        Some(m) => m,
        None => {
            return Err(ModError::NoFilesFound);
        },
    };
    if mod_info.name.as_str().unicode_len() == 0 {
        return Err(ModError::SourceNotFound);
    }
    if is_name_taken(catalog, &mod_info.name) {
        return Err(ModError::DuplicateOverlay);
    }
    match add_mod_file(&path, &mut mod_info) {
        Ok(copies) => Ok((mod_info, copies)),
        Err(_) => Err(ModError::MappingError),
    }
}

/// Whether the overlays stand most recent first.
pub open spec fn recent_first(mods: Seq<ModView>) -> bool {
    forall|i: int, j: int|
        0 <= i < j < mods.len() ==> (#[trigger] mods[i]).insert_time >= (
        #[trigger] mods[j]).insert_time
}

/// The registered overlays, most recent first.
pub fn get_mods(catalog: &Catalog) -> (out: Vec<ModInfo>)
    ensures
        recent_first(mod_views(out@)),
        mod_views(out@).to_multiset() == catalog@.mods.to_multiset(),
{
    let mut out: Vec<ModInfo> = Vec::new();
    let mut i: usize = 0;
    proof {
        assert(mod_views(out@) =~= catalog@.mods.take(0));
    }
    while i < catalog.mods.len()
        invariant
            i <= catalog.mods.len(),
            out@.len() == i,
            recent_first(mod_views(out@)),
            mod_views(out@).to_multiset() == catalog@.mods.take(i as int).to_multiset(),
        decreases catalog.mods.len() - i,
    {
        let m = &catalog.mods[i];
        let mut pos: usize = 0;
        while pos < out.len() && out[pos].insert_time >= m.insert_time
            invariant
                pos <= out@.len(),
                forall|k: int| 0 <= k < pos ==> (#[trigger] out@[k]).insert_time >= m.insert_time,
            decreases out@.len() - pos,
        {
            pos = pos + 1;
        }
        let copy = copy_with_apply(m, m.apply);
        let ghost before = mod_views(out@);
        out.insert(pos, copy);
        proof {
            let seen = catalog@.mods.take(i as int);
            assert(mod_views(out@) =~= before.insert(pos as int, m@));
            vstd::seq_lib::to_multiset_insert(before, pos as int, m@);
            assert(catalog@.mods.take(i + 1) =~= seen.push(m@));
            vstd::seq_lib::to_multiset_build(seen, m@);
            assert forall|a: int, b: int| 0 <= a < b < mod_views(out@).len() implies (
            #[trigger] mod_views(out@)[a]).insert_time >= (
            #[trigger] mod_views(out@)[b]).insert_time by {
                let x = if a < pos { a } else { a - 1 };
                let y = if b < pos { b } else { b - 1 };
                if a != pos && b != pos {
                    assert(before[x].insert_time >= before[y].insert_time);
                } else if a == pos {
                    assert(before[y] == mod_views(out@)[b]);
                    if pos < before.len() {
                        assert(before[pos as int].insert_time < m.insert_time);
                        if y > pos {
                            assert(before[pos as int].insert_time >= before[y].insert_time);
                        }
                    }
                } else {
                    assert(before[x] == mod_views(out@)[a]);
                }
            }
        }
        i = i + 1;
    }
    proof {
        assert(catalog@.mods.take(catalog@.mods.len() as int) =~= catalog@.mods);
    }
    out
}

/// Distinct files of a source directory are staged at distinct places.
pub proof fn lemma_staged_distinct(files: Seq<Seq<char>>, dir: Seq<char>)
    requires
        all_under(files, dir),
        files.no_duplicates(),
    ensures
        staged(files, dir).no_duplicates(),
{
    let d = crate::paths::trimmed(dir);
    let t = crate::paths::managed_prefix(base_name_of(dir));
    let n = d.len() as int;
    let st = staged(files, dir);
    assert forall|i: int, j: int| 0 <= i < st.len() && 0 <= j < st.len() && i != j implies st[i]
        != st[j] by {
        let a = files[i];
        let b = files[j];
        assert(crate::paths::under(a, d));
        assert(crate::paths::under(b, d));
        if st[i] == st[j] {
            assert((t + a.skip(n)).skip(t.len() as int) =~= a.skip(n));
            assert((t + b.skip(n)).skip(t.len() as int) =~= b.skip(n));
            assert(a =~= d + a.skip(n));
            assert(b =~= d + b.skip(n));
            assert(a == b);
        }
    }
}

/// An import that is planned without error can be registered: the overlay has a file
/// for each file of the source, at distinct places where the files are distinct, its
/// name is free, and once registered the name is taken.
pub proof fn lemma_planned_import_registers(
    mods: Seq<ModView>,
    dir: Seq<char>,
    files: Seq<Seq<char>>,
    planned: ModView,
)
    requires
        import_error(mods, dir, files) is None,
        planned.name == base_name_of(dir),
        planned.path == Some(staged(files, dir)),
    ensures
        crate::db_deal::has_files(planned),
        planned.path.unwrap().len() == files.len(),
        files.no_duplicates() ==> planned.path.unwrap().no_duplicates(),
        !name_taken(mods, planned.name),
        has_mod(mods.push(with_apply(planned, false)), planned.name),
{
    if files.no_duplicates() {
        lemma_staged_distinct(files, dir);
    }
    let after = mods.push(with_apply(planned, false));
    assert(after[mods.len() as int].name == planned.name);
}

/// Once an overlay is registered, the import of any source directory with the same
/// base name is refused as a duplicate.
pub proof fn lemma_same_name_is_duplicate(
    mods: Seq<ModView>,
    first: ModView,
    dir: Seq<char>,
    files: Seq<Seq<char>>,
)
    requires
        base_name_of(dir) == first.name,
        first.name.len() > 0,
        files.len() > 0,
    ensures
        import_error(mods.push(with_apply(first, false)), dir, files) == Some(
            ModError::DuplicateOverlay,
        ),
{
    let after = mods.push(with_apply(first, false));
    assert(after[mods.len() as int].name == first.name);
}

/// Applying and then retracting an overlay leaves the preserved paths as they were,
/// where none of its targets was preserved before; the retraction restores a stock file
/// exactly at the first file of each target at which a file stood.
pub proof fn lemma_apply_then_retract(
    tg: Seq<Seq<char>>,
    backed: Set<Seq<char>>,
    existing: Set<Seq<char>>,
)
    requires
        backed.disjoint(tg.to_set()),
    ensures
        retracted_set(applied_set(backed, tg.to_set(), existing), tg.to_set()) == backed,
        forall|i: int|
            0 <= i < tg.len() ==> (#[trigger] restores_at(
                tg,
                applied_set(backed, tg.to_set(), existing),
                i,
            ) <==> archives_at(tg, backed, existing, i)),
{
    let after = applied_set(backed, tg.to_set(), existing);
    assert forall|i: int| 0 <= i < tg.len() implies (#[trigger] restores_at(tg, after, i)
        <==> archives_at(tg, backed, existing, i)) by {
        assert(tg.contains(tg[i]));
        assert(tg.to_set().contains(tg[i]));
    }
    assert(retracted_set(after, tg.to_set()) =~= backed);
}

/// Retracting twice: the second retraction restores nothing and leaves the preserved
/// paths as the first left them, and the overlay's files are still the same.
pub proof fn lemma_retract_twice(m: ModView, tg: Seq<Seq<char>>, backed: Set<Seq<char>>)
    ensures
        files_in(with_apply(m, false)) == files_in(m),
        retracted_set(retracted_set(backed, tg.to_set()), tg.to_set()) == retracted_set(
            backed,
            tg.to_set(),
        ),
        forall|i: int|
            0 <= i < tg.len() ==> !#[trigger] restores_at(
                tg,
                retracted_set(backed, tg.to_set()),
                i,
            ),
{
    let once = retracted_set(backed, tg.to_set());
    assert forall|i: int| 0 <= i < tg.len() implies !#[trigger] restores_at(tg, once, i) by {
        assert(tg.contains(tg[i]));
        assert(tg.to_set().contains(tg[i]));
    }
    assert(retracted_set(once, tg.to_set()) =~= once);
}

/// Two overlays with a common target at which a file stood: the first application
/// preserves the stock file, the second preserves nothing there, and retracting the
/// second restores the stock file and forgets the path, though the first is still applied.
pub proof fn lemma_shared_target(
    first: Seq<Seq<char>>,
    second: Seq<Seq<char>>,
    backed: Set<Seq<char>>,
    existing_first: Set<Seq<char>>,
    existing_second: Set<Seq<char>>,
    i: int,
    j: int,
)
    requires
        0 <= i < first.len(),
        0 <= j < second.len(),
        first[i] == second[j],
        existing_first.contains(first[i]),
    ensures
        ({
            let one = applied_set(backed, first.to_set(), existing_first);
            let two = applied_set(one, second.to_set(), existing_second);
            &&& one.contains(first[i])
            &&& !archives_at(second, one, existing_second, j)
            &&& two.contains(second[j])
            &&& restores_at(second, two, j) <==> !second.take(j).contains(second[j])
            &&& !retracted_set(two, second.to_set()).contains(first[i])
        }),
{
    assert(first.contains(first[i]));
    assert(first.to_set().contains(first[i]));
    assert(second.contains(second[j]));
    assert(second.to_set().contains(second[j]));
}

} // verus!
