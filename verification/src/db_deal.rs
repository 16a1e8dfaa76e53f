use crate::entry::{mod_views, path_views, ModFileInfo, ModInfo, ModView};
use crate::error::ModError;
use vstd::prelude::*;
use vstd::string::*;

verus! {

/// The catalog: the registered overlays, and the installation paths whose stock
/// file is preserved in the archive.
#[derive(Debug)]
pub struct Catalog {
    pub mods: Vec<ModInfo>,
    pub game_files: Vec<String>,
}

/// What a catalog stands for: its overlays and its preserved paths, in order.
pub struct CatalogView {
    pub mods: Seq<ModView>,
    pub game_files: Seq<Seq<char>>,
}

impl View for Catalog {
    type V = CatalogView;

    open spec fn view(&self) -> CatalogView {
        CatalogView { mods: mod_views(self.mods@), game_files: path_views(self.game_files@) }
    }
}

/// No two overlays share a name.
pub open spec fn unique_names(mods: Seq<ModView>) -> bool {
    forall|i: int, j: int|
        0 <= i < j < mods.len() ==> (#[trigger] mods[i]).name != (#[trigger] mods[j]).name
}

/// Whether the overlay may stand in a catalog: it has a file, and its name is not the
/// one under which the preserved paths are stored.
pub open spec fn registrable(m: ModView) -> bool {
    has_files(m) && m.name != backup_rows_name()
}

/// Every overlay has at least one file and a name of its own.
pub open spec fn all_have_files(mods: Seq<ModView>) -> bool {
    forall|i: int| 0 <= i < mods.len() ==> registrable(#[trigger] mods[i])
}

/// What holds of a catalog: names are unique and none is the reserved one, every
/// registered overlay has a file, and no preserved path is listed twice.
pub open spec fn wf_catalog(c: CatalogView) -> bool {
    &&& unique_names(c.mods)
    &&& all_have_files(c.mods)
    &&& c.game_files.no_duplicates()
}

impl Catalog {
    /// The catalog's invariant; see `wf_catalog`.
    pub open spec fn wf(&self) -> bool {
        wf_catalog(self@)
    }

    /// A catalog with no overlay and no preserved path.
    pub fn new() -> (catalog: Catalog)
        ensures
            catalog@.mods == Seq::<ModView>::empty(),
            catalog@.game_files == Seq::<Seq<char>>::empty(),
            catalog.wf(),
    {
        let catalog = Catalog { mods: Vec::new(), game_files: Vec::new() };
        proof {
            assert(catalog@.mods =~= Seq::<ModView>::empty());
            assert(catalog@.game_files =~= Seq::<Seq<char>>::empty());
        }
        catalog
    }
}

/// Setting flags keeps names unique and files in place.
pub proof fn lemma_flagged_keeps_wf(mods: Seq<ModView>, name: Seq<char>, apply: bool)
    ensures
        unique_names(mods) ==> unique_names(flagged(mods, name, apply)),
        all_have_files(mods) ==> all_have_files(flagged(mods, name, apply)),
{
    let after = flagged(mods, name, apply);
    if unique_names(mods) {
        assert forall|i: int, j: int| 0 <= i < j < after.len() implies (#[trigger] after[i]).name
            != (#[trigger] after[j]).name by {
            assert(after[i].name == mods[i].name);
            assert(after[j].name == mods[j].name);
        }
    }
    if all_have_files(mods) {
        assert forall|i: int| 0 <= i < after.len() implies registrable(#[trigger] after[i]) by {
            assert(registrable(mods[i]));
        }
    }
}

/// Taking an overlay out leaves only overlays that were there, none of them called
/// `name`, and keeps names unique and files in place.
pub proof fn lemma_without_mod(mods: Seq<ModView>, name: Seq<char>)
    ensures
        !has_mod(without_mod(mods, name), name),
        forall|k: int|
            0 <= k < without_mod(mods, name).len() ==> mods.contains(
                #[trigger] without_mod(mods, name)[k],
            ),
        unique_names(mods) ==> unique_names(without_mod(mods, name)),
        all_have_files(mods) ==> all_have_files(without_mod(mods, name)),
    decreases mods.len(),
{
    if mods.len() > 0 {
        let rest = mods.drop_last();
        let kept = without_mod(rest, name);
        let after = without_mod(mods, name);
        lemma_without_mod(rest, name);
        assert forall|k: int| 0 <= k < after.len() implies mods.contains(#[trigger] after[k]) by {
            if k < kept.len() {
                assert(rest.contains(kept[k]));
                let j = choose|j: int| 0 <= j < rest.len() && rest[j] == kept[k];
                assert(mods[j] == after[k]);
            } else {
                assert(mods[mods.len() - 1] == after[k]);
            }
        }
        if unique_names(mods) {
            assert forall|i: int, j: int| 0 <= i < j < rest.len() implies (#[trigger] rest[i]).name
                != (#[trigger] rest[j]).name by {
                assert(mods[i].name != mods[j].name);
            }
            assert forall|i: int, j: int| 0 <= i < j < after.len() implies (
            #[trigger] after[i]).name != (#[trigger] after[j]).name by {
                if j < kept.len() {
                    assert(kept[i].name != kept[j].name);
                } else {
                    assert(rest.contains(kept[i]));
                    let h = choose|h: int| 0 <= h < rest.len() && rest[h] == kept[i];
                    assert(mods[h].name != mods[mods.len() - 1].name);
                }
            }
        }
        if all_have_files(mods) {
            assert forall|i: int| 0 <= i < rest.len() implies registrable(#[trigger] rest[i]) by {
                assert(registrable(mods[i]));
            }
            assert forall|i: int| 0 <= i < after.len() implies registrable(#[trigger] after[i]) by {
                if i < kept.len() {
                    assert(registrable(kept[i]));
                } else {
                    assert(registrable(mods[mods.len() - 1]));
                }
            }
        }
    }
}

/// Whether an overlay called `name` is among `mods`.
pub open spec fn has_mod(mods: Seq<ModView>, name: Seq<char>) -> bool {
    exists|i: int| 0 <= i < mods.len() && (#[trigger] mods[i]).name == name
}

/// Whether the overlay has at least one file.
pub open spec fn has_files(m: ModView) -> bool {
    m.path is Some && m.path.unwrap().len() > 0
}

/// `m` with its applied flag set to `apply`.
pub open spec fn with_apply(m: ModView, apply: bool) -> ModView {
    ModView { name: m.name, path: m.path, apply: apply, insert_time: m.insert_time }
}

/// `mods` with the flag of every overlay called `name` set to `apply`.
pub open spec fn flagged(mods: Seq<ModView>, name: Seq<char>, apply: bool) -> Seq<ModView> {
    Seq::new(
        mods.len(),
        |i: int| if mods[i].name == name { with_apply(mods[i], apply) } else { mods[i] },
    )
}

/// The paths of the rows that belong to the overlay `name`, in row order.
pub open spec fn files_of(rows: Seq<ModFileInfo>, name: Seq<char>) -> Seq<Seq<char>>
    decreases rows.len(),
{
    if rows.len() == 0 {
        Seq::empty()
    } else if rows.last().name@ == name {
        files_of(rows.drop_last(), name).push(rows.last().path@)
    } else {
        files_of(rows.drop_last(), name)
    }
}

/// The name under which the file rows list the preserved paths.
pub open spec fn backup_rows_name() -> Seq<char> {
    "_game_file"@
}

/// The files that the rows list for the overlay `name`; the rows of the preserved
/// paths belong to no overlay.
pub open spec fn overlay_files(rows: Seq<ModFileInfo>, name: Seq<char>) -> Seq<Seq<char>> {
    if name == backup_rows_name() {
        Seq::empty()
    } else {
        files_of(rows, name)
    }
}

/// The overlay that the row `m` and the file rows `rows` describe together.
pub open spec fn joined(m: ModView, rows: Seq<ModFileInfo>) -> ModView {
    ModView {
        name: m.name,
        path: if overlay_files(rows, m.name).len() == 0 {
            None
        } else {
            Some(overlay_files(rows, m.name))
        },
        apply: m.apply,
        insert_time: m.insert_time,
    }
}

/// The overlays of `mods` that are not called `name`, in order.
pub open spec fn without_mod(mods: Seq<ModView>, name: Seq<char>) -> Seq<ModView>
    decreases mods.len(),
{
    if mods.len() == 0 {
        Seq::empty()
    } else if mods.last().name == name {
        without_mod(mods.drop_last(), name)
    } else {
        without_mod(mods.drop_last(), name).push(mods.last())
    }
}

/// Whether the overlay holds the file `path`.
pub open spec fn holds_path(m: ModView, path: Seq<char>) -> bool {
    m.path is Some && m.path.unwrap().contains(path)
}

/// The names of the overlays that hold the file `path`, in order.
pub open spec fn holders(mods: Seq<ModView>, path: Seq<char>) -> Seq<Seq<char>>
    decreases mods.len(),
{
    if mods.len() == 0 {
        Seq::empty()
    } else if holds_path(mods.last(), path) {
        holders(mods.drop_last(), path).push(mods.last().name)
    } else {
        holders(mods.drop_last(), path)
    }
}

/// Whether `p` is among `paths`.
pub fn contains_path(paths: &Vec<String>, p: &String) -> (found: bool)
    ensures
        found == path_views(paths@).contains(p@),
{
    let mut i: usize = 0;
    while i < paths.len()
        invariant
            i <= paths.len(),
            forall|k: int| 0 <= k < i ==> (#[trigger] path_views(paths@)[k]) != p@,
        decreases paths.len() - i,
    {
        if paths[i] == *p {
            assert(path_views(paths@)[i as int] == p@);
            return true;
        }
        i = i + 1;
    }
    false
}

/// A copy of `paths`.
pub fn clone_paths(paths: &Vec<String>) -> (copy: Vec<String>)
    ensures
        path_views(copy@) == path_views(paths@),
{
    let mut copy: Vec<String> = Vec::new();
    let mut i: usize = 0;
    while i < paths.len()
        invariant
            i <= paths.len(),
            copy@ == paths@.take(i as int),
        decreases paths.len() - i,
    {
        copy.push(paths[i].clone());
        proof {
            assert(copy@ =~= paths@.take(i + 1));
        }
        i = i + 1;
    }
    proof {
        assert(paths@.take(paths@.len() as int) =~= paths@);
    }
    copy
}

/// A copy of an overlay record with the applied flag set to `apply`.
pub fn copy_with_apply(m: &ModInfo, apply: bool) -> (copy: ModInfo)
    ensures
        copy@ == with_apply(m@, apply),
{
    let path = match &m.path {
        Some(v) => Some(clone_paths(v)),
        None => None,
    };
    ModInfo { name: m.name.clone(), path, apply, insert_time: m.insert_time }
}

/// Whether an overlay called `name` is registered.
pub fn check_mod_exist(catalog: &Catalog, name: &String) -> (found: bool)
    ensures
        found == has_mod(catalog@.mods, name@),
{
    let mut i: usize = 0;
    while i < catalog.mods.len()
        invariant
            i <= catalog.mods.len(),
            forall|k: int| 0 <= k < i ==> (#[trigger] catalog@.mods[k]).name != name@,
        decreases catalog.mods.len() - i,
    {
        if catalog.mods[i].name == *name {
            assert(catalog@.mods[i as int].name == name@);
            return true;
        }
        i = i + 1;
    }
    false
}

/// Whether the name cannot be given to a new overlay.
pub fn is_name_taken(catalog: &Catalog, name: &String) -> (taken: bool)
    ensures
        taken == name_taken(catalog@.mods, name@),
{
    let reserved = String::from_str("_game_file");
    *name == reserved || check_mod_exist(catalog, name)
}

/// Whether the name cannot be given to a new overlay: an overlay has it, or it is the
/// name under which the preserved paths are stored.
pub open spec fn name_taken(mods: Seq<ModView>, name: Seq<char>) -> bool {
    has_mod(mods, name) || name == backup_rows_name()
}

/// Registers an overlay, as not applied. An overlay whose name is taken, or that has
/// no file, is refused and the catalog stays as it was.
pub fn add_mod_to_db(catalog: &mut Catalog, mod_info: &ModInfo) -> (out: Result<(), ModError>)
    ensures
        out is Ok <==> !name_taken(old(catalog)@.mods, mod_info@.name) && has_files(mod_info@),
        out is Ok ==> final(catalog)@.mods == old(catalog)@.mods.push(with_apply(mod_info@, false)),
        out is Ok ==> final(catalog)@.game_files == old(catalog)@.game_files,
        out is Err ==> final(catalog)@ == old(catalog)@,
        old(catalog).wf() ==> final(catalog).wf(),
        out is Err ==> out.unwrap_err() == (if name_taken(old(catalog)@.mods, mod_info@.name) {
            ModError::DuplicateOverlay
        } else {
            ModError::NoFilesFound
        }),
{
    if is_name_taken(catalog, &mod_info.name) {
        return Err(ModError::DuplicateOverlay);
    }
    let empty = match &mod_info.path {
        Some(v) => v.len() == 0,
        None => true,
    };
    if empty {
        return Err(ModError::NoFilesFound);
    }
    let record = copy_with_apply(mod_info, false);
    catalog.mods.push(record);
    proof {
        let before = old(catalog)@.mods;
        let after = final(catalog)@.mods;
        assert(after =~= before.push(with_apply(mod_info@, false)));
        if old(catalog).wf() {
            assert forall|i: int, j: int| 0 <= i < j < after.len() implies (
            #[trigger] after[i]).name != (#[trigger] after[j]).name by {
                assert(after[i] == before[i]);
                if j < before.len() {
                    assert(after[j] == before[j]);
                }
            }
            assert forall|i: int| 0 <= i < after.len() implies registrable(#[trigger] after[i]) by {
                if i < before.len() {
                    assert(after[i] == before[i]);
                }
            }
        }
    }
    Ok(())
}

/// Sets the applied flag of every registered overlay that has the name of `mod_info`
/// to the flag of `mod_info`.
pub fn update_mod_to_db(catalog: &mut Catalog, mod_info: &ModInfo)
    ensures
        final(catalog)@.mods == flagged(old(catalog)@.mods, mod_info@.name, mod_info@.apply),
        final(catalog)@.game_files == old(catalog)@.game_files,
        old(catalog).wf() ==> final(catalog).wf(),
{
    let mut mods: Vec<ModInfo> = Vec::new();
    let mut i: usize = 0;
    while i < catalog.mods.len()
        invariant
            i <= catalog.mods.len(),
            mods@.len() == i,
            mod_views(mods@) == flagged(catalog@.mods, mod_info@.name, mod_info@.apply).take(
                i as int,
            ),
        decreases catalog.mods.len() - i,
    {
        let m = &catalog.mods[i];
        let keep = if m.name == mod_info.name {
            mod_info.apply
        } else {
            m.apply
        };
        let copy = copy_with_apply(m, keep);
        let ghost before = mods@;
        mods.push(copy);
        proof {
            let goal = flagged(catalog@.mods, mod_info@.name, mod_info@.apply);
            assert(catalog@.mods[i as int] == catalog.mods@[i as int]@);
            assert forall|k: int| 0 <= k < i + 1 implies mod_views(mods@)[k] == goal.take(
                i + 1,
            )[k] by {
                if k < i {
                    assert(mods@[k] == before[k]);
                    assert(mod_views(before)[k] == goal.take(i as int)[k]);
                }
            }
            assert(mod_views(mods@) =~= flagged(
                catalog@.mods,
                mod_info@.name,
                mod_info@.apply,
            ).take(i + 1));
        }
        i = i + 1;
    }
    proof {
        let all = flagged(catalog@.mods, mod_info@.name, mod_info@.apply);
        assert(all.take(all.len() as int) =~= all);
        lemma_flagged_keeps_wf(catalog@.mods, mod_info@.name, mod_info@.apply);
    }
    catalog.mods = mods;
}

/// The installation paths whose stock file is preserved.
pub fn get_game_file_from_db(catalog: &Catalog) -> (paths: Vec<String>)
    ensures
        path_views(paths@) == catalog@.game_files,
{
    clone_paths(&catalog.game_files)
}

/// `base` followed by the paths of `more` that are new, each once.
pub fn merge_paths(base: Vec<String>, more: &Vec<String>) -> (kept: Vec<String>)
    ensures
        forall|p: Seq<char>|
            path_views(kept@).contains(p) <==> path_views(base@).contains(p) || path_views(
                more@,
            ).contains(p),
        path_views(base@).no_duplicates() ==> path_views(kept@).no_duplicates(),
{
    let ghost start = path_views(base@);
    let mut kept: Vec<String> = base;
    let mut i: usize = 0;
    while i < more.len()
        invariant
            i <= more.len(),
            start.no_duplicates() ==> path_views(kept@).no_duplicates(),
            forall|p: Seq<char>|
                #[trigger] path_views(kept@).contains(p) <==> start.contains(p) || path_views(
                    more@,
                ).take(i as int).contains(p),
        decreases more.len() - i,
    {
        let ghost before = path_views(kept@);
        let ghost seen = path_views(more@).take(i as int);
        let ghost next = path_views(more@).take(i + 1);
        let ghost item = more@[i as int]@;
        proof {
            assert(next =~= seen.push(item));
        }
        if !contains_path(&kept, &more[i]) {
            kept.push(more[i].clone());
            proof {
                assert(path_views(kept@) =~= before.push(item));
                lemma_push_contains(before, item, item);
            }
        }
        proof {
            assert forall|p: Seq<char>|
                #[trigger] path_views(kept@).contains(p) <==> start.contains(p) || next.contains(
                    p,
                ) by {
                lemma_push_contains(before, item, p);
                lemma_push_contains(seen, item, p);
            }
        }
        i = i + 1;
    }
    proof {
        assert(path_views(more@).take(more@.len() as int) =~= path_views(more@));
    }
    kept
}

/// Adds the paths of `paths` to the preserved paths: what was stored stays stored, and
/// every path is kept once.
pub fn add_game_file_to_db(catalog: &mut Catalog, paths: &Vec<String>)
    ensures
        final(catalog)@.mods == old(catalog)@.mods,
        final(catalog)@.game_files.no_duplicates(),
        old(catalog).wf() ==> final(catalog).wf(),
        forall|p: Seq<char>|
            final(catalog)@.game_files.contains(p) <==> old(catalog)@.game_files.contains(p)
                || path_views(paths@).contains(p),
{
    let stored = merge_paths(Vec::new(), &catalog.game_files);
    let all = merge_paths(stored, paths);
    catalog.game_files = all;
}

/// Forgets every preserved path.
pub fn remove_all_game_file(catalog: &mut Catalog)
    ensures
        final(catalog)@.mods == old(catalog)@.mods,
        final(catalog)@.game_files == Seq::<Seq<char>>::empty(),
        old(catalog).wf() ==> final(catalog).wf(),
{
    catalog.game_files = Vec::new();
    proof {
        assert(final(catalog)@.game_files =~= Seq::<Seq<char>>::empty());
    }
}

/// What a sequence holds after a push: what it held, and the new item.
pub proof fn lemma_push_contains(s: Seq<Seq<char>>, x: Seq<char>, p: Seq<char>)
    ensures
        s.push(x).contains(p) <==> s.contains(p) || p == x,
        s.no_duplicates() && !s.contains(x) ==> s.push(x).no_duplicates(),
{
    if s.contains(p) {
        let i = choose|i: int| 0 <= i < s.len() && s[i] == p;
        assert(s.push(x)[i] == p);
    }
    if p == x {
        assert(s.push(x)[s.len() as int] == p);
    }
}

/// The paths of the file rows that stand under `name`, in row order.
pub fn files_named(file_rows: &Vec<ModFileInfo>, name: &String) -> (paths: Vec<String>)
    ensures
        path_views(paths@) == files_of(file_rows@, name@),
{
    let mut paths: Vec<String> = Vec::new();
    let mut j: usize = 0;
    while j < file_rows.len()
        invariant
            j <= file_rows.len(),
            path_views(paths@) == files_of(file_rows@.take(j as int), name@),
        decreases file_rows.len() - j,
    {
        let ghost before = path_views(paths@);
        proof {
            assert(file_rows@.take(j + 1).drop_last() =~= file_rows@.take(j as int));
        }
        if file_rows[j].name == *name {
            paths.push(file_rows[j].path.clone());
            proof {
                assert(path_views(paths@) =~= before.push(file_rows@[j as int].path@));
            }
        }
        j = j + 1;
    }
    proof {
        assert(file_rows@.take(file_rows@.len() as int) =~= file_rows@);
    }
    paths
}

/// Joins the overlay rows with the file rows: each overlay, in row order, with the
/// files that the file rows list under its name; an overlay without a file row has no
/// list. File rows under a name that no overlay has are passed over, and so are the
/// rows of the preserved paths.
pub fn get_mods_from_db(mod_rows: &Vec<ModInfo>, file_rows: &Vec<ModFileInfo>) -> (out: Vec<
    ModInfo,
>)
    ensures
        out@.len() == mod_rows@.len(),
        forall|i: int|
            0 <= i < out@.len() ==> (#[trigger] out@[i])@ == joined(mod_rows@[i]@, file_rows@),
{
    let backup = String::from_str("_game_file");
    let mut out: Vec<ModInfo> = Vec::new();
    let mut i: usize = 0;
    while i < mod_rows.len()
        invariant
            i <= mod_rows.len(),
            out@.len() == i,
            backup@ == backup_rows_name(),
            forall|k: int|
                0 <= k < i ==> (#[trigger] out@[k])@ == joined(mod_rows@[k]@, file_rows@),
        decreases mod_rows.len() - i,
    {
        let row = &mod_rows[i];
        let paths = if row.name == backup {
            Vec::new()
        } else {
            files_named(file_rows, &row.name)
        };
        proof {
            assert(path_views(paths@) =~= overlay_files(file_rows@, row.name@));
        }
        let path = if paths.len() == 0 {
            None
        } else {
            Some(paths)
        };
        out.push(
            ModInfo { name: row.name.clone(), path, apply: row.apply, insert_time: row.insert_time },
        );
        i = i + 1;
    }
    out
}

/// The catalog that the stored rows describe: the overlays joined with their files,
/// and the preserved paths, each once.
pub fn load_catalog(mod_rows: &Vec<ModInfo>, file_rows: &Vec<ModFileInfo>) -> (catalog: Catalog)
    ensures
        catalog@.mods.len() == mod_rows@.len(),
        forall|i: int|
            0 <= i < mod_rows@.len() ==> (#[trigger] catalog@.mods[i]) == joined(
                mod_rows@[i]@,
                file_rows@,
            ),
        catalog@.game_files.no_duplicates(),
        forall|p: Seq<char>|
            catalog@.game_files.contains(p) <==> files_of(file_rows@, backup_rows_name()).contains(
                p,
            ),
{
    let mods = get_mods_from_db(mod_rows, file_rows);
    let backup = files_named(file_rows, &String::from_str("_game_file"));
    let mut catalog = Catalog { mods, game_files: Vec::new() };
    add_game_file_to_db(&mut catalog, &backup);
    proof {
        assert forall|i: int| 0 <= i < mod_rows@.len() implies (#[trigger] catalog@.mods[i])
            == joined(mod_rows@[i]@, file_rows@) by {
            assert(catalog@.mods[i] == mods@[i]@);
        }
    }
    catalog
}

/// The names of the registered overlays that hold the file `path`, in catalog order.
pub fn exist_mod_path(catalog: &Catalog, path: &String) -> (names: Vec<String>)
    ensures
        path_views(names@) == holders(catalog@.mods, path@),
{
    let mut names: Vec<String> = Vec::new();
    let mut i: usize = 0;
    while i < catalog.mods.len()
        invariant
            i <= catalog.mods.len(),
            path_views(names@) == holders(catalog@.mods.take(i as int), path@),
        decreases catalog.mods.len() - i,
    {
        let m = &catalog.mods[i];
        let ghost before = path_views(names@);
        proof {
            assert(catalog@.mods.take(i + 1).drop_last() =~= catalog@.mods.take(i as int));
            assert(catalog@.mods.take(i + 1).last() == m@);
        }
        let holds = match &m.path {
            Some(files) => contains_path(files, path),
            None => false,
        };
        if holds {
            names.push(m.name.clone());
            proof {
                assert(path_views(names@) =~= before.push(m@.name));
            }
        }
        i = i + 1;
    }
    proof {
        assert(catalog@.mods.take(catalog@.mods.len() as int) =~= catalog@.mods);
    }
    names
}

} // verus!
