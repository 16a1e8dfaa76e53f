use crate::entry::{path_views, ModFileInfo, ModInfo};
use crate::error::ModError;
use crate::paths::{
    archive_dir, archive_root, base_name, base_name_of, lies_under, managed_dir, managed_prefix,
    replace_prefix, replaced, trim_separators, trimmed, under,
};
use vstd::prelude::*;

verus! {

/// One entry found while walking a source tree: its path, and whether it is a file.
#[derive(Debug)]
pub struct DirItem {
    pub path: String,
    pub is_file: bool,
}

/// One copy that an import asks of the file system.
#[derive(Debug)]
pub struct FileCopy {
    pub source: String,
    pub target: String,
}

/// The paths of the entries that are files, in order; directories leave no trace.
pub open spec fn files_among(items: Seq<DirItem>) -> Seq<Seq<char>>
    decreases items.len(),
{
    if items.len() == 0 {
        Seq::empty()
    } else if items.last().is_file {
        files_among(items.drop_last()).push(items.last().path@)
    } else {
        files_among(items.drop_last())
    }
}

/// Where the files of the source directory `dir` go in managed storage.
pub open spec fn staged(files: Seq<Seq<char>>, dir: Seq<char>) -> Seq<Seq<char>> {
    Seq::new(
        files.len(),
        |i: int| replaced(files[i], trimmed(dir), managed_prefix(base_name_of(dir))),
    )
}

/// Every file lies under the directory `dir`, separators at its end set aside.
pub open spec fn all_under(files: Seq<Seq<char>>, dir: Seq<char>) -> bool {
    forall|i: int| 0 <= i < files.len() ==> under(#[trigger] files[i], trimmed(dir))
}

/// The files among the entries of the source directory `path`, each under the name of
/// that directory.
pub fn get_mod_info_from_dir(path: &String, items: &Vec<DirItem>) -> (out: Vec<ModFileInfo>)
    ensures
        out@.len() == files_among(items@).len(),
        forall|i: int|
            0 <= i < out@.len() ==> (#[trigger] out@[i]).path@ == files_among(items@)[i]
                && out@[i].name@ == base_name_of(path@),
{
    let name = base_name(path.as_str());
    let mut out: Vec<ModFileInfo> = Vec::new();
    let mut i: usize = 0;
    while i < items.len()
        invariant
            i <= items.len(),
            name@ == base_name_of(path@),
            out@.len() == files_among(items@.take(i as int)).len(),
            forall|k: int|
                0 <= k < out@.len() ==> (#[trigger] out@[k]).path@ == files_among(
                    items@.take(i as int),
                )[k] && out@[k].name@ == base_name_of(path@),
        decreases items.len() - i,
    {
        proof {
            assert(items@.take(i + 1).drop_last() =~= items@.take(i as int));
        }
        if items[i].is_file {
            out.push(ModFileInfo::new(name.clone(), items[i].path.clone()));
        }
        i = i + 1;
    }
    proof {
        assert(items@.take(items@.len() as int) =~= items@);
    }
    out
}

/// The overlay that the source directory `dir_path` holds: named after the directory,
/// with the files among `items`, not applied. `None` where there is no file.
pub fn get_mod_from_dir(dir_path: &String, items: &Vec<DirItem>) -> (out: Option<ModInfo>)
    ensures
        out is Some <==> files_among(items@).len() > 0,
        out is Some ==> out.unwrap()@.name == base_name_of(dir_path@),
        out is Some ==> out.unwrap()@.path == Some(files_among(items@)),
        out is Some ==> !out.unwrap()@.apply,
{
    let mod_files = get_mod_info_from_dir(dir_path, items);
    if mod_files.len() == 0 {
        return None;
    }
    let mut mod_info = ModInfo::new(mod_files[0].name.clone());
    let mut paths: Vec<String> = Vec::new();
    let mut i: usize = 0;
    while i < mod_files.len()
        invariant
            i <= mod_files.len(),
            paths@.len() == i,
            forall|k: int| 0 <= k < i ==> (#[trigger] paths@[k])@ == mod_files@[k].path@,
        decreases mod_files.len() - i,
    {
        paths.push(mod_files[i].path.clone());
        i = i + 1;
    }
    proof {
        assert(path_views(paths@) =~= files_among(items@));
    }
    mod_info.path = Some(paths);
    Some(mod_info)
}

/// A source directory and the entries of its tree.
#[derive(Debug)]
pub struct SourceDir {
    pub path: String,
    pub items: Vec<DirItem>,
}

/// The name and the files of each directory that holds a file, in order.
pub open spec fn found_in(dirs: Seq<SourceDir>) -> Seq<(Seq<char>, Seq<Seq<char>>)>
    decreases dirs.len(),
{
    if dirs.len() == 0 {
        Seq::empty()
    } else if files_among(dirs.last().items@).len() > 0 {
        found_in(dirs.drop_last()).push(
            (base_name_of(dirs.last().path@), files_among(dirs.last().items@)),
        )
    } else {
        found_in(dirs.drop_last())
    }
}

/// The overlays that a list of source directories holds: one for each directory with
/// a file, named after it and not applied; directories without a file are passed over.
pub fn get_mods_from_dir(dirs: &Vec<SourceDir>) -> (out: Vec<ModInfo>)
    ensures
        out@.len() == found_in(dirs@).len(),
        forall|i: int|
            0 <= i < out@.len() ==> (#[trigger] out@[i])@.name == found_in(dirs@)[i].0
                && out@[i]@.path == Some(found_in(dirs@)[i].1) && !out@[i]@.apply,
{
    let mut out: Vec<ModInfo> = Vec::new();
    let mut i: usize = 0;
    while i < dirs.len()
        invariant
            i <= dirs.len(),
            out@.len() == found_in(dirs@.take(i as int)).len(),
            forall|k: int|
                0 <= k < out@.len() ==> (#[trigger] out@[k])@.name == found_in(
                    dirs@.take(i as int),
                )[k].0 && out@[k]@.path == Some(found_in(dirs@.take(i as int))[k].1)
                    && !out@[k]@.apply,
        decreases dirs.len() - i,
    {
        proof {
            assert(dirs@.take(i + 1).drop_last() =~= dirs@.take(i as int));
        }
        match get_mod_from_dir(&dirs[i].path, &dirs[i].items) {
            Some(m) => {
                out.push(m);
            },
            None => {},
        }
        i = i + 1;
    }
    proof {
        assert(dirs@.take(dirs@.len() as int) =~= dirs@);
    }
    out
}

/// Plans the copies that bring the files of an overlay from the source directory `path`
/// into managed storage, and points the overlay at the copies. Nothing changes where
/// a file does not lie under `path`.
pub fn add_mod_file(path: &String, mod_info: &mut ModInfo) -> (out: Result<
    Vec<FileCopy>,
    ModError,
>)
    ensures
        out is Ok <==> all_under(crate::service::files_in(old(mod_info)@), path@),
        out is Err ==> out.unwrap_err() == ModError::MappingError,
        out is Err ==> final(mod_info)@ == old(mod_info)@,
        out is Ok ==> ({
            let files = crate::service::files_in(old(mod_info)@);
            let copies = out.unwrap()@;
            &&& copies.len() == files.len()
            &&& forall|i: int|
                0 <= i < copies.len() ==> (#[trigger] copies[i]).source@ == files[i]
                    && copies[i].target@ == staged(files, path@)[i]
            &&& final(mod_info)@.name == old(mod_info)@.name
            &&& final(mod_info)@.apply == old(mod_info)@.apply
            &&& final(mod_info)@.insert_time == old(mod_info)@.insert_time
            &&& final(mod_info)@.path == (match old(mod_info)@.path {
                Some(f) => Some(staged(f, path@)),
                None => None,
            })
        }),
{
    let name = base_name(path.as_str());
    let dir = managed_dir(name.as_str());
    let source = trim_separators(path.as_str());
    let ghost m0 = *mod_info;
    let ghost fv = crate::service::files_in(mod_info@);
    let mut copies: Vec<FileCopy> = Vec::new();
    let mut staged_paths: Vec<String> = Vec::new();
    match &mod_info.path {
        Some(files) => {
            let mut i: usize = 0;
            while i < files.len()
                invariant
                    i <= files.len(),
                    *mod_info == m0,
                    fv == crate::service::files_in(m0@),
                    fv == path_views(files@),
                    dir@ == managed_prefix(base_name_of(path@)),
                    copies@.len() == i,
                    staged_paths@.len() == i,
                    source@ == trimmed(path@),
                    forall|k: int| 0 <= k < i ==> under(#[trigger] fv[k], trimmed(path@)),
                    forall|k: int|
                        0 <= k < i ==> (#[trigger] copies@[k]).source@ == fv[k]
                            && copies@[k].target@ == staged(fv, path@)[k],
                    forall|k: int|
                        0 <= k < i ==> (#[trigger] staged_paths@[k])@ == staged(fv, path@)[k],
                decreases files.len() - i,
            {
                proof {
                    assert(fv[i as int] == files@[i as int]@);
                }
                if !lies_under(files[i].as_str(), source) {
                    return Err(ModError::MappingError);
                }
                let target = match replace_prefix(files[i].as_str(), source, dir.as_str()) {
                    Some(t) => t,
                    None => {
                        return Err(ModError::MappingError);
                    },
                };
                staged_paths.push(target.clone());
                copies.push(FileCopy { source: files[i].clone(), target });
                i = i + 1;
            }
            proof {
                assert(path_views(staged_paths@) =~= staged(fv, path@));
            }
            mod_info.path = Some(staged_paths);
        },
        None => {},
    }
    Ok(copies)
}

/// Names the archive directory, which the caller deletes with all that it holds.
pub fn remove_all_game_file() -> (archive: String)
    ensures
        archive@ == archive_root(),
{
    archive_dir()
}

} // verus!
