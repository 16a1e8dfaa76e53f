use vstd::prelude::*;

verus! {

/// One file of an overlay: the overlay's name and the file's path.
#[derive(Debug, Clone)]
pub struct ModFileInfo {
    pub name: String,
    pub path: String,
}

impl ModFileInfo {
    /// A file row of the overlay `name`.
    pub fn new(name: String, path: String) -> (info: ModFileInfo)
        ensures
            info.name == name,
            info.path == path,
    {
        ModFileInfo { name, path }
    }
}

/// An overlay: its name, its files in managed storage, whether it is applied,
/// and when it was registered (milliseconds since the Unix epoch).
#[derive(Debug, Clone)]
pub struct ModInfo {
    pub name: String,
    pub path: Option<Vec<String>>,
    pub apply: bool,
    pub insert_time: i64,
}

/// What an overlay record stands for: its name, its files, its flag and its time.
pub struct ModView {
    pub name: Seq<char>,
    pub path: Option<Seq<Seq<char>>>,
    pub apply: bool,
    pub insert_time: i64,
}

/// The paths that a list of strings holds, in order.
pub open spec fn path_views(paths: Seq<String>) -> Seq<Seq<char>> {
    Seq::new(paths.len(), |i: int| paths[i]@)
}

/// The overlays that a list of records holds, in order.
pub open spec fn mod_views(mods: Seq<ModInfo>) -> Seq<ModView> {
    Seq::new(mods.len(), |i: int| mods[i]@)
}

impl View for ModInfo {
    type V = ModView;

    open spec fn view(&self) -> ModView {
        ModView {
            name: self.name@,
            path: match self.path {
                Some(v) => Some(path_views(v@)),
                None => None,
            },
            apply: self.apply,
            insert_time: self.insert_time,
        }
    }
}

/// Reads the system clock and converts it with chrono's `From<SystemTime>` for
/// `DateTime<Utc>`, which takes a time before 1970 as well as one after it, within
/// chrono's range of some 260,000 years either side; the result is what
/// `timestamp_millis()` gives for it. Nothing is claimed of the value, which differs
/// from call to call.
#[verifier::external_body]
fn local_now_millis() -> (millis: i64) {
    chrono::DateTime::<chrono::Utc>::from(std::time::SystemTime::now()).timestamp_millis()
}

impl ModInfo {
    /// A fresh overlay record: no files yet, not applied, stamped with the current time.
    pub fn new(name: String) -> (info: ModInfo)
        ensures
            info@.name == name@,
            info@.path is None,
            !info@.apply,
    {
        ModInfo { name, path: None, apply: false, insert_time: local_now_millis() }
    }
}

/// The configured installation root, if any.
#[derive(Debug, Clone)]
pub struct GamePath(pub Option<String>);

} // verus!
