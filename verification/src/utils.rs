//! Paths of save files, and the search for the directory that holds them.
//!
//! Paths are held as text. What is on disk is not looked at here: whoever
//! calls hands in what was found there.

use vstd::prelude::*;
use vstd::string::*;

verus! {

/// The key of a save file's JSON under which the save's data stands.
pub const SAVE_DATA_KEY: &'static str = "save_data_key";

/// The game's directory, below the system's data directory.
pub const GAME_DIR: &'static str = "godot/app_userdata/HARDCODED";

/// The extension of a path, as the platform's path syntax has it.
pub uninterp spec fn extension_of(path: Seq<char>) -> Option<Seq<char>>;

/// A path with its extension replaced, as the platform's path syntax has it.
pub uninterp spec fn with_extension_of(path: Seq<char>, extension: Seq<char>) -> Seq<char>;

/// A path with one more component, as the platform's path syntax has it.
pub uninterp spec fn joined(path: Seq<char>, component: Seq<char>) -> Seq<char>;

/// The last component of a path, as the platform's path syntax has it.
pub uninterp spec fn file_name_of(path: Seq<char>) -> Option<Seq<char>>;

/// A path with its last component replaced, as the platform's path syntax has
/// it.
pub uninterp spec fn with_file_name_of(path: Seq<char>, name: Seq<char>) -> Seq<char>;

/// The text of an optional string.
pub open spec fn text_of(text: Option<String>) -> Option<Seq<char>> {
    match text {
        Some(s) => Some(s@),
        None => None,
    }
}

/// Whether std takes the character for a separator of the components of a
/// path, on the platform that the library is built for.
pub uninterp spec fn separates(c: char) -> bool;

/// No character of the text separates the components of a path.
pub open spec fn no_separator(text: Seq<char>) -> bool {
    forall|i: int| 0 <= i < text.len() ==> !separates(#[trigger] text[i])
}

/// `std::path::is_separator`: whether the character separates the components
/// of a path on this platform.
#[verifier::external_body]
fn is_separator(c: char) -> (sep: bool)
    ensures
        sep == separates(c),
{
    std::path::is_separator(c)
}

/// `Path::extension` of std, on a path that is text: the extension of the
/// path's last component, if it has one.
#[verifier::external_body]
fn path_extension(path: &str) -> (extension: Option<String>)
    ensures
        text_of(extension) == extension_of(path@),
{
    std::path::Path::new(path).extension().map(|e| e.to_string_lossy().into_owned())
}

/// `Path::with_extension` of std, on a path that is text: the path with the
/// extension of its last component set to `extension`, which must hold no
/// separator.
#[verifier::external_body]
fn path_with_extension(path: &str, extension: &str) -> (changed: String)
    requires
        no_separator(extension@),
    ensures
        changed@ == with_extension_of(path@, extension@),
{
    std::path::Path::new(path).with_extension(extension).to_string_lossy().into_owned()
}

/// `Path::join` of std, on a path that is text: the path with `component`
/// behind it.
#[verifier::external_body]
pub(crate) fn path_join(path: &str, component: &str) -> (longer: String)
    ensures
        longer@ == joined(path@, component@),
{
    std::path::Path::new(path).join(component).to_string_lossy().into_owned()
}

/// `Path::file_name` of std, on a path that is text: the last component of the
/// path, if it has one that names a file or a directory.
#[verifier::external_body]
pub(crate) fn path_file_name(path: &str) -> (name: Option<String>)
    ensures
        text_of(name) == file_name_of(path@),
{
    std::path::Path::new(path).file_name().map(|n| n.to_string_lossy().into_owned())
}

/// `Path::with_file_name` of std, on a path that is text: the path with its
/// last component set to `name`.
#[verifier::external_body]
pub(crate) fn path_with_file_name(path: &str, name: &str) -> (changed: String)
    ensures
        changed@ == with_file_name_of(path@, name@),
{
    std::path::Path::new(path).with_file_name(name).to_string_lossy().into_owned()
}

/// Whether two texts are the same.
pub fn same_text(a: &str, b: &str) -> (same: bool)
    ensures
        same == (a@ == b@),
{
    a.to_owned() == b.to_owned()
}

/// The extension that a path gets when `extension` is added behind the one
/// that it has.
pub open spec fn added_extension(old: Option<Seq<char>>, extension: Seq<char>) -> Seq<char> {
    match old {
        Some(old) => old + seq!['.'] + extension,
        None => extension,
    }
}

/// Whether `ext` may be added behind the extension of the path: the
/// extension that the path gets must hold no separator. On some platforms the
/// extension that a path has may hold one.
pub open spec fn may_add(path: Seq<char>, ext: Seq<char>) -> bool {
    no_separator(added_extension(extension_of(path), ext))
}

/// Whether no character of the text separates the components of a path.
pub fn free_of_separators(text: &str) -> (free: bool)
    ensures
        free == no_separator(text@),
{
    let len = text.unicode_len();
    let mut i: usize = 0;
    while i < len
        invariant
            i <= len,
            len == text@.len(),
            forall|j: int| 0 <= j < i ==> !separates(#[trigger] text@[j]),
        decreases len - i,
    {
        if is_separator(text.get_char(i)) {
            return false;
        }
        i += 1;
    }
    true
}

/// The extension that the path gets when `ext` is added behind the one that
/// it has.
fn new_extension(path: &str, ext: &str) -> (new_ext: String)
    ensures
        new_ext@ == added_extension(extension_of(path@), ext@),
{
    match path_extension(path) {
        Some(old_ext) => {
            proof {
                reveal_strlit(".");
                assert("."@ =~= seq!['.']);
            }
            old_ext.concat(".").concat(ext)
        },
        None => ext.to_owned(),
    }
}

/// The path with `ext` added behind its extension: `save.json` with `bak`
/// becomes `save.json.bak`. The extension that the path gets must hold no
/// separator; `try_added_extension` finds out whether it does.
pub fn with_added_extension(path: &str, ext: &str) -> (longer: String)
    requires
        no_separator(added_extension(extension_of(path@), ext@)),
    ensures
        longer@ == with_extension_of(path@, added_extension(extension_of(path@), ext@)),
{
    let new_ext = new_extension(path, ext);
    path_with_extension(path, new_ext.as_str())
}

/// The path with `ext` added behind its extension, where the extension that
/// the path gets holds no separator, and nothing where it holds one.
pub fn try_added_extension(path: &str, ext: &str) -> (longer: Option<String>)
    ensures
        match longer {
            Some(l) => may_add(path@, ext@) && l@ == with_extension_of(
                path@,
                added_extension(extension_of(path@), ext@),
            ),
            None => !may_add(path@, ext@),
        },
{
    let new_ext = new_extension(path, ext);
    if free_of_separators(new_ext.as_str()) {
        Some(with_added_extension(path, ext))
    } else {
        None
    }
}

/// What was found on disk, for the search for the save directory.
pub struct DirFacts {
    /// Whether the path that overrides the search is a directory.
    pub override_is_dir: bool,
    /// The game's directory below the system's data directory, where the
    /// system names one.
    pub default_dir: Option<String>,
    /// Whether that directory is there.
    pub default_is_dir: bool,
}

/// Why no save file can be named.
#[derive(Debug, Clone, Copy, PartialEq, Eq, Structural)]
pub enum SaveDirError {
    /// The system names no data directory.
    NoDataDir,
    /// The game's directory is not there, or is no directory.
    DefaultMissing,
    /// The path that overrides the search is no directory.
    OverrideNotDir,
    /// A save slot beyond the last one.
    InvalidSlot(u8),
    /// A file beside the save file cannot be named: the extension that it
    /// would get holds a separator.
    SeparatorInExtension,
}

/// The number of the last save slot.
pub const LAST_SLOT: u8 = 3;

/// The save directory that the facts lead to: the override where there is
/// one, which must be a directory, and else the game's directory, which must
/// be there.
pub open spec fn resolved(dir_override: Option<Seq<char>>, facts: DirFacts) -> Result<
    Seq<char>,
    SaveDirError,
> {
    match dir_override {
        Some(dir) => if facts.override_is_dir {
            Ok(dir)
        } else {
            Err(SaveDirError::OverrideNotDir)
        },
        None => match facts.default_dir {
            None => Err(SaveDirError::NoDataDir),
            Some(dir) => if facts.default_is_dir {
                Ok(dir@)
            } else {
                Err(SaveDirError::DefaultMissing)
            },
        },
    }
}

/// Whether a search gave the path that `outcome` asks for.
pub open spec fn gave_dir(
    dir: Result<String, SaveDirError>,
    outcome: Result<Seq<char>, SaveDirError>,
) -> bool {
    match dir {
        Ok(d) => outcome == Ok::<Seq<char>, SaveDirError>(d@),
        Err(e) => outcome == Err::<Seq<char>, SaveDirError>(e),
    }
}

/// The name of the save file of a slot.
pub open spec fn slot_file(slot: u8) -> Seq<char> {
    "savefile"@ + seq![(('0' as u8) + slot) as char] + ".json"@
}

/// The name of the save file of a slot.
pub fn slot_file_name(slot: u8) -> (name: String)
    requires
        slot <= LAST_SLOT,
    ensures
        name@ == slot_file(slot),
{
    proof {
        reveal_strlit("savefile");
        reveal_strlit(".json");
        reveal_strlit("savefile0.json");
        reveal_strlit("savefile1.json");
        reveal_strlit("savefile2.json");
        reveal_strlit("savefile3.json");
        assert("savefile0.json"@ =~= slot_file(0));
        assert("savefile1.json"@ =~= slot_file(1));
        assert("savefile2.json"@ =~= slot_file(2));
        assert("savefile3.json"@ =~= slot_file(3));
    }
    if slot == 0 {
        "savefile0.json".to_owned()
    } else if slot == 1 {
        "savefile1.json".to_owned()
    } else if slot == 2 {
        "savefile2.json".to_owned()
    } else {
        "savefile3.json".to_owned()
    }
}

/// Finds the save directory once, and remembers it.
pub struct SaveDirHandler {
    save_dir: Option<String>,
    dir_override: Option<String>,
}

impl SaveDirHandler {
    /// The save directory, once it was found.
    pub closed spec fn found(&self) -> Option<Seq<char>> {
        text_of(self.save_dir)
    }

    /// The path that overrides the search.
    pub closed spec fn overridden(&self) -> Option<Seq<char>> {
        text_of(self.dir_override)
    }

    /// A handler that has found nothing yet, and that will take
    /// `dir_override`, where there is one, for the save directory.
    pub fn new_override(dir_override: Option<String>) -> (handler: Self)
        ensures
            handler.found() is None,
            handler.overridden() == text_of(dir_override),
    {
        Self { save_dir: None, dir_override }
    }

    /// The path that overrides the search, for whoever looks at the disk.
    pub fn dir_override(&self) -> (dir: Option<String>)
        ensures
            text_of(dir) == self.overridden(),
    {
        match &self.dir_override {
            Some(dir) => Some(dir.clone()),
            None => None,
        }
    }

    /// Whether the save directory was found before, so that the disk need
    /// not be looked at again.
    pub fn is_resolved(&self) -> (resolved: bool)
        ensures
            resolved == self.found() is Some,
    {
        self.save_dir.is_some()
    }

    /// Names the save directory from what was found on disk.
    pub fn resolve_save_dir(&self, facts: &DirFacts) -> (dir: Result<String, SaveDirError>)
        ensures
            gave_dir(dir, resolved(self.overridden(), *facts)),
    {
        match &self.dir_override {
            Some(dir) => {
                if !facts.override_is_dir {
                    Err(SaveDirError::OverrideNotDir)
                } else {
                    Ok(dir.clone())
                }
            },
            None => match &facts.default_dir {
                None => Err(SaveDirError::NoDataDir),
                Some(dir) => {
                    if facts.default_is_dir {
                        Ok(dir.clone())
                    } else {
                        Err(SaveDirError::DefaultMissing)
                    }
                },
            },
        }
    }

    /// The save directory as it is known after the facts were heard: the one
    /// that was found before, or else the one that the facts lead to.
    pub open spec fn save_dir_of(&self, facts: DirFacts) -> Result<Seq<char>, SaveDirError> {
        match self.found() {
            Some(known) => Ok(known),
            None => resolved(self.overridden(), facts),
        }
    }

    /// The path of the save file of a slot: the slot's file in the save
    /// directory. A slot beyond the last one is refused first.
    pub open spec fn save_slot_of(&self, slot: u8, facts: DirFacts) -> Result<
        Seq<char>,
        SaveDirError,
    > {
        if slot > LAST_SLOT {
            Err(SaveDirError::InvalidSlot(slot))
        } else {
            match self.save_dir_of(facts) {
                Ok(dir) => Ok(joined(dir, slot_file(slot))),
                Err(e) => Err(e),
            }
        }
    }

    /// What the handler remembers once it was asked for the save directory.
    pub open spec fn remembers(&self, facts: DirFacts) -> Option<Seq<char>> {
        match self.save_dir_of(facts) {
            Ok(dir) => Some(dir),
            Err(_) => None,
        }
    }

    /// The save directory: the one that was found before, or else the one
    /// that the facts lead to, which is remembered from then on.
    pub fn get_save_dir(&mut self, facts: &DirFacts) -> (dir: Result<String, SaveDirError>)
        ensures
            final(self).overridden() == old(self).overridden(),
            gave_dir(dir, old(self).save_dir_of(*facts)),
            final(self).found() == old(self).remembers(*facts),
    {
        if let Some(dir) = &self.save_dir {
            return Ok(dir.clone());
        }
        let dir = match self.resolve_save_dir(facts) {
            Ok(dir) => dir,
            Err(e) => {
                return Err(e);
            },
        };
        self.save_dir = Some(dir.clone());
        Ok(dir)
    }

    /// The path of the save file of a slot. A slot beyond the last one is
    /// refused before the save directory is asked for.
    pub fn resolve_save_slot(&mut self, slot: u8, facts: &DirFacts) -> (file: Result<
        String,
        SaveDirError,
    >)
        ensures
            final(self).overridden() == old(self).overridden(),
            gave_dir(file, old(self).save_slot_of(slot, *facts)),
            final(self).found() == if slot > LAST_SLOT {
                old(self).found()
            } else {
                old(self).remembers(*facts)
            },
    {
        if slot > LAST_SLOT {
            return Err(SaveDirError::InvalidSlot(slot));
        }
        let dir = match self.get_save_dir(facts) {
            Ok(dir) => dir,
            Err(e) => {
                return Err(e);
            },
        };
        let name = slot_file_name(slot);
        Ok(path_join(dir.as_str(), name.as_str()))
    }
}

} // verus!
