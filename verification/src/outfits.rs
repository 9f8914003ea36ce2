//! Outfits: what a character wears, kept under a name, to be put on again.

use crate::organiser::{beside, files_beside};
use crate::utils::{
    joined, path_join, same_text, text_of, DirFacts, SaveDirError, SaveDirHandler, LAST_SLOT,
};
use crate::wardrobe::Part;
use vstd::prelude::*;
use vstd::string::*;

verus! {

/// What to do with the outfits.
pub struct Ops {
    /// The path of the file that holds the outfits. Where there is none, the
    /// file `outfits.json` in the save directory holds them.
    pub outfits_path: Option<String>,
    pub action: Cmd,
}

/// A thing to do with the outfits.
pub enum Cmd {
    /// List the outfits.
    List,
    /// Keep what the character of a save wears as an outfit.
    Save {
        /// The number of the save's slot.
        save_slot: u8,
        /// The name of the outfit.
        outfit: String,
        /// Whether an outfit that is there under the name keeps only the
        /// parts that it has.
        partial: bool,
    },
    /// Put an outfit on the character of a save.
    Load {
        /// The number of the save's slot.
        save_slot: u8,
        /// The name of the outfit.
        outfit: String,
        /// Whether parts that the character does not own are passed over.
        partial: bool,
    },
}

/// The name of the outfit that every character starts with.
pub const DEFAULT_OUTFIT: &'static str = "default";

/// The name of the file that holds the outfits.
pub const OUTFITS_FILE: &'static str = "outfits.json";

/// What a character wears. A part that is `None` is left as it is when the
/// outfit is put on.
#[derive(Debug, PartialEq)]
pub struct Outfit {
    pub hair: Option<String>,
    pub face: Option<String>,
    pub accessory: Option<String>,
    pub shirt: Option<String>,
    pub jacket: Option<String>,
}

/// What the character of a save wears.
pub struct Worn {
    pub hair: String,
    pub face: String,
    pub accessory: String,
    pub shirt: String,
    pub jacket: String,
}

/// Why nothing was done with the outfits.
#[derive(Debug, Clone, Copy, PartialEq, Eq, Structural)]
pub enum OutfitError {
    /// No file of outfits was named, and the save directory was not found.
    NoSaveDir(SaveDirError),
    /// The name of the outfit that every character starts with cannot be
    /// given to another.
    Reserved,
    /// The save file cannot be named.
    NoSaveFile(SaveDirError),
    /// There is no outfit of the name.
    NotFound,
    /// The character does not own the item of a part.
    NotOwned(Part),
}

/// What is to be done, and with which files.
pub enum Task {
    /// List the outfits of the file.
    List { outfits_file: String },
    /// Keep what the character of the save wears under the name `outfit`.
    Save { outfits_file: String, save_file: String, outfit: String, partial: bool },
    /// Put the outfit `outfit` on the character of the save. The outfit is
    /// read from the file of the outfits where `from_file` is set; the outfit
    /// of the start is not. The changed save is written to `output_tmp`
    /// before it takes the place of the save file, which is kept as `backup`.
    Load {
        outfits_file: String,
        save_file: String,
        output_tmp: String,
        backup: String,
        outfit: String,
        from_file: bool,
        partial: bool,
    },
}

impl Outfit {
    /// The item of a part.
    pub open spec fn part_of(self, part: Part) -> Option<Seq<char>> {
        match part {
            Part::Hair => text_of(self.hair),
            Part::Face => text_of(self.face),
            Part::Accessory => text_of(self.accessory),
            Part::Shirt => text_of(self.shirt),
            Part::Jacket => text_of(self.jacket),
        }
    }

    /// The item that the outfit of the start has for a part.
    pub open spec fn default_part(part: Part) -> Seq<char> {
        match part {
            Part::Face => "aa"@,
            _ => "a"@,
        }
    }

    /// The outfit that every character starts with.
    pub fn default() -> (outfit: Self)
        ensures
            forall|part: Part| outfit.part_of(part) == Some(Self::default_part(part)),
    {
        Self {
            hair: Some("a".to_owned()),
            face: Some("aa".to_owned()),
            accessory: Some("a".to_owned()),
            shirt: Some("a".to_owned()),
            jacket: Some("a".to_owned()),
        }
    }

    /// The text of an outfit: for each part that it has, in the order hair,
    /// face, accessory, shirt and jacket, the first letter of the part, a
    /// colon and the item, with one space between parts.
    pub open spec fn shown(self) -> Seq<char> {
        with_part(
            with_part(
                with_part(
                    with_part(with_part(Seq::empty(), 'H', text_of(self.hair)), 'F', text_of(self.face)),
                    'A',
                    text_of(self.accessory),
                ),
                'S',
                text_of(self.shirt),
            ),
            'J',
            text_of(self.jacket),
        )
    }

    /// The text of an outfit.
    pub fn describe(&self) -> (text: String)
        ensures
            text@ == self.shown(),
    {
        proof {
            reveal_strlit("H");
            reveal_strlit("F");
            reveal_strlit("A");
            reveal_strlit("S");
            reveal_strlit("J");
        }
        let mut text = String::new();
        write_part(&mut text, "H", &self.hair);
        write_part(&mut text, "F", &self.face);
        write_part(&mut text, "A", &self.accessory);
        write_part(&mut text, "S", &self.shirt);
        write_part(&mut text, "J", &self.jacket);
        text
    }
}

/// A text with a part written behind it: nothing for a part that is not
/// there, and else a space, unless the part is the first, then the letter, a
/// colon and the item.
pub open spec fn with_part(text: Seq<char>, letter: char, item: Option<Seq<char>>) -> Seq<char> {
    match item {
        None => text,
        Some(item) => if text.len() == 0 {
            seq![letter, ':'] + item
        } else {
            text + seq![' ', letter, ':'] + item
        },
    }
}

/// Writes a part behind a text.
fn write_part(text: &mut String, label: &str, item: &Option<String>)
    requires
        label@.len() == 1,
    ensures
        final(text)@ == with_part(old(text)@, label@[0], text_of(*item)),
{
    if let Some(item) = item {
        let ghost before = text@;
        proof {
            reveal_strlit(" ");
            reveal_strlit(":");
        }
        if !text.as_str().is_empty() {
            text.append(" ");
        }
        text.append(label);
        text.append(":");
        text.append(item.as_str());
        proof {
            if before.len() == 0 {
                assert(text@ =~= seq![label@[0], ':'] + item@);
            } else {
                assert(text@ =~= before + seq![' ', label@[0], ':'] + item@);
            }
        }
    }
}

/// Whether an outfit that is kept under a name takes the item of a part from
/// the save: it does, unless only parts are asked for and the outfit that
/// is there under the name lacks the part.
pub open spec fn keeps(partial: bool, existing: Option<Outfit>, part: Part) -> bool {
    !partial || match existing {
        None => true,
        Some(outfit) => outfit.part_of(part) is Some,
    }
}

/// The item that an outfit takes for a part from the save, if it takes any.
pub fn save_part(value: String, partial: bool, existing: &Option<Outfit>, part: Part) -> (item:
    Option<String>)
    ensures
        text_of(item) == if keeps(partial, *existing, part) {
            Some(value@)
        } else {
            None
        },
{
    let has_part = match existing {
        None => true,
        Some(outfit) => match part {
            Part::Hair => outfit.hair.is_some(),
            Part::Face => outfit.face.is_some(),
            Part::Accessory => outfit.accessory.is_some(),
            Part::Shirt => outfit.shirt.is_some(),
            Part::Jacket => outfit.jacket.is_some(),
        },
    };
    if !partial || has_part {
        Some(value)
    } else {
        None
    }
}

/// The item of a part that a character wears.
pub open spec fn worn_of(worn: Worn, part: Part) -> Seq<char> {
    match part {
        Part::Hair => worn.hair@,
        Part::Face => worn.face@,
        Part::Accessory => worn.accessory@,
        Part::Shirt => worn.shirt@,
        Part::Jacket => worn.jacket@,
    }
}

/// The outfit that is kept of what a character wears, where `existing` is
/// the outfit that is there under the name: every part, or, where only parts
/// are asked for, the parts that the outfit under the name has.
pub fn save_outfit(worn: Worn, existing: &Option<Outfit>, partial: bool) -> (outfit: Outfit)
    ensures
        forall|part: Part|
            outfit.part_of(part) == if keeps(partial, *existing, part) {
                Some(worn_of(worn, part))
            } else {
                None
            },
{
    let hair = save_part(worn.hair, partial, existing, Part::Hair);
    let face = save_part(worn.face, partial, existing, Part::Face);
    let accessory = save_part(worn.accessory, partial, existing, Part::Accessory);
    let shirt = save_part(worn.shirt, partial, existing, Part::Shirt);
    let jacket = save_part(worn.jacket, partial, existing, Part::Jacket);
    Outfit { hair, face, accessory, shirt, jacket }
}

/// What becomes of a part when an outfit is put on.
#[derive(Debug, PartialEq)]
pub enum Loaded {
    /// The outfit has no item for the part, which stays as it is.
    Skipped,
    /// The character does not own the item, and the part stays as it is.
    PassedOver(String),
    /// The character wears the item from now on.
    PutOn(String),
}

/// The texts of a run of strings.
pub open spec fn items_of(list: Seq<String>) -> Seq<Seq<char>> {
    Seq::new(list.len(), |i: int| list[i]@)
}

/// Whether a list of items holds the item.
fn owns(owned: &Vec<String>, item: &String) -> (found: bool)
    ensures
        found == items_of(owned@).contains(item@),
{
    let mut i: usize = 0;
    while i < owned.len()
        invariant
            i <= owned.len(),
            forall|j: int| 0 <= j < i ==> items_of(owned@)[j] != item@,
        decreases owned.len() - i,
    {
        if owned[i] == *item {
            assert(items_of(owned@)[i as int] == item@);
            return true;
        }
        i += 1;
    }
    false
}

/// Puts the item of a part on, where `owned` are the items of the part that
/// the character owns. An item that is not owned is passed over where parts
/// may be passed over, and is an error where they may not.
pub fn load_part(part: Part, value: Option<String>, owned: &Vec<String>, partial: bool) -> (loaded:
    Result<Loaded, OutfitError>)
    ensures
        match value {
            None => loaded matches Ok(Loaded::Skipped),
            Some(item) => if items_of(owned@).contains(item@) {
                loaded matches Ok(Loaded::PutOn(worn)) && worn@ == item@
            } else if partial {
                loaded matches Ok(Loaded::PassedOver(missing)) && missing@ == item@
            } else {
                loaded == Err::<Loaded, OutfitError>(OutfitError::NotOwned(part))
            },
        },
{
    let value = match value {
        Some(value) => value,
        None => {
            return Ok(Loaded::Skipped);
        },
    };
    if !owns(owned, &value) {
        if partial {
            return Ok(Loaded::PassedOver(value));
        } else {
            return Err(OutfitError::NotOwned(part));
        }
    }
    Ok(Loaded::PutOn(value))
}

/// The outfit to put on: the outfit of the start for its name, and for
/// another name the outfit that is kept under it.
pub fn load_outfit(outfit_name: &str, kept: Option<Outfit>) -> (outfit: Result<Outfit, OutfitError>)
    ensures
        if outfit_name@ == DEFAULT_OUTFIT@ {
            outfit matches Ok(o) && forall|part: Part|
                o.part_of(part) == Some(Outfit::default_part(part))
        } else {
            match kept {
                Some(k) => outfit == Ok::<Outfit, OutfitError>(k),
                None => outfit == Err::<Outfit, OutfitError>(OutfitError::NotFound),
            }
        },
{
    if same_text(outfit_name, DEFAULT_OUTFIT) {
        Ok(Outfit::default())
    } else {
        match kept {
            Some(outfit) => Ok(outfit),
            None => Err(OutfitError::NotFound),
        }
    }
}

/// The path of the file that holds the outfits.
pub open spec fn outfits_file_of(
    outfits_path: Option<Seq<char>>,
    save_dir: SaveDirHandler,
    facts: DirFacts,
) -> Result<Seq<char>, SaveDirError> {
    match outfits_path {
        Some(path) => Ok(path),
        None => match save_dir.save_dir_of(facts) {
            Ok(dir) => Ok(joined(dir, OUTFITS_FILE@)),
            Err(e) => Err(e),
        },
    }
}

/// Whether `task` is what `ops` asks for. The file of the outfits is named
/// first. Then an outfit is not kept under the name of the outfit of the
/// start, and the save file of the slot is named for keeping and for putting
/// on; for putting on, the two files beside it are named as well.
pub open spec fn tasked(
    task: Result<Task, OutfitError>,
    ops: Ops,
    save_dir: SaveDirHandler,
    facts: DirFacts,
) -> bool {
    match outfits_file_of(text_of(ops.outfits_path), save_dir, facts) {
        Err(e) => task == Err::<Task, OutfitError>(OutfitError::NoSaveDir(e)),
        Ok(file) => match ops.action {
            Cmd::List => task matches Ok(Task::List { outfits_file }) && outfits_file@ == file,
            Cmd::Save { save_slot, outfit, partial } => if outfit@ == DEFAULT_OUTFIT@ {
                task == Err::<Task, OutfitError>(OutfitError::Reserved)
            } else {
                match save_dir.save_slot_of(save_slot, facts) {
                    Err(e) => task == Err::<Task, OutfitError>(OutfitError::NoSaveFile(e)),
                    Ok(save) => task matches Ok(
                        Task::Save { outfits_file, save_file, outfit: name, partial: p },
                    ) && outfits_file@ == file && save_file@ == save && name@ == outfit@ && p
                        == partial,
                }
            },
            Cmd::Load { save_slot, outfit, partial } => match save_dir.save_slot_of(
                save_slot,
                facts,
            ) {
                Err(e) => task == Err::<Task, OutfitError>(OutfitError::NoSaveFile(e)),
                Ok(save) => match beside(save) {
                    None => task == Err::<Task, OutfitError>(
                        OutfitError::NoSaveFile(SaveDirError::SeparatorInExtension),
                    ),
                    Some((tmp, bak)) => task matches Ok(
                        Task::Load {
                            outfits_file,
                            save_file,
                            output_tmp,
                            backup,
                            outfit: name,
                            from_file,
                            partial: p,
                        },
                    ) && outfits_file@ == file && save_file@ == save && output_tmp@ == tmp
                        && backup@ == bak && name@ == outfit@ && from_file == (outfit@
                        != DEFAULT_OUTFIT@) && p == partial,
                },
            },
        },
    }
}

/// Whether naming the task asks for the save directory: it does where no file
/// of outfits is given, and where the save file of a slot that there is gets
/// named, which it does not for keeping an outfit under the name of the outfit
/// of the start.
pub open spec fn asks_for_save_dir(ops: Ops) -> bool {
    ops.outfits_path is None || match ops.action {
        Cmd::List => false,
        Cmd::Save { save_slot, outfit, partial } => outfit@ != DEFAULT_OUTFIT@ && save_slot
            <= LAST_SLOT,
        Cmd::Load { save_slot, outfit, partial } => save_slot <= LAST_SLOT,
    }
}

/// Whether naming the task asks for the save directory, so that the disk has
/// to be looked at before.
pub fn needs_save_dir(ops: &Ops) -> (needs: bool)
    ensures
        needs == asks_for_save_dir(*ops),
{
    if ops.outfits_path.is_none() {
        return true;
    }
    match &ops.action {
        Cmd::List => false,
        Cmd::Save { save_slot, outfit, partial } => !same_text(outfit.as_str(), DEFAULT_OUTFIT)
            && *save_slot <= LAST_SLOT,
        Cmd::Load { save_slot, outfit, partial } => *save_slot <= LAST_SLOT,
    }
}

/// Names what is to be done and the files that it is done with. The save
/// directory is asked for where `asks_for_save_dir` says so, and nowhere else:
/// where it is not, the handler is left as it was.
pub fn handler(ops: Ops, save_dir: &mut SaveDirHandler, facts: &DirFacts) -> (task: Result<
    Task,
    OutfitError,
>)
    ensures
        final(save_dir).overridden() == old(save_dir).overridden(),
        final(save_dir).found() == if asks_for_save_dir(ops) {
            old(save_dir).remembers(*facts)
        } else {
            old(save_dir).found()
        },
        tasked(task, ops, *old(save_dir), *facts),
{
    let outfits_file = match ops.outfits_path {
        Some(path) => path,
        None => match save_dir.get_save_dir(facts) {
            Ok(dir) => path_join(dir.as_str(), OUTFITS_FILE),
            Err(e) => {
                return Err(OutfitError::NoSaveDir(e));
            },
        },
    };
    match ops.action {
        Cmd::List => Ok(Task::List { outfits_file }),
        Cmd::Save { save_slot, outfit, partial } => {
            if same_text(outfit.as_str(), DEFAULT_OUTFIT) {
                return Err(OutfitError::Reserved);
            }
            let save_file = match save_dir.resolve_save_slot(save_slot, facts) {
                Ok(file) => file,
                Err(e) => {
                    return Err(OutfitError::NoSaveFile(e));
                },
            };
            Ok(Task::Save { outfits_file, save_file, outfit, partial })
        },
        Cmd::Load { save_slot, outfit, partial } => {
            let save_file = match save_dir.resolve_save_slot(save_slot, facts) {
                Ok(file) => file,
                Err(e) => {
                    return Err(OutfitError::NoSaveFile(e));
                },
            };
            let (output_tmp, backup) = match files_beside(save_file.as_str()) {
                Some(files) => files,
                None => {
                    return Err(OutfitError::NoSaveFile(SaveDirError::SeparatorInExtension));
                },
            };
            let from_file = !same_text(outfit.as_str(), DEFAULT_OUTFIT);
            Ok(Task::Load { outfits_file, save_file, output_tmp, backup, outfit, from_file, partial })
        },
    }
}

} // verus!
