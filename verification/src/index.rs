//! Converting staged files to placeholders.
use crate::error::FatError;
use crate::filter::cleaned;
use crate::hashing::{hex_text, is_hex_digit, lemma_hex_text};
use crate::names::NameSet;
use crate::oid::{
    is_oid_text, law_oid_text_round_trip, oid_bytes, oid_display, oid_text_bytes, parse_oid,
};
use crate::text::{
    first_char, from_utf8_lossy, lemma_first_char, lemma_last_line_ended, lemma_line_appended,
    lines, lossy_text,
    text_lines, texts, trimmed, trimmed_end,
};
use git2::Oid;
use vstd::prelude::*;
use vstd::utf8::*;

verus! {

/// The mode of a symbolic link in the index.
pub const SYMLINK_MODE: u32 = 0o120000;

/// The mode of a regular file in the index.
pub const FILE_MODE: u32 = 0o100644;

/// Whether a staged file is converted: it is on the list and is no symbolic link.
pub open spec fn is_converted(listed: Set<Seq<char>>, mode: u32, filename: Seq<char>) -> bool {
    mode != SYMLINK_MODE && listed.contains(filename)
}

/// An entry of the index.
pub struct StagedEntry {
    pub path: Vec<u8>,
    pub mode: u32,
    pub id: Oid,
}

/// Whether an entry of the index is converted. Its name is its path as text.
pub open spec fn is_chosen(listed: Set<Seq<char>>, entry: StagedEntry) -> bool {
    is_converted(listed, entry.mode, lossy_text(entry.path@))
}

/// The names of the entries that are converted, in the order of the index.
pub open spec fn chosen_names(listed: Set<Seq<char>>, entries: Seq<StagedEntry>) -> Seq<Seq<char>>
    decreases entries.len(),
{
    if entries.len() == 0 {
        Seq::empty()
    } else {
        let earlier = chosen_names(listed, entries.drop_last());
        if is_chosen(listed, entries.last()) {
            earlier.push(lossy_text(entries.last().path@))
        } else {
            earlier
        }
    }
}

/// The position of the first entry at or after `from` that is converted, or the number of
/// entries.
pub open spec fn next_chosen(listed: Set<Seq<char>>, entries: Seq<StagedEntry>, from: int) -> int
    decreases entries.len() - from,
{
    if from < 0 || from >= entries.len() {
        entries.len() as int
    } else if is_chosen(listed, entries[from]) {
        from
    } else {
        next_chosen(listed, entries, from + 1)
    }
}

/// The file `.gitattributes` as it is staged: its mode, and its content where that can be read.
pub struct StagedAttributes {
    pub mode: u32,
    pub content: Option<Vec<u8>>,
}

/// The file `.gitattributes` as it is to be staged.
pub struct NewAttributes {
    pub mode: u32,
    pub content: String,
    pub file_size: u32,
}

/// The lines that hand the named files over to the filter.
pub open spec fn attribute_lines(names: Seq<Seq<char>>) -> Seq<char>
    decreases names.len(),
{
    if names.len() == 0 {
        Seq::empty()
    } else {
        attribute_lines(names.drop_last()) + names.last() + " filter=fat -text\n"@
    }
}

/// A text whose last line is ended: a line feed is put behind it where one is missing.
pub open spec fn finished(text: Seq<char>) -> Seq<char> {
    if text.len() > 0 && text.last() != '\n' {
        text.push('\n')
    } else {
        text
    }
}

/// The mode with which `.gitattributes` is staged: the one that it has, or that of a regular
/// file.
pub open spec fn attributes_mode(current: Option<StagedAttributes>) -> u32 {
    match current {
        Some(staged) => staged.mode,
        None => FILE_MODE,
    }
}

/// The text of `.gitattributes` before the new lines.
pub open spec fn attributes_text(current: Option<StagedAttributes>) -> Seq<char> {
    match current {
        Some(staged) => match staged.content {
            Some(content) => lossy_text(content@),
            None => Seq::empty(),
        },
        None => Seq::empty(),
    }
}

/// A text to be kept in the file of a name, so that a placeholder is made only once.
pub struct Memo {
    pub name: String,
    pub text: String,
}

/// What a conversion was told about an entry.
pub enum Answer {
    /// The text that remembers its placeholder.
    Recalled(Seq<char>),
    /// The id of its placeholder, which was made.
    Cleaned(Oid),
}

/// Whether an answer gives this id for a placeholder.
pub open spec fn gives_id(answer: Answer, id: Oid) -> bool {
    match answer {
        Answer::Recalled(text) => is_oid_text(trimmed(text)) && oid_bytes(id)@ == oid_text_bytes(
            trimmed(text),
        ),
        Answer::Cleaned(made) => id == made,
    }
}

/// What is to be done next in a conversion.
pub enum IndexAction {
    /// The file of this name is read, where it exists: it remembers the placeholder of an entry.
    Recall { name: String },
    /// The blob of this id is cleaned, and its placeholder is put into the repository.
    Clean { id: Oid },
    /// The memo is written, where there is one, and the entry at this position of the index is
    /// staged with a new id.
    Stage { entry: usize, id: Oid, memo: Option<Memo> },
    /// `.gitattributes` is looked up in the index.
    ReadAttributes,
    /// `.gitattributes` is put into the repository and staged.
    StageAttributes(NewAttributes),
    /// The index is written.
    Finish,
}

/// How far a conversion is.
#[derive(Debug, Clone, Copy, PartialEq, Eq, Structural)]
pub enum Phase {
    /// It has not begun.
    Ready,
    /// The placeholder of the current entry is being recalled.
    Recalling,
    /// The current entry is being cleaned.
    Cleaning,
    /// The current entry is being staged.
    Staging,
    /// `.gitattributes` is being looked up.
    ReadingAttributes,
    /// `.gitattributes` is being staged.
    StagingAttributes,
    /// Nothing is left but to write the index.
    Finished,
}

/// The conversion of the staged files on a list. It goes through the index, names what is to be
/// done, and is told what came of it.
pub struct IndexFilter {
    files: NameSet,
    update_gitattributes: bool,
    entries: Vec<StagedEntry>,
    position: usize,
    phase: Phase,
    newfiles: Vec<String>,
    outcome: Ghost<Seq<StagedEntry>>,
    answers: Ghost<Map<int, Answer>>,
}

impl IndexFilter {
    /// The names on the list.
    pub closed spec fn listed(self) -> Set<Seq<char>> {
        self.files@
    }

    /// Whether `.gitattributes` is to be updated.
    pub closed spec fn updates(self) -> bool {
        self.update_gitattributes
    }

    /// The entries of the index.
    pub closed spec fn entries(self) -> Seq<StagedEntry> {
        self.entries@
    }

    /// The position of the current entry.
    pub closed spec fn position(self) -> int {
        self.position as int
    }

    /// How far the conversion is.
    pub closed spec fn phase(self) -> Phase {
        self.phase
    }

    /// The files that have been converted.
    pub closed spec fn converted(self) -> Seq<Seq<char>> {
        texts(self.newfiles@)
    }

    /// The entries of the index once all has been done that was named so far, `.gitattributes`
    /// aside.
    pub closed spec fn outcome(self) -> Seq<StagedEntry> {
        self.outcome@
    }

    /// What was told about the placeholders of entries, by their positions.
    pub closed spec fn answers(self) -> Map<int, Answer> {
        self.answers@
    }

    /// The outcome differs from the index in the ids of converted entries before `end` alone. Those
    /// have the ids that were given in answer, and nothing was told about other entries.
    pub open spec fn keeps_entries(self, end: int) -> bool {
        &&& self.outcome().len() == self.entries().len()
        &&& forall|i: int|
            #![trigger self.outcome()[i]]
            #![trigger self.entries()[i]]
            0 <= i < self.entries().len() ==> if i < end && is_chosen(
                self.listed(),
                self.entries()[i],
            ) {
                &&& self.outcome()[i].path == self.entries()[i].path
                &&& self.outcome()[i].mode == self.entries()[i].mode
                &&& self.answers().contains_key(i)
                &&& gives_id(self.answers()[i], self.outcome()[i].id)
            } else {
                &&& self.outcome()[i] == self.entries()[i]
                &&& !self.answers().contains_key(i)
            }
    }

    /// The files that have been converted are those before the current entry that had to be. The
    /// current entry is one of those, as long as there is one. `.gitattributes` is touched after
    /// the last entry, and only where it changes. An entry is changed in its id alone, and only
    /// where it is converted.
    pub open spec fn wf(self) -> bool {
        &&& 0 <= self.position() <= self.entries().len()
        &&& self.converted() == chosen_names(self.listed(), self.entries().take(self.position()))
        &&& match self.phase() {
            Phase::Ready => self.position() == 0,
            Phase::Recalling | Phase::Cleaning | Phase::Staging => self.position()
                < self.entries().len() && is_chosen(
                self.listed(),
                self.entries()[self.position()],
            ),
            Phase::ReadingAttributes | Phase::StagingAttributes => self.position()
                == self.entries().len() && self.changes(),
            Phase::Finished => self.position() == self.entries().len(),
        }
        &&& self.keeps_entries(
            if self.phase() == Phase::Staging {
                self.position() + 1
            } else {
                self.position()
            },
        )
    }

    /// Whether `.gitattributes` changes: it is to be updated, and a file has been converted.
    pub open spec fn changes(self) -> bool {
        self.updates() && self.converted().len() > 0
    }

    /// The conversion is still of the same files of the same index.
    pub open spec fn continues(self, earlier: IndexFilter) -> bool {
        &&& self.listed() == earlier.listed()
        &&& self.updates() == earlier.updates()
        &&& self.entries() == earlier.entries()
    }

    /// The conversion has gone on to the first entry at or after `from` that is converted, or to
    /// the end.
    pub open spec fn goes_on(self, from: int, action: IndexAction) -> bool {
        &&& self.position() == next_chosen(self.listed(), self.entries(), from)
        &&& if self.position() < self.entries().len() {
            &&& self.phase() == Phase::Recalling
            &&& action matches IndexAction::Recall { name }
            &&& name@ == hex_text(oid_bytes(self.entries()[self.position()].id)@)
        } else if self.changes() {
            self.phase() == Phase::ReadingAttributes && action is ReadAttributes
        } else {
            self.phase() == Phase::Finished && action is Finish
        }
    }

    /// A conversion of the files on a list, which holds one name a line, among the entries of an
    /// index.
    pub fn new(filelist: &str, update_gitattributes: bool, entries: Vec<StagedEntry>) -> (res:
        IndexFilter)
        ensures
            res.wf(),
            forall|name: Seq<char>|
                res.listed().contains(name) <==> text_lines(filelist@).contains(name),
            res.updates() == update_gitattributes,
            res.entries() == entries@,
            res.outcome() == entries@,
            res.answers() == Map::<int, Answer>::empty(),
            res.converted() == Seq::<Seq<char>>::empty(),
            res.phase() == Phase::Ready,
    {
        let mut files = NameSet::new();
        let list = lines(filelist);
        let ghost names = text_lines(filelist@);
        let mut i: usize = 0;
        while i < list.len()
            invariant
                i <= list@.len(),
                texts(list@) == names,
                files.wf(),
                forall|name: Seq<char>|
                    files@.contains(name) <==> names.take(i as int).contains(name),
            decreases list@.len() - i,
        {
            let _ = files.insert(list[i].clone());
            proof {
                let before = names.take(i as int);
                let after = names.take(i + 1);
                assert(names[i as int] == list@[i as int]@);
                assert(after =~= before.push(names[i as int]));
                assert forall|name: Seq<char>|
                    after.contains(name) <==> before.contains(name) || name == names[i as int] by {
                    if before.contains(name) {
                        let j = before.index_of(name);
                        assert(after[j] == name);
                    }
                    if after.contains(name) && name != names[i as int] {
                        let j = after.index_of(name);
                        assert(before[j] == name);
                    }
                    assert(after[i as int] == names[i as int]);
                }
            }
            i = i + 1;
        }
        assert(names.take(list@.len() as int) =~= names);
        let newfiles: Vec<String> = Vec::new();
        assert(texts(newfiles@) =~= Seq::<Seq<char>>::empty());
        let outcome: Ghost<Seq<StagedEntry>> = Ghost(entries@);
        let answers: Ghost<Map<int, Answer>> = Ghost(Map::empty());
        IndexFilter {
            files,
            update_gitattributes,
            entries,
            position: 0,
            phase: Phase::Ready,
            newfiles,
            outcome,
            answers,
        }
    }

    /// Whether a staged file of this mode and name is converted.
    pub fn selects(&self, mode: u32, filename: &str) -> (res: bool)
        ensures
            res == is_converted(self.listed(), mode, filename@),
    {
        mode != SYMLINK_MODE && self.files.contains(filename)
    }

    /// Goes on to the next entry that is converted.
    fn scan(&mut self) -> (res: IndexAction)
        requires
            0 <= old(self).position() <= old(self).entries().len(),
            old(self).converted() == chosen_names(
                old(self).listed(),
                old(self).entries().take(old(self).position()),
            ),
            old(self).keeps_entries(old(self).position()),
        ensures
            final(self).wf(),
            final(self).continues(*old(self)),
            final(self).converted() == old(self).converted(),
            final(self).outcome() == old(self).outcome(),
            final(self).answers() == old(self).answers(),
            final(self).goes_on(old(self).position(), res),
    {
        while self.position < self.entries.len()
            invariant
                self.continues(*old(self)),
                self.newfiles == old(self).newfiles,
                self.outcome == old(self).outcome,
                self.answers == old(self).answers,
                self.keeps_entries(self.position()),
                self.position <= self.entries@.len(),
                self.converted() == chosen_names(
                    self.listed(),
                    self.entries().take(self.position()),
                ),
                next_chosen(self.listed(), self.entries(), self.position()) == next_chosen(
                    old(self).listed(),
                    old(self).entries(),
                    old(self).position(),
                ),
            decreases self.entries@.len() - self.position,
        {
            let entry = &self.entries[self.position];
            let filename = from_utf8_lossy(entry.path.as_slice());
            if self.selects(entry.mode, filename.as_str()) {
                let name = oid_display(&entry.id);
                self.phase = Phase::Recalling;
                return IndexAction::Recall { name };
            }
            proof {
                let after = self.entries().take(self.position() + 1);
                assert(after.drop_last() =~= self.entries().take(self.position()));
                assert(after.last() == self.entries()[self.position()]);
            }
            self.position = self.position + 1;
        }
        if self.update_gitattributes && self.newfiles.len() > 0 {
            self.phase = Phase::ReadingAttributes;
            IndexAction::ReadAttributes
        } else {
            self.phase = Phase::Finished;
            IndexAction::Finish
        }
    }

    /// Begins the conversion.
    pub fn begin(&mut self) -> (res: IndexAction)
        requires
            old(self).wf(),
            old(self).phase() == Phase::Ready,
        ensures
            final(self).wf(),
            final(self).continues(*old(self)),
            final(self).converted() == old(self).converted(),
            final(self).outcome() == old(self).outcome(),
            final(self).answers() == old(self).answers(),
            final(self).goes_on(0, res),
    {
        self.scan()
    }

    /// The outcome with a new id for the current entry.
    pub open spec fn with_id(self, id: Oid) -> Seq<StagedEntry> {
        self.outcome().update(
            self.position(),
            StagedEntry { id, ..self.entries()[self.position()] },
        )
    }

    /// Goes on to stage the current entry with a new id, which was given in answer.
    fn set_id(&mut self, id: Oid, Ghost(answer): Ghost<Answer>)
        requires
            old(self).wf(),
            gives_id(answer, id),
            old(self).phase() == Phase::Recalling || old(self).phase() == Phase::Cleaning,
        ensures
            final(self).wf(),
            final(self).continues(*old(self)),
            final(self).converted() == old(self).converted(),
            final(self).position() == old(self).position(),
            final(self).phase() == Phase::Staging,
            final(self).outcome() == old(self).with_id(id),
            final(self).answers() == old(self).answers().insert(old(self).position(), answer),
    {
        proof {
            self.outcome@ = self.with_id(id);
            self.answers@ = self.answers@.insert(self.position(), answer);
        }
        self.phase = Phase::Staging;
    }

    /// The memory of the current entry has been read: its text, where there was one. The entry is
    /// staged with the id that is remembered, and is cleaned where none is.
    pub fn recalled(&mut self, memory: Option<&str>) -> (res: Result<IndexAction, FatError>)
        requires
            old(self).wf(),
            old(self).phase() == Phase::Recalling,
        ensures
            final(self).wf(),
            final(self).continues(*old(self)),
            final(self).converted() == old(self).converted(),
            final(self).position() == old(self).position(),
            match memory {
                Some(text) => match res {
                    Ok(IndexAction::Stage { entry, id, memo }) => {
                        &&& is_oid_text(trimmed(text@))
                        &&& oid_bytes(id)@ == oid_text_bytes(trimmed(text@))
                        &&& entry == old(self).position()
                        &&& memo is None
                        &&& final(self).phase() == Phase::Staging
                        &&& final(self).outcome() == old(self).with_id(id)
                        &&& final(self).answers() == old(self).answers().insert(
                            old(self).position(),
                            Answer::Recalled(text@),
                        )
                    },
                    Ok(_) => false,
                    Err(error) => {
                        &&& !is_oid_text(trimmed(text@))
                        &&& error is Git
                        &&& final(self).phase() == Phase::Recalling
                        &&& final(self).outcome() == old(self).outcome()
                        &&& final(self).answers() == old(self).answers()
                    },
                },
                None => match res {
                    Ok(IndexAction::Clean { id }) => {
                        &&& id == old(self).entries()[old(self).position()].id
                        &&& final(self).phase() == Phase::Cleaning
                        &&& final(self).outcome() == old(self).outcome()
                        &&& final(self).answers() == old(self).answers()
                    },
                    _ => false,
                },
            },
    {
        match memory {
            Some(text) => match parse_oid(text.trim()) {
                Ok(id) => {
                    self.set_id(id, Ghost(Answer::Recalled(text@)));
                    Ok(IndexAction::Stage { entry: self.position, id, memo: None })
                },
                Err(error) => Err(error),
            },
            None => {
                self.phase = Phase::Cleaning;
                Ok(IndexAction::Clean { id: self.entries[self.position].id })
            },
        }
    }

    /// The current entry has been cleaned, and its placeholder has this id. That is remembered
    /// under the id of the entry, which is then staged.
    pub fn cleaned(&mut self, id: Oid) -> (res: IndexAction)
        requires
            old(self).wf(),
            old(self).phase() == Phase::Cleaning,
        ensures
            final(self).wf(),
            final(self).continues(*old(self)),
            final(self).converted() == old(self).converted(),
            final(self).position() == old(self).position(),
            final(self).phase() == Phase::Staging,
            final(self).outcome() == old(self).with_id(id),
            final(self).answers() == old(self).answers().insert(
                old(self).position(),
                Answer::Cleaned(id),
            ),
            match res {
                IndexAction::Stage { entry, id: new_id, memo } => {
                    &&& entry == old(self).position()
                    &&& new_id == id
                    &&& memo matches Some(note)
                    &&& note.name@ == hex_text(
                        oid_bytes(old(self).entries()[old(self).position()].id)@,
                    )
                    &&& note.text@ == memory_text(id)
                },
                _ => false,
            },
    {
        self.set_id(id, Ghost(Answer::Cleaned(id)));
        let memo = Memo {
            name: oid_display(&self.entries[self.position].id),
            text: oid_display(&id).concat("\n"),
        };
        IndexAction::Stage { entry: self.position, id, memo: Some(memo) }
    }

    /// The current entry has been staged. The conversion goes on behind it.
    pub fn staged(&mut self) -> (res: IndexAction)
        requires
            old(self).wf(),
            old(self).phase() == Phase::Staging,
        ensures
            final(self).wf(),
            final(self).continues(*old(self)),
            final(self).converted() == old(self).converted().push(
                lossy_text(old(self).entries()[old(self).position()].path@),
            ),
            final(self).outcome() == old(self).outcome(),
            final(self).answers() == old(self).answers(),
            final(self).goes_on(old(self).position() + 1, res),
    {
        let ghost before = self.converted();
        let filename = from_utf8_lossy(self.entries[self.position].path.as_slice());
        self.newfiles.push(filename);
        assert(self.position < self.entries.len());
        self.position = self.position + 1;
        proof {
            let after = self.entries().take(self.position());
            assert(after.drop_last() =~= self.entries().take(self.position() - 1));
            assert(after.last() == self.entries()[self.position() - 1]);
            assert(self.converted() =~= before.push(filename@));
        }
        self.scan()
    }

    /// `.gitattributes` has been looked up. It is staged with a line more for each converted
    /// file.
    pub fn attributes_read(&mut self, current: Option<StagedAttributes>) -> (res: IndexAction)
        requires
            old(self).wf(),
            old(self).phase() == Phase::ReadingAttributes,
        ensures
            final(self).wf(),
            final(self).continues(*old(self)),
            final(self).converted() == old(self).converted(),
            final(self).outcome() == old(self).outcome(),
            final(self).answers() == old(self).answers(),
            final(self).phase() == Phase::StagingAttributes,
            match res {
                IndexAction::StageAttributes(new) => new.extends(
                    attributes_mode(current),
                    attributes_text(current),
                    old(self).converted(),
                ),
                _ => false,
            },
    {
        let (mode, text): (u32, String) = match &current {
            Some(staged) => (
                staged.mode,
                match &staged.content {
                    Some(content) => from_utf8_lossy(content.as_slice()),
                    None => String::new(),
                },
            ),
            None => (FILE_MODE, String::new()),
        };
        self.phase = Phase::StagingAttributes;
        IndexAction::StageAttributes(extended_attributes(mode, text, &self.newfiles))
    }

    /// `.gitattributes` has been staged. Nothing is left but to write the index.
    pub fn attributes_staged(&mut self) -> (res: IndexAction)
        requires
            old(self).wf(),
            old(self).phase() == Phase::StagingAttributes,
        ensures
            final(self).wf(),
            final(self).continues(*old(self)),
            final(self).converted() == old(self).converted(),
            final(self).outcome() == old(self).outcome(),
            final(self).answers() == old(self).answers(),
            final(self).phase() == Phase::Finished,
            res is Finish,
    {
        self.phase = Phase::Finished;
        IndexAction::Finish
    }
}

impl NewAttributes {
    /// The file has the mode, the text with its last line ended, and behind it the lines for the
    /// named files.
    pub open spec fn extends(self, mode: u32, text: Seq<char>, names: Seq<Seq<char>>) -> bool {
        &&& self.mode == mode
        &&& self.content@ == finished(text) + attribute_lines(names)
        &&& self.file_size as int == encode_utf8(self.content@).len() % 0x1_0000_0000
    }
}

/// Writes the new `.gitattributes`, given its mode, the text that it held, and the files that have
/// been converted.
pub fn extended_attributes(mode: u32, text: String, newfiles: &Vec<String>) -> (res: NewAttributes)
    ensures
        res.extends(mode, text@, texts(newfiles@)),
{
    let ghost old_text = text@;
    let ghost names = texts(newfiles@);
    let mut content: String = text;
    let len: usize = content.as_str().unicode_len();
    if len > 0 && content.as_str().get_char(len - 1) != '\n' {
        content.push('\n');
    }
    assert(content@ =~= finished(old_text) + attribute_lines(names.take(0)));
    let mut i: usize = 0;
    while i < newfiles.len()
        invariant
            i <= newfiles@.len(),
            names == texts(newfiles@),
            content@ == finished(old_text) + attribute_lines(names.take(i as int)),
        decreases newfiles@.len() - i,
    {
        content.append(newfiles[i].as_str());
        content.append(" filter=fat -text\n");
        i = i + 1;
        proof {
            let after = names.take(i as int);
            assert(after.drop_last() =~= names.take(i - 1));
            assert(after.last() == newfiles@[i - 1]@);
            assert(content@ =~= finished(old_text) + attribute_lines(after));
        }
    }
    assert(names.take(names.len() as int) =~= names);
    let size: usize = content.as_str().as_bytes().len();
    let file_size: u32 = ((size as u64) % 0x1_0000_0000) as u32;
    NewAttributes { mode, content, file_size }
}

/// The text that remembers the id of a placeholder.
pub open spec fn memory_text(id: Oid) -> Seq<char> {
    hex_text(oid_bytes(id)@) + "\n"@
}

/// The id of a placeholder is read back from the text that remembers it.
pub proof fn law_remembered_id(id: Oid)
    ensures
        is_oid_text(trimmed(memory_text(id))),
        oid_text_bytes(trimmed(memory_text(id))) == oid_bytes(id)@,
{
    reveal_strlit("\n");
    let digits = hex_text(oid_bytes(id)@);
    let text = digits + "\n"@;
    lemma_hex_text(oid_bytes(id)@);
    assert(is_hex_digit(digits[0]) && is_hex_digit(digits[39]));
    assert(text.drop_last() =~= digits);
    assert(text.last() == '\n');
    assert(text[0] == digits[0]);
    assert(crate::text::trimmed_start(text) == text);
    assert(trimmed_end(digits) == digits);
    assert(trimmed(text) == digits);
    law_oid_text_round_trip(oid_bytes(id));
}

/// The line that hands a file over to the filter, without its line feed.
pub open spec fn attribute_line(name: Seq<char>) -> Seq<char> {
    name + " filter=fat -text"@
}

/// The conversion adds one line to `.gitattributes` for each converted file, in their order, and
/// keeps the lines that were there, whether or not the last of them was ended. (A carriage return
/// at the very end of the text is a part of its last line until a line feed follows it.)
pub proof fn law_attributes_gain_lines(text: Seq<char>, names: Seq<Seq<char>>)
    requires
        forall|i: int| 0 <= i < names.len() ==> !(#[trigger] names[i]).contains('\n'),
    ensures
        text_lines(finished(text) + attribute_lines(names)) == text_lines(finished(text))
            + names.map_values(|name: Seq<char>| attribute_line(name)),
        text.len() == 0 || text.last() != '\r' ==> text_lines(finished(text) + attribute_lines(names))
            == text_lines(text) + names.map_values(|name: Seq<char>| attribute_line(name)),
{
    lemma_lines_added(finished(text), names);
    if text.len() > 0 && text.last() != '\n' && text.last() != '\r' {
        lemma_last_line_ended(text);
    }
}

/// Lines behind complete lines are so many lines more.
proof fn lemma_lines_added(text: Seq<char>, names: Seq<Seq<char>>)
    requires
        text.len() == 0 || text.last() == '\n',
        forall|i: int| 0 <= i < names.len() ==> !(#[trigger] names[i]).contains('\n'),
    ensures
        text_lines(text + attribute_lines(names)) == text_lines(text) + names.map_values(
            |name: Seq<char>| attribute_line(name),
        ),
    decreases names.len(),
{
    reveal_strlit(" filter=fat -text\n");
    reveal_strlit(" filter=fat -text");
    let added = names.map_values(|name: Seq<char>| attribute_line(name));
    if names.len() == 0 {
        assert(text + attribute_lines(names) =~= text);
        assert(text_lines(text) + added =~= text_lines(text));
    } else {
        let earlier = names.drop_last();
        let before = text + attribute_lines(earlier);
        let line = attribute_line(names.last());
        lemma_lines_added(text, earlier);
        assert(" filter=fat -text\n"@ =~= " filter=fat -text"@ + seq!['\n']);
        assert(text + attribute_lines(names) =~= before + line + seq!['\n']);
        assert(before.len() == 0 || before.last() == '\n') by {
            if earlier.len() > 0 {
                assert(attribute_lines(earlier).last() == '\n');
            } else {
                assert(before =~= text);
            }
        }
        assert(!line.contains('\n')) by {
            if line.contains('\n') {
                let i = line.index_of('\n');
                if i < names.last().len() {
                    assert(names.last()[i] == '\n');
                    assert(names[names.len() - 1].contains('\n'));
                }
            }
        }
        lemma_line_appended(before, line);
        assert(added =~= earlier.map_values(|name: Seq<char>| attribute_line(name)).push(line));
        assert(text_lines(text + attribute_lines(names)) =~= text_lines(text) + added);
    }
}

/// No name on a list holds a line feed, so no converted file does.
pub proof fn law_listed_names_are_lines(filelist: Seq<char>, i: int)
    requires
        0 <= i < text_lines(filelist).len(),
    ensures
        !text_lines(filelist)[i].contains('\n'),
    decreases filelist.len(),
{
    lemma_first_char(filelist, '\n', 0);
    let end = first_char(filelist, '\n', 0);
    if end >= filelist.len() {
        assert(text_lines(filelist)[i] == filelist);
    } else if i == 0 {
        let line = filelist.take(end);
        assert(text_lines(filelist)[0] == crate::text::without_carriage_return(line));
        assert forall|j: int| 0 <= j < line.len() implies line[j] != '\n' by {
            assert(line[j] == filelist[j]);
        }
    } else {
        law_listed_names_are_lines(filelist.skip(end + 1), i - 1);
        assert(text_lines(filelist)[i] == text_lines(filelist.skip(end + 1))[i - 1]);
    }
}

/// A conversion keeps the number of staged files and their paths and modes, and replaces the
/// content of those alone that are on the list and are no symbolic links.
pub proof fn law_conversion_touches_listed_files_alone(filter: IndexFilter, i: int)
    requires
        filter.wf(),
        0 <= i < filter.entries().len(),
    ensures
        filter.outcome().len() == filter.entries().len(),
        filter.outcome()[i].path == filter.entries()[i].path,
        filter.outcome()[i].mode == filter.entries()[i].mode,
        !filter.listed().contains(lossy_text(filter.entries()[i].path@))
            || filter.entries()[i].mode == SYMLINK_MODE ==> filter.outcome()[i]
            == filter.entries()[i],
{
}

/// Each converted entry has the id that was recalled or made for it, and no other entry has a new
/// id.
pub proof fn law_converted_entries_have_their_ids(filter: IndexFilter, i: int)
    requires
        filter.wf(),
        0 <= i < filter.position(),
    ensures
        is_chosen(filter.listed(), filter.entries()[i]) ==> filter.answers().contains_key(i)
            && gives_id(filter.answers()[i], filter.outcome()[i].id),
        !is_chosen(filter.listed(), filter.entries()[i]) ==> filter.outcome()[i].id
            == filter.entries()[i].id,
{
    assert(filter.outcome()[i].path == filter.entries()[i].path);
}

/// The blobs of a repository, by the bytes of their ids.
pub type Blobs = Map<Seq<u8>, Seq<u8>>;

/// Whether an answer about an entry is right: the blob that it names is the placeholder of the
/// blob of that entry, and what is recalled was remembered of such a blob.
pub open spec fn is_right(answer: Answer, blobs: Blobs, entry: StagedEntry) -> bool {
    let placeholder = cleaned(blobs[oid_bytes(entry.id)@]);
    match answer {
        Answer::Recalled(text) => exists|id: Oid|
            text == #[trigger] memory_text(id) && blobs[oid_bytes(id)@] == placeholder,
        Answer::Cleaned(id) => blobs[oid_bytes(id)@] == placeholder,
    }
}

/// Where a conversion is told the truth, each converted entry ends up with the placeholder of its
/// content, and every other entry with its content.
pub proof fn law_converted_entries_are_placeholders(filter: IndexFilter, blobs: Blobs, i: int)
    requires
        filter.wf(),
        0 <= i < filter.position(),
        filter.answers().contains_key(i) ==> is_right(
            filter.answers()[i],
            blobs,
            filter.entries()[i],
        ),
    ensures
        blobs[oid_bytes(filter.outcome()[i].id)@] == if is_chosen(
            filter.listed(),
            filter.entries()[i],
        ) {
            cleaned(blobs[oid_bytes(filter.entries()[i].id)@])
        } else {
            blobs[oid_bytes(filter.entries()[i].id)@]
        },
{
    law_converted_entries_have_their_ids(filter, i);
    if is_chosen(filter.listed(), filter.entries()[i]) {
        if let Answer::Recalled(text) = filter.answers()[i] {
            let placeholder = cleaned(blobs[oid_bytes(filter.entries()[i].id)@]);
            let id = choose|id: Oid|
                text == #[trigger] memory_text(id) && blobs[oid_bytes(id)@] == placeholder;
            law_remembered_id(id);
        }
    }
}

/// Each converted file is on the list.
pub proof fn law_converted_files_are_listed(filter: IndexFilter, i: int)
    requires
        filter.wf(),
        0 <= i < filter.converted().len(),
    ensures
        filter.listed().contains(filter.converted()[i]),
{
    lemma_chosen_names(filter.listed(), filter.entries().take(filter.position()), i);
}

/// The `.gitattributes` that a conversion stages has the lines that were there and one more for
/// each converted file, in their order.
pub proof fn law_conversion_adds_attribute_lines(
    filter: IndexFilter,
    filelist: Seq<char>,
    text: Seq<char>,
    new: NewAttributes,
)
    requires
        filter.wf(),
        forall|name: Seq<char>|
            filter.listed().contains(name) <==> text_lines(filelist).contains(name),
        new.extends(new.mode, text, filter.converted()),
        text.len() == 0 || text.last() != '\r',
    ensures
        text_lines(new.content@) == text_lines(text) + filter.converted().map_values(
            |name: Seq<char>| attribute_line(name),
        ),
{
    assert forall|i: int| 0 <= i < filter.converted().len() implies !(
    #[trigger] filter.converted()[i]).contains('\n') by {
        law_converted_files_are_listed(filter, i);
        let lines = text_lines(filelist);
        law_listed_names_are_lines(filelist, lines.index_of(filter.converted()[i]));
    }
    law_attributes_gain_lines(text, filter.converted());
}

/// The names of the entries that are converted are on the list.
proof fn lemma_chosen_names(listed: Set<Seq<char>>, entries: Seq<StagedEntry>, i: int)
    requires
        0 <= i < chosen_names(listed, entries).len(),
    ensures
        listed.contains(chosen_names(listed, entries)[i]),
    decreases entries.len(),
{
    if i < chosen_names(listed, entries.drop_last()).len() {
        lemma_chosen_names(listed, entries.drop_last(), i);
    }
}

/// A finished conversion has converted every entry of the index that is on the list and is no
/// symbolic link, each once and in the order of the index.
pub proof fn law_finished_conversion_is_complete(filter: IndexFilter)
    requires
        filter.wf(),
        filter.phase() == Phase::Finished,
    ensures
        filter.converted() == chosen_names(filter.listed(), filter.entries()),
{
    assert(filter.entries().take(filter.entries().len() as int) =~= filter.entries());
}

/// A staged file is converted exactly where it is on the list and its mode is not that of a
/// symbolic link. An entry of the index goes by its path as text.
pub proof fn law_choice(listed: Set<Seq<char>>, filename: Seq<char>, entry: StagedEntry)
    ensures
        is_converted(listed, entry.mode, filename) <==> entry.mode != 0o120000 && listed.contains(
            filename,
        ),
        is_chosen(listed, entry) <==> entry.mode != 0o120000 && listed.contains(
            lossy_text(entry.path@),
        ),
{
}

/// The names of the converted entries are the paths, as text, of all the entries that are on the
/// list and are no symbolic links, in the order of the index.
pub proof fn law_chosen_names(listed: Set<Seq<char>>, entries: Seq<StagedEntry>)
    ensures
        chosen_names(listed, entries) == entries.filter_map(
            |entry: StagedEntry|
                if entry.mode != 0o120000 && listed.contains(lossy_text(entry.path@)) {
                    Some(lossy_text(entry.path@))
                } else {
                    None
                },
        ),
    decreases entries.len(),
{
    if entries.len() > 0 {
        law_chosen_names(listed, entries.drop_last());
        let earlier = chosen_names(listed, entries.drop_last());
        let name = lossy_text(entries.last().path@);
        assert(earlier.push(name) =~= earlier + seq![name]);
    }
}

/// Where the next converted entry stands.
proof fn lemma_next_chosen(listed: Set<Seq<char>>, entries: Seq<StagedEntry>, from: int)
    requires
        0 <= from <= entries.len(),
    ensures
        from <= next_chosen(listed, entries, from) <= entries.len(),
        forall|i: int|
            from <= i < next_chosen(listed, entries, from) ==> !is_chosen(
                listed,
                #[trigger] entries[i],
            ),
        next_chosen(listed, entries, from) < entries.len() ==> is_chosen(
            listed,
            entries[next_chosen(listed, entries, from)],
        ),
    decreases entries.len() - from,
{
    if from < entries.len() && !is_chosen(listed, entries[from]) {
        lemma_next_chosen(listed, entries, from + 1);
    }
}

/// A conversion that goes on passes over entries alone that are not on the list or are symbolic
/// links, and stops at the first other entry, whose placeholder it asks for by the id of the entry.
/// At the end it turns to `.gitattributes` where that is to be updated and a file has been
/// converted, and is done otherwise.
pub proof fn law_conversion_goes_on(filter: IndexFilter, from: int, action: IndexAction)
    requires
        0 <= from <= filter.entries().len(),
        filter.goes_on(from, action),
    ensures
        from <= filter.position() <= filter.entries().len(),
        forall|i: int|
            from <= i < filter.position() ==> (#[trigger] filter.entries()[i]).mode == 0o120000
                || !filter.listed().contains(lossy_text(filter.entries()[i].path@)),
        filter.position() < filter.entries().len() ==> {
            let entry = filter.entries()[filter.position()];
            &&& entry.mode != 0o120000 && filter.listed().contains(lossy_text(entry.path@))
            &&& filter.phase() == Phase::Recalling
            &&& action is Recall && action->name@ == hex_text(oid_bytes(entry.id)@)
        },
        filter.position() == filter.entries().len() && filter.updates() && filter.converted().len()
            > 0 ==> filter.phase() == Phase::ReadingAttributes && action is ReadAttributes,
        filter.position() == filter.entries().len() && !(filter.updates()
            && filter.converted().len() > 0) ==> filter.phase() == Phase::Finished
            && action is Finish,
{
    lemma_next_chosen(filter.listed(), filter.entries(), from);
    assert forall|i: int| from <= i < filter.position() implies (
    #[trigger] filter.entries()[i]).mode == 0o120000 || !filter.listed().contains(
        lossy_text(filter.entries()[i].path@),
    ) by {
        assert(!is_chosen(filter.listed(), filter.entries()[i]));
    }
}

/// A conversion goes on with the same list, the same index and the same wish about
/// `.gitattributes`.
pub proof fn law_conversion_continues(filter: IndexFilter, earlier: IndexFilter)
    requires
        filter.continues(earlier),
    ensures
        filter.listed() == earlier.listed(),
        filter.updates() == earlier.updates(),
        filter.entries() == earlier.entries(),
{
}

/// A new id for the current entry is all that changes in the outcome.
pub proof fn law_new_id(filter: IndexFilter, id: Oid, i: int)
    requires
        filter.wf(),
        0 <= filter.position() < filter.entries().len(),
        0 <= i < filter.entries().len(),
    ensures
        filter.with_id(id).len() == filter.outcome().len(),
        i != filter.position() ==> filter.with_id(id)[i] == filter.outcome()[i],
        filter.with_id(id)[filter.position()].id == id,
        filter.with_id(id)[filter.position()].path == filter.entries()[filter.position()].path,
        filter.with_id(id)[filter.position()].mode == filter.entries()[filter.position()].mode,
{
}

/// An id is given by an answer where it was made, and where its bytes are those of the digits that
/// were remembered.
pub proof fn law_given_id(text: Seq<char>, made: Oid, id: Oid)
    ensures
        gives_id(Answer::Cleaned(made), id) <==> id == made,
        gives_id(Answer::Recalled(text), id) <==> is_oid_text(trimmed(text)) && oid_bytes(id)@
            == oid_text_bytes(trimmed(text)),
        memory_text(id) == hex_text(oid_bytes(id)@) + "\n"@,
{
}

/// `.gitattributes` is staged with the mode and the text that it has; a file that is new is a
/// regular file without a text, and content that cannot be read counts as none.
pub proof fn law_current_attributes(current: Option<StagedAttributes>)
    ensures
        attributes_mode(current) == if current is Some {
            current->0.mode
        } else {
            0o100644
        },
        attributes_text(current) == if current is Some && current->0.content is Some {
            lossy_text(current->0.content->0@)
        } else {
            Seq::empty()
        },
{
}

/// The lines for the named files, one behind the other.
proof fn lemma_attribute_lines(names: Seq<Seq<char>>)
    ensures
        attribute_lines(names) == names.fold_left(
            Seq::<char>::empty(),
            |lines: Seq<char>, name: Seq<char>| lines + name + " filter=fat -text\n"@,
        ),
    decreases names.len(),
{
    if names.len() > 0 {
        lemma_attribute_lines(names.drop_last());
    }
}

/// What a conversion makes of `.gitattributes`. The mode is kept. The text is kept, with its last
/// line ended. Behind it stands, for each converted file in turn, the whole name of the file, the
/// words that hand it over to the filter, and a line feed. The size is that of the new text in
/// bytes, as far as thirty-two bits hold it.
pub proof fn law_new_attributes(
    new: NewAttributes,
    mode: u32,
    text: Seq<char>,
    names: Seq<Seq<char>>,
)
    requires
        new.extends(mode, text, names),
    ensures
        new.mode == mode,
        new.content@ == (if text.len() > 0 && text[text.len() - 1] != '\n' {
            text + seq!['\n']
        } else {
            text
        }) + names.fold_left(
            Seq::<char>::empty(),
            |lines: Seq<char>, name: Seq<char>| lines + name + " filter=fat -text\n"@,
        ),
        new.file_size as int == encode_utf8(new.content@).len() % 0x1_0000_0000,
{
    lemma_attribute_lines(names);
    if text.len() > 0 && text[text.len() - 1] != '\n' {
        assert(finished(text) =~= text + seq!['\n']);
    }
}

/// The last lines of the new `.gitattributes` are one for each converted file, in their order: the
/// whole name and then ` filter=fat -text`, and nothing else. Different files have different lines.
/// The lines before them are those that were there.
pub proof fn law_attribute_lines_name_files(
    new: NewAttributes,
    mode: u32,
    text: Seq<char>,
    names: Seq<Seq<char>>,
)
    requires
        new.extends(mode, text, names),
        forall|i: int| 0 <= i < names.len() ==> !(#[trigger] names[i]).contains('\n'),
    ensures
        text_lines(new.content@).len() >= names.len(),
        text_lines(new.content@).skip(text_lines(new.content@).len() - names.len())
            == names.map_values(|name: Seq<char>| name + " filter=fat -text"@),
        forall|i: int|
            0 <= i < names.len() ==> {
                let line = text_lines(new.content@)[text_lines(new.content@).len() - names.len()
                    + i];
                line.len() == (#[trigger] names[i]).len() + 17 && names[i].is_prefix_of(line)
            },
        forall|i: int, j: int|
            0 <= i < names.len() && 0 <= j < names.len() && #[trigger] names[i]
                != #[trigger] names[j] ==> names[i] + " filter=fat -text"@ != names[j]
                + " filter=fat -text"@,
        text.len() == 0 || text[text.len() - 1] != '\r' ==> text_lines(new.content@).take(
            text_lines(new.content@).len() - names.len(),
        ) == text_lines(text),
{
    reveal_strlit(" filter=fat -text");
    law_attributes_gain_lines(text, names);
    let all = text_lines(new.content@);
    let before = text_lines(finished(text));
    let added = names.map_values(|name: Seq<char>| attribute_line(name));
    let wanted = names.map_values(|name: Seq<char>| name + " filter=fat -text"@);
    assert(added =~= wanted);
    assert(all == before + added);
    assert(all.skip(all.len() - names.len()) =~= added);
    assert(all.take(all.len() - names.len()) =~= before);
    if text.len() == 0 || text[text.len() - 1] != '\r' {
        assert(all == text_lines(text) + added);
        assert(all.take(all.len() - names.len()) =~= text_lines(text));
    }
    assert forall|i: int| 0 <= i < names.len() implies {
        let line = all[all.len() - names.len() + i];
        line.len() == (#[trigger] names[i]).len() + 17 && names[i].is_prefix_of(line)
    } by {
        assert(all[all.len() - names.len() + i] == wanted[i]);
    }
    assert forall|i: int, j: int|
        0 <= i < names.len() && 0 <= j < names.len() && #[trigger] names[i]
            != #[trigger] names[j] implies names[i] + " filter=fat -text"@ != names[j]
        + " filter=fat -text"@ by {
        let a = names[i] + " filter=fat -text"@;
        let b = names[j] + " filter=fat -text"@;
        if a == b {
            assert(a.len() == names[i].len() + 17 && b.len() == names[j].len() + 17);
            assert(a.take(a.len() - 17) =~= names[i]);
            assert(b.take(b.len() - 17) =~= names[j]);
        }
    }
}

} // verus!
