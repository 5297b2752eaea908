use vstd::prelude::*;

verus! {

/// The part of speech of a dictionary entry.
#[derive(Clone, Copy, Debug, PartialEq, Eq, Structural)]
pub enum PartOfSpeech {
    Noun,
    Verb,
}

/// The canonical short label of a part of speech, as written in the word list.
pub open spec fn pos_label(p: PartOfSpeech) -> Seq<char> {
    match p {
        PartOfSpeech::Noun => seq!['n', '.'],
        PartOfSpeech::Verb => seq!['v', '.'],
    }
}

impl PartOfSpeech {
    /// The label used both in the word list and when an entry is shown.
    pub fn label(&self) -> (r: String)
        ensures
            r@ == pos_label(*self),
    {
        match self {
            PartOfSpeech::Noun => {
                let r = String::from_str("n.");
                proof {
                    reveal_strlit("n.");
                }
                r
            },
            PartOfSpeech::Verb => {
                let r = String::from_str("v.");
                proof {
                    reveal_strlit("v.");
                }
                r
            },
        }
    }
}

/// The abstract value of an entry: its two texts and its part of speech.
pub struct EntryView {
    pub word: Seq<char>,
    pub translation: Seq<char>,
    pub pos: PartOfSpeech,
}

/// One (word, translation, part of speech) record of the dictionary.
#[derive(Clone, Debug)]
pub struct Entry {
    pub word: String,
    pub translation: String,
    pub part_of_speech: PartOfSpeech,
}

impl View for Entry {
    type V = EntryView;

    open spec fn view(&self) -> EntryView {
        EntryView { word: self.word@, translation: self.translation@, pos: self.part_of_speech }
    }
}

/// The abstract value of a sequence of entries.
pub open spec fn entries_view(v: Seq<Entry>) -> Seq<EntryView> {
    v.map_values(|e: Entry| e@)
}

impl Entry {
    /// Builds an entry from its three parts.
    pub fn new(word: String, translation: String, part_of_speech: PartOfSpeech) -> (r: Entry)
        ensures
            r.word@ == word@,
            r.translation@ == translation@,
            r.part_of_speech == part_of_speech,
    {
        Entry { word, translation, part_of_speech }
    }

    /// The texts a search looks in: the word, then the translation.
    pub fn get_keywords(&self) -> (r: Vec<String>)
        ensures
            r@.len() == 2,
            r@[0]@ == self.word@,
            r@[1]@ == self.translation@,
    {
        vec![self.word.clone(), self.translation.clone()]
    }

    /// A copy of this entry with the same texts and part of speech.
    pub fn duplicate(&self) -> (r: Entry)
        ensures
            r@ == self@,
    {
        Entry {
            word: self.word.clone(),
            translation: self.translation.clone(),
            part_of_speech: self.part_of_speech,
        }
    }
}

} // verus!
