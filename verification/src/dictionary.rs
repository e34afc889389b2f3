use crate::text::{find_char_from, idx_char};
use vstd::prelude::*;
use vstd::string::*;

verus! {

/// One rule record delivered by the dictionary source. The source itself —
/// where the records come from and how their syntax is checked — is a
/// collaborator outside this library; the library takes the records as plain
/// values.
#[derive(Clone, Debug)]
pub enum DictionaryEntry {
    /// A romaji pattern and its hiragana output; `consume_chars`, if present,
    /// overrides how many input characters the rule consumes.
    Hiragana { from: String, to: String, consume_chars: Option<usize> },
    /// A romaji pattern and its katakana output.
    Katakana { from: String, to: String, consume_chars: Option<usize> },
    /// A hiragana reading and its ordered kanji candidate list.
    Kanji { from: String, to: Vec<String> },
    /// A literal key and its literal replacement.
    Henkan { from: String, to: String },
}

/// The mathematical shape of a rule record.
pub enum EntryModel {
    Hiragana { from: Seq<char>, to: Seq<char>, consume_chars: Option<int> },
    Katakana { from: Seq<char>, to: Seq<char>, consume_chars: Option<int> },
    Kanji { from: Seq<char>, to: Seq<Seq<char>> },
    Henkan { from: Seq<char>, to: Seq<char> },
}

impl View for DictionaryEntry {
    type V = EntryModel;

    open spec fn view(&self) -> EntryModel {
        match self {
            DictionaryEntry::Hiragana { from, to, consume_chars } => EntryModel::Hiragana {
                from: from@,
                to: to@,
                consume_chars: match consume_chars {
                    Some(k) => Some(*k as int),
                    None => None,
                },
            },
            DictionaryEntry::Katakana { from, to, consume_chars } => EntryModel::Katakana {
                from: from@,
                to: to@,
                consume_chars: match consume_chars {
                    Some(k) => Some(*k as int),
                    None => None,
                },
            },
            DictionaryEntry::Kanji { from, to } => EntryModel::Kanji {
                from: from@,
                to: to.deep_view(),
            },
            DictionaryEntry::Henkan { from, to } => EntryModel::Henkan { from: from@, to: to@ },
        }
    }
}

impl DeepView for DictionaryEntry {
    type V = EntryModel;

    open spec fn deep_view(&self) -> EntryModel {
        self.view()
    }
}

/// The text of the first line of `s` — everything before the first line
/// feed, or all of `s` when it has none.
pub open spec fn spec_line_text(s: Seq<char>) -> Seq<char> {
    let i = idx_char(s, '\n');
    if i < s.len() {
        s.take(i)
    } else {
        s
    }
}

/// What remains of `s` after its first line and the line feed ending it.
pub open spec fn spec_line_rest(s: Seq<char>) -> Seq<char> {
    let i = idx_char(s, '\n');
    if i < s.len() {
        s.skip(i + 1)
    } else {
        Seq::empty()
    }
}

/// The state of a dictionary reader: the unread text and how many lines have
/// been read so far.
pub struct DictionaryModel {
    pub text: Seq<char>,
    pub line: int,
}

/// Walks a line-delimited dictionary text, handing out one numbered line at
/// a time. Lines are numbered from one; what each line means is the
/// dictionary source's concern, not this reader's.
#[derive(Debug)]
pub struct Dictionary {
    text: String,
    line: usize,
}

impl View for Dictionary {
    type V = DictionaryModel;

    closed spec fn view(&self) -> DictionaryModel {
        DictionaryModel { text: self.text@, line: self.line as int }
    }
}

impl Dictionary {
    /// The line counter never overflows: every produced line consumes at
    /// least one character of the remaining text.
    #[verifier::type_invariant]
    spec fn wf(self) -> bool {
        self.line + self.text@.len() <= usize::MAX
    }

    pub fn new(text: &str) -> (d: Dictionary)
        ensures
            d@.text == text@,
            d@.line == 0,
    {
        let n: usize = text.unicode_len();
        Dictionary { text: text.to_owned(), line: 0 }
    }

    /// The next line and its one-based number, or `None` exactly when the
    /// text is exhausted.
    pub fn next(&mut self) -> (r: Option<(usize, String)>)
        ensures
            old(self)@.text.len() == 0 ==> r is None && final(self)@ == old(self)@,
            old(self)@.text.len() > 0 ==> {
                &&& r is Some
                &&& r.unwrap().0 == old(self)@.line + 1
                &&& r.unwrap().1@ == spec_line_text(old(self)@.text)
                &&& final(self)@.text == spec_line_rest(old(self)@.text)
                &&& final(self)@.line == old(self)@.line + 1
            },
    {
        proof {
            use_type_invariant(&*self);
        }
        let n: usize = self.text.as_str().unicode_len();
        if n == 0 {
            return None;
        }
        let i = find_char_from(self.text.as_str(), 0, '\n');
        let ghost s = self.text@;
        proof {
            assert(s.skip(0) =~= s);
        }
        let current: String;
        if i < n {
            current = self.text.as_str().substring_char(0, i).to_owned();
            self.text = self.text.as_str().substring_char(i + 1, n).to_owned();
            proof {
                assert(current@ =~= s.take(i as int));
            }
        } else {
            current = self.text.as_str().substring_char(0, n).to_owned();
            self.text = String::new();
            proof {
                assert(current@ =~= s);
            }
        }
        self.line = self.line + 1;
        Some((self.line, current))
    }
}

} // verus!
