//! The dispatcher's decision logic: loading with an explicit
//! failure policy, the add-conflict step, listing, and the version line.
//!
//! Everything here works on plain values; reading the file, writing it and
//! the interactive prompt stay with the caller, which hands text in and
//! takes text out.

use vstd::prelude::*;
use vstd::string::StringExecFns;
use crate::codec::parse_vocab;
use crate::store::{first_index, TermDef, Vocabulary};
use crate::text::trim_ws;

verus! {

/// One listing line: the term, a colon and a space, the definition.
pub open spec fn line_of_pair(p: TermDef) -> Seq<char> {
    p.0 + seq![':', ' '] + p.1
}

/// The text of the version line.
pub open spec fn version_string() -> Seq<char> {
    seq!['r', 's', ' ', 'v', 'o', 'c', 'a', 'b', ' ', '0', '.', '1', '.', '0']
}

/// What to do when the stored file is missing or does not parse: start from
/// an empty vocabulary (adding and removing), or surface the error (listing).
pub enum LoadPolicy {
    SubstituteEmpty,
    Propagate,
}

/// Why a vocabulary could not be loaded: the file was unreadable, or its
/// content was not a serialized vocabulary.
#[derive(Debug, PartialEq, Eq, Structural)]
pub enum LoadError {
    Unreadable,
    Malformed,
}

/// The vocabulary read from the stored file's text, `None` standing for an
/// unreadable file. Under [`LoadPolicy::SubstituteEmpty`] every failure
/// yields the empty vocabulary; under [`LoadPolicy::Propagate`] an
/// unreadable file is reported as [`LoadError::Unreadable`] and text that
/// does not parse as [`LoadError::Malformed`].
pub fn load_vocabulary(text: &Option<String>, policy: LoadPolicy) -> (r: Result<
    Vocabulary,
    LoadError,
>)
    ensures
        (match *text {
            Option::None => (match policy {
                LoadPolicy::SubstituteEmpty => r matches Ok(v) && v.model() == Seq::<(
                    Seq<char>,
                    Seq<char>,
                )>::empty(),
                LoadPolicy::Propagate => r == Result::<Vocabulary, LoadError>::Err(
                    LoadError::Unreadable,
                ),
            }),
            Option::Some(s) => (match parse_vocab(s@) {
                Option::Some(m) => r matches Ok(v) && v.model() == m,
                Option::None => (match policy {
                    LoadPolicy::SubstituteEmpty => r matches Ok(v) && v.model() == Seq::<(
                        Seq<char>,
                        Seq<char>,
                    )>::empty(),
                    LoadPolicy::Propagate => r == Result::<Vocabulary, LoadError>::Err(
                        LoadError::Malformed,
                    ),
                }),
            }),
        }),
{
    match text {
        Option::None => match policy {
            LoadPolicy::SubstituteEmpty => Ok(Vocabulary::new()),
            LoadPolicy::Propagate => Err(LoadError::Unreadable),
        },
        Option::Some(s) => match crate::codec::parse_vocabulary(s.as_str()) {
            Option::Some(v) => Ok(v),
            Option::None => match policy {
                LoadPolicy::SubstituteEmpty => Ok(Vocabulary::new()),
                LoadPolicy::Propagate => Err(LoadError::Malformed),
            },
        },
    }
}

/// The user's answer to the add-conflict prompt: keep the stored definition,
/// or replace it with new text.
pub enum ConflictChoice {
    Decline,
    Modify { replacement: String },
}

/// Whether an answer to the conflict prompt means "modify": exactly the
/// answer `1` does, anything else declines.
pub fn modify_chosen(response: i32) -> (r: bool)
    ensures
        r == (response == 1),
{
    response == 1
}

/// The add-conflict step, after the term was found present: declining leaves
/// the vocabulary unchanged; modifying replaces exactly the stored
/// definition of `term` with the trimmed replacement text, adds no entry and
/// removes none. With `term` absent, modifying changes nothing.
pub fn resolve_conflict(v: &mut Vocabulary, term: &String, choice: &ConflictChoice)
    ensures
        (match *choice {
            ConflictChoice::Decline => final(v).model() == old(v).model(),
            ConflictChoice::Modify { replacement: ref rep } => {
                if old(v).has_term(term@) {
                    final(v).model() == old(v).model().update(
                        first_index(old(v).model(), term@),
                        (term@, trim_ws(rep@)),
                    )
                } else {
                    final(v).model() == old(v).model()
                }
            },
        }),
        final(v).model().len() == old(v).model().len(),
        old(v).wf() ==> final(v).wf(),
{
    match choice {
        ConflictChoice::Decline => {
        },
        ConflictChoice::Modify { replacement } => {
            v.redefine(term, replacement);
        },
    }
}

/// The lines printed by the list command: one `term: definition` line per
/// entry, in stored order.
pub fn list_lines(v: &Vocabulary) -> (r: Vec<String>)
    ensures
        r@.len() == v.model().len(),
        forall|i: int| 0 <= i < r@.len() ==> r@[i]@ == line_of_pair(v.model()[i]),
{
    let mut r: Vec<String> = Vec::new();
    let mut i: usize = 0;
    while i < v.words.len()
        invariant
            i <= v.words.len(),
            r@.len() == i,
            v.model().len() == v.words.len(),
            forall|k: int| 0 <= k < i ==> r@[k]@ == line_of_pair(v.model()[k]),
        decreases v.words.len() - i,
    {
        let mut line = v.words[i].term.clone();
        line.append(": ");
        line.append(v.words[i].definition.as_str());
        proof {
            reveal_strlit(": ");
            assert(line@ =~= line_of_pair(v.model()[i as int]));
        }
        r.push(line);
        i += 1;
    }
    r
}

/// The version command's output.
pub fn version_line() -> (r: String)
    ensures
        r@ == version_string(),
{
    let r = String::from_str("rs vocab 0.1.0");
    proof {
        reveal_strlit("rs vocab 0.1.0");
        assert(r@ =~= version_string());
    }
    r
}

} // verus!
