//! The decisions of an extraction run: whether a missing folder is made,
//! and what becomes of a file that is already there, as the user answers.
use vstd::prelude::*;
use vstd::string::StrSliceExecFns;
use crate::text::{trim_str, trim_spec, decimal, decimal_string};

verus! {

/// What the user has settled for the rest of the run.
#[derive(Clone, Copy, Debug, PartialEq, Eq)]
pub struct ExtractPolicy {
    pub overwrite_files: bool,
    pub rename_files: bool,
    pub create_paths: bool,
}

impl ExtractPolicy {
    /// The policy a run starts with: with `yes_to_all`, files are
    /// overwritten and folders made without asking.
    pub fn new(yes_to_all: bool) -> (p: Self)
        ensures
            p.overwrite_files == yes_to_all,
            !p.rename_files,
            p.create_paths == yes_to_all,
    {
        ExtractPolicy { overwrite_files: yes_to_all, rename_files: false, create_paths: yes_to_all }
    }
}

/// Where an extraction run stands and needs a decision.
#[derive(Clone, Copy, Debug, PartialEq, Eq)]
pub enum ExtractSituation {
    /// The output folder does not exist.
    OutputMissing,
    /// The folder of the next file does not exist.
    FolderMissing,
    /// The next file already exists.
    FileExists,
}

/// What the run does next.
#[derive(Clone, Copy, Debug, PartialEq, Eq)]
pub enum ExtractAction {
    /// Ask the user, and come back with the answer.
    Ask,
    /// Make the missing folder and go on.
    CreateFolder,
    /// Leave this file out and go on with the next.
    SkipFile,
    /// End the run.
    Stop,
    /// Write the file over the one there.
    Overwrite,
    /// Write the file under the first free numbered name.
    Rename,
}

/// The character a prompt line answers: its first after trimming, or
/// `default` for an empty line.
pub open spec fn answer_spec(line: Seq<char>, default: char) -> char {
    let t = trim_spec(line);
    if t.len() == 0 { default } else { t[0] }
}

/// Reads the answer of a prompt line.
pub fn prompt_answer(line: &str, default: char) -> (c: char)
    ensures
        c == answer_spec(line@, default),
{
    let t = trim_str(line);
    if t.unicode_len() == 0 {
        default
    } else {
        t.get_char(0)
    }
}

/// Whether answer `c` is the letter `letter` (given in lower case) in
/// either ASCII case.
pub open spec fn answered(c: char, letter: char) -> bool {
    c == letter || c as int + 32 == letter as int
}

fn is_answer(c: char, letter: char) -> (r: bool)
    requires
        'a' <= letter <= 'z',
    ensures
        r == answered(c, letter),
{
    c == letter || (c as u32) + 32 == (letter as u32)
}

/// One step of an extraction run: what to do in `situation` under
/// `policy`, given the user's answer where one was asked for, and the
/// policy after it. A question is asked only where the policy has not
/// settled it, and asked again after an answer it does not list.
pub fn extract_step(policy: ExtractPolicy, situation: ExtractSituation, answer: Option<char>) -> (r: (
    ExtractPolicy,
    ExtractAction,
))
    ensures
        match situation {
            ExtractSituation::OutputMissing => r.0 == policy && if policy.create_paths {
                r.1 == ExtractAction::CreateFolder
            } else {
                match answer {
                    None => r.1 == ExtractAction::Ask,
                    Some(c) => r.1 == (if answered(c, 'y') {
                        ExtractAction::CreateFolder
                    } else if answered(c, 'n') || answered(c, 'e') {
                        ExtractAction::Stop
                    } else {
                        ExtractAction::Ask
                    }),
                }
            },
            ExtractSituation::FolderMissing => if policy.create_paths {
                r == (policy, ExtractAction::CreateFolder)
            } else {
                match answer {
                    None => r == (policy, ExtractAction::Ask),
                    Some(c) => if answered(c, 'a') {
                        r == (ExtractPolicy { create_paths: true, ..policy }, ExtractAction::CreateFolder)
                    } else {
                        r.0 == policy && r.1 == (if answered(c, 'y') {
                            ExtractAction::CreateFolder
                        } else if answered(c, 's') {
                            ExtractAction::SkipFile
                        } else if answered(c, 'e') {
                            ExtractAction::Stop
                        } else {
                            ExtractAction::Ask
                        })
                    },
                }
            },
            ExtractSituation::FileExists => if policy.overwrite_files {
                r == (policy, ExtractAction::Overwrite)
            } else if policy.rename_files {
                r == (policy, ExtractAction::Rename)
            } else {
                match answer {
                    None => r == (policy, ExtractAction::Ask),
                    Some(c) => if answered(c, 'a') {
                        r == (ExtractPolicy { overwrite_files: true, ..policy }, ExtractAction::Overwrite)
                    } else if answered(c, 'n') {
                        r == (ExtractPolicy { rename_files: true, ..policy }, ExtractAction::Rename)
                    } else {
                        r.0 == policy && r.1 == (if answered(c, 'o') {
                            ExtractAction::Overwrite
                        } else if answered(c, 'r') {
                            ExtractAction::Rename
                        } else if answered(c, 'e') {
                            ExtractAction::Stop
                        } else {
                            ExtractAction::Ask
                        })
                    },
                }
            },
        },
{
    match situation {
        ExtractSituation::OutputMissing => {
            if policy.create_paths {
                return (policy, ExtractAction::CreateFolder);
            }
            match answer {
                None => (policy, ExtractAction::Ask),
                Some(c) => if is_answer(c, 'y') {
                    (policy, ExtractAction::CreateFolder)
                } else if is_answer(c, 'n') || is_answer(c, 'e') {
                    (policy, ExtractAction::Stop)
                } else {
                    (policy, ExtractAction::Ask)
                },
            }
        },
        ExtractSituation::FolderMissing => {
            if policy.create_paths {
                return (policy, ExtractAction::CreateFolder);
            }
            match answer {
                None => (policy, ExtractAction::Ask),
                Some(c) => if is_answer(c, 'a') {
                    (ExtractPolicy { create_paths: true, ..policy }, ExtractAction::CreateFolder)
                } else if is_answer(c, 'y') {
                    (policy, ExtractAction::CreateFolder)
                } else if is_answer(c, 's') {
                    (policy, ExtractAction::SkipFile)
                } else if is_answer(c, 'e') {
                    (policy, ExtractAction::Stop)
                } else {
                    (policy, ExtractAction::Ask)
                },
            }
        },
        ExtractSituation::FileExists => {
            if policy.overwrite_files {
                return (policy, ExtractAction::Overwrite);
            }
            if policy.rename_files {
                return (policy, ExtractAction::Rename);
            }
            match answer {
                None => (policy, ExtractAction::Ask),
                Some(c) => if is_answer(c, 'a') {
                    (ExtractPolicy { overwrite_files: true, ..policy }, ExtractAction::Overwrite)
                } else if is_answer(c, 'n') {
                    (ExtractPolicy { rename_files: true, ..policy }, ExtractAction::Rename)
                } else if is_answer(c, 'o') {
                    (policy, ExtractAction::Overwrite)
                } else if is_answer(c, 'r') {
                    (policy, ExtractAction::Rename)
                } else if is_answer(c, 'e') {
                    (policy, ExtractAction::Stop)
                } else {
                    (policy, ExtractAction::Ask)
                },
            }
        },
    }
}

/// The `index`-th numbered name of a file with stem `stem` and extension
/// `extension`: `stem[index].extension`, or `stem[index]` without one.
pub open spec fn renamed_name_spec(stem: Seq<char>, extension: Seq<char>, index: nat) -> Seq<char> {
    let base = stem + "["@ + decimal(index) + "]"@;
    if extension.len() == 0 { base } else { base + "."@ + extension }
}

/// The numbered name tried for a file that is already there.
pub fn renamed_file_name(stem: &str, extension: &str, index: u32) -> (r: String)
    ensures
        r@ == renamed_name_spec(stem@, extension@, index as nat),
{
    let mut name = stem.to_owned();
    name.append("[");
    let digits = decimal_string(index);
    name.append(digits.as_str());
    name.append("]");
    proof {
        reveal_strlit("[");
        reveal_strlit("]");
        reveal_strlit(".");
    }
    if extension.unicode_len() > 0 {
        name.append(".");
        name.append(extension);
    }
    name
}

} // verus!
