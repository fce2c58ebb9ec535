//! The command line as it is typed: what it asks for, and what every part of it means.
//!
//! A bare command line converts, and the one subcommand there is reads files back.

use crate::duration::Seconds;
use vstd::prelude::*;

verus! {

/// A command line.
#[derive(Debug)]
pub struct Cli {
    /// What is done instead of converting, where anything is.
    pub command: Option<Command>,
    /// The conversion a bare command line asks for.
    pub convert: ConvertArgs,
}

/// What is done with files that are already TAFs.
#[derive(Debug)]
pub enum Command {
    /// Reads them through and says what they hold.
    Info {
        /// The files to read.
        files: Vec<String>,
    },
}

/// A conversion, as it was asked for.
#[derive(Debug)]
pub struct ConvertArgs {
    /// The audio files to convert, in the order they play.
    pub inputs: Vec<String>,
    /// Where the TAF goes, where that was said.
    pub output: Option<String>,
    /// How much is dropped from the very start.
    pub skip_leading: Seconds,
    /// Whether the silence the first chapter begins with is dropped.
    pub trim_pause_leading: bool,
    /// Whether the silence every chapter begins with is dropped.
    pub trim_pause_each_chapter: bool,
    /// How much silence goes in front of the first chapter.
    pub add_pause_leading: Seconds,
    /// How much silence goes in front of every chapter.
    pub add_pause_each_chapter: Seconds,
    /// Where the chapters start, where that was said.
    pub chapters: Option<Vec<Seconds>>,
    /// Whether the cover an input carries is left where it is.
    pub no_cover: bool,
}

/// What a command says: the answer to what was asked, and everything else around it.
#[derive(Debug, PartialEq, Eq)]
pub struct Said {
    /// The lines of everything that is said in front of the answer.
    pub ahead: Vec<String>,
    /// The lines of the answer.
    pub answer: Vec<String>,
    /// The lines of everything that is said behind it.
    pub aside: Vec<String>,
}

/// The lines of what is said.
#[verifier::ext_equal]
pub struct Lines {
    /// Those in front of the answer.
    pub ahead: Seq<Seq<char>>,
    /// Those of the answer.
    pub answer: Seq<Seq<char>>,
    /// Those behind it.
    pub aside: Seq<Seq<char>>,
}

impl View for Said {
    type V = Lines;

    open spec fn view(&self) -> Lines {
        Lines {
            ahead: crate::job::texts(self.ahead@),
            answer: crate::job::texts(self.answer@),
            aside: crate::job::texts(self.aside@),
        }
    }
}

} // verus!
