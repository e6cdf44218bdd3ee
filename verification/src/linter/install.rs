//! Installing a Hunspell pair: both files are fetched and written aside before either is
//! moved to its place, so that half a pair is never left behind.

use vstd::prelude::*;

use super::spell::{DictionaryLocation, LocationView};
use crate::text;

verus! {

/// Where the two files of a pair come from, where they are written first, and where they
/// belong.
#[derive(Debug, Clone)]
pub struct PairFiles {
    pub dic_url: String,
    pub aff_url: String,
    pub dic: String,
    pub aff: String,
    pub dic_tmp: String,
    pub aff_tmp: String,
}

/// What [`PairFiles`] say.
pub struct FilesView {
    pub dic_url: Seq<char>,
    pub aff_url: Seq<char>,
    pub dic: Seq<char>,
    pub aff: Seq<char>,
    pub dic_tmp: Seq<char>,
    pub aff_tmp: Seq<char>,
}

impl View for PairFiles {
    type V = FilesView;

    open spec fn view(&self) -> FilesView {
        FilesView {
            dic_url: self.dic_url@,
            aff_url: self.aff_url@,
            dic: self.dic@,
            aff: self.aff@,
            dic_tmp: self.dic_tmp@,
            aff_tmp: self.aff_tmp@,
        }
    }
}

/// What is being done for a pair.
#[derive(Debug, Clone, Copy, PartialEq, Eq, Structural)]
pub enum Stage {
    FetchDic,
    FetchAff,
    WriteDic,
    WriteAff,
    MoveDic,
    MoveAff,
    /// The word file is taken back, since the affix file could not be moved.
    RemoveDic,
    Installed,
    Failed,
}

/// How an action ended.
#[derive(Debug)]
pub enum InstallEvent {
    Done,
    /// The action failed, as the text says.
    Failed(String),
}

/// What is to be done next.
#[derive(Debug)]
pub enum InstallAction {
    /// Fetch the word file.
    FetchDic { url: String },
    /// Fetch the affix file.
    FetchAff { url: String },
    /// Write the word file that was fetched.
    WriteDic { path: String },
    /// Write the affix file that was fetched.
    WriteAff { path: String },
    Move { from: String, to: String },
    Remove { path: String },
    /// The pair is in its place.
    Succeed(DictionaryLocation),
    /// There is no pair, for the given reason.
    Fail(String),
}

/// What an [`InstallAction`] says.
pub enum ActionView {
    FetchDic { url: Seq<char> },
    FetchAff { url: Seq<char> },
    WriteDic { path: Seq<char> },
    WriteAff { path: Seq<char> },
    Move { from: Seq<char>, to: Seq<char> },
    Remove { path: Seq<char> },
    Succeed(LocationView),
    Fail(Seq<char>),
}

impl View for InstallAction {
    type V = ActionView;

    open spec fn view(&self) -> ActionView {
        match self {
            InstallAction::FetchDic { url } => ActionView::FetchDic { url: url@ },
            InstallAction::FetchAff { url } => ActionView::FetchAff { url: url@ },
            InstallAction::WriteDic { path } => ActionView::WriteDic { path: path@ },
            InstallAction::WriteAff { path } => ActionView::WriteAff { path: path@ },
            InstallAction::Move { from, to } => ActionView::Move { from: from@, to: to@ },
            InstallAction::Remove { path } => ActionView::Remove { path: path@ },
            InstallAction::Succeed(l) => ActionView::Succeed(l@),
            InstallAction::Fail(m) => ActionView::Fail(m@),
        }
    }
}

/// The action of a stage. What is said of a failure is given.
pub open spec fn action_of(files: FilesView, stage: Stage, message: Seq<char>) -> ActionView {
    match stage {
        Stage::FetchDic => ActionView::FetchDic { url: files.dic_url },
        Stage::FetchAff => ActionView::FetchAff { url: files.aff_url },
        Stage::WriteDic => ActionView::WriteDic { path: files.dic_tmp },
        Stage::WriteAff => ActionView::WriteAff { path: files.aff_tmp },
        Stage::MoveDic => ActionView::Move { from: files.dic_tmp, to: files.dic },
        Stage::MoveAff => ActionView::Move { from: files.aff_tmp, to: files.aff },
        Stage::RemoveDic => ActionView::Remove { path: files.dic },
        Stage::Installed => ActionView::Succeed(
            LocationView::Hunspell { dic: files.dic, aff: files.aff },
        ),
        Stage::Failed => ActionView::Fail(message),
    }
}

/// The stage after one whose action is done, or has failed. What is over stays over.
pub open spec fn stage_after(stage: Stage, done: bool) -> Stage {
    match stage {
        Stage::FetchDic => if done {
            Stage::FetchAff
        } else {
            Stage::Failed
        },
        Stage::FetchAff => if done {
            Stage::WriteDic
        } else {
            Stage::Failed
        },
        Stage::WriteDic => if done {
            Stage::WriteAff
        } else {
            Stage::Failed
        },
        Stage::WriteAff => if done {
            Stage::MoveDic
        } else {
            Stage::Failed
        },
        Stage::MoveDic => if done {
            Stage::MoveAff
        } else {
            Stage::Failed
        },
        Stage::MoveAff => if done {
            Stage::Installed
        } else {
            Stage::RemoveDic
        },
        Stage::RemoveDic => Stage::Failed,
        Stage::Installed => Stage::Installed,
        Stage::Failed => Stage::Failed,
    }
}

/// What is said where an installation fails in a stage: what a failed download says, or
/// which file could not be written or moved.
pub open spec fn failure(files: FilesView, stage: Stage, event: InstallEvent) -> Seq<char> {
    match stage {
        Stage::WriteDic => "Failed to write "@ + files.dic_tmp,
        Stage::WriteAff => "Failed to write "@ + files.aff_tmp,
        Stage::MoveDic => "Failed to install "@ + files.dic,
        Stage::MoveAff => "Failed to install "@ + files.aff,
        Stage::RemoveDic => "Failed to install "@ + files.aff,
        _ => match event {
            InstallEvent::Done => Seq::empty(),
            InstallEvent::Failed(m) => m@,
        },
    }
}

fn action(files: &PairFiles, stage: Stage, message: String) -> (r: InstallAction)
    ensures
        r@ == action_of(files@, stage, message@),
{
    match stage {
        Stage::FetchDic => InstallAction::FetchDic { url: text::lit(files.dic_url.as_str()) },
        Stage::FetchAff => InstallAction::FetchAff { url: text::lit(files.aff_url.as_str()) },
        Stage::WriteDic => InstallAction::WriteDic { path: text::lit(files.dic_tmp.as_str()) },
        Stage::WriteAff => InstallAction::WriteAff { path: text::lit(files.aff_tmp.as_str()) },
        Stage::MoveDic => InstallAction::Move {
            from: text::lit(files.dic_tmp.as_str()),
            to: text::lit(files.dic.as_str()),
        },
        Stage::MoveAff => InstallAction::Move {
            from: text::lit(files.aff_tmp.as_str()),
            to: text::lit(files.aff.as_str()),
        },
        Stage::RemoveDic => InstallAction::Remove { path: text::lit(files.dic.as_str()) },
        Stage::Installed => InstallAction::Succeed(
            DictionaryLocation::Hunspell {
                dic: text::lit(files.dic.as_str()),
                aff: text::lit(files.aff.as_str()),
            },
        ),
        Stage::Failed => InstallAction::Fail(message),
    }
}

/// The first stage of an installation, and its action.
pub fn install_start(files: &PairFiles) -> (r: (Stage, InstallAction))
    ensures
        r.0 == Stage::FetchDic,
        r.1@ == action_of(files@, Stage::FetchDic, Seq::empty()),
{
    proof {
        reveal_strlit("");
        assert(""@ =~= Seq::<char>::empty());
    }
    (Stage::FetchDic, action(files, Stage::FetchDic, text::lit("")))
}

/// The stage after one whose action ended with an event, and what is to be done in it.
pub fn install_step(files: &PairFiles, stage: Stage, event: &InstallEvent) -> (r: (
    Stage,
    InstallAction,
))
    ensures
        r.0 == stage_after(stage, event is Done),
        r.1@ == action_of(files@, r.0, failure(files@, stage, *event)),
{
    proof {
        reveal_strlit("");
        assert(""@ =~= Seq::<char>::empty());
    }
    let done = match event {
        InstallEvent::Done => true,
        InstallEvent::Failed(_) => false,
    };
    let next = match stage {
        Stage::FetchDic => if done {
            Stage::FetchAff
        } else {
            Stage::Failed
        },
        Stage::FetchAff => if done {
            Stage::WriteDic
        } else {
            Stage::Failed
        },
        Stage::WriteDic => if done {
            Stage::WriteAff
        } else {
            Stage::Failed
        },
        Stage::WriteAff => if done {
            Stage::MoveDic
        } else {
            Stage::Failed
        },
        Stage::MoveDic => if done {
            Stage::MoveAff
        } else {
            Stage::Failed
        },
        Stage::MoveAff => if done {
            Stage::Installed
        } else {
            Stage::RemoveDic
        },
        Stage::RemoveDic => Stage::Failed,
        Stage::Installed => Stage::Installed,
        Stage::Failed => Stage::Failed,
    };
    let message = match stage {
        Stage::WriteDic => text::cat2("Failed to write ", files.dic_tmp.as_str()),
        Stage::WriteAff => text::cat2("Failed to write ", files.aff_tmp.as_str()),
        Stage::MoveDic => text::cat2("Failed to install ", files.dic.as_str()),
        Stage::MoveAff => text::cat2("Failed to install ", files.aff.as_str()),
        Stage::RemoveDic => text::cat2("Failed to install ", files.aff.as_str()),
        _ => match event {
            InstallEvent::Done => text::lit(""),
            InstallEvent::Failed(m) => text::lit(m.as_str()),
        },
    };
    (next, action(files, next, message))
}

// ---------------------------------------------------------------------------
// Laws
// ---------------------------------------------------------------------------

/// Which files of a pair are in their places.
pub struct Places {
    pub dic: bool,
    pub aff: bool,
}

/// The files in their places after the action of a stage; an action that fails changes
/// nothing.
pub open spec fn places_after(p: Places, stage: Stage, done: bool) -> Places {
    if !done {
        p
    } else {
        match stage {
            Stage::MoveDic => Places { dic: true, ..p },
            Stage::MoveAff => Places { aff: true, ..p },
            Stage::RemoveDic => Places { dic: false, ..p },
            _ => p,
        }
    }
}

/// What is in its place in each stage of an installation that began with neither file.
pub open spec fn is_in_order(p: Places, stage: Stage) -> bool {
    match stage {
        Stage::MoveAff => p.dic && !p.aff,
        Stage::RemoveDic => p.dic && !p.aff,
        Stage::Installed => p.dic && p.aff,
        _ => !p.dic && !p.aff,
    }
}

/// How many actions are left at most.
pub open spec fn actions_left(stage: Stage) -> nat {
    match stage {
        Stage::FetchDic => 7,
        Stage::FetchAff => 6,
        Stage::WriteDic => 5,
        Stage::WriteAff => 4,
        Stage::MoveDic => 3,
        Stage::MoveAff => 2,
        Stage::RemoveDic => 1,
        Stage::Installed => 0,
        Stage::Failed => 0,
    }
}

/// Half a pair is never left behind: whatever fails but the removal itself, the word file
/// is in its place without the affix file only until the affix file is moved too or the
/// word file is removed again. Where the installation is over, both files are there, or
/// neither; and every step brings the end nearer.
pub proof fn law_no_half_pair(p: Places, stage: Stage, done: bool)
    requires
        is_in_order(p, stage),
        stage == Stage::RemoveDic ==> done,
    ensures
        is_in_order(places_after(p, stage, done), stage_after(stage, done)),
        actions_left(stage) > 0 ==> actions_left(stage_after(stage, done)) < actions_left(stage),
        actions_left(stage) == 0 ==> p.dic == p.aff && (stage == Stage::Installed) == p.dic,
{
}

/// Where the affix file cannot be moved, the word file is removed again, and then the
/// failure is told.
pub proof fn law_failed_move_is_undone(files: FilesView, event: InstallEvent, last: InstallEvent)
    requires
        event is Failed,
    ensures
        stage_after(Stage::MoveAff, event is Done) == Stage::RemoveDic,
        action_of(
            files,
            Stage::RemoveDic,
            failure(files, Stage::MoveAff, event),
        ) == (ActionView::Remove { path: files.dic }),
        stage_after(Stage::RemoveDic, last is Done) == Stage::Failed,
        action_of(
            files,
            Stage::Failed,
            failure(files, Stage::RemoveDic, last),
        ) == ActionView::Fail("Failed to install "@ + files.aff),
{
}

} // verus!
