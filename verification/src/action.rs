//! What a command asks for: its name and its arguments, read into an action.

use crate::date_time::{DateTime, InputError};
use crate::label::{tag_of_text, Attribute, Tag, TagError};
use crate::text::{chars_of, same_text, string_of, trim, trim_chars};
use vstd::prelude::*;

verus! {

/// Why a command is no action.
#[derive(Clone, Copy, Debug, PartialEq, Eq, Structural)]
pub enum ActionError {
    /// The command has more arguments than it takes.
    TooManyArguments,
    /// `attribute` was given no attribute.
    NoAttribute,
    /// `tag` or `untag` was given no label.
    NoLabel,
    /// `write` was given no text.
    NoText,
    /// The relative time could not be applied.
    Date(InputError),
    /// The word names no attribute.
    Attribute,
    /// The text is no tag.
    Tag(TagError),
    /// `write -b` was asked for and no branch name is at hand.
    Branch,
    /// No command has this name.
    Unrecognized,
}

impl ActionError {
    /// What the error says.
    pub open spec fn text(self) -> Seq<char> {
        match self {
            ActionError::TooManyArguments => "too many arguments"@,
            ActionError::NoAttribute => "no attribute specified"@,
            ActionError::NoLabel => "no label specified"@,
            ActionError::NoText => "no text specified"@,
            ActionError::Date(e) => e.text(),
            ActionError::Attribute => "unrecognized attribute"@,
            ActionError::Tag(e) => e.text(),
            ActionError::Branch => "branch name is empty"@,
            ActionError::Unrecognized => "unrecognized command"@,
        }
    }

    /// What the error says.
    pub fn message(&self) -> (r: String)
        ensures
            r@ == self.text(),
    {
        match self {
            ActionError::TooManyArguments => string_of(&chars_of("too many arguments")),
            ActionError::NoAttribute => string_of(&chars_of("no attribute specified")),
            ActionError::NoLabel => string_of(&chars_of("no label specified")),
            ActionError::NoText => string_of(&chars_of("no text specified")),
            ActionError::Date(e) => e.message(),
            ActionError::Attribute => string_of(&chars_of("unrecognized attribute")),
            ActionError::Tag(e) => e.message(),
            ActionError::Branch => string_of(&chars_of("branch name is empty")),
            ActionError::Unrecognized => string_of(&chars_of("unrecognized command")),
        }
    }
}

/// What a command asks for.
#[derive(Clone, Debug, PartialEq, Eq)]
pub enum Action {
    Start { date: DateTime },
    Mark { date: DateTime },
    Remark { date: DateTime },
    Unmark,
    Path,
    View,
    Attribute { attribute: Attribute },
    Tag { tag: Tag },
    Untag { tag: Tag },
    Write { text: String },
    Version,
}

/// What an action is: the model that contracts speak of.
pub enum ActionView {
    Start { date: DateTime },
    Mark { date: DateTime },
    Remark { date: DateTime },
    Unmark,
    Path,
    View,
    Attribute { attribute: Attribute },
    Tag { tag: Seq<char> },
    Untag { tag: Seq<char> },
    Write { text: Seq<char> },
    Version,
}

impl View for Action {
    type V = ActionView;

    open spec fn view(&self) -> ActionView {
        match self {
            Action::Start { date } => ActionView::Start { date: *date },
            Action::Mark { date } => ActionView::Mark { date: *date },
            Action::Remark { date } => ActionView::Remark { date: *date },
            Action::Unmark => ActionView::Unmark,
            Action::Path => ActionView::Path,
            Action::View => ActionView::View,
            Action::Attribute { attribute } => ActionView::Attribute { attribute: *attribute },
            Action::Tag { tag } => ActionView::Tag { tag: tag@ },
            Action::Untag { tag } => ActionView::Untag { tag: tag@ },
            Action::Write { text } => ActionView::Write { text: text@ },
            Action::Version => ActionView::Version,
        }
    }
}

/// The texts of the arguments.
pub open spec fn argument_views(args: Seq<String>) -> Seq<Seq<char>> {
    Seq::new(args.len(), |i: int| args[i]@)
}

/// The date that a command with an optional relative time asks for: `now`
/// where no argument is given, `now` moved by the argument where one is.
pub open spec fn date_of(args: Seq<Seq<char>>, now: DateTime) -> Result<DateTime, ActionError> {
    if args.len() == 0 {
        Ok(now)
    } else if args.len() == 1 {
        match now.spec_modify(args[0]) {
            Ok(date) => Ok(date),
            Err(e) => Err(ActionError::Date(e)),
        }
    } else {
        Err(ActionError::TooManyArguments)
    }
}

/// The action that a command without arguments asks for.
pub open spec fn bare(args: Seq<Seq<char>>, action: ActionView) -> Result<ActionView, ActionError> {
    if args.len() == 0 {
        Ok(action)
    } else {
        Err(ActionError::TooManyArguments)
    }
}

/// The tag that `tag` or `untag` was given.
pub open spec fn label_of(args: Seq<Seq<char>>) -> Result<Seq<char>, ActionError> {
    if args.len() == 0 {
        Err(ActionError::NoLabel)
    } else if args.len() > 1 {
        Err(ActionError::TooManyArguments)
    } else {
        match tag_of_text(args[0]) {
            Ok(tag) => Ok(tag),
            Err(e) => Err(ActionError::Tag(e)),
        }
    }
}

/// The command is `write -b`: the text to write is the name of the branch.
pub open spec fn wants_branch(name: Seq<char>, args: Seq<Seq<char>>) -> bool {
    name == "write"@ && args.len() == 1 && trim(args[0]) == "-b"@
}

/// The action that the command `name` with the arguments `args` asks for, at
/// the instant `now`, with the branch name `branch` at hand or not.
pub open spec fn action_of(
    name: Seq<char>,
    args: Seq<Seq<char>>,
    now: DateTime,
    branch: Option<Seq<char>>,
) -> Result<ActionView, ActionError> {
    if name == "start"@ {
        match date_of(args, now) {
            Ok(date) => Ok(ActionView::Start { date }),
            Err(e) => Err(e),
        }
    } else if name == "mark"@ {
        match date_of(args, now) {
            Ok(date) => Ok(ActionView::Mark { date }),
            Err(e) => Err(e),
        }
    } else if name == "remark"@ {
        match date_of(args, now) {
            Ok(date) => Ok(ActionView::Remark { date }),
            Err(e) => Err(e),
        }
    } else if name == "unmark"@ {
        bare(args, ActionView::Unmark)
    } else if name == "path"@ {
        bare(args, ActionView::Path)
    } else if name == "view"@ {
        bare(args, ActionView::View)
    } else if name == "attribute"@ {
        if args.len() == 0 {
            Err(ActionError::NoAttribute)
        } else if args.len() > 1 {
            Err(ActionError::TooManyArguments)
        } else {
            match Attribute::spec_from_text(args[0]) {
                Some(attribute) => Ok(ActionView::Attribute { attribute }),
                None => Err(ActionError::Attribute),
            }
        }
    } else if name == "tag"@ {
        match label_of(args) {
            Ok(tag) => Ok(ActionView::Tag { tag }),
            Err(e) => Err(e),
        }
    } else if name == "untag"@ {
        match label_of(args) {
            Ok(tag) => Ok(ActionView::Untag { tag }),
            Err(e) => Err(e),
        }
    } else if name == "write"@ {
        if args.len() == 0 {
            Err(ActionError::NoText)
        } else if args.len() > 1 {
            Err(ActionError::TooManyArguments)
        } else if trim(args[0]) == "-b"@ {
            match branch {
                Some(text) => Ok(ActionView::Write { text }),
                None => Err(ActionError::Branch),
            }
        } else {
            Ok(ActionView::Write { text: trim(args[0]) })
        }
    } else if name == "version"@ {
        bare(args, ActionView::Version)
    } else {
        Err(ActionError::Unrecognized)
    }
}

/// What building gave is what the model says it gives.
pub open spec fn action_agrees(
    r: Result<Action, ActionError>,
    model: Result<ActionView, ActionError>,
) -> bool {
    match r {
        Ok(action) => model == Ok::<ActionView, ActionError>(action@),
        Err(e) => model == Err::<ActionView, ActionError>(e),
    }
}

/// The date that a command with an optional relative time asks for.
fn date_for(args: &[String], now: &DateTime) -> (r: Result<DateTime, ActionError>)
    requires
        now.wf(),
    ensures
        r == date_of(argument_views(args@), *now),
        r matches Ok(date) ==> date.wf(),
{
    if args.len() == 0 {
        Ok(*now)
    } else if args.len() == 1 {
        match now.modify_by_relative_input(args[0].as_str()) {
            Ok(date) => Ok(date),
            Err(e) => Err(ActionError::Date(e)),
        }
    } else {
        Err(ActionError::TooManyArguments)
    }
}

/// The tag that `tag` or `untag` was given.
fn label_for(args: &[String]) -> (r: Result<Tag, ActionError>)
    ensures
        match r {
            Ok(tag) => label_of(argument_views(args@)) == Ok::<Seq<char>, ActionError>(tag@)
                && tag.wf(),
            Err(e) => label_of(argument_views(args@)) == Err::<Seq<char>, ActionError>(e),
        },
{
    if args.len() == 0 {
        Err(ActionError::NoLabel)
    } else if args.len() > 1 {
        Err(ActionError::TooManyArguments)
    } else {
        match Tag::from_text(args[0].as_str()) {
            Ok(tag) => Ok(tag),
            Err(e) => Err(ActionError::Tag(e)),
        }
    }
}

/// Whether `name` is the word `word`.
fn is_word(name: &Vec<char>, word: &str) -> (r: bool)
    ensures
        r == (name@ == word@),
{
    same_text(name, &chars_of(word))
}

impl Action {
    /// Whether the command asks for the name of the branch: `write -b`.
    pub fn wants_branch(name: &str, args: &[String]) -> (r: bool)
        ensures
            r == wants_branch(name@, argument_views(args@)),
    {
        is_word(&chars_of(name), "write") && args.len() == 1 && is_word(
            &trim_chars(&chars_of(args[0].as_str())),
            "-b",
        )
    }

    /// Reads a command at the instant `now`. `branch` is the name of the
    /// branch, for `write -b`, if it is at hand.
    pub fn build_at(name: &str, args: &[String], now: &DateTime, branch: Option<&str>) -> (r:
        Result<Action, ActionError>)
        requires
            now.wf(),
        ensures
            action_agrees(
                r,
                action_of(
                    name@,
                    argument_views(args@),
                    *now,
                    match branch {
                        Some(b) => Some(b@),
                        None => None,
                    },
                ),
            ),
            r matches Ok(action) ==> action.wf(),
    {
        let name = chars_of(name);
        if is_word(&name, "start") {
            match date_for(args, now) {
                Ok(date) => Ok(Action::Start { date }),
                Err(e) => Err(e),
            }
        } else if is_word(&name, "mark") {
            match date_for(args, now) {
                Ok(date) => Ok(Action::Mark { date }),
                Err(e) => Err(e),
            }
        } else if is_word(&name, "remark") {
            match date_for(args, now) {
                Ok(date) => Ok(Action::Remark { date }),
                Err(e) => Err(e),
            }
        } else if is_word(&name, "unmark") {
            if args.len() == 0 {
                Ok(Action::Unmark)
            } else {
                Err(ActionError::TooManyArguments)
            }
        } else if is_word(&name, "path") {
            if args.len() == 0 {
                Ok(Action::Path)
            } else {
                Err(ActionError::TooManyArguments)
            }
        } else if is_word(&name, "view") {
            if args.len() == 0 {
                Ok(Action::View)
            } else {
                Err(ActionError::TooManyArguments)
            }
        } else if is_word(&name, "attribute") {
            if args.len() == 0 {
                Err(ActionError::NoAttribute)
            } else if args.len() > 1 {
                Err(ActionError::TooManyArguments)
            } else {
                match Attribute::from_text(args[0].as_str()) {
                    Some(attribute) => Ok(Action::Attribute { attribute }),
                    None => Err(ActionError::Attribute),
                }
            }
        } else if is_word(&name, "tag") {
            match label_for(args) {
                Ok(tag) => Ok(Action::Tag { tag }),
                Err(e) => Err(e),
            }
        } else if is_word(&name, "untag") {
            match label_for(args) {
                Ok(tag) => Ok(Action::Untag { tag }),
                Err(e) => Err(e),
            }
        } else if is_word(&name, "write") {
            if args.len() == 0 {
                Err(ActionError::NoText)
            } else if args.len() > 1 {
                Err(ActionError::TooManyArguments)
            } else {
                let text = trim_chars(&chars_of(args[0].as_str()));
                if is_word(&text, "-b") {
                    match branch {
                        Some(branch) => Ok(Action::Write { text: branch.to_owned() }),
                        None => Err(ActionError::Branch),
                    }
                } else {
                    Ok(Action::Write { text: string_of(&text) })
                }
            }
        } else if is_word(&name, "version") {
            if args.len() == 0 {
                Ok(Action::Version)
            } else {
                Err(ActionError::TooManyArguments)
            }
        } else {
            Err(ActionError::Unrecognized)
        }
    }

    /// Reads a command now, with no branch name at hand.
    pub fn build(name: &str, args: &[String]) -> (r: Result<Action, ActionError>)
        ensures
            exists|now: DateTime|
                now.wf() && now.whole_second() && action_agrees(
                    r,
                    #[trigger] action_of(name@, argument_views(args@), now, None),
                ),
            r matches Ok(action) ==> action.wf(),
    {
        let now = DateTime::now();
        Action::build_at(name, args, &now, None)
    }

    /// The date of the action is one that `DateTime` holds, and its tag is valid.
    pub open spec fn wf(&self) -> bool {
        match self {
            Action::Start { date } => date.wf(),
            Action::Mark { date } => date.wf(),
            Action::Remark { date } => date.wf(),
            Action::Tag { tag } => tag.wf(),
            Action::Untag { tag } => tag.wf(),
            _ => true,
        }
    }
}

} // verus!
