//! Storing a private key: which steps on files are taken, in which order.
//!
//! The key is written to a new file beside the target, which is then linked to it, so that the
//! target is never seen in part and never replaced. Taking the steps is the caller's part.

use vstd::prelude::*;
use vstd::string::StringExecFns;

use crate::text::{chars_of, concat2, decimal, decimal_of};

verus! {

/// How many names for the new file are tried.
pub const MAX_ATTEMPTS: u32 = 100;

/// The mode of the key file: its owner alone may read and write it.
pub const KEY_MODE: u32 = 0o600;

/// A step to be taken.
pub enum Action {
    /// Tell whether there is something at the path.
    CheckTarget(String),
    /// Tell whether the path is a directory.
    CheckDirectory(String),
    /// Give a number that was not given before.
    TakeNumber,
    /// Create a file with the mode `KEY_MODE`; fail if there is something already.
    Create(String),
    /// Give the file the mode `KEY_MODE`.
    Secure(String),
    /// Write the key to the file, down to the disk.
    Write(String),
    /// Link the target to the file; fail if the target exists.
    Link(String),
    Remove(String),
    /// Bring the directory's entries down to the disk. A failure does no harm.
    SyncDirectory(String),
}

/// What came of a step.
pub enum Outcome {
    Yes,
    No,
    Number(u64),
    Done,
    /// There is something at the path already.
    Exists(String),
    Failed(String),
}

/// How far the work has come.
pub enum Phase {
    CheckingTarget,
    CheckingDirectory { parent: String },
    Numbering { parent: String, name: String, tried: u32 },
    Creating { parent: String, name: String, tried: u32, temporary: String },
    Securing { parent: String, temporary: String },
    Writing { parent: String, temporary: String },
    Linking { parent: String, temporary: String },
    Removing { parent: String, temporary: String },
    Cleaning { error: String },
    Syncing,
}

pub struct Installer {
    pub target: String,
    /// The number of the process, which goes into the names that are tried.
    pub process: u32,
    pub phase: Phase,
}

pub enum Progress {
    Perform(Installer, Action),
    Finished(Result<(), String>),
}

pub enum ActionView {
    CheckTarget(Seq<char>),
    CheckDirectory(Seq<char>),
    TakeNumber,
    Create(Seq<char>),
    Secure(Seq<char>),
    Write(Seq<char>),
    Link(Seq<char>),
    Remove(Seq<char>),
    SyncDirectory(Seq<char>),
}

impl View for Action {
    type V = ActionView;

    open spec fn view(&self) -> ActionView {
        match self {
            Action::CheckTarget(path) => ActionView::CheckTarget(path@),
            Action::CheckDirectory(path) => ActionView::CheckDirectory(path@),
            Action::TakeNumber => ActionView::TakeNumber,
            Action::Create(path) => ActionView::Create(path@),
            Action::Secure(path) => ActionView::Secure(path@),
            Action::Write(path) => ActionView::Write(path@),
            Action::Link(path) => ActionView::Link(path@),
            Action::Remove(path) => ActionView::Remove(path@),
            Action::SyncDirectory(path) => ActionView::SyncDirectory(path@),
        }
    }
}

pub enum OutcomeView {
    Yes,
    No,
    Number(u64),
    Done,
    Exists(Seq<char>),
    Failed(Seq<char>),
}

impl View for Outcome {
    type V = OutcomeView;

    open spec fn view(&self) -> OutcomeView {
        match self {
            Outcome::Yes => OutcomeView::Yes,
            Outcome::No => OutcomeView::No,
            Outcome::Number(n) => OutcomeView::Number(*n),
            Outcome::Done => OutcomeView::Done,
            Outcome::Exists(cause) => OutcomeView::Exists(cause@),
            Outcome::Failed(cause) => OutcomeView::Failed(cause@),
        }
    }
}

impl OutcomeView {
    /// Why a step failed, if it did.
    pub open spec fn cause(self) -> Option<Seq<char>> {
        match self {
            OutcomeView::Exists(cause) => Some(cause),
            OutcomeView::Failed(cause) => Some(cause),
            _ => None,
        }
    }
}

pub enum PhaseView {
    CheckingTarget,
    CheckingDirectory { parent: Seq<char> },
    Numbering { parent: Seq<char>, name: Seq<char>, tried: u32 },
    Creating { parent: Seq<char>, name: Seq<char>, tried: u32, temporary: Seq<char> },
    Securing { parent: Seq<char>, temporary: Seq<char> },
    Writing { parent: Seq<char>, temporary: Seq<char> },
    Linking { parent: Seq<char>, temporary: Seq<char> },
    Removing { parent: Seq<char>, temporary: Seq<char> },
    Cleaning { error: Seq<char> },
    Syncing,
}

impl View for Phase {
    type V = PhaseView;

    open spec fn view(&self) -> PhaseView {
        match self {
            Phase::CheckingTarget => PhaseView::CheckingTarget,
            Phase::CheckingDirectory { parent } => PhaseView::CheckingDirectory { parent: parent@ },
            Phase::Numbering { parent, name, tried } => PhaseView::Numbering {
                parent: parent@,
                name: name@,
                tried: *tried,
            },
            Phase::Creating { parent, name, tried, temporary } => PhaseView::Creating {
                parent: parent@,
                name: name@,
                tried: *tried,
                temporary: temporary@,
            },
            Phase::Securing { parent, temporary } => PhaseView::Securing {
                parent: parent@,
                temporary: temporary@,
            },
            Phase::Writing { parent, temporary } => PhaseView::Writing {
                parent: parent@,
                temporary: temporary@,
            },
            Phase::Linking { parent, temporary } => PhaseView::Linking {
                parent: parent@,
                temporary: temporary@,
            },
            Phase::Removing { parent, temporary } => PhaseView::Removing {
                parent: parent@,
                temporary: temporary@,
            },
            Phase::Cleaning { error } => PhaseView::Cleaning { error: error@ },
            Phase::Syncing => PhaseView::Syncing,
        }
    }
}

pub enum ProgressView {
    Perform(PhaseView, ActionView),
    Finished(Result<(), Seq<char>>),
}

impl Progress {
    pub open spec fn view_of(self) -> ProgressView {
        match self {
            Progress::Perform(installer, action) => ProgressView::Perform(
                installer.phase@,
                action@,
            ),
            Progress::Finished(Ok(())) => ProgressView::Finished(Ok(())),
            Progress::Finished(Err(error)) => ProgressView::Finished(Err(error@)),
        }
    }
}

// Paths.

/// The path without its last component, as std tells it; `None` for a root.
pub uninterp spec fn parent_of(path: Seq<char>) -> Option<Seq<char>>;

/// `Path::parent` gives the path without its last component.
#[verifier::external_body]
fn parent(path: &str) -> (r: Option<String>)
    ensures
        match r {
            Some(parent) => parent_of(path@) == Some(parent@),
            None => parent_of(path@) is None,
        },
{
    std::path::Path::new(path).parent().and_then(|p| p.to_str()).map(|p| p.to_owned())
}

/// The last component of the path, as std tells it; `None` for a root or `..`.
pub uninterp spec fn file_name_of(path: Seq<char>) -> Option<Seq<char>>;

/// `Path::file_name` gives the last component of the path.
#[verifier::external_body]
fn file_name(path: &str) -> (r: Option<String>)
    ensures
        match r {
            Some(name) => file_name_of(path@) == Some(name@),
            None => file_name_of(path@) is None,
        },
{
    std::path::Path::new(path).file_name().and_then(|n| n.to_str()).map(|n| n.to_owned())
}

/// A name in a directory.
pub open spec fn entry(parent: Seq<char>, name: Seq<char>) -> Seq<char> {
    if parent.len() == 0 || parent.last() == '/' {
        parent + name
    } else {
        parent + "/"@ + name
    }
}

/// The name of the new file.
pub open spec fn temporary_name(name: Seq<char>, process: u32, number: u64) -> Seq<char> {
    "."@ + name + "."@ + decimal(process as nat) + "."@ + decimal(number as nat) + ".tmp"@
}

fn temporary_path(parent: &str, name: &str, process: u32, number: u64) -> (r: String)
    ensures
        r@ == entry(parent@, temporary_name(name@, process, number)),
{
    let mut file = concat2(".", name);
    file.append(".");
    file.append(decimal_of(process as u64).as_str());
    file.append(".");
    file.append(decimal_of(number).as_str());
    file.append(".tmp");
    let chars = chars_of(parent);
    let len: usize = chars.len();
    let mut path = parent.to_owned();
    if len != 0 && chars[len - 1] != '/' {
        path.append("/");
    }
    path.append(file.as_str());
    path
}

// The steps.

pub open spec fn overwrite_text(target: Seq<char>) -> Seq<char> {
    "refusing to overwrite "@ + target
}

/// The step after one has come to something.
pub open spec fn next(
    target: Seq<char>,
    process: u32,
    phase: PhaseView,
    outcome: OutcomeView,
) -> ProgressView {
    match phase {
        PhaseView::CheckingTarget => if outcome is Yes {
            ProgressView::Finished(Err(overwrite_text(target)))
        } else {
            match parent_of(target) {
                None => ProgressView::Finished(
                    Err("private key output path has no parent directory"@),
                ),
                Some(parent) => ProgressView::Perform(
                    PhaseView::CheckingDirectory { parent },
                    ActionView::CheckDirectory(parent),
                ),
            }
        },
        PhaseView::CheckingDirectory { parent } => if outcome is Yes {
            match file_name_of(target) {
                None => ProgressView::Finished(Err("private key output filename is invalid"@)),
                Some(name) => ProgressView::Perform(
                    PhaseView::Numbering { parent, name, tried: 0 },
                    ActionView::TakeNumber,
                ),
            }
        } else {
            ProgressView::Finished(Err("parent directory does not exist: "@ + parent))
        },
        PhaseView::Numbering { parent, name, tried } => match outcome {
            OutcomeView::Number(number) => {
                let temporary = entry(parent, temporary_name(name, process, number));
                ProgressView::Perform(
                    PhaseView::Creating { parent, name, tried, temporary },
                    ActionView::Create(temporary),
                )
            },
            _ => ProgressView::Finished(
                Err("cannot allocate a unique temporary key filename"@),
            ),
        },
        PhaseView::Creating { parent, name, tried, temporary } => match outcome {
            OutcomeView::Exists(_) => if tried + 1 >= MAX_ATTEMPTS {
                ProgressView::Finished(Err("cannot allocate a unique temporary key filename"@))
            } else {
                ProgressView::Perform(
                    PhaseView::Numbering { parent, name, tried: (tried + 1) as u32 },
                    ActionView::TakeNumber,
                )
            },
            OutcomeView::Failed(cause) => ProgressView::Finished(
                Err("cannot create temporary key file: "@ + cause),
            ),
            _ => ProgressView::Perform(
                PhaseView::Securing { parent, temporary },
                ActionView::Secure(temporary),
            ),
        },
        PhaseView::Securing { parent, temporary } => match outcome.cause() {
            Some(cause) => cleaning("cannot secure temporary key file: "@ + cause, temporary),
            None => ProgressView::Perform(
                PhaseView::Writing { parent, temporary },
                ActionView::Write(temporary),
            ),
        },
        PhaseView::Writing { parent, temporary } => match outcome.cause() {
            Some(cause) => cleaning("cannot write "@ + target + ": "@ + cause, temporary),
            None => ProgressView::Perform(
                PhaseView::Linking { parent, temporary },
                ActionView::Link(temporary),
            ),
        },
        PhaseView::Linking { parent, temporary } => match outcome {
            OutcomeView::Exists(_) => cleaning(overwrite_text(target), temporary),
            OutcomeView::Failed(cause) => cleaning(
                "cannot install private key "@ + target + ": "@ + cause,
                temporary,
            ),
            _ => ProgressView::Perform(
                PhaseView::Removing { parent, temporary },
                ActionView::Remove(temporary),
            ),
        },
        PhaseView::Removing { parent, temporary } => match outcome.cause() {
            Some(cause) => cleaning("cannot remove temporary key file: "@ + cause, temporary),
            None => ProgressView::Perform(
                PhaseView::Syncing,
                ActionView::SyncDirectory(parent),
            ),
        },
        PhaseView::Cleaning { error } => ProgressView::Finished(Err(error)),
        PhaseView::Syncing => ProgressView::Finished(Ok(())),
    }
}

/// The new file is removed before an error is told.
pub open spec fn cleaning(error: Seq<char>, temporary: Seq<char>) -> ProgressView {
    ProgressView::Perform(PhaseView::Cleaning { error }, ActionView::Remove(temporary))
}

impl Outcome {
    fn into_cause(self) -> (r: Option<String>)
        ensures
            match r {
                Some(cause) => self@.cause() == Some(cause@),
                None => self@.cause() is None,
            },
    {
        match self {
            Outcome::Exists(cause) => Some(cause),
            Outcome::Failed(cause) => Some(cause),
            _ => None,
        }
    }
}

fn copied(text: &String) -> (r: String)
    ensures
        r@ == text@,
{
    text.as_str().to_owned()
}

impl Installer {
    /// The first step for storing a key at a path.
    pub fn start(target: String, process: u32) -> (r: (Installer, Action))
        ensures
            r.0.target@ == target@,
            r.0.process == process,
            r.0.phase@ == PhaseView::CheckingTarget,
            r.1@ == ActionView::CheckTarget(target@),
    {
        let action = Action::CheckTarget(copied(&target));
        (Installer { target, process, phase: Phase::CheckingTarget }, action)
    }

    fn go_on(target: String, process: u32, phase: Phase, action: Action) -> (r: Progress)
        ensures
            r.view_of() == ProgressView::Perform(phase@, action@),
            r matches Progress::Perform(installer, _) ==> installer.target == target
                && installer.process == process,
    {
        Progress::Perform(Installer { target, process, phase }, action)
    }

    fn clean(target: String, process: u32, error: String, temporary: String) -> (r: Progress)
        ensures
            r.view_of() == cleaning(error@, temporary@),
            r matches Progress::Perform(installer, _) ==> installer.target == target
                && installer.process == process,
    {
        Self::go_on(target, process, Phase::Cleaning { error }, Action::Remove(temporary))
    }

    /// Takes what came of the last step and gives the next, or the result.
    pub fn write_private_key(self, outcome: Outcome) -> (r: Progress)
        ensures
            r.view_of() == next(self.target@, self.process, self.phase@, outcome@),
            r matches Progress::Perform(installer, _) ==> installer.target == self.target
                && installer.process == self.process,
    {
        let Installer { target, process, phase } = self;
        match phase {
            Phase::CheckingTarget => {
                if let Outcome::Yes = outcome {
                    return Progress::Finished(
                        Err(concat2("refusing to overwrite ", target.as_str())),
                    );
                }
                match parent(target.as_str()) {
                    None => Progress::Finished(
                        Err("private key output path has no parent directory".to_owned()),
                    ),
                    Some(parent) => {
                        let action = Action::CheckDirectory(copied(&parent));
                        Self::go_on(target, process, Phase::CheckingDirectory { parent }, action)
                    },
                }
            },
            Phase::CheckingDirectory { parent } => {
                if let Outcome::Yes = outcome {
                    match file_name(target.as_str()) {
                        None => Progress::Finished(
                            Err("private key output filename is invalid".to_owned()),
                        ),
                        Some(name) => Self::go_on(
                            target,
                            process,
                            Phase::Numbering { parent, name, tried: 0 },
                            Action::TakeNumber,
                        ),
                    }
                } else {
                    Progress::Finished(
                        Err(concat2("parent directory does not exist: ", parent.as_str())),
                    )
                }
            },
            Phase::Numbering { parent, name, tried } => Self::create_temporary(
                target,
                process,
                parent,
                name,
                tried,
                outcome,
            ),
            Phase::Creating { parent, name, tried, temporary } => match outcome {
                Outcome::Exists(_) => {
                    if tried >= MAX_ATTEMPTS - 1 {
                        return Progress::Finished(
                            Err("cannot allocate a unique temporary key filename".to_owned()),
                        );
                    }
                    Self::go_on(
                        target,
                        process,
                        Phase::Numbering { parent, name, tried: tried + 1 },
                        Action::TakeNumber,
                    )
                },
                Outcome::Failed(cause) => Progress::Finished(
                    Err(concat2("cannot create temporary key file: ", cause.as_str())),
                ),
                _ => {
                    let action = Action::Secure(copied(&temporary));
                    Self::go_on(target, process, Phase::Securing { parent, temporary }, action)
                },
            },
            Phase::Securing { parent, temporary } => match outcome.into_cause() {
                Some(cause) => {
                    let error = concat2("cannot secure temporary key file: ", cause.as_str());
                    Self::clean(target, process, error, temporary)
                },
                None => {
                    let action = Action::Write(copied(&temporary));
                    Self::go_on(target, process, Phase::Writing { parent, temporary }, action)
                },
            },
            Phase::Writing { parent, temporary } => match outcome.into_cause() {
                Some(cause) => {
                    let mut error = concat2("cannot write ", target.as_str());
                    error.append(": ");
                    error.append(cause.as_str());
                    Self::clean(target, process, error, temporary)
                },
                None => {
                    let action = Action::Link(copied(&temporary));
                    Self::go_on(target, process, Phase::Linking { parent, temporary }, action)
                },
            },
            Phase::Linking { parent, temporary } => match outcome {
                Outcome::Exists(_) => {
                    let error = concat2("refusing to overwrite ", target.as_str());
                    Self::clean(target, process, error, temporary)
                },
                Outcome::Failed(cause) => {
                    let mut error = concat2("cannot install private key ", target.as_str());
                    error.append(": ");
                    error.append(cause.as_str());
                    Self::clean(target, process, error, temporary)
                },
                _ => {
                    let action = Action::Remove(copied(&temporary));
                    Self::go_on(target, process, Phase::Removing { parent, temporary }, action)
                },
            },
            Phase::Removing { parent, temporary } => match outcome.into_cause() {
                Some(cause) => {
                    let error = concat2("cannot remove temporary key file: ", cause.as_str());
                    Self::clean(target, process, error, temporary)
                },
                None => Self::go_on(
                    target,
                    process,
                    Phase::Syncing,
                    Action::SyncDirectory(parent),
                ),
            },
            Phase::Cleaning { error } => Progress::Finished(Err(error)),
            Phase::Syncing => Progress::Finished(Ok(())),
        }
    }

    /// Gives the step that creates a new file.
    fn create_temporary(
        target: String,
        process: u32,
        parent: String,
        name: String,
        tried: u32,
        outcome: Outcome,
    ) -> (r: Progress)
        ensures
            r.view_of() == next(
                target@,
                process,
                PhaseView::Numbering { parent: parent@, name: name@, tried },
                outcome@,
            ),
            r matches Progress::Perform(installer, _) ==> installer.target == target
                && installer.process == process,
    {
        match outcome {
            Outcome::Number(number) => {
                let temporary = temporary_path(parent.as_str(), name.as_str(), process, number);
                let action = Action::Create(copied(&temporary));
                Self::go_on(
                    target,
                    process,
                    Phase::Creating { parent, name, tried, temporary },
                    action,
                )
            },
            _ => Progress::Finished(
                Err("cannot allocate a unique temporary key filename".to_owned()),
            ),
        }
    }
}

// What the steps do to the files.

/// What was done to files so far.
pub struct Files {
    /// The new file, while it is there.
    pub temporary: Option<Seq<char>>,
    /// Whether only its owner can read and write the new file.
    pub secured: bool,
    /// Whether the new file holds the whole key.
    pub written: bool,
    /// Whether the target was made, by a link to the new file.
    pub installed: bool,
    /// Whether the new file was secured and written when it was linked.
    pub complete: bool,
    /// How often a new file was tried.
    pub attempts: nat,
}

/// Nothing was done.
pub open spec fn untouched() -> Files {
    Files {
        temporary: None,
        secured: false,
        written: false,
        installed: false,
        complete: false,
        attempts: 0,
    }
}

/// What a step that came to this has done.
pub open spec fn performed(files: Files, action: ActionView, outcome: OutcomeView) -> Files {
    let good = outcome.cause() is None;
    match action {
        ActionView::Create(path) => if good {
            Files {
                temporary: Some(path),
                secured: false,
                written: false,
                attempts: files.attempts + 1,
                ..files
            }
        } else {
            Files { attempts: files.attempts + 1, ..files }
        },
        ActionView::Secure(path) => if good && files.temporary == Some(path) {
            Files { secured: true, ..files }
        } else {
            files
        },
        ActionView::Write(path) => if good && files.temporary == Some(path) {
            Files { written: true, ..files }
        } else {
            files
        },
        ActionView::Link(path) => if good {
            Files {
                installed: true,
                complete: files.temporary == Some(path) && files.secured && files.written,
                ..files
            }
        } else {
            files
        },
        ActionView::Remove(path) => if good && files.temporary == Some(path) {
            Files { temporary: None, ..files }
        } else {
            files
        },
        _ => files,
    }
}

/// Whether the files are as they must be before a step.
pub open spec fn expected(phase: PhaseView, action: ActionView, files: Files) -> bool {
    &&& files.attempts <= MAX_ATTEMPTS
    &&& files.installed ==> files.complete
    &&& match phase {
        PhaseView::CheckingTarget => files == untouched() && action is CheckTarget,
        PhaseView::CheckingDirectory { .. } => files == untouched() && action is CheckDirectory,
        PhaseView::Numbering { tried, .. } => {
            &&& files.temporary is None && !files.installed
            &&& files.attempts == tried && tried < MAX_ATTEMPTS
            &&& action is TakeNumber
        },
        PhaseView::Creating { tried, temporary, .. } => {
            &&& files.temporary is None && !files.installed
            &&& files.attempts == tried && tried < MAX_ATTEMPTS
            &&& action == ActionView::Create(temporary)
        },
        PhaseView::Securing { temporary, .. } => {
            &&& files.temporary == Some(temporary) && !files.installed
            &&& action == ActionView::Secure(temporary)
        },
        PhaseView::Writing { temporary, .. } => {
            &&& files.temporary == Some(temporary) && !files.installed && files.secured
            &&& action == ActionView::Write(temporary)
        },
        PhaseView::Linking { temporary, .. } => {
            &&& files.temporary == Some(temporary) && !files.installed
            &&& files.secured && files.written
            &&& action == ActionView::Link(temporary)
        },
        PhaseView::Removing { temporary, .. } => {
            &&& files.temporary == Some(temporary) && files.installed
            &&& action == ActionView::Remove(temporary)
        },
        PhaseView::Cleaning { .. } => {
            files.temporary matches Some(temporary) && action == ActionView::Remove(temporary)
        },
        PhaseView::Syncing => files.temporary is None && files.installed && action is SyncDirectory,
    }
}

/// Whatever the steps come to: the target is made only from a file that its owner alone can read
/// and that holds the whole key; at most a hundred names are tried; where the work succeeds, the
/// target is there and the new file is gone; where it fails, the new file is gone too, unless
/// it could not be removed.
pub proof fn law_keys_are_installed_whole(
    target: Seq<char>,
    process: u32,
    phase: PhaseView,
    action: ActionView,
    files: Files,
    outcome: OutcomeView,
)
    requires
        expected(phase, action, files),
    ensures
        expected(PhaseView::CheckingTarget, ActionView::CheckTarget(target), untouched()),
        ({
            let after = performed(files, action, outcome);
            match next(target, process, phase, outcome) {
                ProgressView::Perform(phase, action) => expected(phase, action, after),
                ProgressView::Finished(Ok(())) => after.installed && after.complete
                    && after.temporary is None,
                ProgressView::Finished(Err(_)) => {
                    &&& after.installed ==> after.complete
                    &&& after.attempts <= MAX_ATTEMPTS
                    &&& after.temporary is None || (action is Remove && outcome.cause() is Some)
                },
            }
        }),
{
}

/// A target that is there already is left alone, and nothing else is touched.
pub proof fn law_existing_targets_are_refused(target: Seq<char>, process: u32)
    ensures
        next(target, process, PhaseView::CheckingTarget, OutcomeView::Yes)
            == ProgressView::Finished(Err(overwrite_text(target))),
        performed(untouched(), ActionView::CheckTarget(target), OutcomeView::Yes) == untouched(),
{
}

/// The new file stands beside the target, hidden, under the target's name, the number of the
/// process and a number of its own.
pub proof fn law_new_files_stand_beside_the_target(
    parent: Seq<char>,
    name: Seq<char>,
    process: u32,
    number: u64,
)
    requires
        parent.len() > 0,
        parent.last() != '/',
    ensures
        entry(parent, temporary_name(name, process, number)) == parent + seq!['/', '.'] + name + seq![
            '.',
        ] + decimal(process as nat) + seq!['.'] + decimal(number as nat) + seq!['.', 't', 'm', 'p'],
        entry(seq!['/'], temporary_name(name, process, number)) == seq!['/', '.'] + name + seq!['.']
            + decimal(process as nat) + seq!['.'] + decimal(number as nat) + seq![
            '.',
            't',
            'm',
            'p',
        ],
{
    reveal_strlit("/");
    reveal_strlit(".");
    reveal_strlit(".tmp");
    let rest = name + seq!['.'] + decimal(process as nat) + seq!['.'] + decimal(number as nat) + seq![
        '.',
        't',
        'm',
        'p',
    ];
    let file = temporary_name(name, process, number);
    assert(file =~= seq!['.'] + rest);
    assert(entry(parent, file) =~= parent + seq!['/', '.'] + name + seq!['.'] + decimal(
        process as nat,
    ) + seq!['.'] + decimal(number as nat) + seq!['.', 't', 'm', 'p']);
    assert(entry(seq!['/'], file) =~= seq!['/', '.'] + name + seq!['.'] + decimal(process as nat)
        + seq!['.'] + decimal(number as nat) + seq!['.', 't', 'm', 'p']);
}

/// Where every step succeeds, the key is stored in nine steps: nothing is at the target, its
/// directory is there, a number is taken, the new file is created, secured, written, linked to the
/// target and removed, and the directory is brought to the disk.
pub proof fn law_keys_are_stored_in_nine_steps(
    target: Seq<char>,
    process: u32,
    number: u64,
    parent: Seq<char>,
    name: Seq<char>,
    tried: u32,
)
    requires
        parent_of(target) == Some(parent),
        file_name_of(target) == Some(name),
    ensures
        ({
            let done = OutcomeView::Done;
            let temporary = entry(parent, temporary_name(name, process, number));
            &&& next(target, process, PhaseView::CheckingTarget, OutcomeView::No)
                == ProgressView::Perform(
                PhaseView::CheckingDirectory { parent },
                ActionView::CheckDirectory(parent),
            )
            &&& next(target, process, PhaseView::CheckingDirectory { parent }, OutcomeView::Yes)
                == ProgressView::Perform(
                PhaseView::Numbering { parent, name, tried: 0 },
                ActionView::TakeNumber,
            )
            &&& next(
                target,
                process,
                PhaseView::Numbering { parent, name, tried },
                OutcomeView::Number(number),
            ) == ProgressView::Perform(
                PhaseView::Creating { parent, name, tried, temporary },
                ActionView::Create(temporary),
            )
            &&& next(target, process, PhaseView::Creating { parent, name, tried, temporary }, done)
                == ProgressView::Perform(
                PhaseView::Securing { parent, temporary },
                ActionView::Secure(temporary),
            )
            &&& next(target, process, PhaseView::Securing { parent, temporary }, done)
                == ProgressView::Perform(
                PhaseView::Writing { parent, temporary },
                ActionView::Write(temporary),
            )
            &&& next(target, process, PhaseView::Writing { parent, temporary }, done)
                == ProgressView::Perform(
                PhaseView::Linking { parent, temporary },
                ActionView::Link(temporary),
            )
            &&& next(target, process, PhaseView::Linking { parent, temporary }, done)
                == ProgressView::Perform(
                PhaseView::Removing { parent, temporary },
                ActionView::Remove(temporary),
            )
            &&& next(target, process, PhaseView::Removing { parent, temporary }, done)
                == ProgressView::Perform(PhaseView::Syncing, ActionView::SyncDirectory(parent))
            &&& next(target, process, PhaseView::Syncing, done) == ProgressView::Finished(Ok(()))
        }),
{
}

/// A name that is taken is passed over for another number, up to the hundredth.
pub proof fn law_a_hundred_names_are_tried(
    target: Seq<char>,
    process: u32,
    parent: Seq<char>,
    name: Seq<char>,
    tried: u32,
    temporary: Seq<char>,
    cause: Seq<char>,
)
    ensures
        next(
            target,
            process,
            PhaseView::Creating { parent, name, tried, temporary },
            OutcomeView::Exists(cause),
        ) == if tried < 99 {
            ProgressView::Perform(
                PhaseView::Numbering { parent, name, tried: (tried + 1) as u32 },
                ActionView::TakeNumber,
            )
        } else {
            ProgressView::Finished(Err("cannot allocate a unique temporary key filename"@))
        },
{
}

} // verus!
