//! What is done to the file system to build a site, step by step.

use vstd::prelude::*;

use crate::path::FilePath;

verus! {

/// One thing to do to the file system.
#[derive(Debug)]
pub enum Step {
    /// Create a directory unless something exists at its path.
    EnsureDirectory(FilePath),
    /// Make sure that a directory exists.
    CreateDirectory(FilePath),
    /// Create a directory unless it exists. Anything else at its path makes this fail.
    RequireDirectory(FilePath),
    /// Delete a directory with all that it holds, if it exists.
    RemoveDirectory(FilePath),
    /// Write a text to a file.
    WriteFile { path: FilePath, text: String },
    /// Copy a file.
    CopyFile { from: FilePath, to: FilePath },
    /// Copy a file after deleting what exists at the place of the copy.
    ReplaceFile { from: FilePath, to: FilePath },
    /// Copy a file to where only a directory can be, which fails.
    ReplaceDirectory { from: FilePath, to: FilePath },
}

/// Steps to perform in order. A plan that is not complete ends where a text that it needs could not
/// be rendered.
#[derive(Debug)]
pub struct Plan {
    pub steps: Vec<Step>,
    pub complete: bool,
}

pub ghost enum StepModel {
    EnsureDirectory(Seq<Seq<char>>),
    CreateDirectory(Seq<Seq<char>>),
    RequireDirectory(Seq<Seq<char>>),
    RemoveDirectory(Seq<Seq<char>>),
    WriteFile { path: Seq<Seq<char>>, text: Seq<char> },
    CopyFile { from: Seq<Seq<char>>, to: Seq<Seq<char>> },
    ReplaceFile { from: Seq<Seq<char>>, to: Seq<Seq<char>> },
    ReplaceDirectory { from: Seq<Seq<char>>, to: Seq<Seq<char>> },
}

#[verifier::ext_equal]
pub ghost struct PlanModel {
    pub steps: Seq<StepModel>,
    pub complete: bool,
}

impl View for Step {
    type V = StepModel;

    open spec fn view(&self) -> StepModel {
        match self {
            Step::EnsureDirectory(path) => StepModel::EnsureDirectory(path@),
            Step::CreateDirectory(path) => StepModel::CreateDirectory(path@),
            Step::RequireDirectory(path) => StepModel::RequireDirectory(path@),
            Step::RemoveDirectory(path) => StepModel::RemoveDirectory(path@),
            Step::WriteFile { path, text } => StepModel::WriteFile { path: path@, text: text@ },
            Step::CopyFile { from, to } => StepModel::CopyFile { from: from@, to: to@ },
            Step::ReplaceFile { from, to } => StepModel::ReplaceFile { from: from@, to: to@ },
            Step::ReplaceDirectory { from, to } => StepModel::ReplaceDirectory {
                from: from@,
                to: to@,
            },
        }
    }
}

/// The steps of a sequence.
pub open spec fn step_models(steps: Seq<Step>) -> Seq<StepModel> {
    steps.map_values(|s: Step| s@)
}

impl View for Plan {
    type V = PlanModel;

    open spec fn view(&self) -> PlanModel {
        PlanModel { steps: step_models(self.steps@), complete: self.complete }
    }
}

/// A plan that is complete.
pub open spec fn complete_plan(steps: Seq<StepModel>) -> PlanModel {
    PlanModel { steps, complete: true }
}

/// A plan that ends before its goal.
pub open spec fn broken_plan(steps: Seq<StepModel>) -> PlanModel {
    PlanModel { steps, complete: false }
}

/// One plan after another. What comes after a plan that is not complete is left out.
pub open spec fn followed_by(first: PlanModel, second: PlanModel) -> PlanModel {
    if first.complete {
        PlanModel { steps: first.steps + second.steps, complete: second.complete }
    } else {
        first
    }
}

/// The plan of writing a text that was to be rendered.
pub open spec fn file_plan(path: Seq<Seq<char>>, text: Option<Seq<char>>) -> PlanModel {
    match text {
        Some(text) => complete_plan(seq![StepModel::WriteFile { path, text }]),
        None => broken_plan(Seq::empty()),
    }
}

/// The path that a step makes something at, or deletes something from.
pub open spec fn target(step: StepModel) -> Seq<Seq<char>> {
    match step {
        StepModel::EnsureDirectory(path) => path,
        StepModel::CreateDirectory(path) => path,
        StepModel::RequireDirectory(path) => path,
        StepModel::RemoveDirectory(path) => path,
        StepModel::WriteFile { path, .. } => path,
        StepModel::CopyFile { to, .. } => to,
        StepModel::ReplaceFile { to, .. } => to,
        StepModel::ReplaceDirectory { to, .. } => to,
    }
}

/// Whether steps see to it that a directory exists.
pub open spec fn makes_directory(steps: Seq<StepModel>, path: Seq<Seq<char>>) -> bool {
    exists|i: int|
        0 <= i < steps.len() && (#[trigger] steps[i] == StepModel::EnsureDirectory(path) || steps[i]
            == StepModel::CreateDirectory(path))
}

/// Whether `step` can be performed after `before` if the parent of `output` exists: it works below
/// `output`, and in a directory that was seen to, or on such a directory, or on `output` itself.
pub open spec fn is_grounded(
    output: Seq<Seq<char>>,
    before: Seq<StepModel>,
    step: StepModel,
) -> bool {
    &&& output.is_prefix_of(target(step))
    &&& target(step) == output || makes_directory(before, target(step)) || makes_directory(
        before,
        target(step).drop_last(),
    )
}

/// Whether each of `steps` can be performed when it comes up, after `before`.
pub open spec fn are_grounded(
    output: Seq<Seq<char>>,
    before: Seq<StepModel>,
    steps: Seq<StepModel>,
) -> bool {
    forall|i: int|
        0 <= i < steps.len() ==> is_grounded(output, before + steps.take(i), #[trigger] steps[i])
}

/// Adds a step to a list.
pub(crate) fn push_step(steps: &mut Vec<Step>, step: Step)
    ensures
        step_models(final(steps)@) == step_models(old(steps)@).push(step@),
{
    let ghost before = steps@;
    steps.push(step);
    assert(step_models(steps@) == step_models(before).push(step@));
}

impl Plan {
    /// The complete plan without steps.
    pub fn new() -> (plan: Plan)
        ensures
            plan@ == complete_plan(Seq::empty()),
    {
        let plan = Plan { steps: Vec::new(), complete: true };
        assert(plan@.steps == Seq::<StepModel>::empty());
        plan
    }

    /// Adds a step.
    pub(crate) fn add(&mut self, step: Step)
        requires
            old(self)@.complete,
        ensures
            final(self)@ == complete_plan(old(self)@.steps.push(step@)),
    {
        push_step(&mut self.steps, step);
    }

    /// Adds the writing of a text, or ends the plan if the text is missing.
    pub(crate) fn write(&mut self, path: FilePath, text: Option<String>)
        requires
            old(self)@.complete,
        ensures
            final(self)@ == followed_by(
                old(self)@,
                file_plan(path@, crate::content::optional_text(text)),
            ),
    {
        let ghost before = self@;
        match text {
            Some(text) => {
                let ghost step = StepModel::WriteFile { path: path@, text: text@ };
                self.add(Step::WriteFile { path, text });
                assert(self@.steps == before.steps + seq![step]);
            },
            None => {
                self.complete = false;
                assert(self@.steps == before.steps + Seq::<StepModel>::empty());
            },
        }
    }

    /// Adds all the steps of another plan, up to where it ends.
    pub(crate) fn extend(&mut self, other: Plan)
        requires
            old(self)@.complete,
        ensures
            final(self)@ == followed_by(old(self)@, other@),
    {
        let ghost before = self@;
        let ghost added = other@;
        let mut other = other;
        self.steps.append(&mut other.steps);
        self.complete = other.complete;
        assert(self@.steps == before.steps + added.steps);
    }
}

} // verus!
