use vstd::prelude::*;

use crate::learning_frame::LearningFrame;
use crate::questions_dag::QuestionsDAG;

verus! {

/// How well a learner masters one prompt.
#[derive(Clone, Copy, Debug, PartialEq, Eq, Structural)]
pub enum UnderstandingLevel {
    DontKnow,
    Know,
    /// Mastered: the frame size at which the prompt was last left out of rotation, and the
    /// number of correct answers in a row.
    InstantRecall(i32, i32),
}

/// Failures of the scheduling core.
#[derive(Clone, Copy, Debug, PartialEq, Eq, Structural)]
pub enum LearningError {
    /// Adding the edge would close a cycle; the graph was left as it was.
    CycleRejected,
    /// The prompt has no behaviour for this operation.
    UnimplementedOperation,
}

/// A learnable question item.
pub trait QuestionAnswerPrompt {
    /// The mastery state that `current_understanding` reports.
    spec fn understanding(&self) -> UnderstandingLevel;

    fn current_understanding(&self) -> (r: UnderstandingLevel)
        ensures
            r == self.understanding(),
    ;

    fn question_prompt(&self) -> Result<String, LearningError>;

    fn process_answer_input(&self, answer: String) -> Result<bool, LearningError>;
}

/// The learner's record for one form of a radical.
#[derive(Clone, Debug)]
pub struct RadicalFormData {
    pub radical_form: char,
    pub radical_number: i32,
    pub current_understanding: UnderstandingLevel,
}

impl QuestionAnswerPrompt for RadicalFormData {
    open spec fn understanding(&self) -> UnderstandingLevel {
        self.current_understanding
    }

    fn current_understanding(&self) -> (r: UnderstandingLevel) {
        self.current_understanding
    }

    fn question_prompt(&self) -> (r: Result<String, LearningError>)
        ensures
            r == Err::<String, LearningError>(LearningError::UnimplementedOperation),
    {
        Err(LearningError::UnimplementedOperation)
    }

    fn process_answer_input(&self, answer: String) -> (r: Result<bool, LearningError>)
        ensures
            r == Err::<bool, LearningError>(LearningError::UnimplementedOperation),
    {
        Err(LearningError::UnimplementedOperation)
    }
}

/// One study session: the frame being studied and the graph its indices point into.
pub struct LearningSession<P: QuestionAnswerPrompt + ?Sized> {
    overall_learning_frame: LearningFrame,
    questions_dag: QuestionsDAG<P>,
}

impl<P: QuestionAnswerPrompt + ?Sized> LearningSession<P> {
    pub closed spec fn frame(&self) -> LearningFrame {
        self.overall_learning_frame
    }

    pub closed spec fn questions(&self) -> QuestionsDAG<P> {
        self.questions_dag
    }

    /// The frame is well formed and each of its indices names a node of the graph.
    pub open spec fn wf(&self) -> bool {
        &&& self.frame().wf()
        &&& self.questions().wf()
        &&& forall|i: int|
            0 <= i < self.frame().prompts@.len() ==> #[trigger] self.frame().prompts@[i]
                < self.questions().nodes().len()
    }

    /// A session over `frame`; `None` when the frame's size does not count its indices or one
    /// of them names no node of `questions`.
    pub fn new(frame: LearningFrame, questions: QuestionsDAG<P>) -> (r: Option<Self>)
        requires
            questions.wf(),
        ensures
            r is Some <==> frame.wf() && forall|i: int|
                0 <= i < frame.prompts@.len() ==> #[trigger] frame.prompts@[i]
                    < questions.nodes().len(),
            r matches Some(s) ==> s.wf() && s.frame() == frame && s.questions() == questions,
    {
        if frame.size != frame.prompts.len() {
            return None;
        }
        let n = questions.node_count();
        let mut i: usize = 0;
        while i < frame.prompts.len()
            invariant
                n == questions.nodes().len(),
                i <= frame.prompts@.len(),
                forall|j: int| 0 <= j < i ==> #[trigger] frame.prompts@[j] < n,
            decreases frame.prompts@.len() - i,
        {
            if frame.prompts[i] >= n {
                return None;
            }
            i = i + 1;
        }
        Some(LearningSession { overall_learning_frame: frame, questions_dag: questions })
    }

    /// Runs one pass over the frame.
    pub fn start_session(&mut self)
        requires
            old(self).wf(),
        ensures
            *final(self) == *old(self),
    {
        self.single_run_through_frame();
    }

    /// Visits the frame's indices in order and reads the mastery state of each one's prompt;
    /// nothing is changed.
    pub fn single_run_through_frame(&mut self)
        requires
            old(self).wf(),
        ensures
            *final(self) == *old(self),
    {
        let mut i: usize = 0;
        while i < self.overall_learning_frame.prompts.len()
            invariant
                *self == *old(self),
                self.wf(),
                i <= self.frame().prompts@.len(),
            decreases self.frame().prompts@.len() - i,
        {
            let prompt_i = self.overall_learning_frame.prompts[i];
            let node = self.questions_dag.index(prompt_i);
            let _level = node.qap.current_understanding();
            i = i + 1;
        }
    }
}

pub fn start_learning_session() {
}

} // verus!
