//! Scheduling core of a flashcard quiz: mastery states of question prompts, a graph of
//! questions ordered by progression, and learning frames that batch a study session.

pub mod learning_frame;
pub mod progression;
pub mod questions_dag;
pub mod reach;
pub mod radical;
pub mod radical_form_data;
pub mod radical_from_csv;

pub use learning_frame::LearningFrame;
pub use questions_dag::{QANode, QuestionsDAG};
pub use radical::Radical;
pub use radical_form_data::{
    start_learning_session, LearningError, LearningSession, QuestionAnswerPrompt, RadicalFormData,
    UnderstandingLevel,
};
