use std::sync::Arc;

use zhongchar::{
    start_learning_session, LearningError, LearningFrame, LearningSession, QANode,
    QuestionAnswerPrompt, QuestionsDAG, RadicalFormData, UnderstandingLevel,
};

fn radical_node(form: char, number: i32, level: UnderstandingLevel) -> QANode<RadicalFormData> {
    QANode::new(Arc::new(RadicalFormData {
        radical_form: form,
        radical_number: number,
        current_understanding: level,
    }))
}

fn two_radicals() -> QuestionsDAG<RadicalFormData> {
    let mut questions = QuestionsDAG::new();
    let a = questions.add_node(radical_node('人', 9, UnderstandingLevel::Know));
    let b = questions.add_node(radical_node('亻', 9, UnderstandingLevel::DontKnow));
    questions.add_edge(a, b).unwrap();
    questions
}

#[test]
fn radical_form_data_reports_its_understanding() {
    let data = RadicalFormData {
        radical_form: '水',
        radical_number: 85,
        current_understanding: UnderstandingLevel::InstantRecall(12, 3),
    };
    assert_eq!(data.current_understanding(), UnderstandingLevel::InstantRecall(12, 3));
}

#[test]
fn radical_form_data_prompt_operations_are_unimplemented() {
    let data = RadicalFormData {
        radical_form: '火',
        radical_number: 86,
        current_understanding: UnderstandingLevel::DontKnow,
    };
    assert_eq!(data.question_prompt(), Err(LearningError::UnimplementedOperation));
    assert_eq!(
        data.process_answer_input("fire".to_string()),
        Err(LearningError::UnimplementedOperation)
    );
}

#[test]
fn radical_graph_search() {
    let questions = two_radicals();
    assert_eq!(questions.find_shallow_node(0), Some(1));
    assert_eq!(questions.find_shallow_node(1), Some(1));
}

#[test]
fn session_accepts_frame_within_graph() {
    let frame = LearningFrame { size: 3, prompts: vec![1, 0, 1] };
    let mut session = LearningSession::new(frame, two_radicals()).unwrap();
    session.start_session();
    session.single_run_through_frame();
}

#[test]
fn session_refuses_index_outside_graph() {
    let frame = LearningFrame { size: 2, prompts: vec![0, 2] };
    assert!(LearningSession::new(frame, two_radicals()).is_none());
}

#[test]
fn session_refuses_miscounted_frame() {
    let frame = LearningFrame { size: 1, prompts: vec![0, 1] };
    assert!(LearningSession::new(frame, two_radicals()).is_none());
}

#[test]
fn session_over_empty_frame() {
    let frame = LearningFrame { size: 0, prompts: vec![] };
    let mut session = LearningSession::new(frame, QuestionsDAG::<RadicalFormData>::new()).unwrap();
    session.start_session();
    start_learning_session();
}
