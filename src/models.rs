use vstd::prelude::*;

verus! {

/// A chat-completion request: the model and the conversation so far.
#[derive(Debug, Clone)]
pub struct CompletionRequest {
    pub model: String,
    pub messages: Vec<Message>,
}

/// One message of a conversation.
#[derive(Debug, Clone)]
pub struct Message {
    pub role: String,
    pub content: String,
}

/// One answer of a chat-completion response.
#[derive(Debug, Clone)]
pub struct Choice {
    pub message: MessageContent,
}

/// The text of an answer.
#[derive(Debug, Clone)]
pub struct MessageContent {
    pub content: String,
}

/// A chat-completion response: its answers, best first.
#[derive(Debug, Clone)]
pub struct CompletionResponse {
    pub choices: Vec<Choice>,
}

/// The body sent to the processing service.
#[derive(Debug, Clone)]
pub struct InputData {
    pub text: String,
}

/// The body the processing service answers with.
#[derive(Debug, Clone)]
pub struct OutputData {
    pub output: String,
}

} // verus!
