use bart_openai::error::PipelineError;
use bart_openai::models::{Choice, CompletionResponse, MessageContent, OutputData};
use bart_openai::pipeline::{
    chat_request, stage_one_request, stage_one_result, Summarizer, MODEL, PROMPT_HEAD,
    PROMPT_TAIL, SYSTEM_PROMPT,
};

fn response(contents: &[&str]) -> CompletionResponse {
    CompletionResponse {
        choices: contents
            .iter()
            .map(|c| Choice { message: MessageContent { content: c.to_string() } })
            .collect(),
    }
}

fn words_of(n: usize) -> String {
    let mut parts: Vec<String> = Vec::new();
    for i in 0..n {
        parts.push(format!("w{}", i));
    }
    parts.join(" ")
}

#[test]
fn stage_one_request_holds_filtered_text() {
    assert_eq!(stage_one_request("A. B. C. D. E.").text, "A. B. C. E.");
}

#[test]
fn stage_one_http_500_is_request_failed() {
    let r = stage_one_result(500, None);
    match r {
        Err(e) => {
            assert_eq!(e, PipelineError::RemoteRequestFailed(500));
            let text = e.message();
            assert!(text.contains("500"));
            assert_eq!(text, "the remote request failed with status 500");
        }
        Ok(_) => panic!("expected an error"),
    }
}

#[test]
fn stage_one_failure_wins_over_body() {
    let r = stage_one_result(404, Some(OutputData { output: "x".to_string() }));
    assert!(matches!(r, Err(PipelineError::RemoteRequestFailed(404))));
}

#[test]
fn stage_one_success_without_body_is_decode_error() {
    assert!(matches!(stage_one_result(200, None), Err(PipelineError::DecodeError)));
}

#[test]
fn stage_one_success_gives_output() {
    let out = stage_one_result(204, Some(OutputData { output: "one two  three".to_string() }));
    assert_eq!(out, Ok("one two  three".to_string()));
    let s = Summarizer::new(&out.unwrap());
    assert_eq!(s.chunks, vec!["one two three".to_string()]);
    assert!(s.summaries.is_empty());
}

#[test]
fn chat_request_wraps_chunk() {
    let req = chat_request("some words");
    assert_eq!(req.model, MODEL);
    assert_eq!(req.model, "LLaMa_CPP");
    assert_eq!(req.messages.len(), 2);
    assert_eq!(req.messages[0].role, "system");
    assert_eq!(req.messages[0].content, SYSTEM_PROMPT);
    assert_eq!(req.messages[1].role, "user");
    assert_eq!(
        req.messages[1].content,
        format!("{}some words{}", PROMPT_HEAD, PROMPT_TAIL)
    );
    assert!(req.messages[1].content.starts_with("Please summarize the following text:\n\nsome words\n\n"));
}

#[test]
fn summarizer_4001_words_makes_three_calls() {
    let mut s = Summarizer::new(&words_of(4001));
    assert_eq!(s.chunks.len(), 3);
    let mut calls = 0;
    while let Some(req) = s.next_request() {
        calls += 1;
        assert!(req.messages[1].content.contains(&format!("w{}", (calls - 1) * 2000)));
        let answer = format!("Here are the key events summarized: part {}", calls);
        s.accept_response(&response(&[answer.as_str(), "ignored"])).unwrap();
    }
    assert_eq!(calls, 3);
    assert!(s.is_done());
    assert_eq!(s.combined(), "part 1\n\npart 2\n\npart 3");
}

#[test]
fn summarizer_empty_choices_is_decode_error() {
    let mut s = Summarizer::new("a b c");
    assert_eq!(s.accept_response(&response(&[])), Err(PipelineError::DecodeError));
    assert!(s.summaries.is_empty());
    assert!(s.next_request().is_some());
}

#[test]
fn summarizer_empty_text_has_nothing_to_do() {
    let s = Summarizer::new("   ");
    assert!(s.is_done());
    assert!(s.next_request().is_none());
    assert_eq!(s.combined(), "");
}

#[test]
fn error_messages() {
    assert_eq!(PipelineError::ExtractionError.message(), "the document could not be read");
    assert_eq!(PipelineError::RemoteUnavailable.message(), "the remote service could not be reached");
    assert_eq!(PipelineError::DecodeError.message(), "the response could not be decoded");
    assert_eq!(PipelineError::InvalidArgument.message(), "invalid argument");
    assert_eq!(PipelineError::RemoteRequestFailed(0).message(), "the remote request failed with status 0");
    assert_eq!(PipelineError::RemoteRequestFailed(65535).message(), "the remote request failed with status 65535");
}

#[test]
fn status_check_bounds() {
    assert_eq!(bart_openai::pipeline::check_status(200), Ok(()));
    assert_eq!(bart_openai::pipeline::check_status(299), Ok(()));
    assert_eq!(
        bart_openai::pipeline::check_status(199),
        Err(PipelineError::RemoteRequestFailed(199))
    );
    assert_eq!(
        bart_openai::pipeline::check_status(300),
        Err(PipelineError::RemoteRequestFailed(300))
    );
}
