use vstd::prelude::*;
use crate::chunks::{chunks_of, split_text_into_chunks};
use crate::error::PipelineError;
use crate::models::{CompletionRequest, CompletionResponse, InputData, Message, OutputData};
use crate::sentences::{filter_sentences, filtered};
use crate::summary::{combine_summaries, strip_boilerplate, stripped, summary_separator};
use crate::text::{chars_of, join, push_all, string_of, string_views};

verus! {

/// The most words sent in one summarization request.
pub const MAX_WORDS_PER_CHUNK: usize = 2000;

/// The model named in every summarization request.
pub const MODEL: &'static str = "LLaMa_CPP";

pub const SYSTEM_ROLE: &'static str = "system";

pub const USER_ROLE: &'static str = "user";

/// The instructions given to the model with every chunk.
pub const SYSTEM_PROMPT: &'static str = "You are a helpful assistant that provides concise summaries of text. Focus on summarizing the key events without listing quotes.";

/// What stands before the chunk in the user message.
pub const PROMPT_HEAD: &'static str = "Please summarize the following text:\n\n";

/// What stands after the chunk in the user message.
pub const PROMPT_TAIL: &'static str = "\n\nSummarize the key events only, to the point, and do not include any direct quotes or specific lines from the text.";

/// The user message that asks for a summary of `chunk`.
pub open spec fn user_prompt(chunk: Seq<char>) -> Seq<char> {
    PROMPT_HEAD@ + chunk + PROMPT_TAIL@
}

/// `req` asks the model, under the fixed instructions, to summarize `chunk`.
pub open spec fn is_request_for(req: CompletionRequest, chunk: Seq<char>) -> bool {
    &&& req.model@ == MODEL@
    &&& req.messages@.len() == 2
    &&& req.messages@[0].role@ == SYSTEM_ROLE@
    &&& req.messages@[0].content@ == SYSTEM_PROMPT@
    &&& req.messages@[1].role@ == USER_ROLE@
    &&& req.messages@[1].content@ == user_prompt(chunk)
}

/// The summarization request for one chunk.
pub fn chat_request(chunk: &str) -> (r: CompletionRequest)
    ensures
        is_request_for(r, chunk@),
{
    let mut content = chars_of(PROMPT_HEAD);
    push_all(&mut content, &chars_of(chunk));
    push_all(&mut content, &chars_of(PROMPT_TAIL));
    let system = Message { role: SYSTEM_ROLE.to_owned(), content: SYSTEM_PROMPT.to_owned() };
    let user = Message { role: USER_ROLE.to_owned(), content: string_of(&content) };
    let messages = vec![system, user];
    CompletionRequest { model: MODEL.to_owned(), messages }
}

/// The body sent to the processing service: the filtered source text.
pub fn stage_one_request(source_text: &str) -> (r: InputData)
    ensures
        r.text@ == filtered(source_text@),
{
    InputData { text: filter_sentences(source_text) }
}

/// Whether an HTTP status counts as success.
pub open spec fn is_success(status: u16) -> bool {
    200 <= status <= 299
}

/// A status outside 200..=299 is a failed request.
pub fn check_status(status: u16) -> (r: Result<(), PipelineError>)
    ensures
        is_success(status) <==> r is Ok,
        !is_success(status) ==> (r matches Err(e) && e == PipelineError::RemoteRequestFailed(
            status,
        )),
{
    if 200 <= status && status <= 299 {
        Ok(())
    } else {
        Err(PipelineError::RemoteRequestFailed(status))
    }
}

/// The outcome of the call to the processing service, from its status and,
/// where it could be decoded, its body: the processed text on success.
pub fn stage_one_result(status: u16, body: Option<OutputData>) -> (r: Result<
    String,
    PipelineError,
>)
    ensures
        !is_success(status) ==> (r matches Err(e) && e == PipelineError::RemoteRequestFailed(
            status,
        )),
        is_success(status) && body is None ==> (r matches Err(e) && e
            == PipelineError::DecodeError),
        is_success(status) && body is Some ==> (r matches Ok(out) && out@
            == body->Some_0.output@),
{
    if let Err(e) = check_status(status) {
        return Err(e);
    }
    match body {
        None => Err(PipelineError::DecodeError),
        Some(b) => Ok(b.output),
    }
}

/// The stage that summarizes the processed text chunk by chunk, in order.
/// Each step hands out the request for the next chunk and takes its response.
pub struct Summarizer {
    /// The chunks of the processed text.
    pub chunks: Vec<String>,
    /// The summaries of the first chunks, one for each.
    pub summaries: Vec<String>,
}

impl Summarizer {
    /// Never more summaries than chunks.
    pub open spec fn wf(&self) -> bool {
        self.summaries@.len() <= self.chunks@.len()
    }

    /// Every chunk has its summary.
    pub open spec fn done(&self) -> bool {
        self.summaries@.len() == self.chunks@.len()
    }

    /// The summarizer for `full_text`, which has summarized nothing yet.
    pub fn new(full_text: &str) -> (r: Summarizer)
        ensures
            r.wf(),
            r.summaries@.len() == 0,
            string_views(r.chunks@) == chunks_of(full_text@, MAX_WORDS_PER_CHUNK as int),
    {
        let chunks = match split_text_into_chunks(full_text, MAX_WORDS_PER_CHUNK) {
            Ok(cs) => cs,
            Err(_) => Vec::new(),
        };
        Summarizer { chunks, summaries: Vec::new() }
    }

    pub fn is_done(&self) -> (r: bool)
        requires
            self.wf(),
        ensures
            r == self.done(),
    {
        self.summaries.len() == self.chunks.len()
    }

    /// The request for the first chunk without a summary, or `None` once
    /// every chunk has one.
    pub fn next_request(&self) -> (r: Option<CompletionRequest>)
        requires
            self.wf(),
        ensures
            self.done() <==> r is None,
            r matches Some(req) ==> is_request_for(req, self.chunks@[self.summaries@.len() as int]@),
    {
        let i = self.summaries.len();
        if i < self.chunks.len() {
            Some(chat_request(self.chunks[i].as_str()))
        } else {
            None
        }
    }

    /// Takes the response for the first chunk without a summary: its first
    /// answer, stripped of the boilerplate, becomes that chunk's summary. A
    /// response without answers is a decode error and changes nothing.
    pub fn accept_response(&mut self, response: &CompletionResponse) -> (r: Result<
        (),
        PipelineError,
    >)
        requires
            old(self).wf(),
            !old(self).done(),
        ensures
            final(self).wf(),
            final(self).chunks@ == old(self).chunks@,
            response.choices@.len() == 0 ==> (r matches Err(e) && e == PipelineError::DecodeError
                && final(self).summaries@ == old(self).summaries@),
            response.choices@.len() > 0 ==> (r is Ok && string_views(final(self).summaries@)
                == string_views(old(self).summaries@).push(
                stripped(response.choices@[0].message.content@),
            )),
    {
        if response.choices.len() == 0 {
            return Err(PipelineError::DecodeError);
        }
        let summary = strip_boilerplate(response.choices[0].message.content.as_str());
        let ghost before = string_views(self.summaries@);
        self.summaries.push(summary);
        assert(string_views(self.summaries@) == before.push(
            stripped(response.choices@[0].message.content@),
        ));
        Ok(())
    }

    /// The summaries so far, in chunk order, a blank line between each two.
    pub fn combined(&self) -> (r: String)
        ensures
            r@ == join(string_views(self.summaries@), summary_separator()),
    {
        combine_summaries(&self.summaries)
    }
}

} // verus!
