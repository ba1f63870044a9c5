//! The request that asks the embedding provider for the vectors of one batch.

use async_openai::error::OpenAIError;
use async_openai::types::{CreateEmbeddingRequest, CreateEmbeddingRequestArgs};
use vstd::prelude::*;

use crate::model::text_views;

verus! {

/// `async_openai::types::CreateEmbeddingRequest`, the body of a call of the
/// provider's embeddings endpoint. The library hands it on as it is.
#[verifier::external_type_specification]
#[verifier::external_body]
pub struct ExCreateEmbeddingRequest(CreateEmbeddingRequest);

/// `async_openai::error::OpenAIError`, the error of the request builder.
#[verifier::external_type_specification]
#[verifier::external_body]
pub struct ExOpenAIError(OpenAIError);

/// The model that a request names: the characters of its field `model`.
pub uninterp spec fn request_model(request: CreateEmbeddingRequest) -> Seq<char>;

/// The texts that a request carries, in order: the strings of its field
/// `input`, which answers are matched against by position.
pub uninterp spec fn request_texts(request: CreateEmbeddingRequest) -> Seq<Seq<char>>;

/// The model whose vectors are stored.
pub fn embedding_model() -> (model: &'static str)
    ensures
        model@ == "text-embedding-ada-002"@,
{
    "text-embedding-ada-002"
}

/// Calls `CreateEmbeddingRequestArgs::default().model(..).input(..).build()`
/// of async_openai. Not proved: that the request which `build` returns has
/// the given model's name in `model` and, in `input`, the given strings in
/// the given order as `EmbeddingInput::StringArray`; and that `build` returns
/// `Ok`, since every field of the request has a default and the builder
/// validates nothing.
#[verifier::external_body]
fn build_request(model: &str, texts: Vec<String>) -> (res: Result<CreateEmbeddingRequest, OpenAIError>)
    ensures
        res is Ok,
        res matches Ok(request) ==> request_model(request) == model@,
        res matches Ok(request) ==> request_texts(request) == text_views(texts@),
{
    CreateEmbeddingRequestArgs::default().model(model).input(texts).build()
}

/// The request for the vectors of `texts`, one vector for each text and in
/// the same order, from the model [`embedding_model`].
pub fn embedding_request(texts: Vec<String>) -> (request: CreateEmbeddingRequest)
    ensures
        request_model(request) == "text-embedding-ada-002"@,
        request_texts(request) == text_views(texts@),
{
    build_request(embedding_model(), texts).ok().unwrap()
}

/// The request for the vector of one query text: a batch of one.
pub fn query_request(query: String) -> (request: CreateEmbeddingRequest)
    ensures
        request_model(request) == "text-embedding-ada-002"@,
        request_texts(request) == seq![query@],
{
    let mut texts: Vec<String> = Vec::new();
    texts.push(query);
    assert(text_views(texts@) =~= seq![query@]);
    embedding_request(texts)
}

} // verus!
