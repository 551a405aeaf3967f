//! The requests of the review page, and how they are answered.

use vstd::prelude::*;
use crate::text::{same_text, texts};

verus! {

/// What a JSON text says that is an array of strings; nothing where it is not one.
pub uninterp spec fn json_strings(text: Seq<char>) -> Option<Seq<Seq<char>>>;

/// `from_str` of the crate `serde_json`, into a list of strings. Which texts it takes, and what
/// they say, is left to the crate.
#[verifier::external_body]
fn json_to_strings(text: &str) -> (r: Result<Vec<String>, serde_json::Error>)
    ensures
        match r {
            Ok(list) => json_strings(text@) == Some(texts(list@)),
            Err(_) => json_strings(text@) is None,
        },
{
    serde_json::from_str(text)
}

/// What a request asks for.
#[derive(Clone, Copy, PartialEq, Eq, Structural)]
pub enum Route {
    /// The page itself.
    Page,
    /// The selection that was saved last.
    Draft,
    /// To save a selection.
    Autosave,
    /// To delete the selected files, which ends the review.
    Delete,
    /// Nothing that the page asks for.
    Unknown,
}

/// What a request asks for, by its method and its URL.
pub open spec fn route_of(method: Seq<char>, url: Seq<char>) -> Route {
    if method == "GET"@ && url == "/"@ {
        Route::Page
    } else if method == "GET"@ && url == "/draft"@ {
        Route::Draft
    } else if method == "POST"@ && url == "/autosave"@ {
        Route::Autosave
    } else if method == "POST"@ && url == "/delete"@ {
        Route::Delete
    } else {
        Route::Unknown
    }
}

/// What a request asks for, by its method and its URL.
pub fn route(method: &str, url: &str) -> (r: Route)
    ensures
        r == route_of(method@, url@),
{
    if same_text(method, "GET") {
        proof {
            reveal_strlit("GET");
            reveal_strlit("POST");
            assert("GET"@.len() != "POST"@.len());
        }
        if same_text(url, "/") {
            Route::Page
        } else if same_text(url, "/draft") {
            Route::Draft
        } else {
            Route::Unknown
        }
    } else if same_text(method, "POST") {
        if same_text(url, "/autosave") {
            Route::Autosave
        } else if same_text(url, "/delete") {
            Route::Delete
        } else {
            Route::Unknown
        }
    } else {
        Route::Unknown
    }
}

/// A request, with what had to be read for its answer.
pub enum Request {
    Page,
    /// With the saved selection, where there is one that can be read.
    Draft { saved: Option<String> },
    /// With the body of the request, as far as it can be read.
    Autosave { body: String },
    /// With the body of the request, where it can be read.
    Delete { list: Option<String> },
    Unknown,
}

/// What the body of an answer is.
#[derive(Clone, Copy, PartialEq, Eq, Structural)]
pub enum Content {
    Html,
    Json,
    /// Nothing in particular.
    Plain,
}

/// The value of the header `Content-Type`, where an answer has one.
pub open spec fn content_type_of(content: Content) -> Option<Seq<char>> {
    match content {
        Content::Html => Some("text/html; charset=utf-8"@),
        Content::Json => Some("application/json"@),
        Content::Plain => None,
    }
}

/// The value of the header `Content-Type`, where an answer has one.
pub fn content_type(content: Content) -> (r: Option<&'static str>)
    ensures
        match r {
            Some(value) => content_type_of(content) == Some(value@),
            None => content_type_of(content) is None,
        },
{
    match content {
        Content::Html => Some("text/html; charset=utf-8"),
        Content::Json => Some("application/json"),
        Content::Plain => None,
    }
}

/// An answer.
pub struct Reply {
    pub status: u16,
    pub content: Content,
    pub body: String,
}

/// Why a review ends without a selection.
#[derive(Clone, Copy, PartialEq, Eq, Structural)]
pub enum ReviewError {
    /// The body of the request cannot be read.
    Unreadable,
    /// The body of the request is not a list of paths.
    Malformed,
}

/// What is done with a request.
pub enum Outcome {
    /// It is answered, and the review goes on.
    Answer(Reply),
    /// The selection is saved in place of the one before, then the request is answered.
    Save { draft: String, reply: Reply },
    /// The request is answered, the saved page and selection are dropped, and the review ends with
    /// the paths of the files to delete.
    Finish { reply: Reply, paths: Vec<String> },
    /// The review ends without an answer.
    Fail(ReviewError),
}

/// Whether an answer is the given one.
pub open spec fn says(reply: Reply, status: u16, content: Content, body: Seq<char>) -> bool {
    &&& reply.status == status
    &&& reply.content == content
    &&& reply.body@ == body
}

/// Whether this is what is done with a request to delete the files that `paths` lists, which is
/// nothing where the body of the request cannot be read or is no list.
pub open spec fn concludes(outcome: Outcome, paths: Result<Seq<Seq<char>>, ReviewError>) -> bool {
    match paths {
        Ok(list) => {
            &&& outcome is Finish
            &&& texts(outcome->Finish_paths@) == list
            &&& says(outcome->Finish_reply, 200, Content::Plain, "Success"@)
        },
        Err(error) => outcome == Outcome::Fail(error),
    }
}

/// The paths that the body of a request lists.
pub open spec fn listed_paths(body: Option<Seq<char>>) -> Result<Seq<Seq<char>>, ReviewError> {
    match body {
        Some(text) => match json_strings(text) {
            Some(list) => Ok(list),
            None => Err(ReviewError::Malformed),
        },
        None => Err(ReviewError::Unreadable),
    }
}

/// Whether this is what is done with a request.
pub open spec fn handles(page: Seq<char>, request: Request, outcome: Outcome) -> bool {
    match request {
        Request::Page => {
            &&& outcome is Answer
            &&& says(outcome->Answer_0, 200, Content::Html, page)
        },
        Request::Draft { saved } => {
            &&& outcome is Answer
            &&& says(
                outcome->Answer_0,
                200,
                Content::Json,
                match saved {
                    Some(draft) => draft@,
                    None => "[]"@,
                },
            )
        },
        Request::Autosave { body } => {
            &&& outcome is Save
            &&& outcome->Save_draft@ == body@
            &&& says(outcome->Save_reply, 200, Content::Plain, "OK"@)
        },
        Request::Delete { list } => concludes(
            outcome,
            listed_paths(
                match list {
                    Some(text) => Some(text@),
                    None => None,
                },
            ),
        ),
        Request::Unknown => {
            &&& outcome is Answer
            &&& says(outcome->Answer_0, 404, Content::Plain, "Not Found"@)
        },
    }
}

fn reply(status: u16, content: Content, text: &str) -> (r: Reply)
    ensures
        says(r, status, content, text@),
{
    let mut body = String::new();
    body.append(text);
    assert(body@ =~= text@);
    Reply { status, content, body }
}

/// What is done with a request to delete files, by the paths that its body lists.
pub fn conclude(paths: Result<Vec<String>, ReviewError>) -> (outcome: Outcome)
    ensures
        concludes(
            outcome,
            match paths {
                Ok(list) => Ok(texts(list@)),
                Err(error) => Err(error),
            },
        ),
{
    match paths {
        Ok(list) => Outcome::Finish { reply: reply(200, Content::Plain, "Success"), paths: list },
        Err(error) => Outcome::Fail(error),
    }
}

/// What is done with a request, while `page` is reviewed.
pub fn handle(page: &str, request: Request) -> (outcome: Outcome)
    ensures
        handles(page@, request, outcome),
{
    match request {
        Request::Page => Outcome::Answer(reply(200, Content::Html, page)),
        Request::Draft { saved } => match saved {
            Some(draft) => Outcome::Answer(reply(200, Content::Json, draft.as_str())),
            None => Outcome::Answer(reply(200, Content::Json, "[]")),
        },
        Request::Autosave { body } => {
            Outcome::Save { draft: body, reply: reply(200, Content::Plain, "OK") }
        },
        Request::Delete { list } => {
            let paths = match list {
                Some(text) => match json_to_strings(text.as_str()) {
                    Ok(paths) => Ok(paths),
                    Err(_) => Err(ReviewError::Malformed),
                },
                None => Err(ReviewError::Unreadable),
            };
            conclude(paths)
        },
        Request::Unknown => Outcome::Answer(reply(404, Content::Plain, "Not Found")),
    }
}

/// The saved selection after a request, with `saved` before it.
pub open spec fn saved_after(saved: Option<Seq<char>>, outcome: Outcome) -> Option<Seq<char>> {
    match outcome {
        Outcome::Answer(_) => saved,
        Outcome::Save { draft, .. } => Some(draft@),
        Outcome::Finish { .. } => None,
        Outcome::Fail(_) => saved,
    }
}

/// The saved selection after some requests, with `first` before them.
pub open spec fn saved_by(first: Option<Seq<char>>, outcomes: Seq<Outcome>) -> Option<Seq<char>>
    decreases outcomes.len(),
{
    if outcomes.len() == 0 {
        first
    } else {
        saved_after(saved_by(first, outcomes.drop_last()), outcomes.last())
    }
}

/// A selection that was saved is the one that is handed out, whatever else is asked for in between,
/// as long as nothing else is saved and no files have been handed over for deletion. A request to
/// delete that is rejected leaves the selection as it is.
pub proof fn law_saved_selection_is_handed_out(
    page: Seq<char>,
    first: Option<Seq<char>>,
    requests: Seq<Request>,
    outcomes: Seq<Outcome>,
    at: int,
    saved: Option<String>,
    outcome: Outcome,
)
    requires
        requests.len() == outcomes.len(),
        forall|i: int|
            0 <= i < requests.len() ==> handles(page, #[trigger] requests[i], outcomes[i]),
        0 <= at < requests.len(),
        requests[at] is Autosave,
        forall|i: int|
            at < i < requests.len() ==> !(#[trigger] requests[i] is Autosave)
                && !(outcomes[i] is Finish),
        saved is Some <==> saved_by(first, outcomes) is Some,
        saved is Some ==> saved_by(first, outcomes) == Some(saved->0@),
        handles(page, Request::Draft { saved }, outcome),
    ensures
        outcome is Answer,
        says(outcome->Answer_0, 200, Content::Json, requests[at]->Autosave_body@),
{
    lemma_saved_stays(page, first, requests, outcomes, at);
}

proof fn lemma_saved_stays(
    page: Seq<char>,
    first: Option<Seq<char>>,
    requests: Seq<Request>,
    outcomes: Seq<Outcome>,
    at: int,
)
    requires
        requests.len() == outcomes.len(),
        forall|i: int|
            0 <= i < requests.len() ==> handles(page, #[trigger] requests[i], outcomes[i]),
        0 <= at < requests.len(),
        requests[at] is Autosave,
        forall|i: int|
            at < i < requests.len() ==> !(#[trigger] requests[i] is Autosave)
                && !(outcomes[i] is Finish),
    ensures
        saved_by(first, outcomes) == Some(requests[at]->Autosave_body@),
    decreases requests.len(),
{
    let last = requests.len() - 1;
    assert(handles(page, requests[last], outcomes[last]));
    if at < last {
        let before = requests.drop_last();
        let done = outcomes.drop_last();
        assert forall|i: int| 0 <= i < before.len() implies handles(
            page,
            #[trigger] before[i],
            done[i],
        ) by {
            assert(handles(page, requests[i], outcomes[i]));
        }
        assert forall|i: int| at < i < before.len() implies !(#[trigger] before[i] is Autosave)
            && !(done[i] is Finish) by {
            assert(before[i] == requests[i]);
        }
        lemma_saved_stays(page, first, before, done, at);
        assert(!(requests[last] is Autosave));
    }
}

/// Only a request to delete ends the review, and it ends with the very paths that it lists.
pub proof fn law_only_a_delete_request_ends_the_review(
    page: Seq<char>,
    request: Request,
    outcome: Outcome,
)
    requires
        handles(page, request, outcome),
    ensures
        outcome is Finish || outcome is Fail ==> request is Delete,
        outcome is Finish ==> request->Delete_list is Some && json_strings(
            request->Delete_list->0@,
        ) == Some(texts(outcome->Finish_paths@)),
{
}

/// A request is known by its method and its URL together, and by nothing else: any other method or
/// URL asks for nothing.
pub proof fn law_requests_are_known_by_method_and_url(method: Seq<char>, url: Seq<char>)
    ensures
        route_of("GET"@, "/"@) is Page,
        route_of("GET"@, "/draft"@) is Draft,
        route_of("POST"@, "/autosave"@) is Autosave,
        route_of("POST"@, "/delete"@) is Delete,
        route_of(method, url) is Page ==> method == "GET"@ && url == "/"@,
        route_of(method, url) is Draft ==> method == "GET"@ && url == "/draft"@,
        route_of(method, url) is Autosave ==> method == "POST"@ && url == "/autosave"@,
        route_of(method, url) is Delete ==> method == "POST"@ && url == "/delete"@,
{
    reveal_strlit("GET");
    reveal_strlit("POST");
    reveal_strlit("/");
    reveal_strlit("/draft");
    reveal_strlit("/autosave");
    reveal_strlit("/delete");
    assert("GET"@.len() == 3 && "POST"@.len() == 4);
    assert("/"@.len() == 1 && "/draft"@.len() == 6 && "/autosave"@.len() == 9 && "/delete"@.len()
        == 7);
}

/// Whether an answer is given, with this status, this value of `Content-Type`, if any, and this body.
pub open spec fn answered(
    reply: Reply,
    status: u16,
    kind: Option<Seq<char>>,
    body: Seq<char>,
) -> bool {
    reply.status == status && content_type_of(reply.content) == kind && reply.body@ == body
}

/// What a browser gets: the page itself, the saved selection or an empty list where there is none, a
/// confirmation for what it saves and for what it has deleted, and status 404 for anything else. What
/// is saved is what was sent, what is deleted is what the list says, and without a list that can be
/// read nothing is.
pub proof fn law_every_request_gets_its_answer(page: Seq<char>, request: Request, outcome: Outcome)
    requires
        handles(page, request, outcome),
    ensures
        request is Page ==> outcome is Answer && answered(
            outcome->Answer_0,
            200,
            Some("text/html; charset=utf-8"@),
            page,
        ),
        request is Draft && request->saved is Some ==> outcome is Answer && answered(
            outcome->Answer_0,
            200,
            Some("application/json"@),
            request->saved->0@,
        ),
        request is Draft && request->saved is None ==> outcome is Answer && answered(
            outcome->Answer_0,
            200,
            Some("application/json"@),
            "[]"@,
        ),
        request is Autosave ==> outcome is Save && outcome->Save_draft@ == request->Autosave_body@
            && answered(outcome->Save_reply, 200, None, "OK"@),
        request is Unknown ==> outcome is Answer && answered(
            outcome->Answer_0,
            404,
            None,
            "Not Found"@,
        ),
        request is Delete && request->Delete_list is None ==> outcome == Outcome::Fail(
            ReviewError::Unreadable,
        ),
        request is Delete && request->Delete_list is Some && json_strings(
            request->Delete_list->0@,
        ) is None ==> outcome == Outcome::Fail(ReviewError::Malformed),
        request is Delete && request->Delete_list is Some && json_strings(
            request->Delete_list->0@,
        ) is Some ==> {
            &&& outcome is Finish
            &&& outcome->Finish_paths@.len() == json_strings(request->Delete_list->0@)->0.len()
            &&& forall|i: int|
                0 <= i < outcome->Finish_paths@.len() ==> (#[trigger] outcome->Finish_paths@[i])@
                    == json_strings(request->Delete_list->0@)->0[i]
            &&& answered(outcome->Finish_reply, 200, None, "Success"@)
        },
{
    if request is Delete && request->Delete_list is Some && json_strings(
        request->Delete_list->0@,
    ) is Some {
        let list = outcome->Finish_paths@;
        assert forall|i: int| 0 <= i < list.len() implies (#[trigger] list[i])@ == json_strings(
            request->Delete_list->0@,
        )->0[i] by {
            assert(texts(list)[i] == list[i]@);
        }
    }
}

} // verus!
