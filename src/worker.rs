use vstd::prelude::*;
use vstd::utf8::encode_utf8;
use crate::model::Model;

verus! {

/// A message to the worker.
pub enum Request {
    /// Resolve one word.
    Lookup(String),
    /// Stop after the messages queued ahead of this one.
    Shutdown,
}

/// The worker's answer to a `Lookup`; each component is an `f32` bit pattern.
pub enum Response {
    Found(Vec<u32>),
    NotFound,
}

/// The worker's life cycle: `Running` until it takes a `Shutdown`, then
/// `Terminated` for good.
#[derive(Clone, Copy, Debug, PartialEq, Eq, Structural)]
pub enum WorkerState {
    Running,
    Terminated,
}

/// What the worker does after taking one message.
pub enum Action {
    /// Send this response to the sender of the message.
    Reply(Response),
    /// Stop receiving.
    Exit,
    /// Nothing: the worker has already terminated.
    Idle,
}

/// What a response says: the vector found, or `None`.
pub open spec fn response_view(r: Response) -> Option<Seq<u32>> {
    match r {
        Response::Found(v) => Some(v@),
        Response::NotFound => None,
    }
}

/// The response that the table owes for `word`.
pub open spec fn expected_response(model: Model, word: Seq<u8>) -> Option<Seq<u32>> {
    if model.table().contains_key(word) {
        Some(model.table()[word])
    } else {
        None
    }
}

/// The position of the first `Shutdown` in `reqs`, or its length when there is none.
pub open spec fn first_shutdown(reqs: Seq<Request>) -> nat
    decreases reqs.len(),
{
    if reqs.len() == 0 {
        0
    } else if reqs[0] is Shutdown {
        0
    } else {
        1 + first_shutdown(reqs.subrange(1, reqs.len() as int))
    }
}

/// Answers one word from the table.
pub fn answer(model: &Model, word: &String) -> (r: Response)
    requires
        model.wf(),
    ensures
        response_view(r) == expected_response(*model, encode_utf8(word@)),
{
    match model.word2vec(word.as_str()) {
        Some(v) => Response::Found(v),
        None => Response::NotFound,
    }
}

/// One transition of the worker: a `Lookup` taken while running is answered from
/// the table; a `Shutdown` ends the run without a reply; once terminated, nothing
/// is answered.
pub fn step(model: &Model, state: WorkerState, req: &Request) -> (r: (WorkerState, Action))
    requires
        model.wf(),
    ensures
        state == WorkerState::Terminated ==> r.0 == WorkerState::Terminated && r.1 is Idle,
        state == WorkerState::Running ==> match req {
            Request::Shutdown => r.0 == WorkerState::Terminated && r.1 is Exit,
            Request::Lookup(w) => r.0 == WorkerState::Running && r.1 is Reply
                && response_view(r.1->Reply_0) == expected_response(*model, encode_utf8(w@)),
        },
{
    match state {
        WorkerState::Terminated => (WorkerState::Terminated, Action::Idle),
        WorkerState::Running => match req {
            Request::Shutdown => (WorkerState::Terminated, Action::Exit),
            Request::Lookup(w) => (WorkerState::Running, Action::Reply(answer(model, w))),
        },
    }
}

/// Where the first `Shutdown` stands: every message before it is a `Lookup`.
pub proof fn lemma_first_shutdown(reqs: Seq<Request>)
    ensures
        first_shutdown(reqs) <= reqs.len(),
        forall|j: int| 0 <= j < first_shutdown(reqs) ==> #[trigger] reqs[j] is Lookup,
        first_shutdown(reqs) < reqs.len() ==> reqs[first_shutdown(reqs) as int] is Shutdown,
    decreases reqs.len(),
{
    if reqs.len() > 0 && reqs[0] is Lookup {
        let rest = reqs.subrange(1, reqs.len() as int);
        lemma_first_shutdown(rest);
        assert forall|j: int| 0 <= j < first_shutdown(reqs) implies #[trigger] reqs[j] is Lookup by {
            if j > 0 {
                assert(reqs[j] == rest[j - 1]);
            }
        }
    }
}

/// Queue `m` lookups and then a `Shutdown`: the worker answers exactly those `m`,
/// whatever follows the `Shutdown`.
pub proof fn lemma_shutdown_after_lookups(reqs: Seq<Request>, m: int)
    requires
        0 <= m < reqs.len(),
        forall|j: int| 0 <= j < m ==> #[trigger] reqs[j] is Lookup,
        reqs[m] is Shutdown,
    ensures
        first_shutdown(reqs) == m,
{
    lemma_first_shutdown(reqs);
    let f = first_shutdown(reqs) as int;
    if f < m {
        assert(reqs[f] is Lookup);
    }
}

/// Runs the worker over a queue of messages, in order, from the `Running` state.
/// Every `Lookup` ahead of the first `Shutdown` is answered, in queue order; nothing
/// at or after it is.
pub fn drain(model: &Model, requests: &Vec<Request>) -> (r: Vec<Response>)
    requires
        model.wf(),
    ensures
        r@.len() == first_shutdown(requests@),
        forall|i: int| 0 <= i < r@.len() ==> {
            &&& requests@[i] is Lookup
            &&& response_view(#[trigger] r@[i]) == expected_response(*model, encode_utf8(requests@[i]->Lookup_0@))
        },
{
    proof {
        lemma_first_shutdown(requests@);
    }
    let ghost fs = first_shutdown(requests@);
    let mut state = WorkerState::Running;
    let mut out: Vec<Response> = Vec::new();
    let mut i: usize = 0;
    while i < requests.len()
        invariant
            model.wf(),
            i <= requests@.len(),
            fs == first_shutdown(requests@),
            fs <= requests@.len(),
            forall|j: int| 0 <= j < fs ==> #[trigger] requests@[j] is Lookup,
            fs < requests@.len() ==> requests@[fs as int] is Shutdown,
            state == WorkerState::Running ==> out@.len() == i && i <= fs,
            state == WorkerState::Terminated ==> out@.len() == fs && i > fs,
            forall|j: int| 0 <= j < out@.len() ==> {
                &&& requests@[j] is Lookup
                &&& response_view(#[trigger] out@[j]) == expected_response(*model, encode_utf8(requests@[j]->Lookup_0@))
            },
        decreases requests.len() - i,
    {
        let (next, action) = step(model, state, &requests[i]);
        match action {
            Action::Reply(resp) => {
                out.push(resp);
            },
            Action::Exit => {},
            Action::Idle => {},
        }
        state = next;
        i = i + 1;
    }
    out
}

} // verus!
