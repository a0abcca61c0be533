use crossbeam::channel::{unbounded, Receiver, Sender};
use w2v_server::model::Model;
use w2v_server::vocab::{HuffmanNode, Vocab};
use w2v_server::worker::{drain, step, Action, Request, Response, WorkerState};

fn model_of(words: &[&str]) -> Model {
    let mut data: Vec<u8> = format!("{} 1\n", words.len()).into_bytes();
    for (i, w) in words.iter().enumerate() {
        data.extend_from_slice(w.as_bytes());
        data.push(b' ');
        data.extend_from_slice(&(i as f32).to_le_bytes());
    }
    Model::new(&data).unwrap()
}

fn found(r: &Response) -> Option<f32> {
    match r {
        Response::Found(v) => Some(f32::from_bits(v[0])),
        Response::NotFound => None,
    }
}

fn lookup(w: &str) -> Request {
    Request::Lookup(w.to_string())
}

#[test]
fn step_answers_and_stops() {
    let model = model_of(&["a", "b"]);
    let (s, a) = step(&model, WorkerState::Running, &lookup("b"));
    assert_eq!(s, WorkerState::Running);
    match a {
        Action::Reply(r) => assert_eq!(found(&r), Some(1.0)),
        _ => panic!("expected a reply"),
    }
    let (s, a) = step(&model, WorkerState::Running, &lookup("zz"));
    assert_eq!(s, WorkerState::Running);
    assert!(matches!(a, Action::Reply(Response::NotFound)));
    let (s, a) = step(&model, WorkerState::Running, &Request::Shutdown);
    assert_eq!(s, WorkerState::Terminated);
    assert!(matches!(a, Action::Exit));
    let (s, a) = step(&model, WorkerState::Terminated, &lookup("a"));
    assert_eq!(s, WorkerState::Terminated);
    assert!(matches!(a, Action::Idle));
}

#[test]
fn shutdown_drains_queued_lookups_only() {
    let model = model_of(&["a", "b", "c"]);
    let queue = vec![lookup("c"), lookup("x"), lookup("a"), Request::Shutdown, lookup("b"), Request::Shutdown];
    let out = drain(&model, &queue);
    assert_eq!(out.len(), 3);
    assert_eq!(found(&out[0]), Some(2.0));
    assert_eq!(found(&out[1]), None);
    assert_eq!(found(&out[2]), Some(0.0));
    assert_eq!(drain(&model, &vec![Request::Shutdown, lookup("a")]).len(), 0);
    assert_eq!(drain(&model, &vec![lookup("a"), lookup("b")]).len(), 2);
}

fn worker_loop(model: &Model, inbox: &Receiver<(Request, Option<Sender<Response>>)>) -> usize {
    let mut state = WorkerState::Running;
    let mut answered = 0usize;
    while let Ok((req, reply)) = inbox.recv() {
        let (next, action) = step(model, state, &req);
        state = next;
        match action {
            Action::Reply(r) => {
                if let Some(tx) = reply {
                    let _ = tx.send(r);
                }
                answered += 1;
            }
            Action::Exit => break,
            Action::Idle => {}
        }
    }
    answered
}

#[test]
fn concurrent_lookups_get_their_own_answers() {
    let words: Vec<String> = (0..32).map(|i| format!("w{}", i)).collect();
    let refs: Vec<&str> = words.iter().map(|s| s.as_str()).collect();
    let model = model_of(&refs);
    let (tx, rx) = unbounded::<(Request, Option<Sender<Response>>)>();
    crossbeam::scope(|s| {
        let worker = s.spawn(|_| worker_loop(&model, &rx));
        let mut callers = Vec::new();
        for (i, w) in words.iter().enumerate() {
            let tx = tx.clone();
            callers.push(s.spawn(move |_| {
                let (rtx, rrx) = unbounded();
                tx.send((Request::Lookup(w.clone()), Some(rtx))).unwrap();
                let r = rrx.recv().unwrap();
                assert_eq!(found(&r), Some(i as f32));
            }));
        }
        for c in callers {
            c.join().unwrap();
        }
        tx.send((Request::Shutdown, None)).unwrap();
        assert_eq!(worker.join().unwrap(), 32);
    })
    .unwrap();
}

#[test]
fn requests_after_shutdown_are_never_answered() {
    let model = model_of(&["a", "b"]);
    let (tx, rx) = unbounded::<(Request, Option<Sender<Response>>)>();
    let mut replies = Vec::new();
    for w in ["a", "b", "a"] {
        let (rtx, rrx) = unbounded();
        tx.send((lookup(w), Some(rtx))).unwrap();
        replies.push(rrx);
    }
    tx.send((Request::Shutdown, None)).unwrap();
    let (late_tx, late_rx) = unbounded();
    tx.send((lookup("b"), Some(late_tx))).unwrap();
    assert_eq!(worker_loop(&model, &rx), 3);
    let got: Vec<Option<f32>> = replies.iter().map(|r| found(&r.recv().unwrap())).collect();
    assert_eq!(got, vec![Some(0.0), Some(1.0), Some(0.0)]);
    assert!(late_rx.try_recv().is_err());
}

#[test]
fn init_vocab() {
    let vocab = Vocab::new(400);
    assert_eq!(vocab.len(), 0);
}

#[test]
fn vocab_counts_words() {
    let mut vocab = Vocab::new(4);
    vocab.add_word_to_vocab("the".to_string());
    vocab.add_word_to_vocab("cat".to_string());
    vocab.add_word_to_vocab("the".to_string());
    assert_eq!(vocab.len(), 2);
    assert_eq!(vocab.count_of(&"the".to_string()), 2);
    assert_eq!(vocab.count_of(&"cat".to_string()), 1);
    assert_eq!(vocab.count_of(&"dog".to_string()), 0);
}

#[test]
fn huffman_nodes_combine() {
    let a = HuffmanNode::new(3, "a".to_string());
    let b = HuffmanNode::new(4, "b".to_string());
    assert_eq!(a.label.as_deref(), Some("a"));
    let c = HuffmanNode::combine(a, b);
    assert_eq!(c.value, 7);
    assert!(c.label.is_none());
    assert_eq!(c.node.len(), 2);
    assert_eq!(c.node[1].value, 4);
}
