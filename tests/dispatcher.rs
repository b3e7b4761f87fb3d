use duty::dispatcher::DispatchHandle;
use duty::error::Error;
use duty::procedure::Procedure;

struct AndProc;

impl Procedure for AndProc {
    type Response = bool;

    fn combine(a: bool, b: bool) -> bool {
        a && b
    }

    fn reduce(a: bool, b: bool) -> bool {
        a && b
    }
}

struct Collect;

impl Procedure for Collect {
    type Response = Vec<u32>;

    fn combine(mut a: Vec<u32>, b: Vec<u32>) -> Vec<u32> {
        a.extend(b);
        a
    }

    fn reduce(mut a: Vec<u32>, b: Vec<u32>) -> Vec<u32> {
        a.extend(b);
        a
    }
}

fn gather<P: Procedure>(results: Vec<Result<P::Response, Error>>, order: &[usize]) -> Result<P::Response, Error> {
    let mut handle = DispatchHandle::<P>::new(results.len());
    let mut slots: Vec<Option<Result<P::Response, Error>>> = results.into_iter().map(Some).collect();
    for &i in order {
        assert!(!handle.is_finished());
        handle.record(i, slots[i].take().unwrap());
    }
    assert!(handle.is_finished());
    handle.get()
}

#[test]
fn three_backends_and_all_true() {
    let r = gather::<AndProc>(vec![Ok(true), Ok(true), Ok(true)], &[0, 1, 2]);
    assert_eq!(r, Ok(true));
}

#[test]
fn three_backends_and_one_false() {
    let r = gather::<AndProc>(vec![Ok(true), Ok(false), Ok(true)], &[2, 0, 1]);
    assert_eq!(r, Ok(false));
}

#[test]
fn one_failing_backend_fails_the_call() {
    let r = gather::<AndProc>(
        vec![Ok(true), Err(Error::MsgDeserFailed("eof".to_string())), Ok(true)],
        &[0, 2, 1],
    );
    assert_eq!(r, Err(Error::MsgDeserFailed("eof".to_string())));
}

#[test]
fn first_error_in_backend_order_wins() {
    let r = gather::<AndProc>(
        vec![
            Ok(true),
            Err(Error::IncomingConnectionError("first".to_string())),
            Err(Error::MsgDeserFailed("second".to_string())),
        ],
        &[2, 1, 0],
    );
    assert_eq!(r, Err(Error::IncomingConnectionError("first".to_string())));
}

#[test]
fn fold_follows_backend_order_not_completion_order() {
    let results = || vec![Ok(vec![1]), Ok(vec![2, 3]), Ok(vec![]), Ok(vec![4])];
    let expected = Ok(vec![1, 2, 3, 4]);
    assert_eq!(gather::<Collect>(results(), &[0, 1, 2, 3]), expected);
    assert_eq!(gather::<Collect>(results(), &[3, 2, 1, 0]), expected);
    assert_eq!(gather::<Collect>(results(), &[1, 3, 0, 2]), expected);
}

#[test]
fn single_backend_result_is_passed_through() {
    assert_eq!(gather::<Collect>(vec![Ok(vec![9])], &[0]), Ok(vec![9]));
}

#[test]
fn empty_handle_is_finished_and_cancel_discards() {
    let handle = DispatchHandle::<AndProc>::new(0);
    assert!(handle.is_finished());
    assert_eq!(handle.len(), 0);
    let mut pending = DispatchHandle::<AndProc>::new(2);
    pending.record(1, Ok(true));
    assert!(!pending.is_finished());
    pending.cancel();
}

#[test]
fn later_record_replaces_earlier() {
    let mut handle = DispatchHandle::<AndProc>::new(1);
    handle.record(0, Ok(false));
    handle.record(0, Ok(true));
    assert_eq!(handle.get(), Ok(true));
}

#[test]
fn error_message_is_kept() {
    let e = Error::SshConnectionError("auth".to_string());
    assert_eq!(e.message(), "auth");
    assert_eq!(Error::OutgoingConnectionError("x".to_string()).message(), "x");
    assert_eq!(Error::MsgSerFailed("y".to_string()).message(), "y");
}
