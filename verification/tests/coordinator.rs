use live_mutex_mills::client_api::{ClientError, ClientResource};
use live_mutex_mills::coordinator::Coordinator;
use live_mutex_mills::transport::{Command, NodeEvent};

fn lock(name: &str) -> ClientResource {
    ClientResource::Lock { lock: name.to_string() }
}

fn acquire(c: &mut Coordinator, name: &str, waiter: u64) -> Vec<Command> {
    c.acquire(name.to_string(), waiter, lock(name)).unwrap()
}

fn acquired(c: &mut Coordinator, name: &str, fence: u64) -> Vec<Command> {
    c.handle_node_event(&NodeEvent::Acquired(name.to_string(), fence))
}

#[test]
fn the_node_is_asked_once_per_lock() {
    let mut c = Coordinator::new();
    assert_eq!(acquire(&mut c, "a", 1), vec![Command::Acquire("a".to_string())]);
    assert_eq!(acquire(&mut c, "a", 2), vec![]);
    assert_eq!(acquire(&mut c, "b", 3), vec![Command::Acquire("b".to_string())]);
    assert_eq!(
        c.acquire(String::new(), 4, lock("")),
        Err(ClientError::EmptyLock)
    );
}

#[test]
fn waiters_are_served_in_order() {
    let mut c = Coordinator::new();
    acquire(&mut c, "a", 1);
    acquire(&mut c, "a", 2);
    assert_eq!(acquired(&mut c, "a", 5), vec![]);
    let (waiter, got) = c.offer().unwrap();
    assert_eq!(waiter, 1);
    assert_eq!((got.lock.as_str(), got.fence, got.holder.as_str()), ("a", 5, "h0000000000000001"));
    assert_eq!(c.settle(true), vec![]);
    assert!(c.offer().is_none());

    let (result, commands) = c.release_holder(Some("a"), &got.holder);
    assert_eq!(result.unwrap().lock, "a");
    assert_eq!(
        commands,
        vec![Command::Release("a".to_string()), Command::Acquire("a".to_string())]
    );
    acquired(&mut c, "a", 6);
    assert_eq!(c.offer().unwrap().0, 2);
}

#[test]
fn waiters_that_are_gone_are_passed_over() {
    let mut c = Coordinator::new();
    for waiter in 1..4 {
        acquire(&mut c, "a", waiter);
    }
    acquired(&mut c, "a", 1);
    assert_eq!(c.settle(false), vec![]);
    assert_eq!(c.settle(false), vec![]);
    let (waiter, got) = c.offer().unwrap();
    assert_eq!((waiter, got.holder.as_str()), (3, "h0000000000000003"));
    assert_eq!(c.next_holder(), 4);
    // Nobody is left: the lock goes back to the cluster.
    assert_eq!(c.settle(false), vec![Command::Release("a".to_string())]);
    assert!(c.offer().is_none());
}

#[test]
fn tokens_release_once_and_only_their_lock() {
    let mut c = Coordinator::new();
    acquire(&mut c, "a", 1);
    acquired(&mut c, "a", 1);
    let token = c.offer().unwrap().1.holder;
    c.settle(true);
    assert_eq!(c.release_holder(Some("b"), &token).0, Err(ClientError::HolderMismatch));
    assert_eq!(c.release_holder(None, "h00").0, Err(ClientError::NotHeld));
    let (result, commands) = c.release_holder(None, &token);
    assert!(result.is_ok());
    assert_eq!(commands, vec![Command::Release("a".to_string())]);
    assert_eq!(c.release_holder(None, &token).0, Err(ClientError::NotHeld));
}

#[test]
fn a_lost_lock_is_asked_for_again() {
    let mut c = Coordinator::new();
    acquire(&mut c, "a", 1);
    acquired(&mut c, "a", 1);
    let token = c.offer().unwrap().1.holder;
    c.settle(true);
    acquire(&mut c, "a", 2);
    assert_eq!(
        c.handle_node_event(&NodeEvent::Lost("a".to_string())),
        vec![Command::Acquire("a".to_string())]
    );
    assert_eq!(c.release_holder(None, &token).0, Err(ClientError::NotHeld));
    assert_eq!(c.handle_node_event(&NodeEvent::Info("hi".to_string())), vec![]);
    assert_eq!(c.handle_node_event(&NodeEvent::Lost("unknown".to_string())), vec![]);
}

#[test]
fn cancelling_leaves_the_queue_or_releases() {
    let mut c = Coordinator::new();
    acquire(&mut c, "a", 1);
    acquire(&mut c, "a", 2);
    assert_eq!(c.cancel_acquire("a", 2), vec![]);
    acquired(&mut c, "a", 1);
    c.settle(true);
    assert_eq!(c.cancel_acquire("a", 1), vec![Command::Release("a".to_string())]);
    assert_eq!(c.cancel_acquire("a", 1), vec![]);
}

#[test]
fn semaphore_releases_name_the_permit() {
    let mut c = Coordinator::new();
    let resource = ClientResource::Semaphore { name: "api".to_string(), limit: 10, permit: 3 };
    c.acquire("slot".to_string(), 1, resource).unwrap();
    acquired(&mut c, "slot", 1);
    let got = c.offer().unwrap().1;
    assert_eq!(got.lock, "api");
    c.settle(true);
    let released = c.release_holder(None, &got.holder).0.unwrap();
    assert_eq!(released.semaphore.as_deref(), Some("api"));
    assert_eq!((released.limit, released.permit), (Some(10), Some(3)));
}
