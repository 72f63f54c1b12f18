use std::cell::RefCell;
use std::rc::Rc;

use signals::{
    DropUnsubscriber, Mutable, Observer, Scope, Signal, SignalUninitError, SignalUpdatingError,
    Unsubscriber, Value,
};

type Log = Rc<RefCell<Vec<(char, i32)>>>;
type Slot = Rc<RefCell<Option<Unsubscriber>>>;
type Outcomes = Rc<RefCell<Vec<Result<(), SignalUpdatingError>>>>;

enum Plan {
    Record,
    /// When called during a pass with this value, subscribe a new recorder.
    SubscribeOn(i32, char),
    /// On the first call during a pass, subscribe a new recorder.
    SubscribeOnceInPass(char),
    /// On the first call during a pass, cancel the capability in the slot.
    CancelInPass(Slot),
    /// During a pass, try to write and keep the outcome.
    WriteInPass(Outcomes),
    /// On its first call (the immediate one), subscribe a new recorder.
    SubscribeAtFirstCall(char),
    /// Cancel its own subscription on the first call during a pass.
    LeaveInPass,
}

struct Rec {
    name: char,
    log: Log,
    plan: Plan,
}

fn rec(name: char, log: &Log, plan: Plan) -> Rec {
    Rec { name, log: log.clone(), plan }
}

impl Observer<i32> for Rec {
    fn notify(&mut self, value: &i32, scope: &mut Scope<Self>) {
        self.log.borrow_mut().push((self.name, *value));
        let log = self.log.clone();
        let mut done = false;
        match &self.plan {
            Plan::Record => {}
            Plan::SubscribeOn(v, name) => {
                if scope.is_notifying() && *v == *value {
                    let _ = scope.subscribe(rec(*name, &log, Plan::Record));
                }
            }
            Plan::SubscribeOnceInPass(name) => {
                if scope.is_notifying() {
                    let _ = scope.subscribe(rec(*name, &log, Plan::Record));
                    done = true;
                }
            }
            Plan::CancelInPass(slot) => {
                if scope.is_notifying() {
                    if let Some(mut u) = slot.borrow_mut().take() {
                        scope.unsubscribe(&mut u);
                        assert!(!u.has_effect());
                    }
                    done = true;
                }
            }
            Plan::WriteInPass(outcomes) => {
                if scope.is_notifying() {
                    outcomes.borrow_mut().push(scope.try_set(*value + 100));
                    outcomes.borrow_mut().push(scope.try_mutate(|x: &mut i32| *x += 1));
                }
            }
            Plan::SubscribeAtFirstCall(name) => {
                if !scope.is_notifying() {
                    let _ = scope.subscribe(rec(*name, &log, Plan::Record));
                    done = true;
                }
            }
            Plan::LeaveInPass => {
                if scope.is_notifying() {
                    scope.unsubscribe_self();
                    done = true;
                }
            }
        }
        if done {
            self.plan = Plan::Record;
        }
    }
}

fn seen(log: &Log, name: char) -> Vec<i32> {
    log.borrow().iter().filter(|(n, _)| *n == name).map(|(_, v)| *v).collect()
}

fn new_log() -> Log {
    Rc::new(RefCell::new(Vec::new()))
}

#[test]
fn subscribe_fires_once_with_current_value() {
    let log = new_log();
    let mut s: Signal<i32, Rec> = Signal::new(7);
    let u = s.for_each(rec('a', &log, Plan::Record));
    assert_eq!(*log.borrow(), vec![('a', 7)]);
    assert_eq!(u.id(), Some(1));
    assert_eq!(s.subscriber_ids(), vec![1]);
    assert_eq!(s.get(), 7);
}

#[test]
fn write_from_callback_is_refused_and_value_kept() {
    let log = new_log();
    let outcomes: Outcomes = Rc::new(RefCell::new(Vec::new()));
    let mut s: Signal<i32, Rec> = Signal::new(0);
    s.for_each_forever(rec('a', &log, Plan::WriteInPass(outcomes.clone())));
    s.set(5);
    assert_eq!(
        *outcomes.borrow(),
        vec![Err(SignalUpdatingError), Err(SignalUpdatingError)]
    );
    assert_eq!(s.get(), 5);
    assert_eq!(seen(&log, 'a'), vec![0, 5]);
}

#[test]
fn subscribe_inside_pass_is_reached_once_in_same_pass() {
    let log = new_log();
    let mut s: Signal<i32, Rec> = Signal::new(0);
    s.for_each_forever(rec('1', &log, Plan::Record));
    s.for_each_forever(rec('2', &log, Plan::SubscribeOnceInPass('4')));
    s.for_each_forever(rec('3', &log, Plan::Record));
    log.borrow_mut().clear();
    s.set(9);
    assert_eq!(
        *log.borrow(),
        vec![('1', 9), ('2', 9), ('3', 9), ('4', 9)]
    );
    assert_eq!(seen(&log, '4'), vec![9]);
    assert_eq!(s.subscriber_ids(), vec![1, 2, 3, 4]);
}

#[test]
fn cancel_inside_pass_is_deferred_then_swept() {
    let log = new_log();
    let slot: Slot = Rc::new(RefCell::new(None));
    let mut s: Signal<i32, Rec> = Signal::new(0);
    s.for_each_forever(rec('1', &log, Plan::CancelInPass(slot.clone())));
    let u2 = s.for_each(rec('2', &log, Plan::Record));
    s.for_each_forever(rec('3', &log, Plan::Record));
    *slot.borrow_mut() = Some(u2);
    log.borrow_mut().clear();
    s.set(4);
    assert_eq!(*log.borrow(), vec![('1', 4), ('3', 4)]);
    assert_eq!(s.subscriber_ids(), vec![1, 3]);
    log.borrow_mut().clear();
    s.set(6);
    assert_eq!(*log.borrow(), vec![('1', 6), ('3', 6)]);
}

#[test]
fn callback_can_leave_during_pass() {
    let log = new_log();
    let mut s: Signal<i32, Rec> = Signal::new(0);
    s.for_each_forever(rec('a', &log, Plan::LeaveInPass));
    s.for_each_forever(rec('b', &log, Plan::Record));
    s.set(1);
    s.set(2);
    assert_eq!(seen(&log, 'a'), vec![0, 1]);
    assert_eq!(seen(&log, 'b'), vec![0, 1, 2]);
    assert_eq!(s.subscriber_ids(), vec![2]);
}

#[test]
fn identifiers_strictly_increase_across_cancellations() {
    let log = new_log();
    let mut s: Signal<i32, Rec> = Signal::new(0);
    let mut a = s.for_each(rec('a', &log, Plan::Record));
    let mut b = s.for_each(rec('b', &log, Plan::Record));
    a.unsubscribe(&mut s);
    b.unsubscribe(&mut s);
    let c = s.for_each(rec('c', &log, Plan::Record));
    s.set(3);
    let d = s.for_each(rec('d', &log, Plan::Record));
    assert_eq!(c.id(), Some(3));
    assert_eq!(d.id(), Some(4));
    assert_eq!(s.subscriber_ids(), vec![3, 4]);
}

#[test]
fn cancelling_twice_does_nothing_more() {
    let log = new_log();
    let mut s: Signal<i32, Rec> = Signal::new(0);
    let mut a = s.for_each(rec('a', &log, Plan::Record));
    s.for_each_forever(rec('b', &log, Plan::Record));
    assert!(a.has_effect());
    assert!(a.needed());
    a.unsubscribe(&mut s);
    assert!(!a.has_effect());
    assert_eq!(s.subscriber_ids(), vec![2]);
    a.unsubscribe(&mut s);
    assert!(!a.has_effect());
    assert_eq!(s.subscriber_ids(), vec![2]);
    s.set(1);
    assert_eq!(seen(&log, 'a'), vec![0]);
    assert_eq!(seen(&log, 'b'), vec![0, 1]);
}

#[test]
fn end_to_end_scenario() {
    let log = new_log();
    let mut s: Mutable<i32, Rec> = Mutable::new(0);
    s.for_each_forever(rec('A', &log, Plan::SubscribeOn(10, 'B')));
    assert_eq!(seen(&log, 'A'), vec![0]);
    s.set(5);
    assert_eq!(seen(&log, 'A'), vec![0, 5]);
    // B is appended during the pass for 10; that pass reads the registry's
    // length again at each step, so it reaches B too, with 10.
    s.set(10);
    assert_eq!(seen(&log, 'A'), vec![0, 5, 10]);
    assert_eq!(seen(&log, 'B'), vec![10]);
    s.set(15);
    assert_eq!(seen(&log, 'A'), vec![0, 5, 10, 15]);
    assert_eq!(seen(&log, 'B'), vec![10, 15]);
}

#[test]
fn subscriber_added_by_first_call_is_shown_the_value() {
    let log = new_log();
    let mut s: Signal<i32, Rec> = Signal::new(3);
    let u = s.for_each(rec('a', &log, Plan::SubscribeAtFirstCall('b')));
    assert_eq!(*log.borrow(), vec![('a', 3), ('b', 3)]);
    assert_eq!(u.id(), Some(1));
    assert_eq!(s.subscriber_ids(), vec![1, 2]);
}

#[test]
fn uninitialized_cell_refuses_reads_until_written() {
    let log = new_log();
    let mut m: Mutable<i32, Rec> = Mutable::uninit();
    assert_eq!(m.signal().try_get(), Err(SignalUninitError));
    assert!(!m.signal().is_initialized());
    m.for_each_forever(rec('a', &log, Plan::Record));
    assert!(log.borrow().is_empty());
    m.set(8);
    assert_eq!(m.signal().try_get(), Ok(8));
    assert_eq!(seen(&log, 'a'), vec![8]);
}

#[test]
fn update_and_mutate_change_the_value() {
    let log = new_log();
    let mut s: Signal<i32, Rec> = Signal::new(2);
    s.for_each_forever(rec('a', &log, Plan::Record));
    assert_eq!(s.try_update(|v: &i32| *v * 10), Ok(()));
    s.update(|v: &i32| *v + 1);
    s.mutate(|v: &mut i32| *v -= 4);
    assert_eq!(s.try_mutate(|v: &mut i32| *v *= 2), Ok(()));
    assert_eq!(s.try_set(-1), Ok(()));
    assert_eq!(seen(&log, 'a'), vec![2, 20, 21, 17, 34, -1]);
    assert_eq!(s.get(), -1);
}

#[test]
fn mutable_writes_notify() {
    let log = new_log();
    let mut m: Mutable<i32, Rec> = Mutable::new(1);
    let mut u = m.for_each(rec('a', &log, Plan::Record));
    assert_eq!(m.try_set(2), Ok(()));
    m.mutate(|v: &mut i32| *v += 5);
    assert_eq!(m.try_mutate(|v: &mut i32| *v = 0), Ok(()));
    m.unsubscribe(&mut u);
    m.set(9);
    assert_eq!(seen(&log, 'a'), vec![1, 2, 7, 0]);
    assert_eq!(m.signal().get(), 9);
}

#[test]
fn scoped_capability_cancels_when_finished_or_hands_back() {
    let log = new_log();
    let mut s: Signal<i32, Rec> = Signal::new(0);
    let scoped: DropUnsubscriber = s.for_each(rec('a', &log, Plan::Record)).droppable();
    assert!(scoped.0.has_effect());
    scoped.finish(&mut s);
    assert!(s.subscriber_ids().is_empty());
    let kept = s.for_each(rec('b', &log, Plan::Record)).droppable().take();
    assert_eq!(kept.id(), Some(2));
    assert_eq!(s.subscriber_ids(), vec![2]);
}

#[test]
fn cloned_capability_is_spent_separately() {
    let log = new_log();
    let mut s: Signal<i32, Rec> = Signal::new(0);
    let mut a = s.for_each(rec('a', &log, Plan::Record));
    let mut copy = a.clone();
    a.unsubscribe(&mut s);
    assert!(!a.has_effect());
    assert!(copy.has_effect());
    copy.unsubscribe(&mut s);
    assert!(!copy.has_effect());
    assert!(s.subscriber_ids().is_empty());
}

#[test]
fn plain_value_is_shown_once_and_cell_through_the_same_trait() {
    let log = new_log();
    let mut v: i32 = 4;
    let u = Value::<i32, Rec>::for_each(&mut v, rec('a', &log, Plan::SubscribeAtFirstCall('b')));
    assert!(!u.has_effect());
    assert_eq!(*log.borrow(), vec![('a', 4)]);
    let mut s: Signal<i32, Rec> = Signal::new(6);
    let w = Value::<i32, Rec>::for_each(&mut s, rec('c', &log, Plan::Record));
    assert_eq!(w.id(), Some(1));
    s.set(7);
    assert_eq!(seen(&log, 'c'), vec![6, 7]);
}
