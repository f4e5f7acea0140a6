use atomic_register::executor::{
    after_receive, begin_turn, get_handled, run_task, tick_after_send, tick_begin_turn, Handler,
    Mailbox, System, Tick, Turn,
};

struct Recorder {
    seen: Vec<u64>,
    ticks: usize,
    flag_when_started: Vec<bool>,
}

impl Recorder {
    fn new() -> Recorder {
        Recorder { seen: Vec::new(), ticks: 0, flag_when_started: Vec::new() }
    }
}

impl Handler<u64> for Recorder {
    fn handle(&mut self, msg: u64) {
        if let Some(last) = self.seen.last() {
            assert!(*last < msg, "messages out of order");
        }
        self.seen.push(msg);
    }
}

impl Handler<Tick> for Recorder {
    fn handle(&mut self, _msg: Tick) {
        self.ticks += 1;
    }
}

/// The loop of a module's task, with a flag that is set after `set_after`
/// steps of the task. A step is a read of the flag, a receive, or a handler.
fn task_with_shutdown(
    module: &mut Recorder,
    mailbox: &mut Mailbox<u64>,
    set_after: usize,
) -> usize {
    let mut steps = 0;
    let mut started_late = 0;
    let flag = |steps: usize| steps >= set_after;
    loop {
        let go_on = begin_turn(flag(steps));
        steps += 1;
        if !go_on {
            break;
        }
        let received = mailbox.recv();
        steps += 1;
        let turn = after_receive(received, flag(steps));
        steps += 1;
        match turn {
            Turn::Handle(msg) => {
                // the flag may be set between the decision and the start of the handler
                if flag(steps) {
                    started_late += 1;
                }
                module.flag_when_started.push(flag(steps));
                get_handled(msg, module);
                steps += 1;
            }
            Turn::Stop => break,
        }
    }
    started_late
}

#[test]
fn ten_thousand_messages_arrive_in_order() {
    let mut mailbox: Mailbox<u64> = Mailbox::new();
    for i in 1..=10_000u64 {
        assert!(mailbox.send(i));
    }
    assert_eq!(mailbox.len(), 10_000);
    let mut module = Recorder::new();
    let handled = run_task(&mut module, &mut mailbox, false);
    assert_eq!(handled, 10_000);
    assert_eq!(module.seen, (1..=10_000u64).collect::<Vec<u64>>());
    assert_eq!(mailbox.len(), 0);
}

#[test]
fn at_most_one_handler_starts_after_the_flag() {
    for set_after in 0..60 {
        let mut mailbox: Mailbox<u64> = Mailbox::new();
        for i in 1..=10u64 {
            mailbox.send(i);
        }
        let mut module = Recorder::new();
        let started_late = task_with_shutdown(&mut module, &mut mailbox, set_after);
        assert!(started_late <= 1, "flag after {} steps", set_after);
        let late = module.flag_when_started.iter().filter(|f| **f).count();
        assert!(late <= 1);
        // what was handled is the head of what was sent
        assert_eq!(module.seen, (1..=module.seen.len() as u64).collect::<Vec<u64>>());
        // a handler that had started has run to its end
        assert_eq!(module.seen.len(), module.flag_when_started.len());
    }
}

#[test]
fn a_task_that_sees_the_flag_handles_nothing() {
    let mut mailbox: Mailbox<u64> = Mailbox::new();
    mailbox.send(1);
    mailbox.send(2);
    let mut module = Recorder::new();
    assert_eq!(run_task(&mut module, &mut mailbox, true), 0);
    assert!(module.seen.is_empty());
    assert_eq!(mailbox.len(), 2);
    assert!(!begin_turn(true));
    assert!(begin_turn(false));
    assert!(matches!(after_receive(Some(5u64), true), Turn::Stop));
    assert!(matches!(after_receive(Some(5u64), false), Turn::Handle(5)));
    assert!(matches!(after_receive(None::<u64>, false), Turn::Stop));
    assert!(matches!(after_receive(None::<u64>, true), Turn::Stop));
}

#[test]
fn a_closed_mailbox_takes_nothing_and_gives_what_it_has() {
    let mut mailbox: Mailbox<u64> = Mailbox::new();
    assert!(!mailbox.is_closed());
    assert!(mailbox.send(1));
    assert!(mailbox.send(2));
    assert!(mailbox.close());
    assert!(!mailbox.close());
    assert!(mailbox.is_closed());
    assert!(!mailbox.send(3));
    assert_eq!(mailbox.len(), 2);
    assert_eq!(mailbox.recv(), Some(1));
    assert_eq!(mailbox.recv(), Some(2));
    assert_eq!(mailbox.recv(), None);
    assert_eq!(mailbox.recv(), None);
}

#[test]
fn ticks_keep_their_place_among_the_messages() {
    enum Either {
        Number(u64),
        Tick,
    }
    struct Both {
        order: Vec<&'static str>,
    }
    impl Handler<Either> for Both {
        fn handle(&mut self, msg: Either) {
            match msg {
                Either::Number(_) => self.order.push("number"),
                Either::Tick => self.order.push("tick"),
            }
        }
    }
    let mut mailbox: Mailbox<Either> = Mailbox::new();
    mailbox.send(Either::Tick);
    mailbox.send(Either::Number(1));
    mailbox.send(Either::Tick);
    mailbox.send(Either::Number(2));
    let mut module = Both { order: Vec::new() };
    assert_eq!(run_task(&mut module, &mut mailbox, false), 4);
    assert_eq!(module.order, vec!["tick", "number", "tick", "number"]);
    let mut recorder = Recorder::new();
    get_handled(Tick {}, &mut recorder);
    get_handled(Tick {}, &mut recorder);
    assert_eq!(recorder.ticks, 2);
}

#[test]
fn the_emitter_of_ticks_stops_with_the_system() {
    assert!(tick_begin_turn(false));
    assert!(!tick_begin_turn(true));
    assert!(tick_after_send(true));
    assert!(!tick_after_send(false));
    // first tick at once, then one for each period, until the queue is closed
    let mut mailbox: Mailbox<Tick> = Mailbox::new();
    let mut sent = 0;
    for period in 0..10 {
        if !tick_begin_turn(false) {
            break;
        }
        if period == 4 {
            mailbox.close();
        }
        if !tick_after_send(mailbox.send(Tick {})) {
            break;
        }
        sent += 1;
    }
    assert_eq!(sent, 4);
    assert_eq!(mailbox.len(), 4);
}

#[test]
fn a_system_counts_its_tasks_and_shuts_down_once() {
    let mut system = System::new();
    assert!(!system.is_shutting_down());
    assert_eq!(system.tasks(), 0);
    assert_eq!(system.register_module(), 0);
    assert_eq!(system.request_tick(), 1);
    assert_eq!(system.register_module(), 2);
    assert_eq!(system.tasks(), 3);
    assert_eq!(system.shutdown(), 3);
    assert!(system.is_shutting_down());
    assert_eq!(system.tasks(), 3);
}

struct OrderlyModule {
    number: u128,
    final_number: u128,
    finished: bool,
}

struct NumberMsg {
    num: u128,
}

impl Handler<NumberMsg> for OrderlyModule {
    fn handle(&mut self, num_msg: NumberMsg) {
        if num_msg.num != self.number + 1 {
            panic!("Oh no bad order");
        }
        self.number = num_msg.num;
        if self.number == self.final_number {
            self.finished = true;
        }
    }
}

#[test]
fn message_order() {
    let final_number: u128 = 100_000;

    let mut sys = System::new();
    let mut module = OrderlyModule { number: 0, final_number, finished: false };
    sys.register_module();
    let mut mailbox: Mailbox<NumberMsg> = Mailbox::new();

    for i in 1..=final_number {
        mailbox.send(NumberMsg { num: i });
    }
    run_task(&mut module, &mut mailbox, sys.is_shutting_down());

    assert!(module.finished);
    sys.shutdown();
}

struct CountingMod {
    shutting_down: bool,
    handled_when_shutting_down: u128,
}

struct MyMsg;

impl Handler<MyMsg> for CountingMod {
    fn handle(&mut self, _msg: MyMsg) {
        if self.shutting_down {
            self.handled_when_shutting_down += 1;
        }
    }
}

#[test]
fn max_one_after_shutdown() {
    let mut sys = System::new();
    let mut modules: Vec<(CountingMod, Mailbox<MyMsg>)> = Vec::new();
    for _ in 0..64 {
        sys.register_module();
        modules.push((
            CountingMod { shutting_down: false, handled_when_shutting_down: 0 },
            Mailbox::new(),
        ));
    }
    for (_, mailbox) in modules.iter_mut() {
        for _ in 0..64 {
            mailbox.send(MyMsg);
        }
    }
    // every task has handled a part of its messages when the system shuts down
    for (k, (module, mailbox)) in modules.iter_mut().enumerate() {
        for _ in 0..k {
            match after_receive(mailbox.recv(), sys.is_shutting_down()) {
                Turn::Handle(msg) => get_handled(msg, module),
                Turn::Stop => panic!("stopped too early"),
            }
        }
    }
    assert_eq!(sys.shutdown(), 64);
    for (module, mailbox) in modules.iter_mut() {
        module.shutting_down = true;
        mailbox.close();
        run_task(module, mailbox, sys.is_shutting_down());
    }
    for (module, _) in modules {
        let is_ok: bool = module.handled_when_shutting_down < 1;
        assert!(is_ok);
    }
}

struct TwiceMod {
    sent: u128,
}

impl Handler<MyMsg> for TwiceMod {
    fn handle(&mut self, _msg: MyMsg) {
        self.sent += 1;
        // whatever the handler waits for here, it goes on behind it
        self.sent += 1;
    }
}

#[test]
fn shutdown_completes_handle() {
    let mut sys = System::new();
    let mut module = TwiceMod { sent: 0 };
    sys.register_module();
    let mut mailbox: Mailbox<MyMsg> = Mailbox::new();
    for _ in 0..100 {
        mailbox.send(MyMsg);
    }
    // two handlers have run, the third has started when the system shuts down
    for _ in 0..3 {
        assert!(begin_turn(sys.is_shutting_down()));
        match after_receive(mailbox.recv(), sys.is_shutting_down()) {
            Turn::Handle(msg) => {
                if module.sent == 4 {
                    sys.shutdown();
                }
                get_handled(msg, &mut module);
            }
            Turn::Stop => panic!("stopped too early"),
        }
    }
    mailbox.close();
    run_task(&mut module, &mut mailbox, sys.is_shutting_down());

    let received_num = module.sent;
    assert!(received_num > 0);
    assert_eq!(received_num % 2, 0);
    assert_eq!(received_num, 6);
}

#[test]
fn a_task_stops_only_for_the_flag_or_a_closed_queue() {
    // nobody holds a reference, and the queue is open: the task waits
    let mut mailbox: Mailbox<u64> = Mailbox::new();
    let mut module = Recorder::new();
    assert!(begin_turn(false));
    assert_eq!(run_task(&mut module, &mut mailbox, false), 0);
    assert!(!mailbox.is_closed());
    // what is sent later is handled
    mailbox.send(5);
    assert_eq!(run_task(&mut module, &mut mailbox, false), 1);
    assert_eq!(module.seen, vec![5]);
}

type Num = u64;

enum FibonacciSystemMessage {
    /// Finish the initialization and start the calculation.
    Init,
    /// The next step: `idx` is the index in the sequence, `num` the number.
    Message { idx: usize, num: Num },
    /// The calculation is over.
    Done,
}

struct FibonacciModule {
    /// The number that the module holds.
    num: Num,
    /// Index of the number that is asked for.
    limit: usize,
    /// What the module has for the other module.
    outbox: Vec<FibonacciSystemMessage>,
    /// The result, once it is there.
    pipe: Option<Num>,
    ticks: usize,
}

impl FibonacciModule {
    fn new(initial_number: Num, limit: usize) -> FibonacciModule {
        FibonacciModule { num: initial_number, limit, outbox: Vec::new(), pipe: None, ticks: 0 }
    }

    fn message(&mut self, idx: usize, num: Num) {
        if idx >= self.limit {
            self.outbox.push(FibonacciSystemMessage::Done);
            self.pipe = Some(num);
            return;
        }
        self.num = self.num + num;
        self.outbox.push(FibonacciSystemMessage::Message { idx: idx + 1, num: self.num });
    }

    fn init(&mut self) {
        if self.num == 1 {
            self.outbox.push(FibonacciSystemMessage::Message { idx: 1, num: self.num });
        }
    }
}

impl Handler<FibonacciSystemMessage> for FibonacciModule {
    fn handle(&mut self, msg: FibonacciSystemMessage) {
        match msg {
            FibonacciSystemMessage::Init => self.init(),
            FibonacciSystemMessage::Message { idx, num } => self.message(idx, num),
            FibonacciSystemMessage::Done => {}
        }
    }
}

impl Handler<Tick> for FibonacciModule {
    fn handle(&mut self, _msg: Tick) {
        self.ticks += 1;
    }
}

fn fib_helper(k: usize) -> Num {
    let mut a: Num = 0;
    let mut b: Num = 1;
    for _ in 1..k {
        let result = a + b;
        a = b;
        b = result;
    }
    b
}

/// One turn of a module's task; what the module has for the other one goes
/// to the other's queue.
fn fib_turn(
    sys: &System,
    module: &mut FibonacciModule,
    own: &mut Mailbox<FibonacciSystemMessage>,
    other: &mut Mailbox<FibonacciSystemMessage>,
) {
    if own.len() > 0 && begin_turn(sys.is_shutting_down()) {
        if let Turn::Handle(msg) = after_receive(own.recv(), sys.is_shutting_down()) {
            get_handled(msg, module);
        }
    }
    for msg in module.outbox.drain(..) {
        other.send(msg);
    }
}

/// Calculate the 20th Fibonacci number with two modules that hand the
/// numbers to each other.
#[test]
fn fib() {
    let n: usize = 20;
    let mut sys = System::new();

    let mut fib1 = FibonacciModule::new(0, n);
    let mut fib2 = FibonacciModule::new(1, n);
    sys.register_module();
    sys.register_module();
    let mut queue1: Mailbox<FibonacciSystemMessage> = Mailbox::new();
    let mut queue2: Mailbox<FibonacciSystemMessage> = Mailbox::new();

    sys.request_tick();
    sys.request_tick();
    sys.request_tick();

    queue1.send(FibonacciSystemMessage::Init);
    queue2.send(FibonacciSystemMessage::Init);

    let control_sample = fib_helper(n);

    let mut turns = 0;
    while fib1.pipe.is_none() && fib2.pipe.is_none() {
        // a tick comes between the messages now and then
        if turns % 3 == 0 && tick_begin_turn(sys.is_shutting_down()) {
            get_handled(Tick {}, &mut fib1);
            get_handled(Tick {}, &mut fib2);
        }
        fib_turn(&sys, &mut fib1, &mut queue1, &mut queue2);
        fib_turn(&sys, &mut fib2, &mut queue2, &mut queue1);
        turns += 1;
        assert!(turns < 1000, "the calculation does not end");
    }
    let res = fib1.pipe.or(fib2.pipe).unwrap();
    assert_eq!(res, control_sample);
    assert_eq!(res, 6765);

    assert_eq!(sys.shutdown(), 5);
}
