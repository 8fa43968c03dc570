use tfidf::store::{
    Action, Actions, Database, Effect, Middleware, Operation, Plugin, State, Store,
};

#[derive(Clone, Debug, PartialEq)]
struct Counter {
    value: i64,
}

impl Actions for Counter {
    fn create(&mut self) {
        self.value += 1;
    }

    fn update(&mut self) {
        self.value += 10;
    }

    fn delete(&mut self) {
        self.value = 0;
    }
}

struct Quiet;

impl Middleware<Counter> for Quiet {
    fn on_action(&self, _action: &Action<Counter>, _state: &State<Counter>) {}
}

struct Logging;

impl Plugin<Counter> for Logging {
    fn name(&self) -> String {
        "Logging".to_string()
    }

    fn on_action(&self, _action: &Action<Counter>, _state: &State<Counter>) {}
}

struct StartLoading;

impl Operation<Counter> for StartLoading {
    fn run(&mut self, _database: &mut Database<Counter>, state: &mut State<Counter>) {
        state.is_loading = true;
    }
}

#[test]
fn state_new_has_no_error_and_is_idle() {
    let state = State::new(Counter { value: 7 });
    assert_eq!(state.shared, Counter { value: 7 });
    assert!(!state.is_loading);
    assert!(state.error.is_none());
}

#[test]
fn reducer_applies_the_matching_operation() {
    let state = State::new(Counter { value: 0 });
    let next = tfidf::store::reducer(&state, Action::Create(Counter { value: 5 }));
    assert_eq!(next.shared, Counter { value: 6 });
    assert!(!next.is_loading);
    assert!(next.error.is_none());

    let next = tfidf::store::reducer(&state, Action::Update(Counter { value: 5 }));
    assert_eq!(next.shared, Counter { value: 15 });

    let next = tfidf::store::reducer(&state, Action::Delete(Counter { value: 5 }));
    assert_eq!(next.shared, Counter { value: 0 });
}

#[test]
fn store_registers_middlewares_and_plugins() {
    let mut store: Store<Counter, Quiet, Logging> = Store::new(Counter { value: 0 });
    assert_eq!(store.middlewares.len(), 0);
    assert_eq!(store.plugins.len(), 0);
    store.add_middleware(Quiet);
    store.add_plugin(Logging);
    assert_eq!(store.middlewares.len(), 1);
    assert_eq!(store.plugins.len(), 1);
    assert_eq!(store.plugins[0].name(), "Logging");
}

#[test]
fn dispatch_reduces_the_state() {
    let mut store: Store<Counter, Quiet, Logging> = Store::new(Counter { value: 0 });
    store.add_middleware(Quiet);
    store.add_plugin(Logging);
    store.dispatch(Action::Create(Counter { value: 41 }));
    assert_eq!(store.state.shared, Counter { value: 42 });
    assert!(!store.state.is_loading);
    assert!(store.state.error.is_none());
    assert_eq!(store.middlewares.len(), 1);
    assert_eq!(store.plugins.len(), 1);
}

#[test]
fn effect_apply_runs_the_operation() {
    let mut database: Database<Counter> = Database::new();
    assert_eq!(database.storage.len(), 0);
    let mut state = State::new(Counter { value: 0 });
    let mut effect = Effect { operation: StartLoading };
    effect.apply(&mut database, &mut state);
    assert!(state.is_loading);
    assert_eq!(state.shared, Counter { value: 0 });
}
