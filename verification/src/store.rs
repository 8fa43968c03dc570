//! A small generic action/reducer store: state flows through a reducer on
//! each dispatched action, while middlewares and plugins observe.

use vstd::prelude::*;

verus! {

/// The domain operations a stored data type offers; a reducer invokes the
/// one matching the dispatched action.
pub trait Actions {
    fn create(&mut self);

    fn update(&mut self);

    fn delete(&mut self);
}

/// A stored value together with its loading and error status.
#[derive(Debug, Clone)]
pub struct State<T> {
    /// The stored value.
    pub shared: T,
    /// Whether a load is in flight.
    pub is_loading: bool,
    /// The last error message, if any.
    pub error: Option<String>,
}

impl<T> State<T> {
    /// A fresh state around a value: not loading, no error.
    pub fn new(shared: T) -> (s: State<T>)
        ensures
            s.shared == shared,
            s.is_loading == false,
            s.error is None,
    {
        State { shared, is_loading: false, error: None }
    }
}

/// An action to dispatch, carrying the data it concerns.
#[derive(Debug)]
pub enum Action<T: Actions> {
    Create(T),
    Update(T),
    Delete(T),
}

/// Observes every dispatched action before the reducer runs.
pub trait Middleware<T: Actions> {
    fn on_action(&self, action: &Action<T>, state: &State<T>);
}

/// A named observer of dispatched actions.
pub trait Plugin<T: Actions> {
    fn name(&self) -> String;

    fn on_action(&self, action: &Action<T>, state: &State<T>);
}

/// The next state after an action: the carried data, with its matching
/// operation applied, replaces the shared value; the loading and error
/// status carry over unchanged.
pub fn reducer<T: Actions + Clone>(state: &State<T>, action: Action<T>) -> (new_state: State<
    T,
>)
    ensures
        new_state.is_loading == state.is_loading,
        new_state.error == state.error,
{
    let error = match &state.error {
        Some(e) => Some(e.clone()),
        None => None,
    };
    let shared = match action {
        Action::Create(mut data) => {
            data.create();
            data
        },
        Action::Update(mut data) => {
            data.update();
            data
        },
        Action::Delete(mut data) => {
            data.delete();
            data
        },
    };
    State { shared, is_loading: state.is_loading, error }
}

/// Holds the current state and routes every action through the registered
/// middlewares and plugins, then through the reducer.
pub struct Store<T: Actions + Clone, M: Middleware<T>, P: Plugin<T>> {
    /// The current state.
    pub state: State<T>,
    /// Run, in order, on each dispatched action.
    pub middlewares: Vec<M>,
    /// Notified, in order, of each dispatched action.
    pub plugins: Vec<P>,
}

impl<T: Actions + Clone, M: Middleware<T>, P: Plugin<T>> Store<T, M, P> {
    /// A store over an initial value, with no middlewares or plugins yet.
    pub fn new(initial_state: T) -> (store: Store<T, M, P>)
        ensures
            store.state.shared == initial_state,
            store.state.is_loading == false,
            store.state.error is None,
            store.middlewares@.len() == 0,
            store.plugins@.len() == 0,
    {
        Store {
            state: State::new(initial_state),
            middlewares: Vec::new(),
            plugins: Vec::new(),
        }
    }

    /// Shows the action to every middleware and plugin, then replaces the
    /// state by the reducer's result; the loading and error status of the
    /// state carry over.
    pub fn dispatch(&mut self, action: Action<T>)
        ensures
            final(self).middlewares == old(self).middlewares,
            final(self).plugins == old(self).plugins,
            final(self).state.is_loading == old(self).state.is_loading,
            final(self).state.error == old(self).state.error,
    {
        let mut i: usize = 0;
        while i < self.middlewares.len()
            invariant
                *self == *old(self),
                i <= self.middlewares@.len(),
            decreases self.middlewares@.len() - i,
        {
            self.middlewares[i].on_action(&action, &self.state);
            i = i + 1;
        }
        let mut j: usize = 0;
        while j < self.plugins.len()
            invariant
                *self == *old(self),
                j <= self.plugins@.len(),
            decreases self.plugins@.len() - j,
        {
            self.plugins[j].on_action(&action, &self.state);
            j = j + 1;
        }
        let new_state = reducer(&self.state, action);
        self.state = new_state;
    }

    /// Registers a middleware at the end of the list.
    pub fn add_middleware(&mut self, middleware: M)
        ensures
            final(self).middlewares@ == old(self).middlewares@.push(middleware),
            final(self).plugins == old(self).plugins,
            final(self).state == old(self).state,
    {
        self.middlewares.push(middleware);
    }

    /// Registers a plugin at the end of the list.
    pub fn add_plugin(&mut self, plugin: P)
        ensures
            final(self).plugins@ == old(self).plugins@.push(plugin),
            final(self).middlewares == old(self).middlewares,
            final(self).state == old(self).state,
    {
        self.plugins.push(plugin);
    }
}

/// A keyed store of values, for effects to read and write.
pub struct Database<T: Actions + Clone> {
    /// Key to stored value; keys are expected to stay distinct.
    pub storage: Vec<(String, T)>,
}

impl<T: Actions + Clone> Database<T> {
    /// An empty database.
    pub fn new() -> (db: Database<T>)
        ensures
            db.storage@.len() == 0,
    {
        Database { storage: Vec::new() }
    }
}

/// The work an effect performs against a database and a state.
pub trait Operation<T: Actions + Clone> {
    fn run(&mut self, database: &mut Database<T>, state: &mut State<T>);
}

/// A deferred operation over a database and a state.
pub struct Effect<F> {
    /// The operation to run.
    pub operation: F,
}

impl<F> Effect<F> {
    /// Runs the operation once against the given database and state.
    pub fn apply<T: Actions + Clone>(
        &mut self,
        database: &mut Database<T>,
        state: &mut State<T>,
    ) where F: Operation<T> {
        self.operation.run(database, state);
    }
}

} // verus!
