//! The registry of workers: one handler per node type name.
use vstd::prelude::*;
use crate::keyed::{get_by_key, has_key};
use crate::node::{InputData, Node, NodeError, OutputData};

verus! {

/// Why dispatching a node failed.
#[derive(Debug)]
pub enum WorkerError {
    /// No worker is registered under the node's type name.
    WorkerNotFound(String),
    /// The worker for the node with this id failed.
    NodeRunError(i64, NodeError),
}

/// The digits of a natural number in base ten.
pub open spec fn digits(n: nat) -> Seq<char>
    decreases n,
{
    let d = seq!['0', '1', '2', '3', '4', '5', '6', '7', '8', '9'];
    if n < 10 {
        seq![d[n as int]]
    } else {
        digits(n / 10).push(d[(n % 10) as int])
    }
}

/// An integer in base ten, with a leading `-` when it is negative.
pub open spec fn decimal(n: int) -> Seq<char> {
    if n < 0 {
        seq!['-'] + digits((-n) as nat)
    } else {
        digits(n as nat)
    }
}

/// Relies on i64's `Display`, through `to_string`: base ten, with a leading
/// `-` for a negative number.
#[verifier::external_body]
pub(crate) fn decimal_text(n: i64) -> (r: String)
    ensures
        r@ == decimal(n as int),
{
    n.to_string()
}

impl WorkerError {
    pub open spec fn message_text(self) -> Seq<char> {
        match self {
            WorkerError::WorkerNotFound(name) => "Worker Not Found: `"@ + name@ + "`"@,
            WorkerError::NodeRunError(id, e) => "Node["@ + decimal(id as int) + "]: "@ + e.message_text(),
        }
    }

    /// A human-readable account of the error.
    pub fn message(&self) -> (r: String)
        ensures
            r@ == self.message_text(),
    {
        match self {
            WorkerError::WorkerNotFound(name) => {
                let mut r = "Worker Not Found: `".to_owned();
                r.append(name.as_str());
                r.append("`");
                r
            },
            WorkerError::NodeRunError(id, e) => {
                let mut r = "Node[".to_owned();
                let n = decimal_text(*id);
                r.append(n.as_str());
                r.append("]: ");
                let m = e.message();
                r.append(m.as_str());
                r
            },
        }
    }
}

/// A handler that computes a node's output snapshot from its input snapshot.
pub trait Worker {
    /// The node type name this worker is registered under.
    fn name(&self) -> &str;

    fn work(&self, node: &Node, input_data: InputData) -> Result<OutputData, NodeError>;
}

/// The outcome of running the worker of the node `node_id`: a failure is
/// tagged with the node's id.
pub fn node_run_result(node_id: i64, result: Result<OutputData, NodeError>) -> (r: Result<
    OutputData,
    WorkerError,
>)
    ensures
        match result {
            Ok(out) => r == Ok::<OutputData, WorkerError>(out),
            Err(e) => r == Err::<OutputData, WorkerError>(WorkerError::NodeRunError(node_id, e)),
        },
{
    match result {
        Ok(out) => Ok(out),
        Err(e) => Err(WorkerError::NodeRunError(node_id, e)),
    }
}

/// Workers by type name. Registering a name again replaces the earlier
/// worker: the last registration wins.
pub struct Workers(Vec<(String, Box<dyn Worker>)>);

impl Workers {
    /// The type names registered, in order of registration.
    pub closed spec fn names(self) -> Seq<Seq<char>> {
        self.0@.map_values(|e: (String, Box<dyn Worker>)| e.0@)
    }

    pub open spec fn has_worker(self, name: Seq<char>) -> bool {
        self.names().contains(name)
    }

    /// The worker registered under `name`, if any.
    pub fn find(&self, name: &str) -> (r: Option<&Box<dyn Worker>>)
        ensures
            r is Some <==> self.has_worker(name@),
    {
        proof {
            if has_key(self.0@, name@) {
                let i = choose|i: int| 0 <= i < self.0@.len() && self.0@[i].0@ == name@;
                assert(self.names()[i] == name@);
            }
            if self.has_worker(name@) {
                let i = choose|i: int| 0 <= i < self.names().len() && self.names()[i] == name@;
                assert(self.0@[i].0@ == name@);
            }
        }
        get_by_key(&self.0, name)
    }

    /// Runs the worker registered under `name` on `node`.
    pub fn call(&self, name: &str, node: &Node, input: InputData) -> (r: Result<
        OutputData,
        WorkerError,
    >)
        ensures
            !self.has_worker(name@) <==> r matches Err(WorkerError::WorkerNotFound(_)),
            r matches Err(WorkerError::WorkerNotFound(n)) ==> n@ == name@,
            r matches Err(WorkerError::NodeRunError(id, _)) ==> id == node.id,
    {
        match self.find(name) {
            Some(worker) => node_run_result(node.id, worker.work(node, input)),
            None => Err(WorkerError::WorkerNotFound(name.to_owned())),
        }
    }
}

fn entry(name: String, worker: Box<dyn Worker>) -> (r: (String, Box<dyn Worker>))
    ensures
        r.0 == name,
{
    (name, worker)
}

/// Collects workers before the registry is fixed.
pub struct WorkersBuilder {
    data: Vec<(String, Box<dyn Worker>)>,
}

impl WorkersBuilder {
    pub closed spec fn names(self) -> Seq<Seq<char>> {
        self.data@.map_values(|e: (String, Box<dyn Worker>)| e.0@)
    }

    pub fn new() -> (r: WorkersBuilder)
        ensures
            r.names() == Seq::<Seq<char>>::empty(),
    {
        WorkersBuilder { data: Vec::new() }
    }

    /// Registers `worker` under the name it reports.
    pub fn add<A: Worker + 'static>(&mut self, worker: A) -> (r: &mut Self)
        ensures
            r.names().len() == old(self).names().len() + 1,
            r.names().drop_last() == old(self).names(),
            *final(self) == *final(r),
    {
        let name = worker.name().to_owned();
        let boxed: Box<dyn Worker> = Box::new(worker);
        let e = entry(name, boxed);
        self.data.push(e);
        proof {
            assert(self.names().drop_last() =~= old(self).names());
        }
        self
    }

    pub fn build(self) -> (r: Workers)
        ensures
            r.names() == self.names(),
    {
        Workers(self.data)
    }
}

} // verus!
