//! The plan of a benchmark run and the decisions taken for each task.
use crate::algorithms::{
    SearchAlgorithm, SearchResult, STATUS_NO_SOLUTION, STATUS_SUCCESS, STATUS_TIMEOUT,
};
use crate::algorithms::astar::{astar_finds, AStar};
use crate::algorithms::bfs::{bfs_finds, BFS};
use crate::algorithms::dfs::{dfs_finds, DFS};
use crate::algorithms::idastar::{idastar_finds, IDAStar};
use crate::algorithms::iterative_deepening::{deepening_finds, IterativeDeepening};
use crate::benchmarking::metrics::Metrics;
use crate::benchmarking::results::BenchmarkResult;
use crate::benchmarking::shared::SharedMetrics;
use crate::problem::{well_formed, Problem};
use crate::problems::shortest_path::ShortestPath;
use crate::problems::taquin::{HeuristicType, Taquin};
use crate::utils::text::{decimal, push_number};
use vstd::prelude::*;
use vstd::string::StringExecFns;

verus! {

/// What a run is asked to do.
pub struct BenchmarkConfig {
    pub algorithm: String,
    pub problem: String,
    pub size: usize,
    pub iterations: usize,
    pub output_file: String,
    pub threads: usize,
    pub timeout_secs: u64,
}

/// A benchmark run: holds the configuration and takes the decisions of the
/// run. Starting threads, waiting for them and writing files is left to the
/// caller.
pub struct BenchmarkRunner {
    config: BenchmarkConfig,
}

/// The problems that can be benchmarked.
#[derive(Debug, Clone, Copy, PartialEq, Eq, Structural)]
pub enum ProblemKind {
    /// The sliding-tile puzzle, scrambled.
    Taquin,
    /// The shortest path through a square grid.
    Grid,
    /// The shortest path through a graph drawn at random.
    RandomGraph,
}

/// How a task ended, as its caller saw it.
pub enum TaskOutcome {
    /// The search returned this result in time.
    Finished(SearchResult),
    /// The time ran out; these are the metrics the search had reached.
    TimedOut(Metrics),
    /// The search ended without handing over a result.
    Lost,
}

/// What a run does for its problem: the algorithms to run and the depth
/// bound they are given.
pub struct Plan {
    pub kind: ProblemKind,
    pub algorithm_names: Vec<&'static str>,
    pub max_depth: usize,
}

/// The names of the algorithms that `algorithm` selects, or `None` where it
/// selects none. On the puzzle, A* and IDA* run under the name of their
/// estimate.
pub open spec fn selected_names(algorithm: Seq<char>, for_taquin: bool) -> Option<Seq<Seq<char>>> {
    let astar = if for_taquin {
        "A*-Manhattan"@
    } else {
        "A*"@
    };
    let idastar = if for_taquin {
        "IDA*-Manhattan"@
    } else {
        "IDA*"@
    };
    if algorithm == "all"@ {
        Some(seq!["BFS"@, "DFS"@, "ID"@, astar, idastar])
    } else if algorithm == "bfs"@ {
        Some(seq!["BFS"@])
    } else if algorithm == "dfs"@ {
        Some(seq!["DFS"@])
    } else if algorithm == "id"@ {
        Some(seq!["ID"@])
    } else if algorithm == "astar"@ {
        Some(seq![astar])
    } else if algorithm == "idastar"@ {
        Some(seq![idastar])
    } else {
        None
    }
}

/// The problem that `problem` names, or `None` where it names none.
pub open spec fn selected_problem(problem: Seq<char>) -> Option<ProblemKind> {
    if problem == "taquin"@ || problem == "all"@ {
        Some(ProblemKind::Taquin)
    } else if problem == "shortest-path"@ {
        Some(ProblemKind::Grid)
    } else if problem == "shortest-path-random"@ {
        Some(ProblemKind::RandomGraph)
    } else {
        None
    }
}

/// The texts of a list of names.
pub open spec fn texts(names: Seq<&'static str>) -> Seq<Seq<char>> {
    names.map_values(|name: &'static str| name@)
}

/// The label under which the instances of a problem of `size` are reported.
pub open spec fn label_text(kind: ProblemKind, size: usize) -> Seq<char> {
    match kind {
        ProblemKind::Taquin => "Taquin-"@ + decimal(size as nat) + "x"@ + decimal(size as nat),
        ProblemKind::Grid => "ShortestPath-"@ + decimal(size as nat) + "x"@ + decimal(
            size as nat,
        ),
        ProblemKind::RandomGraph => "ShortestPath-Random-"@ + decimal(size as nat),
    }
}

/// Whether `pattern` occurs in `text`.
pub open spec fn occurs_in(pattern: Seq<char>, text: Seq<char>) -> bool {
    exists|i: int|
        0 <= i <= text.len() - pattern.len() && #[trigger] text.subrange(i, i + pattern.len())
            == pattern
}

/// `str::contains` with a string as the pattern: whether the pattern
/// matches some part of the text.
#[verifier::external_body]
fn mentions(text: &str, pattern: &str) -> (r: bool)
    ensures
        r == occurs_in(pattern@, text@),
{
    text.contains(pattern)
}

/// `chrono::Local::now`, written out by `DateTime::to_rfc3339`: the local
/// date and time of the call. Nothing is claimed of the text.
#[verifier::external_body]
fn local_time() -> String {
    chrono::Local::now().to_rfc3339()
}

/// Whether `text` reads `word`.
fn reads(text: &String, word: &str) -> (r: bool)
    ensures
        r == (text@ == word@),
{
    let other = String::from_str(word);
    *text == other
}

/// The message for an algorithm that is not known.
pub open spec fn unknown_algorithm(name: Seq<char>) -> Seq<char> {
    "Algorithme inconnu: "@ + name
}

/// The message for a problem that is not known.
pub open spec fn unknown_problem(name: Seq<char>) -> Seq<char> {
    "Problème inconnu: "@ + name
}

/// The message for a search that ran out of time.
pub open spec fn timeout_message(secs: u64) -> Seq<char> {
    "Timeout après "@ + decimal(secs as nat) + " secondes"@
}

/// What a task is reported as: a success without a message; otherwise a
/// timeout where the message speaks of one, and else no solution, with the
/// message given or, for want of one, that no solution was found.
pub open spec fn reported(status: u8, message: Option<Seq<char>>) -> (u8, Option<Seq<char>>) {
    if status == STATUS_SUCCESS {
        (STATUS_SUCCESS, None)
    } else if message matches Some(text) && occurs_in("Timeout"@, text) {
        (STATUS_TIMEOUT, message)
    } else {
        (
            STATUS_NO_SOLUTION,
            match message {
                Some(text) => Some(text),
                None => Some("Pas de solution trouvée"@),
            },
        )
    }
}

/// The text of an optional string.
pub open spec fn text_of(message: Option<String>) -> Option<Seq<char>> {
    match message {
        Some(text) => Some(text@),
        None => None,
    }
}

/// The algorithm of this name is given twice the depth bound as its limit.
pub open spec fn doubles_bound(name: Seq<char>) -> bool {
    name == "IDA*-Manhattan"@ || name == "IDA*"@
}

/// What the result `r` of running the algorithm named `name` on `p` with
/// the depth bound `max_depth` is known to be: what the algorithm of that
/// name finds, or, for a name that is not known, no solution and zero
/// metrics.
pub open spec fn kept_promise<P: Problem>(
    name: Seq<char>,
    p: &P,
    max_depth: usize,
    r: SearchResult,
) -> bool {
    if name == "BFS"@ {
        bfs_finds(p, r)
    } else if name == "DFS"@ {
        dfs_finds(p, Some(max_depth), r)
    } else if name == "ID"@ {
        deepening_finds(p, max_depth, r)
    } else if name == "A*-Manhattan"@ || name == "A*"@ {
        astar_finds(p, r)
    } else if name == "IDA*-Manhattan"@ || name == "IDA*"@ {
        idastar_finds(p, (max_depth * 2) as usize, r)
    } else {
        r.solution is None && r.status == STATUS_NO_SOLUTION && r.metrics == Metrics::zero()
    }
}

impl ProblemKind {
    /// The label under which the instances of this problem of `size` are
    /// reported.
    pub fn label(&self, size: usize) -> (r: String)
        ensures
            r@ == label_text(*self, size),
    {
        match self {
            ProblemKind::Taquin => {
                let mut out = String::from_str("Taquin-");
                push_number(&mut out, size as u128, 0);
                out.append("x");
                push_number(&mut out, size as u128, 0);
                out
            },
            ProblemKind::Grid => {
                let mut out = String::from_str("ShortestPath-");
                push_number(&mut out, size as u128, 0);
                out.append("x");
                push_number(&mut out, size as u128, 0);
                out
            },
            ProblemKind::RandomGraph => {
                let mut out = String::from_str("ShortestPath-Random-");
                push_number(&mut out, size as u128, 0);
                out
            },
        }
    }
}

impl BenchmarkRunner {
    /// The configuration of the run.
    pub closed spec fn configured(&self) -> BenchmarkConfig {
        self.config
    }

    /// A run with this configuration.
    pub fn new(config: BenchmarkConfig) -> (r: Self)
        ensures
            r.configured() == config,
    {
        BenchmarkRunner { config }
    }

    /// The configuration of the run.
    pub fn config(&self) -> (r: &BenchmarkConfig)
        ensures
            *r == self.configured(),
    {
        &self.config
    }

    /// The names of the algorithms to run, or a message where the
    /// configuration names none that is known.
    pub fn get_algorithm_names(&self, for_taquin: bool) -> (r: Result<Vec<&'static str>, String>)
        ensures
            match r {
                Ok(names) => selected_names(self.configured().algorithm@, for_taquin) == Some(
                    texts(names@),
                ),
                Err(message) => selected_names(self.configured().algorithm@, for_taquin) is None
                    && message@ == unknown_algorithm(self.configured().algorithm@),
            },
    {
        let astar: &'static str = if for_taquin {
            "A*-Manhattan"
        } else {
            "A*"
        };
        let idastar: &'static str = if for_taquin {
            "IDA*-Manhattan"
        } else {
            "IDA*"
        };
        let mut names: Vec<&'static str> = Vec::new();
        if reads(&self.config.algorithm, "all") {
            names.push("BFS");
            names.push("DFS");
            names.push("ID");
            names.push(astar);
            names.push(idastar);
            assert(texts(names@) =~= seq!["BFS"@, "DFS"@, "ID"@, astar@, idastar@]);
        } else if reads(&self.config.algorithm, "bfs") {
            names.push("BFS");
            assert(texts(names@) =~= seq!["BFS"@]);
        } else if reads(&self.config.algorithm, "dfs") {
            names.push("DFS");
            assert(texts(names@) =~= seq!["DFS"@]);
        } else if reads(&self.config.algorithm, "id") {
            names.push("ID");
            assert(texts(names@) =~= seq!["ID"@]);
        } else if reads(&self.config.algorithm, "astar") {
            names.push(astar);
            assert(texts(names@) =~= seq![astar@]);
        } else if reads(&self.config.algorithm, "idastar") {
            names.push(idastar);
            assert(texts(names@) =~= seq![idastar@]);
        } else {
            let mut message = String::from_str("Algorithme inconnu: ");
            message.append(self.config.algorithm.as_str());
            return Err(message);
        }
        Ok(names)
    }

    /// The problem to run, or a message where the configuration names none
    /// that is known.
    pub fn selected(&self) -> (r: Result<ProblemKind, String>)
        ensures
            match r {
                Ok(kind) => selected_problem(self.configured().problem@) == Some(kind),
                Err(message) => selected_problem(self.configured().problem@) is None && message@
                    == unknown_problem(self.configured().problem@),
            },
    {
        if reads(&self.config.problem, "taquin") || reads(&self.config.problem, "all") {
            Ok(ProblemKind::Taquin)
        } else if reads(&self.config.problem, "shortest-path") {
            Ok(ProblemKind::Grid)
        } else if reads(&self.config.problem, "shortest-path-random") {
            Ok(ProblemKind::RandomGraph)
        } else {
            let mut message = String::from_str("Problème inconnu: ");
            message.append(self.config.problem.as_str());
            Err(message)
        }
    }

    /// Whether searches are run by a worker that the caller waits for: they
    /// are when a timeout is set.
    pub fn uses_worker(&self) -> (r: bool)
        ensures
            r == (self.configured().timeout_secs > 0),
    {
        self.config.timeout_secs > 0
    }

    /// Runs the algorithm named `algo_name` on `problem`. DFS and iterative
    /// deepening are bound by `max_depth`, IDA* by twice as much. A name
    /// that is not known gives no solution and zero metrics.
    pub fn execute_algorithm<P: Problem>(algo_name: &str, problem: &P, max_depth: usize) -> (r:
        SearchResult)
        requires
            well_formed(problem),
            doubles_bound(algo_name@) ==> max_depth * 2 <= usize::MAX,
        ensures
            r.answers(problem),
            kept_promise(algo_name@, problem, max_depth, r),
    {
        let name = String::from_str(algo_name);
        if reads(&name, "BFS") {
            BFS.search(problem)
        } else if reads(&name, "DFS") {
            DFS::with_max_depth(max_depth).search(problem)
        } else if reads(&name, "ID") {
            IterativeDeepening::new(max_depth).search(problem)
        } else if reads(&name, "A*-Manhattan") || reads(&name, "A*") {
            AStar.search(problem)
        } else if reads(&name, "IDA*-Manhattan") || reads(&name, "IDA*") {
            IDAStar::new(max_depth * 2).search(problem)
        } else {
            SearchResult { solution: None, metrics: Metrics::default(), status: STATUS_NO_SOLUTION }
        }
    }

    /// Runs the algorithm named `algo_name` on `problem`, reporting to
    /// `shared` as the search goes.
    pub fn execute_algorithm_with_shared<P: Problem>(
        algo_name: &str,
        problem: &P,
        shared: SharedMetrics,
        max_depth: usize,
    ) -> (r: SearchResult)
        requires
            well_formed(problem),
            doubles_bound(algo_name@) ==> max_depth * 2 <= usize::MAX,
        ensures
            r.answers(problem),
            kept_promise(algo_name@, problem, max_depth, r),
    {
        let name = String::from_str(algo_name);
        if reads(&name, "BFS") {
            BFS.search_with_shared_metrics(problem, shared)
        } else if reads(&name, "DFS") {
            DFS::with_max_depth(max_depth).search_with_shared_metrics(problem, shared)
        } else if reads(&name, "ID") {
            IterativeDeepening::new(max_depth).search_with_shared_metrics(problem, shared)
        } else if reads(&name, "A*-Manhattan") || reads(&name, "A*") {
            AStar.search_with_shared_metrics(problem, shared)
        } else if reads(&name, "IDA*-Manhattan") || reads(&name, "IDA*") {
            IDAStar::new(max_depth * 2).search_with_shared_metrics(problem, shared)
        } else {
            SearchResult { solution: None, metrics: Metrics::default(), status: STATUS_NO_SOLUTION }
        }
    }

    /// Runs the algorithm named `algo_name` on `problem` in place, as a run
    /// without a timeout does: the result is the search's own, without a
    /// message, and never has the status of a timeout.
    pub fn execute_in_place<P: Problem>(&self, algo_name: &str, problem: &P, max_depth: usize) -> (r: (
        SearchResult,
        Option<String>,
    ))
        requires
            well_formed(problem),
            doubles_bound(algo_name@) ==> max_depth * 2 <= usize::MAX,
        ensures
            r.0.answers(problem),
            kept_promise(algo_name@, problem, max_depth, r.0),
            r.0.status != STATUS_TIMEOUT,
            r.1 is None,
    {
        let result = BenchmarkRunner::execute_algorithm(algo_name, problem, max_depth);
        self.settle(TaskOutcome::Finished(result))
    }

    /// What a task counts as, given how it ended: a result delivered in
    /// time counts as it is; a timeout gives the metrics reached so far
    /// under the status of a timeout, with a message; a lost result gives
    /// zero metrics and a message.
    pub fn settle(&self, outcome: TaskOutcome) -> (r: (SearchResult, Option<String>))
        ensures
            match outcome {
                TaskOutcome::Finished(result) => r.0 == result && r.1 is None,
                TaskOutcome::TimedOut(partial) => {
                    &&& r.0.solution is None
                    &&& r.0.metrics == partial
                    &&& r.0.status == STATUS_TIMEOUT
                    &&& text_of(r.1) == Some(timeout_message(self.configured().timeout_secs))
                },
                TaskOutcome::Lost => {
                    &&& r.0.solution is None
                    &&& r.0.metrics == Metrics::zero()
                    &&& r.0.status == STATUS_NO_SOLUTION
                    &&& text_of(r.1) == Some("Erreur de communication"@)
                },
            },
    {
        match outcome {
            TaskOutcome::Finished(result) => (result, None),
            TaskOutcome::TimedOut(partial) => {
                let mut message = String::from_str("Timeout après ");
                push_number(&mut message, self.config.timeout_secs as u128, 0);
                message.append(" secondes");
                (
                    SearchResult { solution: None, metrics: partial, status: STATUS_TIMEOUT },
                    Some(message),
                )
            },
            TaskOutcome::Lost => (
                SearchResult {
                    solution: None,
                    metrics: Metrics::default(),
                    status: STATUS_NO_SOLUTION,
                },
                Some(String::from_str("Erreur de communication")),
            ),
        }
    }

    /// The status and the message under which a task is reported.
    pub fn final_status(status: u8, message: Option<String>) -> (r: (u8, Option<String>))
        ensures
            (r.0, text_of(r.1)) == reported(status, text_of(message)),
    {
        if status == STATUS_SUCCESS {
            return (STATUS_SUCCESS, None);
        }
        let timed_out = match &message {
            Some(text) => mentions(text.as_str(), "Timeout"),
            None => false,
        };
        if timed_out {
            (STATUS_TIMEOUT, message)
        } else {
            match message {
                Some(text) => (STATUS_NO_SOLUTION, Some(text)),
                None => (STATUS_NO_SOLUTION, Some(String::from_str("Pas de solution trouvée"))),
            }
        }
    }

    /// The record of a task, with the time given.
    pub fn record_at(
        &self,
        kind: ProblemKind,
        algo_name: &str,
        instance_id: usize,
        result: SearchResult,
        message: Option<String>,
        initial_state: String,
        timestamp: String,
    ) -> (r: BenchmarkResult)
        ensures
            r.algorithm@ == algo_name@,
            r.problem@ == label_text(kind, self.configured().size),
            r.problem_size == self.configured().size,
            r.instance_id == instance_id,
            (r.status, text_of(r.error)) == reported(result.status, text_of(message)),
            r.metrics == result.metrics,
            r.timestamp == timestamp,
            r.initial_state == Some(initial_state),
    {
        let (status, error) = Self::final_status(result.status, message);
        BenchmarkResult {
            algorithm: String::from_str(algo_name),
            problem: kind.label(self.config.size),
            problem_size: self.config.size,
            instance_id,
            status,
            metrics: result.metrics,
            timestamp,
            initial_state: Some(initial_state),
            error,
        }
    }

    /// The record of a task, stamped with the local time of the call.
    pub fn record(
        &self,
        kind: ProblemKind,
        algo_name: &str,
        instance_id: usize,
        result: SearchResult,
        message: Option<String>,
        initial_state: String,
    ) -> (r: BenchmarkResult)
        ensures
            r.algorithm@ == algo_name@,
            r.problem@ == label_text(kind, self.configured().size),
            r.problem_size == self.configured().size,
            r.instance_id == instance_id,
            (r.status, text_of(r.error)) == reported(result.status, text_of(message)),
            r.metrics == result.metrics,
            r.initial_state == Some(initial_state),
    {
        self.record_at(kind, algo_name, instance_id, result, message, initial_state, local_time())
    }

    /// The tasks of a run: for each algorithm in turn, one for each
    /// instance from 0 up to `iterations`.
    pub fn task_list(names: &Vec<&'static str>, iterations: usize) -> (r: Vec<(usize, &'static str)>)
        requires
            names.len() * iterations <= usize::MAX,
        ensures
            r.len() == names.len() * iterations,
            forall|k: int| 0 <= k < r.len() ==> #[trigger] r[k] == task_at(names@, iterations, k),
    {
        let mut tasks: Vec<(usize, &'static str)> = Vec::new();
        if iterations == 0 {
            assert(names.len() * iterations == 0) by (nonlinear_arith)
                requires
                    iterations == 0,
            ;
            return tasks;
        }
        let mut a: usize = 0;
        while a < names.len()
            invariant
                iterations > 0,
                a <= names.len(),
                names.len() * iterations <= usize::MAX,
                tasks.len() == a * iterations,
                forall|k: int|
                    0 <= k < tasks.len() ==> #[trigger] tasks[k] == task_at(names@, iterations, k),
            decreases names.len() - a,
        {
            let mut i: usize = 0;
            proof {
                assert((a + 1) * iterations <= names.len() * iterations) by (nonlinear_arith)
                    requires
                        a < names.len(),
                ;
                assert((a + 1) * iterations == a * iterations + iterations) by (nonlinear_arith);
            }
            while i < iterations
                invariant
                    iterations > 0,
                    a < names.len(),
                    i <= iterations,
                    a * iterations + iterations <= usize::MAX,
                    tasks.len() == a * iterations + i,
                    forall|k: int|
                        0 <= k < tasks.len() ==> #[trigger] tasks[k] == task_at(
                            names@,
                            iterations,
                            k,
                        ),
                decreases iterations - i,
            {
                proof {
                    vstd::arithmetic::div_mod::lemma_fundamental_div_mod_converse(
                        a * iterations + i,
                        iterations as int,
                        a as int,
                        i as int,
                    );
                }
                tasks.push((i, names[a]));
                i = i + 1;
            }
            a = a + 1;
        }
        tasks
    }

    /// What the run does for its problem, or the message for a problem or
    /// an algorithm that is not known; an unknown problem is reported
    /// first.
    ///
    /// Puzzles are searched to the depth of ten moves for each place of the
    /// board, a grid to the depth of its number of cells, but at most 500,
    /// and a random graph to the depth of its number of vertices.
    pub fn plan(&self) -> (r: Result<Plan, String>)
        requires
            selected_problem(self.configured().problem@) matches Some(kind) ==> planned_depth(
                kind,
                self.configured().size,
            ) <= usize::MAX && (kind == ProblemKind::Grid ==> self.configured().size
                * self.configured().size <= usize::MAX),
        ensures
            match r {
                Ok(plan) => {
                    &&& selected_problem(self.configured().problem@) == Some(plan.kind)
                    &&& selected_names(
                        self.configured().algorithm@,
                        plan.kind == ProblemKind::Taquin,
                    ) == Some(texts(plan.algorithm_names@))
                    &&& plan.max_depth == planned_depth(plan.kind, self.configured().size)
                },
                Err(message) => match selected_problem(self.configured().problem@) {
                    None => message@ == unknown_problem(self.configured().problem@),
                    Some(kind) => selected_names(
                        self.configured().algorithm@,
                        kind == ProblemKind::Taquin,
                    ) is None && message@ == unknown_algorithm(self.configured().algorithm@),
                },
            },
    {
        let kind = match self.selected() {
            Ok(kind) => kind,
            Err(message) => {
                return Err(message);
            },
        };
        let algorithm_names = match self.get_algorithm_names(kind == ProblemKind::Taquin) {
            Ok(names) => names,
            Err(message) => {
                return Err(message);
            },
        };
        let size = self.config.size;
        let max_depth = match kind {
            ProblemKind::Taquin => {
                assert(size * size <= size * size * 10) by (nonlinear_arith);
                size * size * 10
            },
            ProblemKind::Grid => {
                let cells = size * size;
                if cells < 500 {
                    cells
                } else {
                    500
                }
            },
            ProblemKind::RandomGraph => size,
        };
        Ok(Plan { kind, algorithm_names, max_depth })
    }

    /// A puzzle instance of the size configured: the solved board with the
    /// Manhattan estimate, scrambled by ten random moves for each of its
    /// places (by none where it has one place only).
    pub fn taquin_instance(&self) -> (r: Taquin)
        requires
            self.configured().size <= 15,
        ensures
            r.valid(),
            r.side() == self.configured().size,
            r.kind() is Manhattan,
            r.scrambled(
                r.target(),
                r.initial(),
                (self.configured().size * self.configured().size * 10) as nat,
            ),
            r.side() >= 2 ==> r.moved(
                r.target(),
                r.initial(),
                (self.configured().size * self.configured().size * 10) as nat,
            ),
    {
        let size = self.config.size;
        assert(size * size <= 225) by (nonlinear_arith)
            requires
                size <= 15,
        ;
        let mut problem = Taquin::new(size, HeuristicType::Manhattan);
        assert(size * size > 0 ==> size >= 1) by (nonlinear_arith);
        problem.generate_random(size * size * 10);
        problem
    }

    /// A grid instance of the size configured.
    pub fn grid_instance(&self) -> (r: ShortestPath)
        requires
            1 <= self.configured().size * self.configured().size <= usize::MAX,
        ensures
            r.is_grid(self.configured().size, self.configured().size),
    {
        ShortestPath::generate_grid(self.config.size, self.config.size)
    }

    /// A random graph instance of the size configured, drawn from `seed`:
    /// as many vertices as the size says, three times as many edges drawn,
    /// from the first vertex to the last.
    pub fn random_graph_instance(&self, seed: u64) -> (r: ShortestPath)
        requires
            1 <= self.configured().size,
            self.configured().size * 3 <= usize::MAX,
        ensures
            r.start_node() == 0,
            r.goal_node() == self.configured().size - 1,
            r.seed_of() == Some(seed),
            r.drawn_within(self.configured().size),
            r.edge_count(self.configured().size as nat) <= self.configured().size * 3,
    {
        let nodes = self.config.size;
        let edges = nodes * 3;
        ShortestPath::generate_random_with_seed(nodes, edges, 0, nodes - 1, Some(seed))
    }
}

/// The task at place `k` of a run of `names` with `iterations` instances
/// each: its instance and its algorithm.
pub open spec fn task_at(names: Seq<&'static str>, iterations: usize, k: int) -> (
    usize,
    &'static str,
) {
    ((k % iterations as int) as usize, names[k / iterations as int])
}

/// The depth bound for a problem of a size.
pub open spec fn planned_depth(kind: ProblemKind, size: usize) -> int {
    match kind {
        ProblemKind::Taquin => size * size * 10,
        ProblemKind::Grid => if size * size < 500 {
            size * size
        } else {
            500
        },
        ProblemKind::RandomGraph => size as int,
    }
}

} // verus!
