use std::collections::BTreeMap;

use filessh::par_dir_traversal::{
    Entry, Message, ParallelVisitor, ParallelVisitorBuilder, Pool, Step, WalkError,
    WalkParallel, WalkState, Woker, Work, MAX_THREADS,
};

/// An in-memory tree: each directory path maps to its children.
struct Tree {
    dirs: BTreeMap<String, Vec<Entry>>,
}

impl Tree {
    fn new() -> Tree {
        Tree { dirs: BTreeMap::new() }
    }

    fn add_dir(&mut self, parent: Option<&str>, path: &str) {
        self.dirs.insert(path.to_string(), Vec::new());
        if let Some(p) = parent {
            self.dirs.get_mut(p).unwrap().push(Entry { path: path.to_string(), is_dir: true });
        }
    }

    fn add_file(&mut self, parent: &str, path: &str) {
        self.dirs
            .get_mut(parent)
            .unwrap()
            .push(Entry { path: path.to_string(), is_dir: false });
    }

    fn list(&self, path: &str) -> Result<Vec<Entry>, WalkError> {
        match self.dirs.get(path) {
            Some(children) => Ok(children.clone()),
            None => Err(WalkError { path: path.to_string(), message: "not found".to_string() }),
        }
    }

    fn open(&self, path: &str) -> Result<Entry, WalkError> {
        if self.dirs.contains_key(path) {
            Ok(Entry { path: path.to_string(), is_dir: true })
        } else {
            Err(WalkError { path: path.to_string(), message: "not found".to_string() })
        }
    }
}

/// Records what it sees; quits when it sees `quit_on`.
struct Recorder {
    seen: Vec<String>,
    errors: Vec<String>,
    quit_on: Option<String>,
}

impl ParallelVisitor for Recorder {
    fn visit(&mut self, entry: Result<Entry, WalkError>) -> WalkState {
        match entry {
            Ok(e) => {
                let quit = self.quit_on.as_deref() == Some(e.path.as_str());
                self.seen.push(e.path);
                if quit {
                    WalkState::Quit
                } else {
                    WalkState::Continue
                }
            }
            Err(err) => {
                self.errors.push(err.path);
                WalkState::Continue
            }
        }
    }
}

struct Recorders {
    built: usize,
    quit_on: Option<String>,
}

impl ParallelVisitorBuilder for Recorders {
    type Visitor = Recorder;

    fn build(&mut self) -> Recorder {
        self.built += 1;
        Recorder { seen: Vec::new(), errors: Vec::new(), quit_on: self.quit_on.clone() }
    }
}

struct Outcome {
    per_worker: Vec<Recorder>,
    listings: usize,
    started: bool,
    built: usize,
}

/// Runs the walk with the workers taking turns, as threads would.
fn walk(tree: &Tree, root: &str, threads: usize, quit_on: Option<&str>) -> Outcome {
    let config = WalkParallel { path: root.to_string(), max_depth: None, min_depth: None, threads };
    walk_with(tree, &config, quit_on, &|_| true)
}

fn walk_with(
    tree: &Tree,
    config: &WalkParallel,
    quit_on: Option<&str>,
    filter: &dyn Fn(&Entry) -> bool,
) -> Outcome {
    let root = config.path.as_str();
    let mut builder = Recorders { built: 0, quit_on: quit_on.map(|s| s.to_string()) };
    let pool = config.start(tree.open(root), Some(8), &mut builder);
    let mut pool = match pool {
        Ok(p) => p,
        Err(w) => {
            return Outcome {
                per_worker: vec![w.into_visitor()],
                listings: 0,
                started: false,
                built: builder.built,
            }
        }
    };
    let n = pool.threads();
    let mut workers: Vec<Woker<Recorder>> = (0..n)
        .map(|i| Woker::new(i, builder.build(), config.min_depth, config.max_depth))
        .collect();
    let mut done = vec![false; n];
    let mut listings = 0;
    let mut rounds = 0;
    while done.iter().any(|d| !d) {
        rounds += 1;
        assert!(rounds < 100_000, "the walk does not end");
        for i in 0..n {
            if done[i] {
                continue;
            }
            match pool.get_work(i) {
                Step::Work(work) => {
                    let keep = filter(&work.entry);
                    let (state, to_list) = workers[i].run_one(work, keep);
                    if let Some((path, depth)) = to_list {
                        listings += 1;
                        let (state, children) = workers[i].generate_work(depth, tree.list(&path));
                        pool.push_children(i, children);
                        pool.answer(&state);
                    }
                    pool.answer(&state);
                }
                Step::Wait => {}
                Step::Quit => done[i] = true,
            }
        }
    }
    let built = builder.built;
    Outcome {
        per_worker: workers.into_iter().map(|w| w.into_visitor()).collect(),
        listings,
        started: true,
        built,
    }
}

fn all_seen(o: &Outcome) -> Vec<String> {
    let mut v: Vec<String> = o.per_worker.iter().flat_map(|r| r.seen.iter().cloned()).collect();
    v.sort();
    v
}

fn wide_tree() -> Tree {
    let mut t = Tree::new();
    t.add_dir(None, "/r");
    t.add_dir(Some("/r"), "/r/big");
    t.add_file("/r", "/r/a");
    t.add_file("/r", "/r/b");
    for k in 0..100 {
        t.add_file("/r/big", &format!("/r/big/f{k}"));
    }
    t
}

#[test]
fn root_with_a_hundred_grandchildren_gives_104_deliveries() {
    let tree = wide_tree();
    let o = walk(&tree, "/r", 4, None);
    assert_eq!(o.per_worker.len(), 4);
    let seen = all_seen(&o);
    assert_eq!(seen.len(), 104);
    let mut expected: Vec<String> = vec!["/r".into(), "/r/a".into(), "/r/b".into(), "/r/big".into()];
    for k in 0..100 {
        expected.push(format!("/r/big/f{k}"));
    }
    expected.sort();
    assert_eq!(seen, expected);
}

#[test]
fn every_entry_is_delivered_once_for_any_worker_count() {
    let tree = wide_tree();
    for threads in 1..=6 {
        let o = walk(&tree, "/r", threads, None);
        let seen = all_seen(&o);
        let mut dedup = seen.clone();
        dedup.dedup();
        assert_eq!(seen.len(), 104);
        assert_eq!(dedup.len(), 104);
        assert_eq!(o.listings, 2);
    }
}

#[test]
fn quit_at_root_delivers_one_entry_and_lists_nothing() {
    let tree = wide_tree();
    let o = walk(&tree, "/r", 4, Some("/r"));
    assert_eq!(all_seen(&o), vec!["/r".to_string()]);
    assert_eq!(o.listings, 0);
}

#[test]
fn missing_root_gives_one_error_and_no_workers() {
    let tree = wide_tree();
    let config = WalkParallel { path: "/nope".into(), max_depth: None, min_depth: None, threads: 4 };
    let mut builder = Recorders { built: 0, quit_on: None };
    let pool = config.start(tree.open("/nope"), Some(8), &mut builder);
    match pool {
        Ok(_) => panic!("a pool for a missing root"),
        Err(w) => {
            let v = w.into_visitor();
            assert!(v.seen.is_empty());
            assert_eq!(v.errors, vec!["/nope".to_string()]);
        }
    }
    assert_eq!(builder.built, 1);
    let o = walk(&tree, "/nope", 4, None);
    assert!(!o.started);
    assert_eq!(o.built, 1);
    assert_eq!(o.per_worker.len(), 1);
    assert_eq!(o.per_worker[0].errors.len(), 1);
}

#[test]
fn listing_failure_goes_to_the_visitor() {
    let mut tree = wide_tree();
    tree.dirs.get_mut("/r").unwrap().push(Entry { path: "/r/gone".into(), is_dir: true });
    let o = walk(&tree, "/r", 2, None);
    let errors: Vec<String> = o.per_worker.iter().flat_map(|r| r.errors.iter().cloned()).collect();
    assert_eq!(errors, vec!["/r/gone".to_string()]);
    assert_eq!(all_seen(&o).len(), 105);
}

#[test]
fn unbalanced_tree_keeps_every_worker_busy() {
    let mut t = Tree::new();
    t.add_dir(None, "/u");
    let mut parent = "/u".to_string();
    for d in 0..30 {
        let child = format!("{parent}/d{d}");
        t.add_dir(Some(&parent), &child);
        parent = child;
    }
    for k in 0..60 {
        t.add_file("/u", &format!("/u/s{k}"));
    }
    let o = walk(&t, "/u", 4, None);
    assert_eq!(all_seen(&o).len(), 1 + 30 + 60);
    for r in &o.per_worker {
        assert!(!r.seen.is_empty());
    }
}

#[test]
fn quit_midway_stops_every_worker() {
    let tree = wide_tree();
    let o = walk(&tree, "/r", 3, Some("/r/big/f3"));
    assert!(all_seen(&o).len() < 104);
}

#[test]
fn worker_count_defaults_to_machine_capped_at_twelve() {
    let mut w = WalkParallel { path: "/".into(), max_depth: None, min_depth: None, threads: 0 };
    assert_eq!(w.threads(Some(64)), MAX_THREADS);
    assert_eq!(w.threads(Some(5)), 5);
    assert_eq!(w.threads(None), 1);
    w.threads = 20;
    assert_eq!(w.threads(Some(2)), 20);
}

fn work(path: &str) -> Message {
    Message::Work(Work::new(Entry { path: path.into(), is_dir: false }, 0))
}

fn take_path(step: Step) -> String {
    match step {
        Step::Work(w) => w.path().clone(),
        other => panic!("unexpected {:?}", other),
    }
}

#[test]
fn initial_roots_come_out_in_order() {
    let mut pool = Pool::new_for_each_thread(1, vec![work("a"), work("b"), work("c")]);
    assert_eq!(take_path(pool.get_work(0)), "a");
    assert_eq!(take_path(pool.get_work(0)), "b");
    assert_eq!(take_path(pool.get_work(0)), "c");
    assert!(matches!(pool.get_work(0), Step::Quit));
}

#[test]
fn roots_are_dealt_round_robin() {
    let mut pool = Pool::new_for_each_thread(2, vec![work("a"), work("b"), work("c")]);
    // reversed: c -> 0, b -> 1, a -> 0
    assert_eq!(take_path(pool.get_work(0)), "a");
    assert_eq!(take_path(pool.get_work(1)), "b");
    assert_eq!(take_path(pool.get_work(0)), "c");
}

#[test]
fn own_queue_is_last_in_first_out() {
    let mut pool = Pool::new_for_each_thread(1, Vec::new());
    pool.push(0, work("x"));
    pool.push(0, work("y"));
    match pool.pop(0) {
        Some(Message::Work(w)) => assert_eq!(w.path(), "y"),
        other => panic!("unexpected {:?}", other),
    }
}

#[test]
fn steal_takes_the_older_half() {
    let mut pool = Pool::new_for_each_thread(3, Vec::new());
    for p in ["w0", "w1", "w2", "w3", "w4"] {
        pool.push(2, work(p));
    }
    // worker 0 looks at 1, then 2; it takes w0..w2 and hands out w0
    assert_eq!(take_path(pool.get_work(0)), "w0");
    assert_eq!(take_path(pool.get_work(0)), "w2");
    assert_eq!(take_path(pool.get_work(0)), "w1");
    assert_eq!(take_path(pool.get_work(2)), "w4");
    assert_eq!(take_path(pool.get_work(2)), "w3");
}

#[test]
fn quit_flag_overrides_queued_work() {
    let mut pool = Pool::new_for_each_thread(2, vec![work("a")]);
    pool.quit_now();
    assert!(pool.is_quit_now());
    assert!(matches!(pool.get_work(0), Step::Quit));
    // the quit message left behind wakes the other worker
    assert!(matches!(pool.get_work(1), Step::Quit));
}

#[test]
fn last_worker_to_go_idle_ends_the_walk() {
    let mut pool = Pool::new_for_each_thread(2, Vec::new());
    assert!(matches!(pool.get_work(0), Step::Wait));
    assert!(matches!(pool.get_work(1), Step::Quit));
    assert!(matches!(pool.get_work(0), Step::Quit));
}

#[test]
fn walk_state_predicates() {
    assert!(WalkState::Continue.is_continue());
    assert!(!WalkState::Continue.is_quit());
    assert!(WalkState::Quit.is_quit());
    let w = Work::new(Entry { path: "/d".into(), is_dir: true }, 2);
    assert_eq!(w.depth, 2);
    assert!(w.is_dir());
    assert_eq!(w.into_entry().path, "/d");
}

#[test]
fn generate_work_keeps_children_in_order() {
    let mut w =
        Woker::new(3, Recorder { seen: Vec::new(), errors: Vec::new(), quit_on: None }, None, None);
    assert_eq!(w.get_index(), 3);
    let kids = vec![
        Entry { path: "/a".into(), is_dir: false },
        Entry { path: "/b".into(), is_dir: true },
    ];
    let (state, out) = w.generate_work(4, Ok(kids.clone()));
    assert_eq!(state, WalkState::Continue);
    let paths: Vec<String> = out.iter().map(|w| w.path().clone()).collect();
    assert_eq!(paths, vec!["/a".to_string(), "/b".to_string()]);
    assert!(out.iter().all(|w| w.depth == 4));
    let mut pool = Pool::new_for_each_thread(1, Vec::new());
    pool.push_children(0, out);
    assert_eq!(take_path(pool.get_work(0)), "/b");
    assert_eq!(take_path(pool.get_work(0)), "/a");
}

#[test]
fn filter_limits_deliveries_but_not_the_walk() {
    let tree = wide_tree();
    let config = WalkParallel { path: "/r".into(), max_depth: None, min_depth: None, threads: 3 };
    let o = walk_with(&tree, &config, None, &|e: &Entry| !e.is_dir);
    let seen = all_seen(&o);
    assert_eq!(seen.len(), 102);
    assert!(!seen.contains(&"/r".to_string()));
    assert!(!seen.contains(&"/r/big".to_string()));
    assert_eq!(o.listings, 2);
}

#[test]
fn max_depth_stops_descent() {
    let tree = wide_tree();
    let config = WalkParallel { path: "/r".into(), max_depth: Some(1), min_depth: None, threads: 2 };
    let o = walk_with(&tree, &config, None, &|_| true);
    assert_eq!(all_seen(&o), vec!["/r", "/r/a", "/r/b", "/r/big"]);
    assert_eq!(o.listings, 1);
    let config = WalkParallel { path: "/r".into(), max_depth: Some(0), min_depth: None, threads: 2 };
    let o = walk_with(&tree, &config, None, &|_| true);
    assert_eq!(all_seen(&o), vec!["/r"]);
    assert_eq!(o.listings, 0);
}

#[test]
fn min_depth_hides_shallow_entries() {
    let tree = wide_tree();
    let config = WalkParallel { path: "/r".into(), max_depth: None, min_depth: Some(2), threads: 2 };
    let o = walk_with(&tree, &config, None, &|_| true);
    let seen = all_seen(&o);
    assert_eq!(seen.len(), 100);
    assert!(seen.iter().all(|p| p.starts_with("/r/big/")));
}

/// Quits on everything it is given.
struct Stop;

impl ParallelVisitor for Stop {
    fn visit(&mut self, _entry: Result<Entry, WalkError>) -> WalkState {
        WalkState::Quit
    }
}

#[test]
fn answer_quit_sets_the_flag() {
    let mut pool = Pool::new_for_each_thread(2, Vec::new());
    pool.answer(&WalkState::Continue);
    assert!(!pool.is_quit_now());
    pool.answer(&WalkState::Quit);
    assert!(pool.is_quit_now());
}

#[test]
fn listing_error_answer_is_returned() {
    let mut w = Woker::new(0, Stop, None, None);
    let err = WalkError { path: "/x".into(), message: "denied".into() };
    let (state, out) = w.generate_work(1, Err(err));
    assert_eq!(state, WalkState::Quit);
    assert!(out.is_empty());
    let (state, to_list) = w.run_one(Work::new(Entry { path: "/d".into(), is_dir: true }, 0), true);
    assert_eq!(state, WalkState::Quit);
    assert!(to_list.is_none());
}
