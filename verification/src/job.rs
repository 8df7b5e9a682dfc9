//! Description of an external process to run (program, arguments, working
//! directory, environment, stdin) and the output collected from it.
//! Starting the process is left to the caller.

use vstd::prelude::*;
use vstd::string::*;
use vstd::utf8::*;

verus! {

/// What a job describes, as plain values.
pub struct JobSpec {
    /// The program to run.
    pub cmd: Seq<char>,
    /// Its arguments, in order.
    pub args: Seq<Seq<char>>,
    /// The working directory, when one was set.
    pub cwd: Option<Seq<char>>,
    /// Environment variables set for the process.
    pub env: Map<Seq<char>, Seq<char>>,
    /// Whether the inherited environment is cleared first.
    pub env_clear: bool,
    /// Data written to the process's stdin, when some was given.
    pub stdin: Option<Seq<char>>,
}

/// A list of name/value pairs as plain values.
pub open spec fn pair_views(v: Seq<(String, String)>) -> Seq<(Seq<char>, Seq<char>)> {
    v.map_values(|p: (String, String)| (p.0@, p.1@))
}

/// No name occurs twice in `ps`.
pub open spec fn keys_distinct(ps: Seq<(Seq<char>, Seq<char>)>) -> bool {
    forall|i: int, j: int| 0 <= i < ps.len() && 0 <= j < ps.len() && i != j ==> #[trigger] ps[i].0
        != #[trigger] ps[j].0
}

/// Whether `k` is the name of some pair of `ps`.
pub open spec fn has_key(ps: Seq<(Seq<char>, Seq<char>)>, k: Seq<char>) -> bool {
    exists|i: int| 0 <= i < ps.len() && #[trigger] ps[i].0 == k
}

/// The map from each name in `ps` to its value.
pub open spec fn pairs_map(ps: Seq<(Seq<char>, Seq<char>)>) -> Map<Seq<char>, Seq<char>> {
    Map::new(
        |k: Seq<char>| has_key(ps, k),
        |k: Seq<char>| ps[choose|i: int| 0 <= i < ps.len() && #[trigger] ps[i].0 == k].1,
    )
}

/// In a list without repeated names, the value of the pair at `i` is what the map holds
/// for its name.
proof fn lemma_pairs_map_at(ps: Seq<(Seq<char>, Seq<char>)>, i: int)
    requires
        keys_distinct(ps),
        0 <= i < ps.len(),
    ensures
        pairs_map(ps).dom().contains(ps[i].0),
        pairs_map(ps)[ps[i].0] == ps[i].1,
{
    let k = ps[i].0;
    assert(has_key(ps, k));
    let j = choose|j: int| 0 <= j < ps.len() && #[trigger] ps[j].0 == k;
    assert(j == i);
}

/// Replacing the value of an existing name updates the map at that name only.
proof fn lemma_pairs_map_update(ps: Seq<(Seq<char>, Seq<char>)>, i: int, v: Seq<char>)
    requires
        keys_distinct(ps),
        0 <= i < ps.len(),
    ensures
        keys_distinct(ps.update(i, (ps[i].0, v))),
        pairs_map(ps.update(i, (ps[i].0, v))) == pairs_map(ps).insert(ps[i].0, v),
{
    let k = ps[i].0;
    let qs = ps.update(i, (k, v));
    assert forall|a: int, b: int| 0 <= a < qs.len() && 0 <= b < qs.len() && a != b implies #[trigger] qs[a].0
        != #[trigger] qs[b].0 by {
        assert(qs[a].0 == ps[a].0);
        assert(qs[b].0 == ps[b].0);
    }
    assert forall|key: Seq<char>| has_key(qs, key) <==> (has_key(ps, key) || key == k) by {
        if has_key(ps, key) {
            let j = choose|j: int| 0 <= j < ps.len() && #[trigger] ps[j].0 == key;
            assert(qs[j].0 == key);
        }
        if has_key(qs, key) {
            let j = choose|j: int| 0 <= j < qs.len() && #[trigger] qs[j].0 == key;
            assert(ps[j].0 == key);
        }
        if key == k {
            assert(qs[i].0 == key);
        }
    }
    assert forall|key: Seq<char>| #[trigger] pairs_map(qs).dom().contains(key) implies pairs_map(
        qs,
    )[key] == pairs_map(ps).insert(k, v)[key] by {
        let j = choose|j: int| 0 <= j < qs.len() && #[trigger] qs[j].0 == key;
        lemma_pairs_map_at(qs, j);
        if j != i {
            assert(ps[j] == qs[j]);
            lemma_pairs_map_at(ps, j);
        }
    }
    assert(pairs_map(qs) =~= pairs_map(ps).insert(k, v));
}

/// Adding a pair with a new name extends the map with it.
proof fn lemma_pairs_map_push(ps: Seq<(Seq<char>, Seq<char>)>, k: Seq<char>, v: Seq<char>)
    requires
        keys_distinct(ps),
        !has_key(ps, k),
    ensures
        keys_distinct(ps.push((k, v))),
        pairs_map(ps.push((k, v))) == pairs_map(ps).insert(k, v),
{
    let qs = ps.push((k, v));
    let n = ps.len() as int;
    assert forall|a: int, b: int| 0 <= a < qs.len() && 0 <= b < qs.len() && a != b implies #[trigger] qs[a].0
        != #[trigger] qs[b].0 by {
        if a < n && b < n {
            assert(qs[a] == ps[a] && qs[b] == ps[b]);
        } else if a < n {
            assert(qs[a] == ps[a]);
            if qs[a].0 == k {
                assert(has_key(ps, k));
            }
        } else if b < n {
            assert(qs[b] == ps[b]);
            if qs[b].0 == k {
                assert(has_key(ps, k));
            }
        }
    }
    assert forall|key: Seq<char>| has_key(qs, key) <==> (has_key(ps, key) || key == k) by {
        if has_key(ps, key) {
            let j = choose|j: int| 0 <= j < ps.len() && #[trigger] ps[j].0 == key;
            assert(qs[j].0 == key);
        }
        if has_key(qs, key) {
            let j = choose|j: int| 0 <= j < qs.len() && #[trigger] qs[j].0 == key;
            if j < n {
                assert(ps[j].0 == key);
            }
        }
        if key == k {
            assert(qs[n].0 == key);
        }
    }
    assert forall|key: Seq<char>| #[trigger] pairs_map(qs).dom().contains(key) implies pairs_map(
        qs,
    )[key] == pairs_map(ps).insert(k, v)[key] by {
        let j = choose|j: int| 0 <= j < qs.len() && #[trigger] qs[j].0 == key;
        lemma_pairs_map_at(qs, j);
        if j != n {
            assert(ps[j] == qs[j]);
            lemma_pairs_map_at(ps, j);
        }
    }
    assert(pairs_map(qs) =~= pairs_map(ps).insert(k, v));
}

/// The position of the pair named `name` in `env`, if there is one.
fn find_name(env: &Vec<(String, String)>, name: &String) -> (r: Option<usize>)
    ensures
        r is None ==> !has_key(pair_views(env@), name@),
        r matches Some(i) ==> i < env@.len() && env@[i as int].0@ == name@,
{
    let ghost ps = pair_views(env@);
    let mut i: usize = 0;
    while i < env.len()
        invariant
            i <= env@.len(),
            ps == pair_views(env@),
            forall|j: int| 0 <= j < i ==> #[trigger] ps[j].0 != name@,
        decreases env@.len() - i,
    {
        if env[i].0.eq(name) {
            return Some(i);
        }
        i = i + 1;
    }
    None
}

/// Builder for configuring an external process.
#[derive(Debug)]
pub struct Job {
    cmd: String,
    args: Vec<String>,
    cwd: Option<String>,
    env: Vec<(String, String)>,
    env_clear: bool,
    stdin_data: Option<String>,
}

/// The text of an optional string.
pub open spec fn opt_view(o: Option<String>) -> Option<Seq<char>> {
    match o {
        Some(s) => Some(s@),
        None => None,
    }
}

impl View for Job {
    type V = JobSpec;

    closed spec fn view(&self) -> JobSpec {
        JobSpec {
            cmd: self.cmd@,
            args: self.args@.map_values(|a: String| a@),
            cwd: opt_view(self.cwd),
            env: pairs_map(pair_views(self.env@)),
            env_clear: self.env_clear,
            stdin: opt_view(self.stdin_data),
        }
    }
}

impl Job {
    #[verifier::type_invariant]
    spec fn env_names_distinct(self) -> bool {
        keys_distinct(pair_views(self.env@))
    }

    /// Create a new job that will run `cmd` with the given `args`.
    pub fn new(cmd: &str, args: &[&str]) -> (j: Job)
        ensures
            j@.cmd == cmd@,
            j@.args == args@.map_values(|a: &str| a@),
            j@.cwd is None,
            j@.env == Map::<Seq<char>, Seq<char>>::empty(),
            !j@.env_clear,
            j@.stdin is None,
    {
        let mut owned: Vec<String> = Vec::new();
        let mut i: usize = 0;
        while i < args.len()
            invariant
                i <= args@.len(),
                owned@.len() == i,
                owned@.map_values(|a: String| a@) == args@.take(i as int).map_values(|a: &str| a@),
            decreases args@.len() - i,
        {
            let a: &str = args[i];
            let o = String::from_str(a);
            proof {
                assert(o@ == args@[i as int]@);
            }
            let ghost prev = owned@;
            owned.push(o);
            i = i + 1;
            assert forall|j: int| 0 <= j < i implies owned@[j]@ == args@[j]@ by {
                if j < i - 1 {
                    assert(prev.map_values(|a: String| a@)[j] == args@.take(i - 1).map_values(
                        |a: &str| a@,
                    )[j]);
                }
            }
            assert(owned@.map_values(|a: String| a@) =~= args@.take(i as int).map_values(
                |a: &str| a@,
            ));
        }
        assert(args@.take(args@.len() as int) =~= args@);
        let env: Vec<(String, String)> = Vec::new();
        let j = Job { cmd: cmd.to_owned(), args: owned, cwd: None, env, env_clear: false, stdin_data: None };
        assert(pairs_map(pair_views(j.env@)) =~= Map::<Seq<char>, Seq<char>>::empty());
        j
    }
}


impl Job {
    /// Set the working directory for the process.
    pub fn cwd(self, dir: &str) -> (j: Job)
        ensures
            j@ == (JobSpec { cwd: Some(dir@), ..self@ }),
    {
        proof {
            use_type_invariant(&self);
        }
        Job { cwd: Some(String::from_str(dir)), ..self }
    }

    /// Clear all inherited environment variables before applying those set via
    /// [`Job::env`].
    pub fn env_clear(self) -> (j: Job)
        ensures
            j@ == (JobSpec { env_clear: true, ..self@ }),
    {
        proof {
            use_type_invariant(&self);
        }
        Job { env_clear: true, ..self }
    }

    /// Provide data to write to the process's stdin.
    pub fn stdin(self, data: &str) -> (j: Job)
        ensures
            j@ == (JobSpec { stdin: Some(data@), ..self@ }),
    {
        proof {
            use_type_invariant(&self);
        }
        Job { stdin_data: Some(String::from_str(data)), ..self }
    }

    /// Set the environment variable `key` to `value` for the process, replacing an
    /// earlier value for the same name.
    pub fn env(self, key: &str, value: &str) -> (j: Job)
        ensures
            j@ == (JobSpec { env: self@.env.insert(key@, value@), ..self@ }),
    {
        proof {
            use_type_invariant(&self);
        }
        let Job { cmd, args, cwd, env, env_clear, stdin_data } = self;
        let mut env = env;
        let k = String::from_str(key);
        let v = String::from_str(value);
        let ghost ps = pair_views(env@);
        match find_name(&env, &k) {
            Some(i) => {
                proof {
                    lemma_pairs_map_update(ps, i as int, value@);
                }
                env.set(i, (k, v));
                proof {
                    assert(pair_views(env@) =~= ps.update(i as int, (ps[i as int].0, value@)));
                }
            },
            None => {
                proof {
                    lemma_pairs_map_push(ps, key@, value@);
                }
                env.push((k, v));
                proof {
                    assert(pair_views(env@) =~= ps.push((key@, value@)));
                }
            },
        }
        Job { cmd, args, cwd, env, env_clear, stdin_data }
    }
}


/// A copy of each string in `v`.
fn copy_strings(v: &Vec<String>) -> (r: Vec<String>)
    ensures
        r@.map_values(|a: String| a@) == v@.map_values(|a: String| a@),
{
    let mut r: Vec<String> = Vec::new();
    let mut i: usize = 0;
    while i < v.len()
        invariant
            i <= v@.len(),
            r@.len() == i,
            forall|j: int| 0 <= j < i ==> #[trigger] r@[j]@ == v@[j]@,
        decreases v@.len() - i,
    {
        r.push(v[i].clone());
        i = i + 1;
    }
    assert(r@.map_values(|a: String| a@) =~= v@.map_values(|a: String| a@));
    r
}

/// A copy of each pair in `v`.
fn copy_pairs(v: &Vec<(String, String)>) -> (r: Vec<(String, String)>)
    ensures
        pair_views(r@) == pair_views(v@),
{
    let mut r: Vec<(String, String)> = Vec::new();
    let mut i: usize = 0;
    while i < v.len()
        invariant
            i <= v@.len(),
            r@.len() == i,
            forall|j: int| 0 <= j < i ==> #[trigger] r@[j].0@ == v@[j].0@ && r@[j].1@ == v@[j].1@,
        decreases v@.len() - i,
    {
        r.push((v[i].0.clone(), v[i].1.clone()));
        i = i + 1;
    }
    assert(pair_views(r@) =~= pair_views(v@));
    r
}

/// A copy of an optional string.
fn copy_opt(o: &Option<String>) -> (r: Option<String>)
    ensures
        opt_view(r) == opt_view(*o),
{
    match o {
        Some(s) => Some(s.clone()),
        None => None,
    }
}

impl Clone for Job {
    fn clone(&self) -> (j: Self)
        ensures
            j@ == self@,
    {
        proof {
            use_type_invariant(self);
        }
        Job {
            cmd: self.cmd.clone(),
            args: copy_strings(&self.args),
            cwd: copy_opt(&self.cwd),
            env: copy_pairs(&self.env),
            env_clear: self.env_clear,
            stdin_data: copy_opt(&self.stdin_data),
        }
    }
}

/// The text of an optional string, borrowed.
fn opt_str(o: &Option<String>) -> (r: Option<&str>)
    ensures
        match r {
            Some(s) => opt_view(*o) == Some(s@),
            None => opt_view(*o) is None,
        },
{
    match o {
        Some(s) => Some(s.as_str()),
        None => None,
    }
}

impl Job {
    /// The program to run.
    pub fn program(&self) -> (r: &str)
        ensures
            r@ == self@.cmd,
    {
        self.cmd.as_str()
    }

    /// The arguments, in order.
    pub fn arguments(&self) -> (r: &[String])
        ensures
            r@.map_values(|a: String| a@) == self@.args,
    {
        self.args.as_slice()
    }

    /// The working directory, when one was set.
    pub fn working_dir(&self) -> (r: Option<&str>)
        ensures
            match r {
                Some(s) => self@.cwd == Some(s@),
                None => self@.cwd is None,
            },
    {
        opt_str(&self.cwd)
    }

    /// The environment variables to set, each name once.
    pub fn env_vars(&self) -> (r: &[(String, String)])
        ensures
            keys_distinct(pair_views(r@)),
            pairs_map(pair_views(r@)) == self@.env,
    {
        proof {
            use_type_invariant(self);
        }
        self.env.as_slice()
    }

    /// Whether the inherited environment is cleared first.
    pub fn clears_env(&self) -> (b: bool)
        ensures
            b == self@.env_clear,
    {
        self.env_clear
    }

    /// The data for the process's stdin, when some was given.
    pub fn stdin_data(&self) -> (r: Option<&str>)
        ensures
            match r {
                Some(s) => self@.stdin == Some(s@),
                None => self@.stdin is None,
            },
    {
        opt_str(&self.stdin_data)
    }
}

/// The text that `String::from_utf8_lossy` makes of `bytes`: their UTF-8 decoding, with
/// each invalid sequence replaced by U+FFFD.
pub uninterp spec fn utf8_lossy(bytes: Seq<u8>) -> Seq<char>;

/// Decode `bytes` through `String::from_utf8_lossy`. Its documentation promises the
/// decoding itself for valid UTF-8; for other input the result is only named.
#[verifier::external_body]
fn decode_lossy(bytes: &[u8]) -> (s: String)
    ensures
        s@ == utf8_lossy(bytes@),
        valid_utf8(bytes@) ==> s@ == decode_utf8(bytes@),
{
    String::from_utf8_lossy(bytes).into_owned()
}

/// Collected output from a completed process.
#[derive(Debug, Clone, PartialEq, Eq)]
pub struct JobOutput {
    /// `true` when the process exited with status 0.
    pub success: bool,
    /// The exit code, or `None` if the process was killed by a signal.
    pub exit_code: Option<i32>,
    /// Everything written to stdout, decoded as lossy UTF-8.
    pub stdout: String,
    /// Everything written to stderr, decoded as lossy UTF-8.
    pub stderr: String,
}

impl JobOutput {
    /// The output of a process that ended with `exit_code` (`None` when a signal ended
    /// it) after writing `stdout` and `stderr`: it succeeded exactly when it exited
    /// with code 0, and both streams are decoded as lossy UTF-8.
    pub fn from_exit(exit_code: Option<i32>, stdout: &[u8], stderr: &[u8]) -> (o: JobOutput)
        ensures
            o.success == (exit_code == Some(0i32)),
            o.exit_code == exit_code,
            o.stdout@ == utf8_lossy(stdout@),
            o.stderr@ == utf8_lossy(stderr@),
            valid_utf8(stdout@) ==> o.stdout@ == decode_utf8(stdout@),
            valid_utf8(stderr@) ==> o.stderr@ == decode_utf8(stderr@),
    {
        let success = match exit_code {
            Some(c) => c == 0,
            None => false,
        };
        JobOutput {
            success,
            exit_code,
            stdout: decode_lossy(stdout),
            stderr: decode_lossy(stderr),
        }
    }
}

} // verus!
