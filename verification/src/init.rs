//! `gourd init`: the built-in examples and the configuration of a new
//! experimental setup.
use vstd::prelude::*;

use crate::model::Config;
use crate::model::SlurmConfig;

verus! {

/// A template for `gourd init`: a named set of directory contents.
#[derive(Debug, Clone, PartialEq, Eq)]
pub struct InitExample {
    /// The template name.
    pub name: String,
    /// The template description.
    pub description: String,
    /// The file name of the tar-gz archive with the example's directory,
    /// `gourd.toml` included.
    pub directory_tarball: String,
}

/// A template for `gourd init`: a named set of directory contents.
#[derive(Debug, Clone, PartialEq, Eq)]
pub struct InitTemplate {
    /// The template name.
    pub name: String,
    /// The template description.
    pub description: String,
    /// The file name of the tar-gz archive with the template's directory.
    pub directory_tarball: String,
}

/// The built-in examples, by id, ids in increasing order:
/// `(id, name, description, archive)`.
pub open spec fn examples_spec() -> Seq<(Seq<char>, Seq<char>, Seq<char>, Seq<char>)> {
    seq![
        ("fibonacci-comparison"@, "Fibonacci Comparison"@,
            "A simple intro to designing Gourd experiments with programs and inputs."@,
            "fibonacci-comparison.tar.gz"@),
        ("grid-search"@, "Grid Search"@, "An example of exhaustive grid search with parameters"@,
            "grid-search.tar.gz"@),
    ]
}

/// An example as plain values.
pub open spec fn example_view(id: String, e: InitExample) -> (Seq<char>, Seq<char>, Seq<char>, Seq<char>) {
    (id@, e.name@, e.description@, e.directory_tarball@)
}

fn example(id: &str, name: &str, description: &str, tarball: &str) -> (r: (String, InitExample))
    ensures
        example_view(r.0, r.1) == (id@, name@, description@, tarball@),
{
    (
        String::from_str(id),
        InitExample {
            name: String::from_str(name),
            description: String::from_str(description),
            directory_tarball: String::from_str(tarball),
        },
    )
}

/// Retrieves all available examples, by id, ids in increasing order.
pub fn get_examples() -> (r: Vec<(String, InitExample)>)
    ensures
        r@.map_values(|e: (String, InitExample)| example_view(e.0, e.1)) == examples_spec(),
{
    let mut examples: Vec<(String, InitExample)> = Vec::new();
    examples.push(
        example(
            "fibonacci-comparison",
            "Fibonacci Comparison",
            "A simple intro to designing Gourd experiments with programs and inputs.",
            "fibonacci-comparison.tar.gz",
        ),
    );
    examples.push(
        example(
            "grid-search",
            "Grid Search",
            "An example of exhaustive grid search with parameters",
            "grid-search.tar.gz",
        ),
    );
    assert(examples@.map_values(|e: (String, InitExample)| example_view(e.0, e.1)) =~= examples_spec());
    examples
}

/// `c`, with `.`, `_` and space turned into `-`.
pub open spec fn dash(c: char) -> char {
    if c == '.' || c == '_' || c == ' ' {
        '-'
    } else {
        c
    }
}

/// The example id that a user's input stands for: `.`, `_` and spaces become `-`.
pub open spec fn example_id(input: Seq<char>) -> Seq<char> {
    input.map_values(|c: char| dash(c))
}

fn example_id_of(input: &str) -> (r: String)
    ensures
        r@ == example_id(input@),
{
    let n = input.unicode_len();
    let mut r = String::new();
    let mut i: usize = 0;
    while i < n
        invariant
            n == input@.len(),
            i <= n,
            r@ == example_id(input@.take(i as int)),
        decreases n - i,
    {
        let c = input.get_char(i);
        let d = if c == '.' || c == '_' || c == ' ' {
            '-'
        } else {
            c
        };
        crate::text::push_char(&mut r, d);
        assert(example_id(input@.take(i + 1)) =~= example_id(input@.take(i as int)).push(d));
        i = i + 1;
    }
    assert(input@.take(n as int) =~= input@);
    r
}

/// Retrieves the example that `id_input` names, once `.`, `_` and spaces in
/// it are read as `-`; `None` where there is no such example.
pub fn get_example(id_input: &str) -> (r: Option<InitExample>)
    ensures
        match r {
            Some(e) => exists|k: int| 0 <= k < examples_spec().len() && #[trigger] examples_spec()[k].0 == example_id(id_input@)
                && examples_spec()[k] == (example_id(id_input@), e.name@, e.description@, e.directory_tarball@),
            None => forall|k: int| 0 <= k < examples_spec().len() ==> #[trigger] examples_spec()[k].0 != example_id(id_input@),
        },
{
    let id = example_id_of(id_input);
    let examples = get_examples();
    let ghost ev = examples@.map_values(|e: (String, InitExample)| example_view(e.0, e.1));
    let mut i: usize = 0;
    while i < examples.len()
        invariant
            i <= examples.len(),
            ev == examples@.map_values(|e: (String, InitExample)| example_view(e.0, e.1)),
            ev == examples_spec(),
            id@ == example_id(id_input@),
            forall|k: int| 0 <= k < i ==> #[trigger] examples_spec()[k].0 != id@,
        decreases examples.len() - i,
    {
        assert(ev[i as int] == example_view(examples@[i as int].0, examples@[i as int].1));
        if examples[i].0.eq(&id) {
            let e = examples[i].1.clone_example();
            assert(examples_spec()[i as int] == (example_id(id_input@), e.name@, e.description@, e.directory_tarball@));
            assert(examples_spec()[i as int].0 == example_id(id_input@));
            return Some(e);
        }
        i = i + 1;
    }
    None
}

impl InitExample {
    /// A copy of the example.
    pub fn clone_example(&self) -> (r: InitExample)
        ensures
            r.name@ == self.name@,
            r.description@ == self.description@,
            r.directory_tarball@ == self.directory_tarball@,
    {
        InitExample {
            name: self.name.clone(),
            description: self.description.clone(),
            directory_tarball: self.directory_tarball.clone(),
        }
    }
}

/// What the user answered about Slurm when setting up an experiment.
#[derive(Debug, Clone, PartialEq, Eq)]
pub struct SlurmAnswers {
    /// The name for jobs submitted to Slurm.
    pub experiment_name: String,
    /// The account and partition, where the user entered them.
    pub credentials: Option<(String, String)>,
}

/// The Slurm section of a new setup: defaults where nothing was answered.
pub open spec fn init_slurm_ok(s: SlurmConfig, answers: Option<SlurmAnswers>) -> bool {
    &&& s.experiment_name@ == match answers {
        Some(a) => a.experiment_name@,
        None => "my-experiment"@,
    }
    &&& s.partition@ == match answers {
        Some(a) => match a.credentials {
            Some(c) => c.1@,
            None => Seq::empty(),
        },
        None => Seq::empty(),
    }
    &&& crate::model::opt_view(s.account) == match answers {
        Some(a) => match a.credentials {
            Some(c) => Some(c.0@),
            None => None,
        },
        None => None,
    }
    &&& s.array_size_limit is None
    &&& s.max_submit is None
    &&& s.begin is None
    &&& s.mail_type is None
    &&& s.mail_user is None
    &&& s.additional_args is None
}

/// The configuration of a new experimental setup.
///
/// `paths` are the experiments, output and metrics folders the user chose
/// (all `experiments` where none); `slurm` says whether to include Slurm
/// options and, where the user was asked, what they answered (script mode
/// includes them with defaults).
pub fn init_config(paths: Option<(String, String, String)>, slurm: bool, answers: Option<SlurmAnswers>) -> (c: Config)
    ensures
        match paths {
            Some(p) => c.experiments_folder@ == p.0@ && c.output_path@ == p.1@ && c.metrics_path@ == p.2@,
            None => c.experiments_folder@ == "experiments"@ && c.output_path@ == "experiments"@
                && c.metrics_path@ == "experiments"@,
        },
        c.programs.len() == 0,
        c.inputs.len() == 0,
        c.postprocess_programs is None,
        c.resource_limits is None,
        c.wrapper@ == Seq::<char>::empty(),
        !c.warn_on_label_overlap,
        slurm ==> (c.slurm matches Some(s) && init_slurm_ok(s, answers)),
        !slurm ==> c.slurm is None,
{
    let (experiments_folder, output_path, metrics_path) = match paths {
        Some(p) => p,
        None => (String::from_str("experiments"), String::from_str("experiments"), String::from_str("experiments")),
    };
    let slurm_config = if slurm {
        let (experiment_name, partition, account) = match answers {
            Some(a) => match a.credentials {
                Some((acc, part)) => (a.experiment_name, part, Some(acc)),
                None => (a.experiment_name, String::new(), None),
            },
            None => (String::from_str("my-experiment"), String::new(), None),
        };
        Some(
            SlurmConfig {
                experiment_name,
                partition,
                array_size_limit: None,
                max_submit: None,
                account,
                begin: None,
                mail_type: None,
                mail_user: None,
                additional_args: None,
            },
        )
    } else {
        None
    };
    Config {
        output_path,
        metrics_path,
        experiments_folder,
        programs: Vec::new(),
        postprocess_programs: None,
        inputs: Vec::new(),
        slurm: slurm_config,
        resource_limits: None,
        wrapper: String::new(),
        warn_on_label_overlap: false,
    }
}

/// Whether a path is relative: it does not start with `/`.
pub open spec fn is_relative(p: Seq<char>) -> bool {
    p.len() == 0 || p[0] != '/'
}

/// The folders of a new setup to create inside its directory: the output,
/// metrics and experiments folders, in this order, those that are relative.
pub fn folders_to_create(config: &Config) -> (r: Vec<String>)
    ensures
        r@.map_values(|s: String| s@) == seq![config.output_path@, config.metrics_path@, config.experiments_folder@].filter(
            |p: Seq<char>| is_relative(p),
        ),
{
    let mut r: Vec<String> = Vec::new();
    let ghost all = seq![config.output_path@, config.metrics_path@, config.experiments_folder@];
    let o = config.output_path.as_str();
    if o.unicode_len() == 0 || o.get_char(0) != '/' {
        r.push(config.output_path.clone());
    }
    let m = config.metrics_path.as_str();
    if m.unicode_len() == 0 || m.get_char(0) != '/' {
        r.push(config.metrics_path.clone());
    }
    let e = config.experiments_folder.as_str();
    if e.unicode_len() == 0 || e.get_char(0) != '/' {
        r.push(config.experiments_folder.clone());
    }
    proof {
        reveal_with_fuel(Seq::filter, 4);
        assert(all.take(0) =~= Seq::<Seq<char>>::empty());
        assert(all.drop_last().drop_last().drop_last() =~= Seq::<Seq<char>>::empty());
        assert(all.drop_last().drop_last() =~= seq![config.output_path@]);
        assert(all.drop_last() =~= seq![config.output_path@, config.metrics_path@]);
        assert(r@.map_values(|s: String| s@) =~= all.filter(|p: Seq<char>| is_relative(p)));
    }
    r
}

} // verus!

verus! {

/// Reading an example id twice changes nothing more than reading it once:
/// an id that is already an example's id names that example.
pub proof fn lemma_example_id_stable(input: Seq<char>)
    ensures
        example_id(example_id(input)) == example_id(input),
{
    assert(example_id(example_id(input)) =~= example_id(input));
}

} // verus!
