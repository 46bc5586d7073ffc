//! The domain model: a decoded "problem parsed" payload, the batch
//! descriptor that groups problems, and the per-problem dump outcome that
//! the notifier accumulates.

use vstd::prelude::*;

verus! {

/// One problem's test case: an input text and the expected answer text.
#[derive(Debug, Clone)]
pub struct Testcase {
    pub input: String,
    pub output: String,
}

/// How the problem supplies its input.
#[derive(Debug, Clone)]
pub struct InputDesc {
    pub kind: String,
    pub file_name: Option<String>,
    pub pattern: Option<String>,
}

/// How the problem expects its output.
#[derive(Debug, Clone)]
pub struct OutputDesc {
    pub kind: String,
    pub file_name: Option<String>,
}

/// Java-specific class names carried by some payloads.
#[derive(Debug, Clone)]
pub struct JavaLangSetting {
    pub main_class: String,
    pub task_class: String,
}

/// Per-language settings carried by some payloads.
#[derive(Debug, Clone)]
pub struct LangSettings {
    pub java: Option<JavaLangSetting>,
}

/// Identifies a logical batch (one contest, typically) and how many
/// problem outcomes it will contain. Supplied by the upstream payload.
#[derive(Debug, Clone)]
pub struct BatchDesc {
    pub id: String,
    pub size: u64,
}

/// One decoded "problem parsed" payload.
#[derive(Debug, Clone)]
pub struct ParseResult {
    pub name: String,
    pub group: String,
    pub url: String,
    pub interactive: Option<bool>,
    pub memory_limit: i64,
    pub time_limit: i64,
    pub tests: Vec<Testcase>,
    pub test_type: String,
    pub input: InputDesc,
    pub output: OutputDesc,
    pub languages: Option<LangSettings>,
    pub batch: BatchDesc,
}

/// The outcome of one problem's dump attempt. `code` present means the dump
/// succeeded and names the resolved subdirectory; `ctx` is the resolved
/// batch-context path, present only when resolution succeeded.
#[derive(Debug, Clone)]
pub struct BatchDumpRes {
    pub batch: BatchDesc,
    pub group: String,
    pub code: Option<String>,
    pub ctx: Option<String>,
}

impl BatchDumpRes {
    /// Builds the outcome record that a dump attempt reports: a successful
    /// dump hands over its resolved subdirectory and context path, a failed
    /// one reports neither.
    pub fn new(batch: BatchDesc, group: String, dump: Option<(String, String)>) -> (r: Self)
        ensures
            r.batch == batch,
            r.group == group,
            match dump {
                Some(p) => r.code == Some(p.0) && r.ctx == Some(p.1),
                None => r.code is None && r.ctx is None,
            },
    {
        match dump {
            Some(p) => BatchDumpRes { batch, group, code: Some(p.0), ctx: Some(p.1) },
            None => BatchDumpRes { batch, group, code: None, ctx: None },
        }
    }
}

impl Default for Testcase {
    fn default() -> (d: Self)
        ensures
            d.input@ == Seq::<char>::empty(),
            d.output@ == Seq::<char>::empty(),
    {
        Testcase { input: String::new(), output: String::new() }
    }
}

impl Default for InputDesc {
    fn default() -> (d: Self)
        ensures
            d.kind@ == Seq::<char>::empty(),
            d.file_name is None,
            d.pattern is None,
    {
        InputDesc { kind: String::new(), file_name: None, pattern: None }
    }
}

impl Default for OutputDesc {
    fn default() -> (d: Self)
        ensures
            d.kind@ == Seq::<char>::empty(),
            d.file_name is None,
    {
        OutputDesc { kind: String::new(), file_name: None }
    }
}

impl Default for JavaLangSetting {
    fn default() -> (d: Self)
        ensures
            d.main_class@ == Seq::<char>::empty(),
            d.task_class@ == Seq::<char>::empty(),
    {
        JavaLangSetting { main_class: String::new(), task_class: String::new() }
    }
}

impl Default for LangSettings {
    fn default() -> (d: Self)
        ensures
            d.java is None,
    {
        LangSettings { java: None }
    }
}

impl Default for BatchDesc {
    fn default() -> (d: Self)
        ensures
            d.id@ == Seq::<char>::empty(),
            d.size == 0,
    {
        BatchDesc { id: String::new(), size: 0 }
    }
}

impl Default for ParseResult {
    fn default() -> (d: Self)
        ensures
            d.name@ == Seq::<char>::empty(),
            d.group@ == Seq::<char>::empty(),
            d.url@ == Seq::<char>::empty(),
            d.interactive is None,
            d.memory_limit == 0,
            d.time_limit == 0,
            d.tests@.len() == 0,
            d.test_type@ == Seq::<char>::empty(),
            d.input.kind@ == Seq::<char>::empty(),
            d.input.file_name is None,
            d.input.pattern is None,
            d.output.kind@ == Seq::<char>::empty(),
            d.output.file_name is None,
            d.languages is None,
            d.batch.id@ == Seq::<char>::empty(),
            d.batch.size == 0,
    {
        ParseResult {
            name: String::new(),
            group: String::new(),
            url: String::new(),
            interactive: None,
            memory_limit: 0,
            time_limit: 0,
            tests: Vec::new(),
            test_type: String::new(),
            input: InputDesc::default(),
            output: OutputDesc::default(),
            languages: None,
            batch: BatchDesc::default(),
        }
    }
}

} // verus!
