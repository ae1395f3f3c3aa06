//! The command-line arguments and their consistency rules.
use vstd::prelude::*;
use crate::filter::FilterOptions;

verus! {

/// Command-line arguments.
#[derive(Debug)]
pub struct Args {
    /// Serve the tool protocol on standard input and output.
    pub mcp_stdio: bool,
    /// Serve the tool protocol over HTTP.
    pub mcp_http: bool,
    /// Port of the HTTP server.
    pub port: u16,
    /// File or folder to scan; the base path in server mode.
    pub path: Option<String>,
    pub command: Option<Commands>,
}

#[derive(Debug)]
pub enum Commands {
    /// Extract and filter tasks.
    Tasks(Box<TasksCommand>),
    /// Extract all unique tags.
    Tags { path: String },
}

/// Arguments of the `tasks` command.
#[derive(Debug)]
pub struct TasksCommand {
    pub path: String,
    pub status: Option<String>,
    pub due_on: Option<String>,
    pub due_before: Option<String>,
    pub due_after: Option<String>,
    pub completed_on: Option<String>,
    pub completed_before: Option<String>,
    pub completed_after: Option<String>,
    pub tags: Option<Vec<String>>,
    pub exclude_tags: Option<Vec<String>>,
}

/// Why a set of arguments is refused.
#[derive(Debug, Clone, Copy, PartialEq, Eq, Structural)]
pub enum ArgsError {
    BothServerModes,
    MissingCommand,
}

impl ArgsError {
    pub fn message(&self) -> (r: &'static str) {
        match self {
            ArgsError::BothServerModes => "Cannot use both --mcp-stdio and --mcp-http at the same time",
            ArgsError::MissingCommand => "A subcommand is required. Use 'tasks' or 'tags'.",
        }
    }
}

pub open spec fn dot() -> Seq<char> {
    seq!['.']
}

impl Args {
    /// At most one server mode, and a command when no server mode is chosen.
    pub fn validate(&self) -> (r: Result<(), ArgsError>)
        ensures
            self.mcp_stdio && self.mcp_http ==> r == Err::<(), ArgsError>(ArgsError::BothServerModes),
            !(self.mcp_stdio && self.mcp_http) && !self.mcp_stdio && !self.mcp_http
                && self.command is None ==> r == Err::<(), ArgsError>(ArgsError::MissingCommand),
            r is Ok <==> !(self.mcp_stdio && self.mcp_http) && (self.mcp_stdio || self.mcp_http
                || self.command is Some),
    {
        if self.mcp_stdio && self.mcp_http {
            return Err(ArgsError::BothServerModes);
        }
        if !self.mcp_stdio && !self.mcp_http && self.command.is_none() {
            return Err(ArgsError::MissingCommand);
        }
        Ok(())
    }

    /// The base path of server mode: the given path, or `.`; in command mode `.`.
    pub fn get_base_path(&self) -> (r: String)
        ensures
            (self.mcp_stdio || self.mcp_http) && self.path is Some ==> r@ == self.path->0@,
            !((self.mcp_stdio || self.mcp_http) && self.path is Some) ==> r@ == dot(),
    {
        if self.mcp_stdio || self.mcp_http {
            if let Some(p) = &self.path {
                return p.clone();
            }
        }
        let d = vec!['.'];
        assert(d@ =~= dot());
        crate::text::string_of(&d)
    }
}

fn copy_opt(o: &Option<String>) -> (r: Option<String>)
    ensures
        crate::task::opt_view(r) == crate::task::opt_view(*o),
{
    match o {
        Some(s) => Some(s.clone()),
        None => None,
    }
}

fn copy_list(o: &Option<Vec<String>>) -> (r: Option<Vec<String>>)
    ensures
        r is Some <==> o is Some,
        r is Some ==> crate::text::string_views(r->0@) == crate::text::string_views(o->0@),
{
    match o {
        Some(v) => {
            let mut out: Vec<String> = Vec::new();
            let mut k: usize = 0;
            while k < v.len()
                invariant
                    k <= v@.len(),
                    crate::text::string_views(out@) == crate::text::string_views(v@).take(k as int),
                decreases v@.len() - k,
            {
                let ghost before = crate::text::string_views(out@);
                let s = v[k].clone();
                out.push(s);
                proof {
                    assert(crate::text::string_views(out@) =~= before.push(v@[k as int]@));
                    assert(crate::text::string_views(out@) =~= crate::text::string_views(v@).take(k + 1));
                }
                k = k + 1;
            }
            proof {
                assert(crate::text::string_views(v@).take(k as int) =~= crate::text::string_views(v@));
            }
            Some(out)
        },
        None => None,
    }
}

impl TasksCommand {
    /// The filter criteria these arguments name.
    pub fn filter_options(&self) -> (r: FilterOptions)
        ensures
            crate::task::opt_view(r.status) == crate::task::opt_view(self.status),
            crate::task::opt_view(r.due_on) == crate::task::opt_view(self.due_on),
            crate::task::opt_view(r.due_before) == crate::task::opt_view(self.due_before),
            crate::task::opt_view(r.due_after) == crate::task::opt_view(self.due_after),
            crate::task::opt_view(r.completed_on) == crate::task::opt_view(self.completed_on),
            crate::task::opt_view(r.completed_before) == crate::task::opt_view(self.completed_before),
            crate::task::opt_view(r.completed_after) == crate::task::opt_view(self.completed_after),
            r.tags is Some <==> self.tags is Some,
            r.tags is Some ==> crate::text::string_views(r.tags->0@) == crate::text::string_views(self.tags->0@),
            r.exclude_tags is Some <==> self.exclude_tags is Some,
            r.exclude_tags is Some ==> crate::text::string_views(r.exclude_tags->0@) == crate::text::string_views(self.exclude_tags->0@),
    {
        FilterOptions {
            status: copy_opt(&self.status),
            due_on: copy_opt(&self.due_on),
            due_before: copy_opt(&self.due_before),
            due_after: copy_opt(&self.due_after),
            completed_on: copy_opt(&self.completed_on),
            completed_before: copy_opt(&self.completed_before),
            completed_after: copy_opt(&self.completed_after),
            tags: copy_list(&self.tags),
            exclude_tags: copy_list(&self.exclude_tags),
        }
    }
}

} // verus!
