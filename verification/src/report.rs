//! The settings of a search from the command line and what to show of its
//! result.

use vstd::prelude::*;

verus! {

/// How to reach the chain node.
#[derive(Debug)]
pub struct HttpConfig {
    pub rpc_url: String,
    pub ipc_path: Option<String>,
}

impl Clone for HttpConfig {
    fn clone(&self) -> (r: Self)
        ensures
            r == *self,
    {
        HttpConfig { rpc_url: self.rpc_url.clone(), ipc_path: self.ipc_path.clone() }
    }
}

/// The settings of one search: the token to start from, the pool that the
/// paths must go through (as text, if any), how many paths to show at most,
/// and the chain node.
#[derive(Debug)]
pub struct Args {
    pub start_token: String,
    pub pool_id: Option<String>,
    pub max_paths: usize,
    pub http_config: HttpConfig,
}

impl Clone for Args {
    fn clone(&self) -> (r: Self)
        ensures
            r == *self,
    {
        Args {
            start_token: self.start_token.clone(),
            pool_id: self.pool_id.clone(),
            max_paths: self.max_paths,
            http_config: self.http_config.clone(),
        }
    }
}

/// How many of the paths found are shown and how many are only counted.
#[derive(Clone, Copy, Debug, PartialEq, Eq, Structural)]
pub struct DisplayPlan {
    pub shown: usize,
    pub hidden: usize,
}

impl Args {
    /// What to show of `found` paths: the first `max_paths` of them, and the
    /// number of the rest.
    pub fn display_plan(&self, found: usize) -> (d: DisplayPlan)
        ensures
            d.shown == if found <= self.max_paths {
                found
            } else {
                self.max_paths
            },
            d.shown + d.hidden == found,
    {
        if found <= self.max_paths {
            DisplayPlan { shown: found, hidden: 0 }
        } else {
            DisplayPlan { shown: self.max_paths, hidden: found - self.max_paths }
        }
    }
}

} // verus!
