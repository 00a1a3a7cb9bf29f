//! Settings of the rust-analyzer proxy component.
use vstd::prelude::*;

verus! {

/// The proxy component; `workspace_path` names the workspace that the
/// language server is started in, the current directory when absent.
#[derive(Debug, Clone, Default)]
pub struct RustAnalyzerProxy {
    pub workspace_path: Option<String>,
}

} // verus!
