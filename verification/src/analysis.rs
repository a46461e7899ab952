//! The entry point: scope tree, escape analysis and verdict in one call.
use vstd::prelude::*;
use crate::ast::{AnalysisError, FunctionAst};
use crate::escape::{find_escapes, Finding};
use crate::report::{verdict_of, Verdict};
use crate::scope::{balanced, build_scope_tree, tree_of};

verus! {

/// The function is fit for analysis: its blocks are balanced, and every
/// name used in it denotes a binding that is visible at that point.
pub open spec fn well_formed(f: FunctionAst) -> bool {
    balanced(f) && tree_of(f).resolves_before(f.body@, f.body@.len() as int)
}

/// The dangling references of a well-formed function, in source order.
pub open spec fn findings_of(f: FunctionAst) -> Seq<Finding> {
    tree_of(f).findings(f.body@)
}

/// Analyses one function.
///
/// For a well-formed function the result is `Accepted` if no statement lets
/// a reference escape beyond the life of its referent, and otherwise
/// `Rejected` with one finding for each such statement. Any other input is
/// refused as malformed.
pub fn analyze(f: &FunctionAst) -> (r: Result<Verdict, AnalysisError>)
    ensures
        r is Ok <==> well_formed(*f),
        r matches Ok(v) ==> v.judges(findings_of(*f)),
        r matches Err(e) ==> e == AnalysisError::MalformedInput,
{
    let tree = match build_scope_tree(f) {
        Ok(tree) => tree,
        Err(e) => {
            return Err(e);
        },
    };
    match find_escapes(f, &tree) {
        Ok(found) => Ok(verdict_of(found)),
        Err(e) => Err(e),
    }
}

} // verus!
